//! What a continuous scale is for: it draws its domain along a straight line.
//!
//! The exact values of a scale's four ends fix a straight line. A pixel lies at
//! a value where it lies on that line, up to rounding.
use vstd::arithmetic::power2::lemma2_to64_rest;
use vstd::prelude::*;

use crate::accuracy::{
    amount, distance, least, lemma_amount_of_epsilon, lemma_amount_of_sign, lemma_amount_of_whole,
    lemma_amounts_in_order, lemma_close, lemma_close_scaled, lemma_distance_of_product,
    lemma_distances, lemma_finite_parts, lemma_least_is_small, lemma_minus_accuracy,
    lemma_over_accuracy, lemma_part, lemma_plus_accuracy, lemma_times_accuracy, lemma_triangle,
    roundoff, trip_roundoff,
};
use crate::fits::{
    beyond, lemma_product_fits, lemma_quotient_fits, lemma_sum_fits, lemma_within_more, within,
};
use crate::number::{lemma_format, lemma_from_int_is_finite, Number};
use crate::numerals::ZERO;
use crate::scale::{a_domain_starts_where_its_range_does, a_linear_scale_keeps_order, ScaleModel};

verus! {

impl ScaleModel {
    /// The exact low end of a continuous domain.
    pub open spec fn low(self) -> real {
        match self {
            ScaleModel::Linear { domain_min, .. } => amount(domain_min),
            ScaleModel::Time { domain_min_us, .. } => domain_min_us as real,
            _ => 0 as real,
        }
    }

    /// The exact high end of a continuous domain.
    pub open spec fn high(self) -> real {
        match self {
            ScaleModel::Linear { domain_max, .. } => amount(domain_max),
            ScaleModel::Time { domain_max_us, .. } => domain_max_us as real,
            _ => 0 as real,
        }
    }

    /// The pixels per unit of the domain.
    pub open spec fn slope(self) -> real {
        (amount(self.range_end()) - amount(self.range_start())) / (self.high() - self.low())
    }

    /// The place of a value on the straight line from the low end of the domain
    /// at the start of the range to its high end at the end of the range.
    pub open spec fn straight(self, value: real) -> real {
        amount(self.range_start()) + (value - self.low()) * self.slope()
    }

    /// How far from that line rounding may put a pixel: a tiny part of the
    /// range, of where it starts, and of the pixels that the value and the low
    /// end of the domain amount to.
    pub open spec fn slack(self, value: real) -> real {
        trip_roundoff() * (distance(amount(self.range_start())) + distance(
            amount(self.range_end()) - amount(self.range_start()),
        ) + (distance(value) + distance(self.low())) * distance(self.slope()))
    }

    /// Whether the ends of a linear scale are moderate: none is greater than
    /// two to the 200th.
    pub open spec fn moderate(self) -> bool {
        match self {
            ScaleModel::Linear { domain_min, domain_max, range_start, range_end } => {
                &&& within(domain_min, 200)
                &&& within(domain_max, 200)
                &&& within(range_start, 200)
                &&& within(range_end, 200)
            },
            _ => false,
        }
    }
}

/// Whether a pixel is where a scale draws a value: on the straight line, and
/// finite where value and scale are moderate.
pub open spec fn lies_at(scale: ScaleModel, value: Number, pixel: Number) -> bool {
    scale.regular() && value.is_finite() ==> {
        &&& scale.moderate() && within(value, 200) ==> pixel.is_finite()
        &&& pixel.is_finite() ==> distance(amount(pixel) - scale.straight(amount(value)))
            <= scale.slack(amount(value))
    }
}

/// A quotient of near parts is near.
pub proof fn lemma_slope_near(r: real, way: real, d: real, span: real)
    requires
        distance(r - way) <= roundoff() * distance(r),
        distance(d - span) <= roundoff() * distance(d),
        d != 0 as real,
        span != 0 as real,
    ensures
        distance(r / d - way / span) <= 4 as real * (roundoff() * distance(way / span)),
{
    let u = roundoff();
    let (k, s) = (r / d, way / span);
    assert(k * d == r && s * span == way) by (nonlinear_arith)
        requires
            k == r / d,
            s == way / span,
            d != 0 as real,
            span != 0 as real,
    ;
    assert((k - s) * d == (r - way) + s * (span - d)) by (nonlinear_arith)
        requires
            k * d == r,
            s * span == way,
    ;
    let (ad, asp, ab) = (distance(d), distance(s), distance(span));
    lemma_distance_of_product(k - s, d);
    lemma_distance_of_product(s, span - d);
    lemma_distance_of_product(s, span);
    lemma_distances(r - way, s * (span - d));
    lemma_distances(span, d);
    lemma_distances(d, span);
    lemma_distances(s, span);
    lemma_close(r, way, 0 as real);
    let gap = distance(d - span);
    assert(distance(r - way) <= 2 as real * (u * (asp * ab)));
    assert(ab <= ad + gap) by {
        lemma_triangle(span, d, 0 as real);
        lemma_distances(span, d);
    }
    lemma_part(ad);
    assert(ab <= 2 as real * ad) by {
        assert(u * ad <= ad) by (nonlinear_arith)
            requires
                u * ad * 9007199254740992 as real == ad,
                ad >= 0 as real,
        ;
    }
    let y = asp * ad;
    assert(asp * ab <= y + u * y) by (nonlinear_arith)
        requires
            ab <= ad + gap,
            gap <= u * ad,
            asp >= 0 as real,
            y == asp * ad,
    ;
    assert(asp * gap <= u * y) by (nonlinear_arith)
        requires
            gap <= u * ad,
            asp >= 0 as real,
            y == asp * ad,
    ;
    assert(y >= 0 as real) by (nonlinear_arith)
        requires
            y == asp * ad,
            asp >= 0 as real,
            ad >= 0 as real,
    ;
    let e = u * y;
    lemma_part(y);
    lemma_part(e);
    assert(u * (asp * ab) <= e + u * e) by (nonlinear_arith)
        requires
            asp * ab <= y + u * y,
            u >= 0 as real,
            e == u * y,
    ;
    let m = distance(k - s);
    assert(m * ad <= 4 as real * e);
    assert(ad > 0 as real) by {
        reveal(distance);
    }
    assert(m <= 4 as real * (u * asp)) by (nonlinear_arith)
        requires
            m * ad <= 4 as real * e,
            e == u * y,
            y == asp * ad,
            ad > 0 as real,
    ;
}

/// The steps from a value to its pixel, as exact values of rounded results.
ghost struct Steps {
    v: real,
    low: real,
    origin: real,
    x: real,
    d: real,
    span: real,
    t: real,
    r: real,
    way: real,
    q: real,
    s: real,
    p: real,
}

/// Whether every step is exact up to rounding.
spec fn rounded_steps(i: Steps) -> bool {
    let u = roundoff();
    &&& distance(i.d) >= 1 as real / 4503599627370496 as real
    &&& distance(i.r) >= 1 as real / 4503599627370496 as real
    &&& i.span != 0 as real
    &&& distance(i.origin - i.low) <= u * distance(i.origin)
    &&& distance(i.x - (i.v - i.origin)) <= u * distance(i.x)
    &&& distance(i.d - i.span) <= u * distance(i.d)
    &&& distance(i.r - i.way) <= u * distance(i.r)
    &&& distance(i.t - i.x / i.d) <= u * distance(i.t) + least()
    &&& distance(i.q - i.t * i.r) <= u * distance(i.q) + least()
    &&& distance(i.p - (i.s + i.q)) <= u * distance(i.p)
}

/// Rounded steps lead near the straight line.
proof fn lemma_steps(i: Steps)
    requires
        rounded_steps(i),
    ensures
        ({
            let slope = i.way / i.span;
            distance(i.p - (i.s + (i.v - i.low) * slope)) <= trip_roundoff() * (distance(i.s)
                + distance(i.way) + (distance(i.v) + distance(i.low)) * distance(slope))
        }),
{
    let u = roundoff();
    let h = least();
    let zero = 0 as real;
    let (k, slope) = (i.r / i.d, i.way / i.span);
    lemma_least_is_small();
    lemma_distances(i.d, i.r);
    assert(i.d != zero && i.r != zero) by {
        reveal(distance);
    }
    lemma_slope_near(i.r, i.way, i.d, i.span);
    let m = distance(slope);
    lemma_distances(slope, k);
    // What is lost below the smallest numbers.
    let ar = distance(i.r);
    assert(h * ar <= u * ar && h <= u * ar) by (nonlinear_arith)
        requires
            h > 0 as real,
            h * 324518553658426726783156020576256 as real <= u,
            ar >= 1 as real / 4503599627370496 as real,
    ;
    lemma_close(i.r, i.way, zero);
    let w = distance(i.way);
    lemma_part(ar);
    lemma_part(w);
    lemma_distances(i.way, i.r);
    assert(u * ar <= 2 as real * (u * w)) by (nonlinear_arith)
        requires
            ar <= 2 as real * w + 2 as real * zero,
            u >= 0 as real,
            zero == 0 as real,
    ;
    // The product of the part and the way.
    let big_t = i.t * i.r;
    let big_x = i.x * k;
    assert(i.x / i.d * i.r == big_x) by (nonlinear_arith)
        requires
            big_x == i.x * k,
            k == i.r / i.d,
            i.d != 0 as real,
    ;
    lemma_close_scaled(i.t, i.x / i.d, h, i.r);
    assert(distance(big_t - big_x) <= u * distance(big_t) + 2 as real * (u * w));
    lemma_part(w);
    assert(u * w >= zero) by (nonlinear_arith)
        requires
            w >= 0 as real,
            u >= 0 as real,
            zero == 0 as real,
    ;
    lemma_close(big_t, big_x, 2 as real * (u * w));
    // The way from the origin.
    let from = i.v - i.origin;
    let big_f = from * k;
    lemma_close_scaled(i.x, from, zero, k);
    assert(zero * distance(k) == zero) by (nonlinear_arith)
        requires
            zero == 0 as real,
    ;
    lemma_close(big_x, big_f, zero);
    let ideal = from * slope;
    let af = distance(from);
    assert(big_f - ideal == from * (k - slope)) by (nonlinear_arith)
        requires
            big_f == from * k,
            ideal == from * slope,
    ;
    lemma_distance_of_product(from, k - slope);
    lemma_distance_of_product(from, slope);
    lemma_distances(from, slope);
    let g = distance(k - slope);
    assert(af * g <= 4 as real * (u * (af * m))) by (nonlinear_arith)
        requires
            g <= 4 as real * (u * m),
            af >= 0 as real,
    ;
    // From the origin to the low end.
    let (av, al) = (distance(i.v), distance(i.low));
    let ao = distance(i.origin);
    lemma_close(i.origin, i.low, zero);
    lemma_distances(i.v, i.origin);
    lemma_distances(i.v, i.low);
    let target = (i.v - i.low) * slope;
    assert(ideal - target == (i.low - i.origin) * slope) by (nonlinear_arith)
        requires
            ideal == from * slope,
            target == (i.v - i.low) * slope,
            from == i.v - i.origin,
    ;
    lemma_distance_of_product(i.low - i.origin, slope);
    lemma_distances(i.low, i.origin);
    let lost = distance(i.low - i.origin);
    lemma_distances(i.low - i.origin, slope);
    let whole = (av + al) * m;
    assert(lost * m <= 2 as real * (u * whole)) by (nonlinear_arith)
        requires
            lost <= 2 as real * (u * al) + 2 as real * zero,
            zero == 0 as real,
            m >= 0 as real,
            whole == (av + al) * m,
            av >= 0 as real,
            al >= 0 as real,
            u >= 0 as real,
    ;
    assert(af * m <= 2 as real * whole) by (nonlinear_arith)
        requires
            af <= av + ao,
            ao <= 2 as real * al + 2 as real * zero,
            zero == 0 as real,
            m >= 0 as real,
            whole == (av + al) * m,
            av >= 0 as real,
    ;
    assert(u * (af * m) <= 2 as real * (u * whole)) by (nonlinear_arith)
        requires
            af * m <= 2 as real * whole,
            u >= 0 as real,
    ;
    assert(whole >= zero) by (nonlinear_arith)
        requires
            whole == (av + al) * m,
            av >= 0 as real,
            al >= 0 as real,
            m >= 0 as real,
            zero == 0 as real,
    ;
    lemma_add(i, big_t, big_x, big_f, ideal, target, whole);
}

/// The errors of the steps, added up.
proof fn lemma_add(
    i: Steps,
    t: real,
    x: real,
    f: real,
    ideal: real,
    target: real,
    whole: real,
)
    requires
        ({
            let u = roundoff();
            let two = 2 as real;
            let e = u * distance(i.way);
            &&& whole >= 0 as real
            &&& distance(i.way) >= 0 as real
            &&& distance(i.p - (i.s + i.q)) <= u * distance(i.p)
            &&& distance(i.q - t) <= u * distance(i.q) + two * e
            &&& distance(t - x) <= two * (u * distance(x)) + 4 as real * e
            &&& distance(t) <= two * distance(x) + 4 as real * e
            &&& distance(x - f) <= two * (u * distance(f))
            &&& distance(x) <= two * distance(f)
            &&& distance(f - ideal) <= 8 as real * (u * whole)
            &&& distance(ideal) <= two * whole
            &&& distance(ideal - target) <= two * (u * whole)
        }),
    ensures
        distance(i.p - (i.s + target)) <= trip_roundoff() * (distance(i.s) + distance(i.way)
            + whole),
{
    let u = roundoff();
    let w = distance(i.way);
    let e = u * w;
    let sum = distance(i.s) + w + whole;
    lemma_part(w);
    lemma_part(whole);
    lemma_part(distance(x));
    lemma_part(distance(f));
    lemma_part(distance(t));
    lemma_part(distance(i.q));
    lemma_part(distance(i.p));
    lemma_part(distance(i.s));
    lemma_distances(i.s, i.q);
    lemma_distances(t, x);
    lemma_distances(f, ideal);
    lemma_distances(i.p, target);
    lemma_triangle(f, ideal, 0 as real);
    lemma_triangle(i.q, t, 0 as real);
    lemma_triangle(i.p, i.s + i.q, 0 as real);
    lemma_triangle(i.p, i.s + i.q, i.s + target);
    lemma_triangle(i.s + i.q, i.s + t, i.s + target);
    lemma_triangle(i.s + t, i.s + x, i.s + target);
    lemma_triangle(i.s + x, i.s + f, i.s + target);
    lemma_triangle(i.s + f, i.s + ideal, i.s + target);
    assert((i.s + i.q) - (i.s + t) == i.q - t);
    assert((i.s + t) - (i.s + x) == t - x);
    assert((i.s + x) - (i.s + f) == x - f);
    assert((i.s + f) - (i.s + ideal) == f - ideal);
    assert((i.s + ideal) - (i.s + target) == ideal - target);
    assert(distance(f) <= 3 as real * whole) by {
        lemma_distances(ideal, f);
    }
    assert(distance(x) <= 6 as real * whole);
    assert(distance(t) <= 12 as real * whole + w);
    lemma_distances(i.q, i.s + i.q);
    assert(distance(i.q) <= 25 as real * whole + 3 as real * w);
    lemma_distances(i.s + i.q, i.p);
    assert(distance(i.p) <= 2 as real * distance(i.s) + 50 as real * whole + 6 as real * w);
    assert(trip_roundoff() * sum * 17592186044416 as real == sum) by (nonlinear_arith)
        requires
            trip_roundoff() == 1 as real / 17592186044416 as real,
    ;
}

/// A scale draws its domain along a straight line: a value lies at its pixel.
pub proof fn a_scale_draws_a_straight_line(scale: ScaleModel, value: Number)
    ensures
        lies_at(scale, value, scale.map_f64(value)),
{
    if scale.regular() && value.is_finite() {
        if scale.moderate() && within(value, 200) {
            lemma_stays_finite(scale, value);
        }
        let pixel = scale.map_f64(value);
        if pixel.is_finite() {
            let (a, d, s, r) = (scale.origin(), scale.span(), scale.range_start(), scale.way());
            let x = value.minus(a);
            let t = x.over(d);
            let q = t.times(r);
            assert(pixel == s.plus(q));
            lemma_amount_of_epsilon(d);
            lemma_amount_of_epsilon(r);
            lemma_finite_parts(q, s);
            lemma_finite_parts(t, r);
            lemma_finite_parts(x, d);
            lemma_finite_parts(scale.range_end(), s);
            lemma_minus_accuracy(value, a);
            lemma_minus_accuracy(scale.range_end(), s);
            lemma_over_accuracy(x, d);
            lemma_times_accuracy(t, r);
            lemma_plus_accuracy(s, q);
            lemma_ends(scale);
            lemma_steps(
                Steps {
                    v: amount(value),
                    low: scale.low(),
                    origin: amount(a),
                    x: amount(x),
                    d: amount(d),
                    span: scale.high() - scale.low(),
                    t: amount(t),
                    r: amount(r),
                    way: amount(scale.range_end()) - amount(s),
                    q: amount(q),
                    s: amount(s),
                    p: amount(pixel),
                },
            );
        }
    }
}

/// The ends of a domain and how far it reaches, up to rounding.
proof fn lemma_ends(scale: ScaleModel)
    requires
        scale.regular(),
    ensures
        distance(amount(scale.origin()) - scale.low()) <= roundoff() * distance(
            amount(scale.origin()),
        ),
        distance(amount(scale.span()) - (scale.high() - scale.low())) <= roundoff() * distance(
            amount(scale.span()),
        ),
        scale.high() - scale.low() != 0 as real,
{
    lemma_amount_of_epsilon(scale.span());
    match scale {
        ScaleModel::Linear { domain_min, domain_max, .. } => {
            lemma_finite_parts(domain_max, domain_min);
            lemma_minus_accuracy(domain_max, domain_min);
            lemma_part(distance(amount(domain_min)));
            lemma_distances(amount(domain_min), 0 as real);
            reveal(distance);
        },
        ScaleModel::Time { domain_min_us, domain_max_us, .. } => {
            lemma_from_int_is_finite(domain_min_us as int);
            lemma_from_int_is_finite(domain_max_us - domain_min_us);
            lemma_amount_of_whole(domain_min_us as int);
            lemma_amount_of_whole(domain_max_us - domain_min_us);
        },
        _ => {},
    }
    let d = amount(scale.span());
    lemma_part(distance(d));
    reveal(distance);
}

/// What is positive has no sign.
proof fn lemma_positive(x: Number)
    requires
        x.is_finite(),
        amount(x) > 0 as real,
    ensures
        !x.negative(),
        x.magnitude() != 0,
{
    let zero = Number::from_bits(ZERO);
    lemma_format();
    lemma_amount_of_sign(zero);
    lemma_amounts_in_order(zero, x);
}

/// Moderate values are drawn at finite pixels.
proof fn lemma_stays_finite(scale: ScaleModel, value: Number)
    requires
        scale.regular(),
        scale.moderate(),
        within(value, 200),
    ensures
        scale.map_f64(value).is_finite(),
{
    let (low, high) = (scale->Linear_domain_min, scale->Linear_domain_max);
    let (start, end) = (scale->Linear_range_start, scale->Linear_range_end);
    let (d, r) = (scale.span(), scale.way());
    let x = value.minus(low);
    lemma_sum_fits(value, low, 200);
    lemma_sum_fits(end, start, 200);
    lemma_amount_of_epsilon(d);
    lemma2_to64_rest();
    assert(beyond(d, 52));
    lemma_quotient_fits(x, d, 201, 52);
    lemma_product_fits(x.over(d), r, 253, 201);
    lemma_within_more(start, 200, 454);
    lemma_sum_fits(start, x.over(d).times(r), 454);
}

/// What lies in the domain of a linear scale is drawn between the pixels of the
/// domain's ends: the low end at the start of the range, and the high end at its
/// end up to rounding.
pub proof fn inside_the_domain_is_inside_the_range(scale: ScaleModel, value: Number)
    requires
        scale.regular(),
        scale is Linear,
        value.is_finite(),
        scale.low() <= amount(value) <= scale.high(),
    ensures
        ({
            let pixel = scale.map_f64(value);
            let start = scale->Linear_range_start;
            let last = scale.map_f64(scale->Linear_domain_max);
            &&& start.le(pixel) && pixel.le(last) || last.le(pixel) && pixel.le(start)
            &&& lies_at(scale, scale->Linear_domain_max, last)
        }),
{
    let (low, high) = (scale->Linear_domain_min, scale->Linear_domain_max);
    let (d, r) = (scale.span(), scale.way());
    lemma_amount_of_epsilon(d);
    lemma_amount_of_epsilon(r);
    lemma_ends(scale);
    lemma_finite_parts(high, low);
    lemma_amounts_in_order(low, value);
    lemma_amounts_in_order(value, high);
    lemma_amounts_in_order(low, high);
    lemma_part(distance(amount(d)));
    assert(amount(d) > 0 as real) by {
        reveal(distance);
    }
    lemma_positive(d);
    a_linear_scale_keeps_order(scale, low, value);
    a_linear_scale_keeps_order(scale, value, high);
    a_domain_starts_where_its_range_does(scale);
    a_scale_draws_a_straight_line(scale, high);
}

} // verus!
