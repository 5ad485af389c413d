//! How an aspect fit settles: fitting a box that was fitted moves nothing, up
//! to rounding.
use vstd::arithmetic::power2::{
    lemma2_to64, lemma2_to64_rest, lemma_pow2_adds, lemma_pow2_pos, pow2,
};
use vstd::prelude::*;

use crate::accuracy::{
    amount, distance, least, lemma_amount_of_parts, lemma_amount_of_sign, lemma_amounts_in_order,
    lemma_distances, lemma_least_is_small, lemma_minus_accuracy, lemma_over_accuracy, lemma_part,
    lemma_plus_accuracy, lemma_triangle, roundoff,
};
use crate::bounds::lemma_half_keeps_order;
use crate::channel::{Channel, ChannelMap};
use crate::dot::{domain_box, squared_slot};
use crate::drawing::Rect;
use crate::geo::fitted;
use crate::infer::Range;
use crate::nearness::{
    around, lemma_around_back, lemma_around_chain, lemma_around_double, lemma_around_more,
    lemma_around_share, lemma_rounded_around,
};
use crate::number::{
    lemma_format, lemma_worth_of_power, worth, Number, DEPTH, FRACTIONS, INFINITE, WIDTH,
};
use crate::numerals::{BILLIONTH, TWO};
use crate::rounding::lemma_units_increase;
use crate::scale::ScaleModel;

verus! {

/// The steps of a fit along one axis, as exact values of rounded results: from
/// the ends `lo` and `hi` the difference `gap`, the span `span` that is at least
/// `tiny`, the pixels per unit of this axis and of the fit, the pixel length
/// `room`, the fitted length and its half, the centre, and the new ends.
pub ghost struct AxisFit {
    pub lo: real,
    pub hi: real,
    pub gap: real,
    pub tiny: real,
    pub span: real,
    pub room: real,
    pub own: real,
    pub per: real,
    pub length: real,
    pub half: real,
    pub centre: real,
    pub start: real,
    pub end: real,
}

/// Whether every step is exact up to rounding.
pub open spec fn fitted_steps(f: AxisFit) -> bool {
    let u = roundoff();
    &&& 0 as real <= least() <= u * f.tiny
    &&& distance(f.gap - (f.hi - f.lo)) <= u * distance(f.gap)
    &&& f.span == if f.gap < f.tiny {
        f.tiny
    } else {
        f.gap
    }
    &&& f.tiny > 0 as real
    &&& f.room > 0 as real
    &&& around(f.own, f.room / f.span, 4 as real * u)
    &&& f.per > 0 as real
    &&& f.per <= f.own
    &&& around(f.length, f.room / f.per, 4 as real * u)
    &&& around(f.half, f.length / 2 as real, 4 as real * u)
    &&& distance(f.centre - (f.lo + f.hi) / 2 as real) <= 3 as real * (u * distance(f.centre))
        + 2 as real * least()
    &&& distance(f.start - (f.centre - f.half)) <= u * distance(f.start)
    &&& distance(f.end - (f.centre + f.half)) <= u * distance(f.end)
}

/// Whether the new ends keep their distance: it is not below their size by
/// more than `bound`.
pub open spec fn well_apart(f: AxisFit, bound: real) -> bool {
    &&& f.end > f.start
    &&& distance(f.start) + distance(f.end) <= bound * (f.end - f.start)
}

/// A part of rounding, `bound` times.
proof fn lemma_loss(bound: real, x: real)
    requires
        x >= 0 as real,
    ensures
        roundoff() * (bound * x) == roundoff() * bound * x,
        (roundoff() * bound) * x >= 0 as real || bound < 0 as real,
{
    let u = roundoff();
    assert(u * (bound * x) == u * bound * x) by (nonlinear_arith);
    assert(u * bound * x >= 0 as real || bound < 0 as real) by (nonlinear_arith)
        requires
            x >= 0 as real,
            u >= 0 as real,
    ;
}

/// After a fit the new length is near the room over the pixels per unit, the
/// centre is near the middle, and the old ends lie hardly outside.
proof fn lemma_fit_is_near(f: AxisFit, bound: real)
    requires
        fitted_steps(f),
        well_apart(f, bound),
        1 as real <= bound <= 4294967296 as real,
        f.lo <= f.hi,
    ensures
        ({
            let q = roundoff() * bound;
            let a = f.end - f.start;
            &&& around(a, f.room / f.per, 36 as real * q)
            &&& around(2 as real * f.half, a, q)
            &&& distance(f.centre - (f.start + f.end) / 2 as real) <= q * a
            &&& f.start - f.lo <= 64 as real * (q * a)
            &&& f.hi - f.end <= 64 as real * (q * a)
            &&& f.tiny <= (1 as real + 16 as real * roundoff()) * (f.room / f.per)
        }),
{
    let u = roundoff();
    let q = u * bound;
    let a = f.end - f.start;
    let s = f.room / f.per;
    let z = q * a;
    lemma_loss(bound, a);
    lemma_part(bound);
    assert(u <= q) by (nonlinear_arith)
        requires
            q == u * bound,
            bound >= 1 as real,
            u >= 0 as real,
    ;
    // The new ends lose less than a part of their distance.
    lemma_part(distance(f.start));
    lemma_part(distance(f.end));
    let (m, n) = (distance(f.start), distance(f.end));
    assert(u * m + u * n <= z) by (nonlinear_arith)
        requires
            m + n <= bound * a,
            z == u * bound * a,
            u >= 0 as real,
    ;
    lemma_distances(f.start, f.end);
    lemma_distances(f.centre, f.half);
    assert(around(2 as real * f.half, a, q) && distance(f.centre - (f.start + f.end) / 2 as real)
        <= z) by {
        reveal(distance);
        assert(u * m >= 0 as real && u * n >= 0 as real) by (nonlinear_arith)
            requires
                u >= 0 as real,
                m >= 0 as real,
                n >= 0 as real,
        ;
    }
    // The length.
    lemma_around_back(2 as real * f.half, a, q);
    lemma_around_double(f.half, f.length, 4 as real * u);
    lemma_around_chain(2 as real * f.half, f.length, s, 4 as real * u, 4 as real * u);
    lemma_around_chain(a, 2 as real * f.half, s, 2 as real * q, 16 as real * u);
    lemma_around_more(a, s, 2 as real * (2 as real * q + 16 as real * u), 36 as real * q);
    // The span that was asked for.
    let wanted = f.room / f.own;
    assert(wanted <= s) by (nonlinear_arith)
        requires
            wanted == f.room / f.own,
            s == f.room / f.per,
            f.room > 0 as real,
            f.per > 0 as real,
            f.per <= f.own,
    ;
    lemma_around_share(f.room, f.own, f.room / f.span, 4 as real * u);
    assert(f.room / (f.room / f.span) == f.span) by (nonlinear_arith)
        requires
            f.room > 0 as real,
            f.span > 0 as real,
    ;
    assert(f.span <= (1 as real + 16 as real * u) * wanted) by (nonlinear_arith)
        requires
            f.span - wanted <= 2 as real * (4 as real * u) * f.span,
            f.span > 0 as real,
            0 as real <= u <= 1 as real / 1024 as real,
    ;
    assert((1 as real + 16 as real * u) * wanted <= (1 as real + 16 as real * u) * s)
        by (nonlinear_arith)
        requires
            wanted <= s,
            u >= 0 as real,
    ;
    lemma_old_ends(f, bound);
}

/// The old ends lie hardly outside the new ones.
proof fn lemma_old_ends(f: AxisFit, bound: real)
    requires
        fitted_steps(f),
        well_apart(f, bound),
        1 as real <= bound <= 4294967296 as real,
        f.lo <= f.hi,
        ({
            let u = roundoff();
            let q = u * bound;
            let a = f.end - f.start;
            let s = f.room / f.per;
            &&& around(a, s, 36 as real * q)
            &&& around(2 as real * f.half, a, q)
            &&& f.span <= (1 as real + 16 as real * u) * s
            &&& distance(f.centre - (f.start + f.end) / 2 as real) <= q * a
        }),
    ensures
        f.start - f.lo <= 64 as real * (roundoff() * bound * (f.end - f.start)),
        f.hi - f.end <= 64 as real * (roundoff() * bound * (f.end - f.start)),
{
    let u = roundoff();
    let q = u * bound;
    let a = f.end - f.start;
    let s = f.room / f.per;
    let z = q * a;
    lemma_part(bound);
    lemma_part(a);
    assert(u <= q) by (nonlinear_arith)
        requires
            q == u * bound,
            bound >= 1 as real,
            u >= 0 as real,
    ;
    lemma_around_back(a, s, 36 as real * q);
    assert(72 as real * q * a == 72 as real * z) by (nonlinear_arith)
        requires
            z == q * a,
    ;
    assert(2 as real * (36 as real * q) * a == 72 as real * z) by (nonlinear_arith)
        requires
            z == q * a,
    ;
    let e = u * a;
    assert(e <= z) by (nonlinear_arith)
        requires
            e == u * a,
            z == q * a,
            u <= q,
            a > 0 as real,
    ;
    assert(s <= a + 72 as real * z);
    assert(z <= a / 8192 as real) by (nonlinear_arith)
        requires
            z == q * a,
            q <= 1 as real / 8192 as real,
            a > 0 as real,
    ;
    let span = f.span;
    assert(4 as real * (u * s) <= 5 as real * e) by (nonlinear_arith)
        requires
            4 as real * s <= 5 as real * a,
            e == u * a,
            u >= 0 as real,
    ;
    assert((1 as real + 16 as real * u) * s == s + 16 as real * (u * s)) by (nonlinear_arith);
    assert(span <= a + 92 as real * z);
    // The real gap is hardly more than the span.
    lemma_part(distance(f.gap));
    lemma_part(span);
    assert(4 as real * (u * span) <= 5 as real * e) by (nonlinear_arith)
        requires
            4 as real * span <= 5 as real * a,
            e == u * a,
            u >= 0 as real,
    ;
    let gap = f.hi - f.lo;
    assert(gap <= span + 2 as real * (u * span)) by {
        reveal(distance);
        lemma_part(f.gap);
        lemma_part(gap);
        assert(f.gap >= 0 as real);
        assert(u * f.gap <= u * span) by (nonlinear_arith)
            requires
                f.gap <= span,
                u >= 0 as real,
        ;
    }
    // The centre is near both middles.
    lemma_part(distance(f.centre));
    let (m, n) = (distance(f.start), distance(f.end));
    assert(u * m + u * n <= z) by (nonlinear_arith)
        requires
            m + n <= bound * a,
            z == u * bound * a,
            u >= 0 as real,
    ;
    lemma_part(m);
    lemma_part(n);
    let c = distance(f.centre);
    assert(2 as real * c <= m + n + 2 as real * z) by {
        reveal(distance);
    }
    assert(u * c <= z) by (nonlinear_arith)
        requires
            2 as real * c <= m + n + 2 as real * z,
            u * m + u * n <= z,
            z >= 0 as real,
            0 as real <= u <= 1 as real / 1024 as real,
    ;
    assert(u * f.tiny <= u * span) by (nonlinear_arith)
        requires
            f.tiny <= span,
            u >= 0 as real,
    ;
    reveal(distance);
}

/// Whether a second fit along the axis starts near where the first one ended.
pub open spec fn follows(f: AxisFit, g: AxisFit, bound: real) -> bool {
    let z = roundoff() * bound * (f.end - f.start);
    &&& g.room == f.room
    &&& g.tiny == f.tiny
    &&& distance(g.lo - f.start) <= 64 as real * z
    &&& distance(g.hi - f.end) <= 64 as real * z
}

/// A second fit has nearly the pixels per unit of the first, on its own axis.
proof fn lemma_same_pixels(f: AxisFit, g: AxisFit, bound: real)
    requires
        fitted_steps(f),
        fitted_steps(g),
        well_apart(f, bound),
        follows(f, g, bound),
        1 as real <= bound <= 4294967296 as real,
        f.lo <= f.hi,
    ensures
        around(g.own, f.per, 2408 as real * (roundoff() * bound)),
{
    let u = roundoff();
    let q = u * bound;
    let a = f.end - f.start;
    let s = f.room / f.per;
    let z = q * a;
    lemma_fit_is_near(f, bound);
    lemma_part(bound);
    assert(u <= q) by (nonlinear_arith)
        requires
            q == u * bound,
            bound >= 1 as real,
            u >= 0 as real,
    ;
    // The gap of the second fit.
    let b = g.hi - g.lo;
    assert(128 as real * q * a == 128 as real * z) by (nonlinear_arith)
        requires
            z == q * a,
    ;
    assert(around(b, a, 128 as real * q)) by {
        reveal(distance);
    }
    assert(b > 0 as real) by (nonlinear_arith)
        requires
            a - b <= 128 as real * q * a,
            a > 0 as real,
            128 as real * q <= 1 as real / 4 as real,
    ;
    lemma_part(g.gap);
    lemma_part(b);
    let e = u * b;
    assert(around(g.gap, b, 4 as real * q)) by {
        reveal(distance);
        assert(4 as real * e <= 4 as real * q * b) by (nonlinear_arith)
            requires
                e == u * b,
                u <= q,
                b > 0 as real,
        ;
    }
    lemma_around_chain(g.gap, b, a, 4 as real * q, 128 as real * q);
    lemma_around_chain(g.gap, a, s, 264 as real * q, 36 as real * q);
    assert(around(g.span, s, 600 as real * q)) by {
        let r = 600 as real * q * s;
        assert(16 as real * u * s <= r) by (nonlinear_arith)
            requires
                r == 600 as real * q * s,
                u <= q,
                u >= 0 as real,
                s > 0 as real,
        ;
        assert((1 as real + 16 as real * u) * s == s + 16 as real * u * s) by (nonlinear_arith);
    }
    lemma_around_share(f.room, g.span, s, 600 as real * q);
    assert(f.room / s == f.per) by (nonlinear_arith)
        requires
            s == f.room / f.per,
            f.room > 0 as real,
            f.per > 0 as real,
    ;
    lemma_around_more(g.own, f.room / g.span, 4 as real * u, 4 as real * q);
    lemma_around_chain(g.own, f.room / g.span, f.per, 4 as real * q, 1200 as real * q);
}

/// A second fit leaves the ends where they were, up to rounding.
proof fn lemma_ends_stay(f: AxisFit, g: AxisFit, bound: real)
    requires
        fitted_steps(f),
        fitted_steps(g),
        well_apart(f, bound),
        follows(f, g, bound),
        1 as real <= bound <= 4294967296 as real,
        f.lo <= f.hi,
        around(g.per, f.per, 2408 as real * (roundoff() * bound)),
    ensures
        distance(g.start - f.start) <= 32768 as real * (roundoff() * bound * (f.end - f.start)),
        distance(g.end - f.end) <= 32768 as real * (roundoff() * bound * (f.end - f.start)),
{
    let u = roundoff();
    let q = u * bound;
    let a = f.end - f.start;
    let s = f.room / f.per;
    let z = q * a;
    lemma_fit_is_near(f, bound);
    lemma_part(bound);
    lemma_part(a);
    assert(u <= q) by (nonlinear_arith)
        requires
            q == u * bound,
            bound >= 1 as real,
            u >= 0 as real,
    ;
    // The length of the second fit.
    lemma_around_share(f.room, g.per, f.per, 2408 as real * q);
    lemma_around_more(g.length, f.room / g.per, 4 as real * u, 4 as real * q);
    lemma_around_chain(g.length, f.room / g.per, s, 4 as real * q, 4816 as real * q);
    lemma_around_double(g.half, g.length, 4 as real * u);
    lemma_around_more(2 as real * g.half, g.length, 4 as real * u, 4 as real * q);
    lemma_around_chain(2 as real * g.half, g.length, s, 4 as real * q, 9640 as real * q);
    lemma_around_back(a, s, 36 as real * q);
    lemma_around_chain(2 as real * g.half, s, a, 19288 as real * q, 72 as real * q);
    assert(38720 as real * q * a == 38720 as real * z) by (nonlinear_arith)
        requires
            z == q * a,
    ;
    assert(z <= a / 2097152 as real) by (nonlinear_arith)
        requires
            z == q * a,
            q <= 1 as real / 2097152 as real,
            a > 0 as real,
    ;
    // The centre of the second fit.
    let (m, n) = (distance(f.start), distance(f.end));
    assert(u * m + u * n <= z) by (nonlinear_arith)
        requires
            m + n <= bound * a,
            z == u * bound * a,
            u >= 0 as real,
    ;
    lemma_part(m);
    lemma_part(n);
    let e = u * a;
    assert(e <= z) by (nonlinear_arith)
        requires
            e == u * a,
            z == q * a,
            u <= q,
            a > 0 as real,
    ;
    assert(a <= m + n) by {
        reveal(distance);
    }
    assert(least() <= 2 as real * e) by {
        assert((1 as real + 16 as real * u) * s <= s + s / 64 as real) by (nonlinear_arith)
            requires
                s > 0 as real,
                0 as real <= u <= 1 as real / 1024 as real,
        ;
        assert(2 as real * (36 as real * q) * a == 72 as real * z) by (nonlinear_arith)
            requires
                z == q * a,
        ;
        assert(u * f.tiny <= 2 as real * e) by (nonlinear_arith)
            requires
                f.tiny <= a + a,
                e == u * a,
                u >= 0 as real,
        ;
    }
    let c = distance(g.centre);
    lemma_part(c);
    let middle = (g.lo + g.hi) / 2 as real;
    assert(distance(middle) <= m + n + 64 as real * z) by {
        lemma_middle(g.lo, g.hi, f.start, f.end, 64 as real * z);
    }
    lemma_triangle(g.centre, middle, 0 as real);
    lemma_distances(g.centre, middle);
    assert(c <= 2 as real * (m + n) + 256 as real * z);
    assert(u * c <= 3 as real * z) by (nonlinear_arith)
        requires
            c <= 2 as real * (m + n) + 256 as real * z,
            u * m + u * n <= z,
            z >= 0 as real,
            0 as real <= u <= 1 as real / 1024 as real,
    ;
    // The new ends.
    let (x, y) = (distance(g.start), distance(g.end));
    lemma_part(x);
    lemma_part(y);
    lemma_distances(g.centre, g.half);
    lemma_triangle(g.start, g.centre - g.half, 0 as real);
    lemma_triangle(g.end, g.centre + g.half, 0 as real);
    lemma_distances(g.start, g.centre - g.half);
    lemma_distances(g.end, g.centre + g.half);
    assert(distance(g.half) <= a) by {
        reveal(distance);
    }
    assert(x <= 8 as real * (m + n) && y <= 8 as real * (m + n));
    assert(u * x <= 8 as real * z && u * y <= 8 as real * z) by (nonlinear_arith)
        requires
            x <= 8 as real * (m + n),
            y <= 8 as real * (m + n),
            u * m + u * n <= z,
            u >= 0 as real,
    ;
    lemma_moves(f, g, z);
}

/// The middle of two places is no farther out than what they are near.
proof fn lemma_middle(lo: real, hi: real, start: real, end: real, e: real)
    requires
        distance(lo - start) <= e,
        distance(hi - end) <= e,
    ensures
        distance((lo + hi) / 2 as real) <= distance(start) + distance(end) + e,
{
    reveal(distance);
}

/// The errors of the ends of a second fit, added up.
proof fn lemma_moves(f: AxisFit, g: AxisFit, z: real)
    requires
        z >= 0 as real,
        distance(g.lo - f.start) <= 64 as real * z,
        distance(g.hi - f.end) <= 64 as real * z,
        2 as real * g.half - (f.end - f.start) <= 38720 as real * z,
        (f.end - f.start) - 2 as real * g.half <= 38720 as real * z,
        distance(g.centre - (g.lo + g.hi) / 2 as real) <= 13 as real * z,
        distance(g.start - (g.centre - g.half)) <= 8 as real * z,
        distance(g.end - (g.centre + g.half)) <= 8 as real * z,
    ensures
        distance(g.start - f.start) <= 32768 as real * z,
        distance(g.end - f.end) <= 32768 as real * z,
{
    reveal(distance);
}

/// Where an axis is fitted to: the half length, the centre and the new ends.
pub open spec fn fitted_ends(lo: Number, hi: Number, room: Number, per: Number) -> (Number, Number) {
    let two = Number::from_bits(TWO);
    let half = room.over(per).over(two);
    let centre = lo.plus(hi).over(two);
    (centre.minus(half), centre.plus(half))
}

/// The span of an axis that a fit asks for.
pub open spec fn fit_span(lo: Number, hi: Number) -> Number {
    hi.minus(lo).max(Number::from_bits(BILLIONTH))
}

/// Whether no step of a fit along an axis overflows, and the pixels per unit
/// do not underflow.
pub open spec fn regular_axis(lo: Number, hi: Number, room: Number, per: Number) -> bool {
    &&& lo.is_finite() && hi.is_finite() && hi.minus(lo).is_finite() && lo.plus(hi).is_finite()
    &&& room.is_finite() && Number::from_bits(BILLIONTH).le(room)
    &&& room.over(fit_span(lo, hi)).is_finite()
    &&& 2 * FRACTIONS <= per.bits < INFINITE
    &&& per.le(room.over(fit_span(lo, hi)))
    &&& room.over(per).is_finite()
    &&& fitted_ends(lo, hi, room, per).0.is_finite()
    &&& fitted_ends(lo, hi, room, per).1.is_finite()
}

/// The exact values of the steps of a fit along an axis.
pub open spec fn axis_fit(lo: Number, hi: Number, room: Number, per: Number) -> AxisFit {
    let two = Number::from_bits(TWO);
    AxisFit {
        lo: amount(lo),
        hi: amount(hi),
        gap: amount(hi.minus(lo)),
        tiny: amount(Number::from_bits(BILLIONTH)),
        span: amount(fit_span(lo, hi)),
        room: amount(room),
        own: amount(room.over(fit_span(lo, hi))),
        per: amount(per),
        length: amount(room.over(per)),
        half: amount(room.over(per).over(two)),
        centre: amount(lo.plus(hi).over(two)),
        start: amount(fitted_ends(lo, hi, room, per).0),
        end: amount(fitted_ends(lo, hi, room, per).1),
    }
}

/// A number well above the smallest ones stands above what underflow loses.
pub proof fn lemma_tangible(x: Number)
    requires
        x.is_finite(),
        !x.negative(),
        x.magnitude() >= 2 * FRACTIONS,
    ensures
        amount(x) > 0 as real,
        2 as real * least() <= roundoff() * amount(x),
        x.magnitude() >= 10 * FRACTIONS ==> 512 as real * least() <= roundoff() * amount(x),
{
    let p = pow2(DEPTH as nat) as real;
    let w = worth(x.magnitude());
    lemma_format();
    lemma_pow2_pos(DEPTH as nat);
    lemma_worth_of_power(2);
    lemma_worth_of_power(10);
    lemma2_to64_rest();
    lemma_pow2_adds(53, 8);
    lemma2_to64();
    if x.magnitude() > 2 * FRACTIONS {
        lemma_units_increase(WIDTH as nat, (2 * FRACTIONS) as nat, x.magnitude());
    }
    if x.magnitude() > 10 * FRACTIONS {
        lemma_units_increase(WIDTH as nat, (10 * FRACTIONS) as nat, x.magnitude());
    }
    assert(w >= 9007199254740992);
    let (v, u, h) = (w as real, roundoff(), least());
    assert(v / p > 0 as real && 2 as real * h <= u * (v / p)) by (nonlinear_arith)
        requires
            v >= 9007199254740992 as real,
            u == 1 as real / 9007199254740992 as real,
            h == (1 as real / 2 as real) / p,
            p > 0 as real,
    ;
    if x.magnitude() >= 10 * FRACTIONS {
        assert(512 as real * h <= u * (v / p)) by (nonlinear_arith)
            requires
                v >= 256 as real * 9007199254740992 as real,
                u == 1 as real / 9007199254740992 as real,
                h == (1 as real / 2 as real) / p,
                p > 0 as real,
        ;
    }
}

/// A finite half of a finite whole.
pub proof fn lemma_two()
    ensures
        amount(Number::from_bits(TWO)) == 2 as real,
        Number::from_bits(TWO).is_finite(),
        Number::from_bits(TWO).magnitude() != 0,
{
    lemma_format();
    lemma2_to64_rest();
    let two = Number::from_bits(TWO);
    lemma_amount_of_parts(two, 51);
    assert(pow2(51) == 2251799813685248);
    assert(amount(two) * 2251799813685248 as real == 4503599627370496 as real);
}

/// The steps of a regular fit are exact up to rounding.
proof fn lemma_axis_steps(lo: Number, hi: Number, room: Number, per: Number)
    requires
        regular_axis(lo, hi, room, per),
    ensures
        fitted_steps(axis_fit(lo, hi, room, per)),
{
    let two = Number::from_bits(TWO);
    let tiny = Number::from_bits(BILLIONTH);
    let gap = hi.minus(lo);
    let span = fit_span(lo, hi);
    let own = room.over(span);
    let length = room.over(per);
    let half = length.over(two);
    let sum = lo.plus(hi);
    let centre = sum.over(two);
    let f = axis_fit(lo, hi, room, per);
    let u = roundoff();
    lemma_format();
    lemma_two();
    lemma_least_is_small();
    lemma_tangible(tiny);
    lemma_tangible(per);
    lemma_amounts_in_order(gap, tiny);
    lemma_amounts_in_order(tiny, gap);
    lemma_amounts_in_order(tiny, room);
    lemma_amounts_in_order(per, own);
    lemma_amount_of_sign(span);
    lemma_half_keeps_order(length, length);
    lemma_half_keeps_order(sum, sum);
    lemma_minus_accuracy(hi, lo);
    lemma_over_accuracy(room, span);
    lemma_over_accuracy(room, per);
    lemma_over_accuracy(length, two);
    lemma_plus_accuracy(lo, hi);
    lemma_over_accuracy(sum, two);
    lemma_minus_accuracy(centre, half);
    lemma_plus_accuracy(centre, half);
    // The axis's own pixels per unit.
    let x = f.room / f.span;
    assert(x > 0 as real) by (nonlinear_arith)
        requires
            x == f.room / f.span,
            f.room > 0 as real,
            f.span > 0 as real,
    ;
    lemma_part(f.own);
    lemma_part(x);
    assert(u * f.per <= u * f.own) by (nonlinear_arith)
        requires
            f.per <= f.own,
            u >= 0 as real,
    ;
    assert(least() <= u * x) by {
        reveal(distance);
        assert(u * x >= u * f.own / 2 as real) by (nonlinear_arith)
            requires
                2 as real * x >= f.own,
                u >= 0 as real,
        ;
    }
    lemma_rounded_around(f.own, x);
    // The length and its half.
    let s = f.room / f.per;
    lemma_around_share(f.room, f.own, x, 4 as real * u);
    assert(f.room / x == f.span) by (nonlinear_arith)
        requires
            x == f.room / f.span,
            f.room > 0 as real,
            f.span > 0 as real,
    ;
    let wanted = f.room / f.own;
    assert(wanted <= s) by (nonlinear_arith)
        requires
            wanted == f.room / f.own,
            s == f.room / f.per,
            f.room > 0 as real,
            f.per > 0 as real,
            f.per <= f.own,
    ;
    assert(2 as real * s >= f.span) by (nonlinear_arith)
        requires
            f.span - wanted <= 2 as real * (4 as real * u) * f.span,
            wanted <= s,
            f.span > 0 as real,
            0 as real <= u <= 1 as real / 1024 as real,
    ;
    assert(2 as real * (u * s) >= u * f.tiny) by (nonlinear_arith)
        requires
            2 as real * s >= f.tiny,
            u >= 0 as real,
    ;
    lemma_rounded_around(f.length, s);
    let y = f.length / 2 as real;
    assert(2 as real * f.length >= s) by (nonlinear_arith)
        requires
            s - f.length <= 4 as real * u * s,
            s > 0 as real,
            0 as real <= u <= 1 as real / 1024 as real,
    ;
    assert(4 as real * (u * y) >= u * s) by (nonlinear_arith)
        requires
            4 as real * y >= s,
            u >= 0 as real,
    ;
    lemma_rounded_around(f.half, y);
    // The centre.
    let (c, t) = (f.centre, amount(sum));
    lemma_part(distance(c));
    lemma_part(distance(t));
    lemma_part(least());
    let (m, n) = (distance(c), distance(t));
    lemma_distances(c, t);
    assert(n <= 2 as real * m + 2 as real * (u * m) + 2 as real * least()) by {
        reveal(distance);
    }
    assert(u * n <= 4 as real * (u * m) + 2 as real * least()) by (nonlinear_arith)
        requires
            n <= 2 as real * m + 2 as real * (u * m) + 2 as real * least(),
            m >= 0 as real,
            least() >= 0 as real,
            0 as real <= u <= 1 as real / 1024 as real,
    ;
    reveal(distance);
}

/// The pixel length of a range, as a fit takes it.
pub open spec fn fit_room(from: Number, to: Number) -> Number {
    to.minus(from).abs().max(Number::from_bits(BILLIONTH))
}

/// The pixels per unit of a fit: the lesser of the two axes' own.
pub open spec fn fit_per(bbox: Rect, x_range: Range, y_range: Range) -> Number {
    fit_room(x_range.start, x_range.end).over(fit_span(bbox.x0, bbox.x1)).min(
        fit_room(y_range.end, y_range.start).over(fit_span(bbox.y0, bbox.y1)),
    )
}

/// Whether no step of a fit overflows, nor its pixels per unit underflow.
pub open spec fn regular_fit(bbox: Rect, x_range: Range, y_range: Range) -> bool {
    let per = fit_per(bbox, x_range, y_range);
    &&& regular_axis(bbox.x0, bbox.x1, fit_room(x_range.start, x_range.end), per)
    &&& regular_axis(bbox.y0, bbox.y1, fit_room(y_range.end, y_range.start), per)
}

/// Whether the sides of a box are not below the size of its corners by more
/// than `bound`.
pub open spec fn sides_hold(bbox: Rect, bound: real) -> bool {
    &&& amount(bbox.x1) > amount(bbox.x0)
    &&& amount(bbox.y1) > amount(bbox.y0)
    &&& distance(amount(bbox.x0)) + distance(amount(bbox.x1)) <= bound * (amount(bbox.x1) - amount(
        bbox.x0,
    ))
    &&& distance(amount(bbox.y0)) + distance(amount(bbox.y1)) <= bound * (amount(bbox.y1) - amount(
        bbox.y0,
    ))
}

/// Whether the corners of two boxes are apart by at most `times` the roundoff
/// of `bound` times the sides of a third.
pub open spec fn corners_near(a: Rect, b: Rect, sides: Rect, bound: real, times: real) -> bool {
    let x = roundoff() * bound * (amount(sides.x1) - amount(sides.x0));
    let y = roundoff() * bound * (amount(sides.y1) - amount(sides.y0));
    &&& distance(amount(a.x0) - amount(b.x0)) <= times * x
    &&& distance(amount(a.x1) - amount(b.x1)) <= times * x
    &&& distance(amount(a.y0) - amount(b.y0)) <= times * y
    &&& distance(amount(a.y1) - amount(b.y1)) <= times * y
}

/// A fit of a box near a fitted one is near the fitted one.
proof fn lemma_refit(bbox: Rect, again: Rect, x_range: Range, y_range: Range, bound: real)
    requires
        regular_fit(bbox, x_range, y_range),
        regular_fit(again, x_range, y_range),
        bbox.x0.le(bbox.x1),
        bbox.y0.le(bbox.y1),
        1 as real <= bound <= 4294967296 as real,
        sides_hold(fitted(bbox, x_range, y_range), bound),
        corners_near(
            again,
            fitted(bbox, x_range, y_range),
            fitted(bbox, x_range, y_range),
            bound,
            64 as real,
        ),
    ensures
        corners_near(
            fitted(again, x_range, y_range),
            fitted(bbox, x_range, y_range),
            fitted(bbox, x_range, y_range),
            bound,
            32768 as real,
        ),
{
    let (rx, ry) = (fit_room(x_range.start, x_range.end), fit_room(y_range.end, y_range.start));
    let (p, q) = (fit_per(bbox, x_range, y_range), fit_per(again, x_range, y_range));
    let (fx, fy) = (axis_fit(bbox.x0, bbox.x1, rx, p), axis_fit(bbox.y0, bbox.y1, ry, p));
    let (gx, gy) = (axis_fit(again.x0, again.x1, rx, q), axis_fit(again.y0, again.y1, ry, q));
    lemma_amounts_in_order(bbox.x0, bbox.x1);
    lemma_amounts_in_order(bbox.y0, bbox.y1);
    lemma_axis_steps(bbox.x0, bbox.x1, rx, p);
    lemma_axis_steps(bbox.y0, bbox.y1, ry, p);
    lemma_axis_steps(again.x0, again.x1, rx, q);
    lemma_axis_steps(again.y0, again.y1, ry, q);
    lemma_same_pixels(fx, gx, bound);
    lemma_same_pixels(fy, gy, bound);
    assert(gx.per == gx.own || gx.per == gy.own);
    lemma_ends_stay(fx, gx, bound);
    lemma_ends_stay(fy, gy, bound);
}

/// A box that was fitted is where a second fit puts it, up to rounding: each
/// corner moves by a tiny part of the side along its axis, `bound` saying how
/// far the box lies from the origin in sides.
pub proof fn a_fitted_box_stays(bbox: Rect, x_range: Range, y_range: Range, bound: real)
    requires
        regular_fit(bbox, x_range, y_range),
        regular_fit(fitted(bbox, x_range, y_range), x_range, y_range),
        bbox.x0.le(bbox.x1),
        bbox.y0.le(bbox.y1),
        1 as real <= bound <= 4294967296 as real,
        sides_hold(fitted(bbox, x_range, y_range), bound),
    ensures
        ({
            let once = fitted(bbox, x_range, y_range);
            corners_near(fitted(once, x_range, y_range), once, once, bound, 32768 as real)
        }),
{
    let once = fitted(bbox, x_range, y_range);
    let (x, y) = (amount(once.x1) - amount(once.x0), amount(once.y1) - amount(once.y0));
    lemma_part(bound);
    assert(distance(0 as real) == 0 as real) by {
        reveal(distance);
    }
    assert(64 as real * (roundoff() * bound * x) >= 0 as real && 64 as real * (roundoff() * bound
        * y) >= 0 as real) by (nonlinear_arith)
        requires
            roundoff() * bound >= 0 as real,
            x > 0 as real,
            y > 0 as real,
    ;
    lemma_refit(bbox, once, x_range, y_range, bound);
}

/// The box of two axes' scales after a mark has fitted them.
pub open spec fn squared_box(bbox: Rect, x_range: Range, y_range: Range) -> Rect {
    let to = fitted(bbox, x_range, y_range);
    Rect {
        x0: bbox.x0.min(to.x0),
        y0: bbox.y0.min(to.y0),
        x1: bbox.x1.max(to.x1),
        y1: bbox.y1.max(to.y1),
    }
}

/// Fitting the axes twice is fitting them once, up to rounding: two layers of a
/// plot may each ask for it. The other channels stay as they are.
pub proof fn fitting_twice_is_fitting_once(
    slots: spec_fn(Channel) -> Option<ScaleModel>,
    channel_map: ChannelMap,
    x_range: Range,
    y_range: Range,
    bound: real,
)
    requires
        domain_box(slots(Channel::X), slots(Channel::Y)) matches Some(bbox) && {
            &&& bbox.x0.le(bbox.x1)
            &&& bbox.y0.le(bbox.y1)
            &&& regular_fit(bbox, x_range, y_range)
            &&& regular_fit(squared_box(bbox, x_range, y_range), x_range, y_range)
            &&& sides_hold(fitted(bbox, x_range, y_range), bound)
        },
        1 as real <= bound <= 4294967296 as real,
    ensures
        ({
            let once = |c: Channel| squared_slot(slots, channel_map, x_range, y_range, c);
            let twice = |c: Channel| squared_slot(once, channel_map, x_range, y_range, c);
            let sides = fitted(
                domain_box(slots(Channel::X), slots(Channel::Y))->0,
                x_range,
                y_range,
            );
            &&& domain_box(once(Channel::X), once(Channel::Y)) is Some
            &&& domain_box(twice(Channel::X), twice(Channel::Y)) is Some
            &&& corners_near(
                domain_box(twice(Channel::X), twice(Channel::Y))->0,
                domain_box(once(Channel::X), once(Channel::Y))->0,
                sides,
                bound,
                65536 as real,
            )
            &&& forall|c: Channel| c != Channel::X && c != Channel::Y ==> #[trigger] twice(c)
                == once(c)
        }),
{
    let bbox = domain_box(slots(Channel::X), slots(Channel::Y))->0;
    let to = fitted(bbox, x_range, y_range);
    let m = squared_box(bbox, x_range, y_range);
    let again = fitted(m, x_range, y_range);
    let once = |c: Channel| squared_slot(slots, channel_map, x_range, y_range, c);
    let (rx, ry) = (fit_room(x_range.start, x_range.end), fit_room(y_range.end, y_range.start));
    let p = fit_per(bbox, x_range, y_range);
    let (x, y) = (
        roundoff() * bound * (amount(to.x1) - amount(to.x0)),
        roundoff() * bound * (amount(to.y1) - amount(to.y0)),
    );
    lemma_part(bound);
    assert(x >= 0 as real && y >= 0 as real) by (nonlinear_arith)
        requires
            x == roundoff() * bound * (amount(to.x1) - amount(to.x0)),
            y == roundoff() * bound * (amount(to.y1) - amount(to.y0)),
            roundoff() * bound >= 0 as real,
            amount(to.x1) > amount(to.x0),
            amount(to.y1) > amount(to.y0),
    ;
    lemma_amounts_in_order(bbox.x0, bbox.x1);
    lemma_amounts_in_order(bbox.y0, bbox.y1);
    lemma_axis_steps(bbox.x0, bbox.x1, rx, p);
    lemma_axis_steps(bbox.y0, bbox.y1, ry, p);
    lemma_fit_is_near(axis_fit(bbox.x0, bbox.x1, rx, p), bound);
    lemma_fit_is_near(axis_fit(bbox.y0, bbox.y1, ry, p), bound);
    lemma_lesser_moves(bbox.x0, to.x0, 64 as real * x);
    lemma_lesser_moves(bbox.y0, to.y0, 64 as real * y);
    lemma_greater_moves(bbox.x1, to.x1, 64 as real * x);
    lemma_greater_moves(bbox.y1, to.y1, 64 as real * y);
    lemma_refit(bbox, m, x_range, y_range, bound);
    lemma_outer_moves(m.x0, again.x0, amount(to.x0), x);
    lemma_outer_moves(m.y0, again.y0, amount(to.y0), y);
    lemma_outer_moves(m.x1, again.x1, amount(to.x1), x);
    lemma_outer_moves(m.y1, again.y1, amount(to.y1), y);
    if channel_map.equal_aspect() || channel_map.projection is Some {
        assert(domain_box(once(Channel::X), once(Channel::Y)) == Some(m));
    } else {
        assert(distance(0 as real) == 0 as real) by {
            reveal(distance);
        }
    }
}

/// The lesser of two numbers is near the second where the first is not much
/// below it.
proof fn lemma_lesser_moves(a: Number, b: Number, e: real)
    requires
        a.is_finite(),
        b.is_finite(),
        e >= 0 as real,
        amount(b) - amount(a) <= e,
    ensures
        a.min(b).is_finite(),
        distance(amount(a.min(b)) - amount(b)) <= e,
{
    lemma_amounts_in_order(b, a);
    reveal(distance);
}

/// The greater of two numbers is near the second where the first is not much
/// above it.
proof fn lemma_greater_moves(a: Number, b: Number, e: real)
    requires
        a.is_finite(),
        b.is_finite(),
        e >= 0 as real,
        amount(a) - amount(b) <= e,
    ensures
        a.max(b).is_finite(),
        distance(amount(a.max(b)) - amount(b)) <= e,
{
    lemma_amounts_in_order(a, b);
    reveal(distance);
}

/// Either of two numbers near one place is near the first of them.
proof fn lemma_outer_moves(a: Number, b: Number, place: real, z: real)
    requires
        z >= 0 as real,
        distance(amount(a) - place) <= 64 as real * z,
        distance(amount(b) - place) <= 32768 as real * z,
    ensures
        distance(amount(a.min(b)) - amount(a)) <= 65536 as real * z,
        distance(amount(a.max(b)) - amount(a)) <= 65536 as real * z,
{
    reveal(distance);
}

} // verus!
