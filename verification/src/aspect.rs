//! What fitting a map is for: the whole of it in the plot, in the middle, with
//! as many pixels to a unit across as up.
use vstd::arithmetic::power2::{
    lemma2_to64, lemma2_to64_rest, lemma_pow2_adds, lemma_pow2_pos, lemma_pow2_unfold, pow2,
};
use vstd::prelude::*;

use crate::accuracy::{
    amount, distance, lemma_amount_of_parts, lemma_amount_of_sign, lemma_amounts_in_order,
    lemma_close, lemma_distances, lemma_minus_accuracy, lemma_part, roundoff,
};
use crate::approximation::{
    is_about, is_ordinary, lemma_about, lemma_exactly_stands, lemma_ordinary_size,
    lemma_stands_half, lemma_stands_more, lemma_stands_quotient, lemma_stands_sum, stands_for,
};
use crate::drawing::Rect;
use crate::fits::{lemma_sum_fits, within};
use crate::geo::fitted;
use crate::infer::Range;
use crate::number::{lemma_format, Number, FRACTIONS};
use crate::numerals::{BILLIONTH, TWO};

verus! {

/// Whether a number stands for a positive value, in proportion to it.
spec fn tracks(x: Number, value: real, k: nat) -> bool {
    value > 0 as real && stands_for(x, value, value, k)
}

/// The floor that spans are held to.
pub open spec fn floor_span() -> real {
    amount(Number::from_bits(BILLIONTH))
}

/// A span held to the floor.
pub open spec fn held(span: real) -> real {
    if span < floor_span() {
        floor_span()
    } else {
        span
    }
}

/// The floor is about a billionth.
proof fn lemma_floor()
    ensures
        floor_span() >= 1 as real / 2000000000 as real,
        floor_span() <= 1 as real,
        Number::from_bits(BILLIONTH).is_finite(),
        tracks(Number::from_bits(BILLIONTH), floor_span(), 0),
{
    let x = Number::from_bits(BILLIONTH);
    lemma_format();
    lemma2_to64();
    lemma2_to64_rest();
    // Its exponent is 993, so that 82 of its digits stand behind the point.
    lemma_amount_of_parts(x, 82);
    lemma_pow2_adds(52, 30);
    let (a, p) = (amount(x), pow2(82) as real);
    assert(pow2(82) == 4503599627370496 * 1073741824);
    let m = (FRACTIONS + x.magnitude() % FRACTIONS as nat) as real;
    assert(4503599627370496 as real <= m <= 9007199254740992 as real);
    assert(a >= 1 as real / 2000000000 as real && a <= 1 as real) by (nonlinear_arith)
        requires
            a * p == m,
            p == 4835703278458516698824704 as real,
            4503599627370496 as real <= m <= 9007199254740992 as real,
    ;
    lemma_pow2_pos(399);
    lemma_ordinary_size(a);
    reveal(distance);
    lemma_exactly_stands(x, a);
}

/// A span of moderate ends, held to the floor.
proof fn lemma_held_span(a: Number, b: Number)
    requires
        within(a, 30),
        within(b, 30),
    ensures
        ({
            let tiny = Number::from_bits(BILLIONTH);
            let (d, e) = (b.minus(a).max(tiny), a.minus(b).abs().max(tiny));
            let span = amount(b) - amount(a);
            &&& tracks(d, held(span), 2)
            &&& tracks(e, held(distance(span)), 2)
            &&& held(span) <= 4000000000 as real
            &&& held(distance(span)) <= 4000000000 as real
            &&& held(span) >= 1 as real / 2000000000 as real
            &&& held(distance(span)) >= 1 as real / 2000000000 as real
        }),
{
    lemma_floor();
    lemma_sum_fits(b, a, 30);
    lemma_sum_fits(a, b, 30);
    lemma_minus_accuracy(b, a);
    lemma_minus_accuracy(a, b);
    lemma_amount_of_sign(a.minus(b));
    let (x, y) = (amount(b), amount(a));
    lemma_distances(x, y);
    lemma_distances(y, x);
    let e = a.minus(b).abs();
    assert(distance(amount(e) - distance(x - y)) <= roundoff() * distance(amount(e))) by {
        reveal(distance);
    }
    lemma2_to64();
    assert(distance(distance(x - y)) == distance(x - y)) by {
        reveal(distance);
    }
    lemma_held_number(b.minus(a), x - y);
    lemma_held_number(e, distance(x - y));
}

/// Two to the 399th is far above what moderate maps come to.
proof fn lemma_great()
    ensures
        pow2(399) as real >= 1000000000000000000000000000000000 as real,
{
    lemma_pow2_adds(60, 60);
    lemma_pow2_adds(120, 279);
    lemma_pow2_pos(279);
    lemma2_to64();
    lemma2_to64_rest();
    assert(pow2(60) == 1152921504606846976);
    assert(pow2(399) >= 1000000000000000000000000000000000) by (nonlinear_arith)
        requires
            pow2(399) == (pow2(60) * pow2(60)) * pow2(279),
            pow2(60) == 1152921504606846976,
            pow2(279) >= 1,
    ;
}

/// A number near a span, held to the floor.
proof fn lemma_held_number(d: Number, span: real)
    requires
        d.is_finite(),
        distance(amount(d) - span) <= roundoff() * distance(amount(d)),
        distance(span) <= 2147483648 as real,
    ensures
        ({
            let x = d.max(Number::from_bits(BILLIONTH));
            &&& tracks(x, held(span), 2)
            &&& held(span) <= 4000000000 as real
            &&& held(span) >= 1 as real / 2000000000 as real
        }),
{
    let tiny = Number::from_bits(BILLIONTH);
    let f = floor_span();
    let u = roundoff();
    lemma_floor();
    lemma_amounts_in_order(d, tiny);
    lemma_close(amount(d), span, 0 as real);
    lemma_great();
    let x = d.max(tiny);
    let h = held(span);
    reveal(distance);
    assert(h <= 2147483648 as real);
    lemma_ordinary_size(h);
    let y = amount(x);
    lemma_part(distance(span));
    lemma_part(h);
    assert(u * distance(span) <= u * h || span < 0 as real) by {
        if span >= 0 as real {
            assert(u * span <= u * h) by (nonlinear_arith)
                requires
                    0 as real <= span <= h,
                    u >= 0 as real,
            ;
        }
    }
}

/// A quotient of what tracks two values tracks their quotient.
proof fn lemma_ratio(a: Number, v: real, b: Number, w: real, j: nat, k: nat)
    requires
        tracks(a, v, j),
        tracks(b, w, k),
        j <= 100,
        k <= 100,
        is_ordinary(v / w),
    ensures
        tracks(a.over(b), v / w, j + k + 12),
{
    assert(distance(w) == w) by {
        reveal(distance);
    }
    assert(v / w > 0 as real) by (nonlinear_arith)
        requires
            v > 0 as real,
            w > 0 as real,
    ;
    lemma_stands_quotient(a, v, v, j, b, w, k);
}

/// The lesser of what tracks two values tracks the lesser value.
proof fn lemma_lesser(a: Number, v: real, b: Number, w: real)
    requires
        tracks(a, v, 16),
        tracks(b, w, 16),
    ensures
        tracks(
            a.min(b),
            if w < v {
                w
            } else {
                v
            },
            16,
        ),
{
    let u = roundoff();
    lemma_amounts_in_order(b, a);
    lemma_part(v);
    lemma_part(w);
    assert(w <= v ==> u * w <= u * v) by (nonlinear_arith)
        requires
            u >= 0 as real,
    ;
    assert(v <= w ==> u * v <= u * w) by (nonlinear_arith)
        requires
            u >= 0 as real,
    ;
    reveal(distance);
    let (x, y) = (amount(a), amount(b));
    // What is near the greater value and no greater than what is near the lesser
    // is near the lesser.
    assert(x >= v - 16 as real * (u * v) && y >= w - 16 as real * (u * w));
    assert(w <= v ==> v - 16 as real * (u * v) >= w - 16 as real * (u * w));
    assert(v <= w ==> w - 16 as real * (u * w) >= v - 16 as real * (u * v));
}

/// Whether the corners of a box and the ends of two ranges are moderate: none is
/// greater than a billion.
pub open spec fn is_fittable(bbox: Rect, x_range: Range, y_range: Range) -> bool {
    &&& within(bbox.x0, 30) && within(bbox.x1, 30) && within(bbox.y0, 30) && within(bbox.y1, 30)
    &&& within(x_range.start, 30) && within(x_range.end, 30)
    &&& within(y_range.start, 30) && within(y_range.end, 30)
}

/// Whether a fit along one axis shows `length` units about the middle of a box.
pub open spec fn is_centred(
    low: Number,
    high: Number,
    length: real,
    start: Number,
    end: Number,
) -> bool {
    let middle = (amount(low) + amount(high)) / 2 as real;
    let size = 4 as real * (distance(amount(low)) + distance(amount(high)) + length + 1 as real);
    &&& is_about(start, middle - length / 2 as real, size)
    &&& is_about(end, middle + length / 2 as real, size)
}

/// Whether a number of pixels to the unit fits a box into a plot: it all goes
/// in, across and up, and one way there is no room left.
pub open spec fn is_tight(per: real, wide: real, high: real, across: real, up: real) -> bool {
    &&& per > 0 as real
    &&& per * wide <= across
    &&& per * high <= up
    &&& per * wide == across || per * high == up
}

/// A map is fitted whole and in the middle: with one number of pixels to the
/// unit for both axes, the greatest at which the box goes into the plot, each
/// axis shows as many units as its pixels hold, about the middle of the box.
/// Spans below a billionth count as a billionth.
pub proof fn a_fitted_map_is_whole_and_centred(bbox: Rect, x_range: Range, y_range: Range)
    requires
        is_fittable(bbox, x_range, y_range),
    ensures
        ({
            let to = fitted(bbox, x_range, y_range);
            let wide = held(amount(bbox.x1) - amount(bbox.x0));
            let high = held(amount(bbox.y1) - amount(bbox.y0));
            let across = held(distance(amount(x_range.end) - amount(x_range.start)));
            let up = held(distance(amount(y_range.end) - amount(y_range.start)));
            exists|per: real|
                {
                    &&& #[trigger] is_tight(per, wide, high, across, up)
                    &&& is_centred(bbox.x0, bbox.x1, across / per, to.x0, to.x1)
                    &&& is_centred(bbox.y0, bbox.y1, up / per, to.y0, to.y1)
                }
        }),
{
    let tiny = Number::from_bits(BILLIONTH);
    let wide = held(amount(bbox.x1) - amount(bbox.x0));
    let high = held(amount(bbox.y1) - amount(bbox.y0));
    let across = held(distance(amount(x_range.end) - amount(x_range.start)));
    let up = held(distance(amount(y_range.end) - amount(y_range.start)));
    let du = bbox.x1.minus(bbox.x0).max(tiny);
    let dv = bbox.y1.minus(bbox.y0).max(tiny);
    let wp = x_range.end.minus(x_range.start).abs().max(tiny);
    let hp = y_range.start.minus(y_range.end).abs().max(tiny);
    lemma_held_span(bbox.x0, bbox.x1);
    lemma_held_span(bbox.y0, bbox.y1);
    lemma_held_span(x_range.end, x_range.start);
    lemma_held_span(y_range.start, y_range.end);
    lemma_distances(amount(x_range.end), amount(x_range.start));
    lemma_great();
    let (j, k) = (across / wide, up / high);
    lemma_ratio_size(across, wide);
    lemma_ratio_size(up, high);
    lemma_ratio(wp, across, du, wide, 2, 2);
    lemma_ratio(hp, up, dv, high, 2, 2);
    lemma_lesser(wp.over(du), j, hp.over(dv), k);
    let per = if k < j {
        k
    } else {
        j
    };
    let pixels = wp.over(du).min(hp.over(dv));
    assert(j * wide == across && k * high == up) by (nonlinear_arith)
        requires
            j == across / wide,
            k == up / high,
            wide > 0 as real,
            high > 0 as real,
    ;
    assert(per * wide <= across && per * high <= up) by (nonlinear_arith)
        requires
            per <= j,
            per <= k,
            j * wide == across,
            k * high == up,
            wide > 0 as real,
            high > 0 as real,
    ;
    assert(is_tight(per, wide, high, across, up));
    lemma_length_size(across, per);
    lemma_length_size(up, per);
    lemma_ratio(wp, across, pixels, per, 2, 16);
    lemma_ratio(hp, up, pixels, per, 2, 16);
    lemma_centred(bbox.x0, bbox.x1, wp.over(pixels), across / per);
    lemma_centred(bbox.y0, bbox.y1, hp.over(pixels), up / per);
}

/// A ratio of two held spans is ordinary.
proof fn lemma_ratio_size(a: real, b: real)
    requires
        1 as real / 2000000000 as real <= a <= 4000000000 as real,
        1 as real / 2000000000 as real <= b <= 4000000000 as real,
    ensures
        is_ordinary(a / b),
        a / b >= 1 as real / 8000000000000000000 as real,
        a / b <= 8000000000000000000 as real,
{
    let q = a / b;
    assert(q >= 1 as real / 8000000000000000000 as real && q <= 8000000000000000000 as real)
        by (nonlinear_arith)
        requires
            q == a / b,
            1 as real / 2000000000 as real <= a <= 4000000000 as real,
            1 as real / 2000000000 as real <= b <= 4000000000 as real,
    ;
    lemma_great();
    lemma_ordinary_size(q);
}

/// How many units some pixels hold is ordinary.
proof fn lemma_length_size(a: real, per: real)
    requires
        1 as real / 2000000000 as real <= a <= 4000000000 as real,
        1 as real / 8000000000000000000 as real <= per <= 8000000000000000000 as real,
    ensures
        is_ordinary(a / per),
        a / per > 0 as real,
        a / per <= 32000000000000000000000000000 as real,
{
    let q = a / per;
    assert(q >= 1 as real / 100000000000000000000000000000 as real && q
        <= 32000000000000000000000000000 as real) by (nonlinear_arith)
        requires
            q == a / per,
            1 as real / 2000000000 as real <= a <= 4000000000 as real,
            1 as real / 8000000000000000000 as real <= per <= 8000000000000000000 as real,
    ;
    lemma_great();
    lemma_tiny_size(q);
}

/// A size that is even smaller is still ordinary.
proof fn lemma_tiny_size(q: real)
    requires
        q >= 1 as real / 100000000000000000000000000000 as real,
        q <= 32000000000000000000000000000 as real,
    ensures
        is_ordinary(q),
{
    lemma_pow2_adds(60, 60);
    lemma_pow2_adds(120, 180);
    lemma_pow2_pos(180);
    lemma2_to64();
    lemma2_to64_rest();
    lemma_great();
    lemma_pow2_unfold(400);
    assert(pow2(60) == 1152921504606846976);
    assert(pow2(300) >= 1000000000000000000000000000000000) by (nonlinear_arith)
        requires
            pow2(300) == (pow2(60) * pow2(60)) * pow2(180),
            pow2(60) == 1152921504606846976,
            pow2(180) >= 1,
    ;
    let p = pow2(300) as real;
    assert(q * p >= 1 as real) by (nonlinear_arith)
        requires
            q >= 1 as real / 100000000000000000000000000000 as real,
            p >= 1000000000000000000000000000000000 as real,
    ;
}

/// The ends of a fit along one axis.
proof fn lemma_centred(low: Number, high: Number, length: Number, exact: real)
    requires
        within(low, 30),
        within(high, 30),
        tracks(length, exact, 30),
        exact <= 32000000000000000000000000000 as real,
    ensures
        ({
            let two = Number::from_bits(TWO);
            let middle = low.plus(high).over(two);
            let half = length.over(two);
            is_centred(low, high, exact, middle.minus(half), middle.plus(half))
        }),
{
    let two = Number::from_bits(TWO);
    let (a, b) = (amount(low), amount(high));
    let s = distance(a) + distance(b) + exact + 1 as real;
    let sum = low.plus(high);
    let middle = sum.over(two);
    let half = length.over(two);
    lemma_distances(a, b);
    lemma_great();
    lemma2_to64();
    lemma_ordinary_size(s);
    lemma_ordinary_size(2 as real * s);
    lemma_ordinary_size(4 as real * s);
    lemma_ordinary_size(s / 2 as real);
    lemma_exactly_stands(low, s);
    lemma_exactly_stands(high, s);
    lemma_stands_sum(low, a, s, high, b, s, 0);
    lemma_stands_half(sum, a + b, s + s, 8);
    assert((s + s) / 2 as real == s);
    lemma_stands_more(length, exact, exact, 30, s, 30);
    lemma_stands_half(length, exact, s, 30);
    lemma_stands_more(half, exact / 2 as real, s / 2 as real, 42, s, 42);
    lemma_stands_more(middle, (a + b) / 2 as real, s, 20, s, 42);
    lemma_stands_sum(middle, (a + b) / 2 as real, s, half, exact / 2 as real, s, 42);
    let (x, y) = (
        (a + b) / 2 as real - exact / 2 as real,
        (a + b) / 2 as real + exact / 2 as real,
    );
    lemma_stands_more(middle.minus(half), x, s + s, 50, 4 as real * s, 50);
    lemma_stands_more(middle.plus(half), y, s + s, 50, 4 as real * s, 50);
    lemma_about(middle.minus(half), x, 4 as real * s, 50);
    lemma_about(middle.plus(half), y, 4 as real * s, 50);
}

} // verus!
