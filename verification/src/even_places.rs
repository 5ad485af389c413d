//! Evenly spaced places: where a curve is sampled.
use vstd::arithmetic::power2::{lemma2_to64, pow2};
use vstd::prelude::*;

use crate::accuracy::{
    amount, distance, least, lemma_amount_of_whole, lemma_close, lemma_distance_of_product,
    lemma_distances, lemma_least_is_small, lemma_minus_accuracy, lemma_over_accuracy, lemma_part,
    lemma_plus_accuracy, lemma_times_accuracy, lemma_triangle, roundoff, trip_roundoff,
};
use crate::density::{places, GRID};
use crate::fits::{
    beyond, lemma_product_fits, lemma_quotient_fits, lemma_sum_fits, lemma_within_more, within,
};
use crate::infer::Range;
use crate::number::{lemma_from_int_is_finite, Number};
use crate::regression::{sample_place, SAMPLES};
use crate::straight::lemma_slope_near;

verus! {

/// Whether a place is the `i`th of `n` evenly spaced steps from one bound to
/// another, up to rounding.
pub open spec fn is_step(low: Number, high: Number, i: int, n: int, place: Number) -> bool {
    place.is_finite() && distance(
        amount(place) - (amount(low) + (amount(high) - amount(low)) * (i as real / n as real)),
    ) <= trip_roundoff() * (distance(amount(low)) + distance(amount(high))) + 1024 as real
        * least()
}

/// A small whole number as a number: near it, and neither great nor small.
proof fn lemma_small_whole(i: int)
    requires
        0 <= i <= 1000,
    ensures
        ({
            let x = Number::spec_from_int(i);
            &&& distance(amount(x) - i as real) <= roundoff() * distance(amount(x))
            &&& within(x, 11)
            &&& i > 0 ==> beyond(x, 1)
        }),
{
    let x = Number::spec_from_int(i);
    lemma_from_int_is_finite(i);
    lemma_amount_of_whole(i);
    lemma2_to64();
    let a = distance(amount(x));
    lemma_part(a);
    lemma_distances(amount(x), i as real);
    assert(a <= 2000 as real && (i > 0 ==> a >= 1 as real / 2 as real)) by {
        reveal(distance);
    }
    assert(pow2(11) == 2048 && pow2(1) == 2);
    assert(i > 0 ==> a * pow2(1) as real >= 1 as real) by (nonlinear_arith)
        requires
            pow2(1) as real == 2 as real,
            i > 0 ==> a >= 1 as real / 2 as real,
    ;
}

/// A rounded part of a rounded span, from a start.
pub proof fn lemma_step(low: real, high: real, d: real, rho: real, q: real, v: real)
    requires
        0 as real <= rho <= 1 as real,
        distance(d - (high - low)) <= roundoff() * distance(d),
        distance(q - (high - low) * rho) <= 64 as real * (roundoff() * distance(high - low))
            + 64 as real * least(),
        distance(v - (low + q)) <= roundoff() * distance(v),
    ensures
        distance(v - (low + (high - low) * rho)) <= trip_roundoff() * (distance(low) + distance(
            high,
        )) + 1024 as real * least(),
{
    let (u, h) = (roundoff(), least());
    let span = high - low;
    let exact = span * rho;
    let whole = distance(low) + distance(high);
    lemma_least_is_small();
    lemma_distances(high, low);
    lemma_distance_of_product(span, rho);
    assert(distance(rho) == rho) by {
        reveal(distance);
    }
    let s = distance(span);
    lemma_distances(span, rho);
    assert(s * rho <= s && s * rho >= 0 as real) by (nonlinear_arith)
        requires
            0 as real <= rho <= 1 as real,
            s >= 0 as real,
    ;
    lemma_close(v, low + q, 0 as real);
    lemma_distances(low, q);
    lemma_triangle(q, exact, 0 as real);
    lemma_distances(q, exact);
    let us = u * s;
    let uw = u * whole;
    lemma_part(s);
    lemma_part(whole);
    assert(us <= uw) by (nonlinear_arith)
        requires
            us == u * s,
            uw == u * whole,
            s <= whole,
            u >= 0 as real,
    ;
    let size = distance(low + q);
    assert(size <= 3 as real * whole + 64 as real * h);
    assert(u * size <= 3 as real * uw + 64 as real * h) by (nonlinear_arith)
        requires
            size <= 3 as real * whole + 64 as real * h,
            uw == u * whole,
            u >= 0 as real,
            u <= 1 as real,
            h > 0 as real,
    ;
    assert(trip_roundoff() * whole == 512 as real * uw) by (nonlinear_arith)
        requires
            trip_roundoff() == 1 as real / 17592186044416 as real,
            u == 1 as real / 9007199254740992 as real,
            uw == u * whole,
    ;
    lemma_triangle(v, low + q, low + exact);
    assert((low + q) - (low + exact) == q - exact);
}

/// A product of near parts, of which the second is at most about one.
pub proof fn lemma_product_near(d: real, span: real, r: real, rho: real)
    requires
        0 as real <= rho <= 1 as real,
        distance(d - span) <= 2 as real * (roundoff() * distance(span)),
        distance(r - rho) <= 16 as real * roundoff() + 4 as real * least(),
    ensures
        distance(d * r - span * rho) <= 24 as real * (roundoff() * distance(span)),
{
    let (u, h) = (roundoff(), least());
    let s = distance(span);
    lemma_least_is_small();
    lemma_part(s);
    lemma_distances(d, span);
    lemma_distances(r, rho);
    let (x, y) = (d - span, r - rho);
    assert(d * r - span * rho == x * r + span * y) by (nonlinear_arith)
        requires
            x == d - span,
            y == r - rho,
    ;
    lemma_distance_of_product(x, r);
    lemma_distance_of_product(span, y);
    lemma_distances(x * r, span * y);
    lemma_distances(x, y);
    lemma_triangle(r, rho, 0 as real);
    assert(distance(rho) == rho) by {
        reveal(distance);
    }
    let (a, b, c) = (distance(x), distance(y), distance(r));
    assert(c <= 2 as real);
    assert(b <= 17 as real * u);
    assert(a * c <= 4 as real * (u * s)) by (nonlinear_arith)
        requires
            a <= 2 as real * (u * s),
            a >= 0 as real,
            c <= 2 as real,
            c >= 0 as real,
    ;
    assert(s * b <= 17 as real * (u * s)) by (nonlinear_arith)
        requires
            b <= 17 as real * u,
            s >= 0 as real,
    ;
}

/// One of evenly spaced steps from one bound to another.
pub proof fn lemma_even_step(x_min: Number, x_max: Number, i: int, n: int)
    requires
        within(x_min, 200),
        within(x_max, 200),
        0 <= i <= n,
        1 <= n <= 1000,
    ensures
        is_step(
            x_min,
            x_max,
            i,
            n,
            x_min.plus(
                x_max.minus(x_min).times(Number::spec_from_int(i).over(Number::spec_from_int(n))),
            ),
        ),
{
    let (u, h) = (roundoff(), least());
    let d = x_max.minus(x_min);
    let (a, b) = (Number::spec_from_int(i), Number::spec_from_int(n));
    let r = a.over(b);
    let q = d.times(r);
    let v = x_min.plus(q);
    lemma_least_is_small();
    lemma2_to64();
    lemma_small_whole(i);
    lemma_small_whole(n);
    lemma_sum_fits(x_max, x_min, 200);
    lemma_quotient_fits(a, b, 11, 1);
    lemma_product_fits(d, r, 201, 12);
    lemma_within_more(x_min, 200, 213);
    lemma_sum_fits(x_min, q, 213);
    lemma_minus_accuracy(x_max, x_min);
    lemma_over_accuracy(a, b);
    lemma_times_accuracy(d, r);
    lemma_plus_accuracy(x_min, q);
    let rho = i as real / n as real;
    let (low, high) = (amount(x_min), amount(x_max));
    let span = high - low;
    lemma_slope_near(amount(a), i as real, amount(b), n as real);
    assert(0 as real <= rho <= 1 as real) by (nonlinear_arith)
        requires
            rho == i as real / n as real,
            0 as real <= i as real <= n as real,
            n as real >= 1 as real,
    ;
    assert(distance(rho) == rho) by {
        reveal(distance);
    }
    let ab = amount(a) / amount(b);
    lemma_close(amount(r), ab, h);
    lemma_triangle(amount(r), ab, rho);
    lemma_triangle(ab, rho, 0 as real);
    lemma_distances(ab, rho);
    assert(u * rho <= u) by (nonlinear_arith)
        requires
            rho <= 1 as real,
            u >= 0 as real,
    ;
    assert(distance(ab) <= 2 as real);
    assert(u * distance(ab) <= 2 as real * u) by (nonlinear_arith)
        requires
            distance(ab) <= 2 as real,
            u >= 0 as real,
    ;
    lemma_close(amount(d), span, 0 as real);
    lemma_product_near(amount(d), span, amount(r), rho);
    lemma_close(amount(q), amount(d) * amount(r), h);
    lemma_finish(span, rho, amount(d) * amount(r), amount(q));
    lemma_distances(span, rho);
    lemma_part(distance(span));
    lemma_step(low, high, amount(d), rho, amount(q), amount(v));
}

/// A fit is sampled at evenly spaced places, from one bound to the other.
pub proof fn a_fit_is_sampled_evenly(x_min: Number, x_max: Number, i: int)
    requires
        within(x_min, 200),
        within(x_max, 200),
        0 <= i < SAMPLES,
    ensures
        is_step(x_min, x_max, i, SAMPLES - 1, sample_place(x_min, x_max, i)),
{
    lemma_even_step(x_min, x_max, i, SAMPLES - 1);
}

/// A rounded product near an exact one.
pub proof fn lemma_finish(span: real, rho: real, p: real, q: real)
    requires
        0 as real <= rho <= 1 as real,
        distance(p - span * rho) <= 24 as real * (roundoff() * distance(span)),
        distance(q - p) <= 2 as real * (roundoff() * distance(p)) + 2 as real * least(),
    ensures
        distance(q - span * rho) <= 28 as real * (roundoff() * distance(span)) + 2 as real * least(),
{
    let u = roundoff();
    let s = distance(span);
    lemma_least_is_small();
    lemma_part(s);
    lemma_distance_of_product(span, rho);
    lemma_distances(span, rho);
    assert(distance(rho) == rho) by {
        reveal(distance);
    }
    assert(s * rho <= s) by (nonlinear_arith)
        requires
            rho <= 1 as real,
            s >= 0 as real,
    ;
    lemma_triangle(p, span * rho, 0 as real);
    lemma_distances(p, span * rho);
    let size = distance(p);
    assert(size <= 2 as real * s);
    assert(u * size <= 2 as real * (u * s)) by (nonlinear_arith)
        requires
            size <= 2 as real * s,
            u >= 0 as real,
    ;
    lemma_triangle(q, p, span * rho);
}

/// A density curve is evaluated at evenly spaced places, from the start of its
/// span to its end.
pub proof fn a_curve_is_sampled_evenly(span: Range, i: int)
    requires
        within(span.start, 200),
        within(span.end, 200),
        0 <= i < GRID,
    ensures
        is_step(span.start, span.end, i, GRID - 1, places(span)[i]),
{
    let (u, h) = (roundoff(), least());
    let d = span.end.minus(span.start);
    let (a, b) = (Number::spec_from_int(i), Number::spec_from_int(GRID - 1));
    let p = d.times(a);
    let q = p.over(b);
    let v = places(span)[i];
    assert(v == span.start.plus(q));
    lemma_least_is_small();
    lemma2_to64();
    lemma_small_whole(i);
    lemma_small_whole(GRID - 1);
    lemma_sum_fits(span.end, span.start, 200);
    lemma_product_fits(d, a, 201, 11);
    lemma_quotient_fits(p, b, 212, 1);
    lemma_within_more(span.start, 200, 213);
    lemma_sum_fits(span.start, q, 213);
    lemma_minus_accuracy(span.end, span.start);
    lemma_times_accuracy(d, a);
    lemma_over_accuracy(p, b);
    lemma_plus_accuracy(span.start, q);
    let (low, high) = (amount(span.start), amount(span.end));
    let wide = high - low;
    let rho = i as real / 191 as real;
    let (da, db) = (amount(a), amount(b));
    lemma_slope_near(da, i as real, db, 191 as real);
    assert(0 as real <= rho <= 1 as real && distance(rho) == rho) by {
        reveal(distance);
    }
    let ab = da / db;
    lemma_distances(ab, rho);
    assert(u * rho <= u) by (nonlinear_arith)
        requires
            rho <= 1 as real,
            u >= 0 as real,
    ;
    lemma_close(amount(d), wide, 0 as real);
    lemma_product_near(amount(d), wide, ab, rho);
    // The product, shared.
    let e = amount(d) * da;
    let shared = amount(p) / db;
    lemma_close(amount(p), e, h);
    assert(db >= 1 as real) by {
        lemma_part(distance(db));
        reveal(distance);
    }
    let gap = amount(p) - e;
    let exact = amount(d) * ab;
    assert(exact == e / db && shared - exact == gap / db) by (nonlinear_arith)
        requires
            exact == amount(d) * ab,
            ab == da / db,
            e == amount(d) * da,
            shared == amount(p) / db,
            gap == amount(p) - e,
            db >= 1 as real,
    ;
    assert(distance(e / db) * db == distance(e)) by {
        lemma_distance_of_product(e / db, db);
        assert(e / db * db == e) by (nonlinear_arith)
            requires
                db >= 1 as real,
        ;
        assert(distance(db) == db) by {
            reveal(distance);
        }
    }
    assert(distance(gap / db) * db == distance(gap)) by {
        lemma_distance_of_product(gap / db, db);
        assert(gap / db * db == gap) by (nonlinear_arith)
            requires
                db >= 1 as real,
        ;
        assert(distance(db) == db) by {
            reveal(distance);
        }
    }
    let (x, y) = (distance(exact), distance(gap / db));
    lemma_distances(exact, gap / db);
    assert(y <= 2 as real * (u * x) + 2 as real * h) by (nonlinear_arith)
        requires
            y * db <= 2 as real * (u * (x * db)) + 2 as real * h,
            db >= 1 as real,
            h > 0 as real,
    ;
    lemma_finish(wide, rho, exact, shared);
    lemma_close(amount(q), shared, h);
    lemma_again(wide, rho, shared, amount(q));
    lemma_step(low, high, amount(d), rho, amount(q), amount(v));
}

/// One more rounding.
proof fn lemma_again(span: real, rho: real, p: real, q: real)
    requires
        0 as real <= rho <= 1 as real,
        distance(p - span * rho) <= 28 as real * (roundoff() * distance(span)) + 28 as real
            * least(),
        distance(q - p) <= 2 as real * (roundoff() * distance(p)) + 2 as real * least(),
    ensures
        distance(q - span * rho) <= 64 as real * (roundoff() * distance(span)) + 64 as real
            * least(),
{
    let (u, h) = (roundoff(), least());
    let s = distance(span);
    lemma_least_is_small();
    lemma_part(s);
    lemma_distance_of_product(span, rho);
    lemma_distances(span, rho);
    assert(distance(rho) == rho) by {
        reveal(distance);
    }
    assert(s * rho <= s) by (nonlinear_arith)
        requires
            rho <= 1 as real,
            s >= 0 as real,
    ;
    lemma_triangle(p, span * rho, 0 as real);
    lemma_distances(p, span * rho);
    let size = distance(p);
    assert(size <= 2 as real * s + 28 as real * h);
    assert(u * size <= 2 as real * (u * s) + h) by (nonlinear_arith)
        requires
            size <= 2 as real * s + 28 as real * h,
            u >= 0 as real,
            u <= 1 as real / 28 as real,
            h > 0 as real,
    ;
    lemma_triangle(q, p, span * rho);
}

} // verus!
