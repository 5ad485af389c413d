//! Positive quantities that are near each other, in proportion.
use vstd::prelude::*;

use crate::accuracy::{
    distance, least, lemma_close, lemma_distances, lemma_part, roundoff,
};

verus! {

/// Whether `x` is near a positive `y`: no farther from it than its part `e`.
pub open spec fn around(x: real, y: real, e: real) -> bool {
    &&& y > 0 as real
    &&& x - y <= e * y
    &&& y - x <= e * y
}

/// A rounded result of an exact one that is not near the smallest numbers.
pub proof fn lemma_rounded_around(x: real, y: real)
    requires
        y > 0 as real,
        least() <= roundoff() * y,
        least() >= 0 as real,
        distance(x - y) <= roundoff() * distance(x) + least(),
    ensures
        around(x, y, 4 as real * roundoff()),
        x > 0 as real,
{
    let z = roundoff() * y;
    lemma_close(x, y, z);
    lemma_part(y);
    lemma_distances(x, y);
    reveal(distance);
    assert(4 as real * roundoff() * y == 4 as real * z) by (nonlinear_arith)
        requires
            z == roundoff() * y,
    ;
}

/// What is near is near by any greater part.
pub proof fn lemma_around_more(x: real, y: real, e: real, f: real)
    requires
        around(x, y, e),
        e <= f,
    ensures
        around(x, y, f),
{
    assert(e * y <= f * y) by (nonlinear_arith)
        requires
            e <= f,
            y > 0 as real,
    ;
}

/// Near the near.
pub proof fn lemma_around_chain(x: real, y: real, z: real, e: real, f: real)
    requires
        around(x, y, e),
        around(y, z, f),
        0 as real <= e <= 1 as real / 4 as real,
        0 as real <= f <= 1 as real / 4 as real,
    ensures
        around(x, z, 2 as real * (e + f)),
{
    assert(x - z <= 2 as real * (e + f) * z && z - x <= 2 as real * (e + f) * z)
        by (nonlinear_arith)
        requires
            x - y <= e * y,
            y - x <= e * y,
            y - z <= f * z,
            z - y <= f * z,
            z > 0 as real,
            y > 0 as real,
            0 as real <= e <= 1 as real / 4 as real,
            0 as real <= f <= 1 as real / 4 as real,
    ;
}

/// Near the other way round.
pub proof fn lemma_around_back(x: real, y: real, e: real)
    requires
        around(x, y, e),
        0 as real <= e <= 1 as real / 4 as real,
    ensures
        around(y, x, 2 as real * e),
{
    assert(x >= y * (3 as real / 4 as real)) by (nonlinear_arith)
        requires
            y - x <= e * y,
            y > 0 as real,
            e <= 1 as real / 4 as real,
    ;
    assert(e * y <= 2 as real * e * x) by (nonlinear_arith)
        requires
            x >= y * (3 as real / 4 as real),
            y > 0 as real,
            e >= 0 as real,
    ;
}

/// What is shared over the near is near.
pub proof fn lemma_around_share(w: real, x: real, y: real, e: real)
    requires
        w > 0 as real,
        around(x, y, e),
        0 as real <= e <= 1 as real / 4 as real,
    ensures
        x > 0 as real,
        around(w / x, w / y, 2 as real * e),
{
    assert(x >= y * (3 as real / 4 as real)) by (nonlinear_arith)
        requires
            y - x <= e * y,
            y > 0 as real,
            e <= 1 as real / 4 as real,
    ;
    let (p, q) = (w / x, w / y);
    assert(p * x == w && q * y == w && p > 0 as real && q > 0 as real) by (nonlinear_arith)
        requires
            p == w / x,
            q == w / y,
            w > 0 as real,
            x > 0 as real,
            y > 0 as real,
    ;
    let r = e * q;
    assert((p - q) * x == q * (y - x)) by (nonlinear_arith)
        requires
            p * x == q * y,
    ;
    assert(p - q <= 2 as real * r) by (nonlinear_arith)
        requires
            (p - q) * x == q * (y - x),
            y - x <= e * y,
            x >= y * (3 as real / 4 as real),
            r == e * q,
            y > 0 as real,
            q > 0 as real,
            e >= 0 as real,
    ;
    assert(q - p <= 2 as real * r) by (nonlinear_arith)
        requires
            (p - q) * x == q * (y - x),
            x - y <= e * y,
            x >= y * (3 as real / 4 as real),
            r == e * q,
            y > 0 as real,
            q > 0 as real,
            e >= 0 as real,
    ;
    assert(2 as real * e * q == 2 as real * r) by (nonlinear_arith)
        requires
            r == e * q,
    ;
}

/// Halves of what is near are near, and doubles.
pub proof fn lemma_around_double(x: real, y: real, e: real)
    requires
        around(x, y / 2 as real, e),
    ensures
        around(2 as real * x, y, e),
{
    assert(2 as real * (e * (y / 2 as real)) == e * y) by (nonlinear_arith);
}

/// Multiples of what is near are near.
pub proof fn lemma_around_scaled(x: real, y: real, k: real, e: real)
    requires
        around(x, y, e),
        k > 0 as real,
    ensures
        around(x * k, y * k, e),
{
    assert(y * k > 0 as real && x * k - y * k <= e * (y * k) && y * k - x * k <= e * (y * k))
        by (nonlinear_arith)
        requires
            x - y <= e * y,
            y - x <= e * y,
            y > 0 as real,
            k > 0 as real,
    ;
}

/// A rounded result without underflow.
pub proof fn lemma_exactly_around(x: real, y: real)
    requires
        y > 0 as real,
        distance(x - y) <= roundoff() * distance(x),
    ensures
        around(x, y, 4 as real * roundoff()),
        x > 0 as real,
{
    let z = roundoff() * y;
    lemma_close(x, y, 0 as real);
    lemma_part(y);
    lemma_distances(x, y);
    reveal(distance);
    assert(4 as real * roundoff() * y == 4 as real * z) by (nonlinear_arith)
        requires
            z == roundoff() * y,
    ;
}

/// A rounded result that is itself not near the smallest numbers.
pub proof fn lemma_normal_around(x: real, y: real)
    requires
        x > 0 as real,
        2 as real * least() <= roundoff() * x,
        least() >= 0 as real,
        distance(x - y) <= roundoff() * distance(x) + least(),
    ensures
        around(x, y, 4 as real * roundoff()),
{
    let u = roundoff();
    lemma_part(x);
    lemma_part(y);
    assert(2 as real * y >= x) by {
        reveal(distance);
    }
    assert(2 as real * (u * y) >= u * x) by (nonlinear_arith)
        requires
            2 as real * y >= x,
            u >= 0 as real,
    ;
    lemma_rounded_around(x, y);
}

/// Sums with the same are as near.
pub proof fn lemma_around_beside(r: real, x: real, y: real, e: real)
    requires
        around(x, y, e),
        r > 0 as real,
        e >= 0 as real,
    ensures
        around(r + x, r + y, e),
{
    assert(e * y <= e * (r + y)) by (nonlinear_arith)
        requires
            e >= 0 as real,
            r > 0 as real,
    ;
}

} // verus!
