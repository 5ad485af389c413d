//! Rounded results beside exact ones: how many roundings a number is off.
use vstd::arithmetic::power2::{
    lemma2_to64, lemma2_to64_rest, lemma_pow2_adds, lemma_pow2_pos, lemma_pow2_unfold, pow2,
};
use vstd::prelude::*;

use crate::accuracy::{
    amount, distance, least, lemma_amount_of_sign, lemma_amount_of_whole, lemma_close,
    lemma_distance_of_product, lemma_distances, lemma_least_is_small, lemma_minus_accuracy,
    lemma_over_accuracy, lemma_part, lemma_plus_accuracy, lemma_times_accuracy, lemma_triangle,
    roundoff, trip_roundoff,
};
use crate::fits::{beyond, lemma_product_fits, lemma_quotient_fits, lemma_sum_fits, within};
use crate::fitting::lemma_two;
use crate::number::{lemma_from_int_is_finite, Number};
use crate::numerals::TWO;

verus! {

/// Whether a size is neither extremely small nor extremely great.
pub open spec fn is_ordinary(size: real) -> bool {
    size * pow2(300) as real >= 1 as real && size <= pow2(400) as real
}

/// Whether a number stands for an exact value of at most a size, off by at most
/// `k` roundings of that size.
pub open spec fn stands_for(x: Number, value: real, size: real, k: nat) -> bool {
    &&& x.is_finite()
    &&& is_ordinary(size)
    &&& distance(value) <= size
    &&& distance(amount(x) - value) <= k as real * (roundoff() * size)
}

/// Whether a number is an exact value up to rounding of a size: a tiny part of
/// it.
pub open spec fn is_about(x: Number, value: real, size: real) -> bool {
    x.is_finite() && distance(amount(x) - value) <= trip_roundoff() * size
}

/// What stands for a value is about it.
pub proof fn lemma_about(x: Number, value: real, size: real, k: nat)
    requires
        stands_for(x, value, size, k),
        k <= 512,
    ensures
        is_about(x, value, size),
{
    let u = roundoff();
    lemma_ordinary(size);
    let us = u * size;
    assert(trip_roundoff() * size == 512 as real * us) by (nonlinear_arith)
        requires
            trip_roundoff() == 1 as real / 17592186044416 as real,
            u == 1 as real / 9007199254740992 as real,
            us == u * size,
    ;
    assert(k as real * us <= 512 as real * us) by (nonlinear_arith)
        requires
            k as real <= 512 as real,
            us >= 0 as real,
    ;
}

/// An ordinary size is far above what is lost below the smallest numbers.
proof fn lemma_ordinary(size: real)
    requires
        is_ordinary(size),
    ensures
        size > 0 as real,
        roundoff() * size > 0 as real,
        roundoff() * size * 9007199254740992 as real == size,
        least() > 0 as real,
        4 as real * least() <= roundoff() * size,
{
    let (u, h) = (roundoff(), least());
    let p = pow2(300) as real;
    lemma_pow2_pos(300);
    lemma_least_is_small();
    lemma_part(size);
    assert(size > 0 as real) by (nonlinear_arith)
        requires
            size * p >= 1 as real,
            p > 0 as real,
    ;
    assert(u * size > 0 as real) by (nonlinear_arith)
        requires
            size > 0 as real,
            u > 0 as real,
    ;
    // Two to the 1075th is two to the 300th, the 53rd, the 2nd and more.
    lemma_pow2_adds(300, 774);
    lemma_pow2_adds(55, 719);
    lemma_pow2_pos(719);
    lemma_pow2_pos(1074);
    lemma2_to64();
    lemma2_to64_rest();
    assert(pow2(55) == 36028797018963968);
    let (a, b, c) = (pow2(774) as real, pow2(719) as real, pow2(1074) as real);
    assert(pow2(774) >= 36028797018963968) by (nonlinear_arith)
        requires
            pow2(774) == pow2(55) * pow2(719),
            pow2(55) == 36028797018963968,
            pow2(719) >= 1,
    ;
    assert(c == p * a) by (nonlinear_arith)
        requires
            pow2(1074) == pow2(300) * pow2(774),
            c == pow2(1074) as real,
            p == pow2(300) as real,
            a == pow2(774) as real,
    ;
    assert(h * c == 1 as real / 2 as real) by (nonlinear_arith)
        requires
            h == (1 as real / 2 as real) / c,
            c > 0 as real,
    ;
    assert(4 as real * h <= u * size) by (nonlinear_arith)
        requires
            h * c == 1 as real / 2 as real,
            c == p * a,
            a >= 36028797018963968 as real,
            size * p >= 1 as real,
            u == 1 as real / 9007199254740992 as real,
            h > 0 as real,
            p > 0 as real,
            size > 0 as real,
    ;
}

/// What stands for a value is at most twice its size.
proof fn lemma_bounded(x: Number, value: real, size: real, k: nat)
    requires
        stands_for(x, value, size, k),
        k <= 1000,
    ensures
        distance(amount(x)) <= 2 as real * size,
        within(x, 401),
{
    lemma_ordinary(size);
    let us = roundoff() * size;
    lemma_triangle(amount(x), value, 0 as real);
    lemma_distances(amount(x), value);
    assert(k as real * us <= 1000 as real * us) by (nonlinear_arith)
        requires
            k as real <= 1000 as real,
            us >= 0 as real,
    ;
    lemma_pow2_unfold(401);
}

/// A number stands for itself.
pub proof fn lemma_exactly_stands(x: Number, size: real)
    requires
        x.is_finite(),
        is_ordinary(size),
        distance(amount(x)) <= size,
    ensures
        stands_for(x, amount(x), size, 0),
{
    reveal(distance);
    assert(0 as real * (roundoff() * size) == 0 as real) by (nonlinear_arith);
}

/// A whole number stands for itself up to a few roundings.
pub proof fn lemma_whole_stands(n: int, size: real)
    requires
        0 <= n <= 0x1_0000_0000_0000_0000,
        is_ordinary(size),
        n as real <= size,
    ensures
        stands_for(Number::spec_from_int(n), n as real, size, 2),
{
    let x = Number::spec_from_int(n);
    lemma_from_int_is_finite(n);
    lemma_amount_of_whole(n);
    lemma_ordinary(size);
    lemma_close(amount(x), n as real, 0 as real);
    let u = roundoff();
    assert(distance(n as real) == n as real) by {
        reveal(distance);
    }
    assert(u * n as real <= u * size) by (nonlinear_arith)
        requires
            n as real <= size,
            u >= 0 as real,
    ;
}

/// Sizes from a millionth of a millionth of a millionth of a millionth up to two
/// to the 399th are ordinary.
pub proof fn lemma_ordinary_size(size: real)
    requires
        size >= 1 as real / 1000000000000000000000000 as real,
        size <= pow2(399) as real,
    ensures
        is_ordinary(size),
{
    lemma_pow2_adds(60, 60);
    lemma_pow2_adds(120, 180);
    lemma_pow2_pos(180);
    lemma_pow2_unfold(400);
    lemma_pow2_pos(399);
    lemma2_to64();
    lemma2_to64_rest();
    assert(pow2(60) == 1152921504606846976);
    assert(pow2(300) >= 1000000000000000000000000) by (nonlinear_arith)
        requires
            pow2(300) == (pow2(60) * pow2(60)) * pow2(180),
            pow2(60) == 1152921504606846976,
            pow2(180) >= 1,
    ;
    let p = pow2(300) as real;
    assert(size * p >= 1 as real) by (nonlinear_arith)
        requires
            size >= 1 as real / 1000000000000000000000000 as real,
            p >= 1000000000000000000000000 as real,
    ;
}

/// The sizes that moderate numbers have together are ordinary.
pub proof fn lemma_ordinary_sizes(s: real)
    requires
        1 as real <= s,
        s <= 16 as real * pow2(200) as real,
    ensures
        is_ordinary(s / 2 as real),
        is_ordinary(s),
        is_ordinary(2 as real * s),
        is_ordinary(4 as real * s),
        is_ordinary(8 as real * s),
        is_ordinary(16 as real * s),
        is_ordinary(32 as real * s),
{
    lemma_pow2_adds(200, 199);
    lemma_pow2_adds(9, 190);
    lemma_pow2_pos(190);
    lemma2_to64();
    let (a, b) = (pow2(200) as real, pow2(199) as real);
    assert(pow2(199) >= 512) by (nonlinear_arith)
        requires
            pow2(199) == pow2(9) * pow2(190),
            pow2(9) == 512,
            pow2(190) >= 1,
    ;
    assert(pow2(399) as real == a * b) by (nonlinear_arith)
        requires
            pow2(399) == pow2(200) * pow2(199),
            a == pow2(200) as real,
            b == pow2(199) as real,
    ;
    assert(32 as real * s <= a * b) by (nonlinear_arith)
        requires
            s <= 16 as real * a,
            b >= 512 as real,
            a >= 0 as real,
    ;
    lemma_ordinary_size(s / 2 as real);
    lemma_ordinary_size(s);
    lemma_ordinary_size(2 as real * s);
    lemma_ordinary_size(4 as real * s);
    lemma_ordinary_size(8 as real * s);
    lemma_ordinary_size(16 as real * s);
    lemma_ordinary_size(32 as real * s);
}

/// The size of two numbers together, and one.
pub open spec fn size_of(a: Number, b: Number) -> real {
    distance(amount(a)) + distance(amount(b)) + 1 as real
}

/// A number beside half of another, on either side, and beside the whole of it.
pub proof fn lemma_beside(c: Number, d: Number)
    requires
        within(c, 200),
        within(d, 200),
    ensures
        is_about(c.plus(d), amount(c) + amount(d), 2 as real * size_of(c, d)),
        is_about(c.minus(d), amount(c) - amount(d), 2 as real * size_of(c, d)),
        is_about(
            c.minus(d.over(Number::from_bits(TWO))),
            amount(c) - amount(d) / 2 as real,
            2 as real * size_of(c, d),
        ),
        is_about(
            c.plus(d.over(Number::from_bits(TWO))),
            amount(c) + amount(d) / 2 as real,
            2 as real * size_of(c, d),
        ),
        is_about(
            d.over(Number::from_bits(TWO)),
            amount(d) / 2 as real,
            2 as real * size_of(c, d),
        ),
{
    let s = size_of(c, d);
    let half = d.over(Number::from_bits(TWO));
    let (x, y) = (amount(c), amount(d));
    lemma_distances(x, y);
    lemma_distances(y, x);
    lemma_pow2_pos(200);
    lemma_ordinary_sizes(s);
    lemma_exactly_stands(c, s);
    lemma_exactly_stands(d, s);
    lemma_stands_sum(c, x, s, d, y, s, 0);
    lemma_stands_half(d, y, s, 0);
    lemma_stands_more(half, y / 2 as real, s / 2 as real, 12, s, 12);
    lemma_stands_more(c, x, s, 0, s, 12);
    lemma_stands_sum(c, x, s, half, y / 2 as real, s, 12);
    assert(s + s == 2 as real * s);
    lemma_about(c.plus(d), x + y, 2 as real * s, 8);
    lemma_about(c.minus(d), x - y, 2 as real * s, 8);
    lemma_about(c.plus(half), x + y / 2 as real, 2 as real * s, 20);
    lemma_about(c.minus(half), x - y / 2 as real, 2 as real * s, 20);
    lemma_stands_more(half, y / 2 as real, s, 12, 2 as real * s, 12);
    lemma_about(half, y / 2 as real, 2 as real * s, 12);
}

/// The number two stands for two.
pub proof fn lemma_two_stands()
    ensures
        stands_for(Number::from_bits(TWO), 2 as real, 2 as real, 0),
        distance(2 as real) == 2 as real,
{
    lemma_two();
    lemma_pow2_pos(399);
    lemma_pow2_unfold(399);
    lemma_pow2_pos(398);
    reveal(distance);
    lemma_ordinary_size(2 as real);
    lemma_exactly_stands(Number::from_bits(TWO), 2 as real);
}

/// Half of what stands for a value.
pub proof fn lemma_stands_half(a: Number, v: real, s: real, k: nat)
    requires
        stands_for(a, v, s, k),
        k <= 1000,
        is_ordinary(s / 2 as real),
    ensures
        stands_for(a.over(Number::from_bits(TWO)), v / 2 as real, s / 2 as real, k + 12),
{
    lemma_two_stands();
    lemma_stands_quotient(a, v, s, k, Number::from_bits(TWO), 2 as real, 0);
}

/// What stands for a value stands for it at a greater size and with more
/// roundings.
pub proof fn lemma_stands_more(x: Number, value: real, size: real, k: nat, more: real, j: nat)
    requires
        stands_for(x, value, size, k),
        size <= more,
        is_ordinary(more),
        k <= j,
    ensures
        stands_for(x, value, more, j),
{
    lemma_ordinary(size);
    let u = roundoff();
    assert(k as real * (u * size) <= j as real * (u * more)) by (nonlinear_arith)
        requires
            k as real <= j as real,
            k as real >= 0 as real,
            0 as real <= size <= more,
            u >= 0 as real,
    ;
}

/// The sum of what stands for two values.
pub proof fn lemma_stands_sum(
    a: Number,
    v: real,
    s: real,
    b: Number,
    w: real,
    t: real,
    k: nat,
)
    requires
        stands_for(a, v, s, k),
        stands_for(b, w, t, k),
        k <= 1000,
        is_ordinary(s + t),
    ensures
        stands_for(a.plus(b), v + w, s + t, k + 8),
        stands_for(a.minus(b), v - w, s + t, k + 8),
{
    lemma_bounded(a, v, s, k);
    lemma_bounded(b, w, t, k);
    lemma_amount_of_sign(b);
    lemma_sum_fits(a, b, 401);
    lemma_plus_accuracy(a, b);
    lemma_minus_accuracy(a, b);
    lemma_ordinary(s + t);
    lemma_ordinary(s);
    lemma_ordinary(t);
    let u = roundoff();
    let size = s + t;
    let us = u * size;
    assert(u * s + u * t == us) by (nonlinear_arith)
        requires
            us == u * size,
            size == s + t,
    ;
    let m = k as real;
    assert(m * (u * s) + m * (u * t) == m * us) by (nonlinear_arith)
        requires
            u * s + u * t == us,
    ;
    lemma_close(amount(a.plus(b)), amount(a) + amount(b), 0 as real);
    lemma_close(amount(a.minus(b)), amount(a) - amount(b), 0 as real);
    lemma_distances(amount(a), amount(b));
    lemma_distances(v, w);
    let (x, y) = (distance(amount(a) + amount(b)), distance(amount(a) - amount(b)));
    assert(u * x <= 2 as real * us && u * y <= 2 as real * us) by (nonlinear_arith)
        requires
            x <= 2 as real * size,
            y <= 2 as real * size,
            us == u * size,
            u >= 0 as real,
    ;
    lemma_distances(amount(a) - v, amount(b) - w);
    lemma_triangle(amount(a.plus(b)), amount(a) + amount(b), v + w);
    lemma_triangle(amount(a.minus(b)), amount(a) - amount(b), v - w);
    assert((amount(a) + amount(b)) - (v + w) == (amount(a) - v) + (amount(b) - w));
    assert((amount(a) - amount(b)) - (v - w) == (amount(a) - v) - (amount(b) - w));
    assert((k + 8) as real * us == m * us + 8 as real * us) by (nonlinear_arith)
        requires
            (k + 8) as real == m + 8 as real,
    ;
}

/// The product of what stands for two values.
pub proof fn lemma_stands_product(
    a: Number,
    v: real,
    s: real,
    j: nat,
    b: Number,
    w: real,
    t: real,
    k: nat,
)
    requires
        stands_for(a, v, s, j),
        stands_for(b, w, t, k),
        j <= 1000,
        k <= 1000,
        is_ordinary(s * t),
    ensures
        stands_for(a.times(b), v * w, s * t, j + k + 8),
{
    lemma_bounded(a, v, s, j);
    lemma_bounded(b, w, t, k);
    lemma_product_fits(a, b, 401, 401);
    lemma_times_accuracy(a, b);
    lemma_ordinary(s * t);
    lemma_ordinary(s);
    lemma_ordinary(t);
    let (u, h) = (roundoff(), least());
    let (x, y) = (amount(a), amount(b));
    let size = s * t;
    let us = u * size;
    let (al, be) = (x - v, y - w);
    assert(x * y - v * w == al * y + v * be) by (nonlinear_arith)
        requires
            al == x - v,
            be == y - w,
    ;
    lemma_distance_of_product(al, y);
    lemma_distance_of_product(v, be);
    lemma_distance_of_product(x, y);
    lemma_distance_of_product(v, w);
    lemma_distances(al * y, v * be);
    lemma_distances(al, be);
    lemma_distances(x, y);
    lemma_distances(v, w);
    let (da, db, dx, dy, dv, dw) = (
        distance(al),
        distance(be),
        distance(x),
        distance(y),
        distance(v),
        distance(w),
    );
    lemma_triangle(y, w, 0 as real);
    let (m, n) = (j as real, k as real);
    // The second factor is off by no more than a thousandth of its size.
    assert(db <= t / 1000 as real) by {
        assert(n * (u * t) <= 1000 as real * (u * t)) by (nonlinear_arith)
            requires
                n <= 1000 as real,
                u * t >= 0 as real,
        ;
    }
    assert(dy <= t + t / 1000 as real);
    assert(da * dy <= m * us + us) by (nonlinear_arith)
        requires
            0 as real <= da <= m * (u * s),
            0 as real <= dy <= t + t / 1000 as real,
            us == u * size,
            size == s * t,
            0 as real <= m <= 1000 as real,
            u * s > 0 as real,
            t > 0 as real,
    ;
    assert(dv * db <= n * us) by (nonlinear_arith)
        requires
            0 as real <= dv <= s,
            0 as real <= db <= n * (u * t),
            us == u * size,
            size == s * t,
            n >= 0 as real,
            u * t > 0 as real,
    ;
    assert(dv * dw <= size) by (nonlinear_arith)
        requires
            0 as real <= dv <= s,
            0 as real <= dw <= t,
            size == s * t,
    ;
    let p = amount(a.times(b));
    lemma_close(p, x * y, h);
    let dp = distance(x * y);
    assert(dp <= 2 as real * size + size) by (nonlinear_arith)
        requires
            dp == dx * dy,
            0 as real <= dx <= 2 as real * s,
            0 as real <= dy <= t + t / 1000 as real,
            size == s * t,
            s > 0 as real,
            t > 0 as real,
    ;
    assert(u * dp <= 3 as real * us) by (nonlinear_arith)
        requires
            dp <= 2 as real * size + size,
            us == u * size,
            u >= 0 as real,
    ;
    lemma_triangle(p, x * y, v * w);
    assert((j + k + 8) as real * us == m * us + n * us + 8 as real * us) by (nonlinear_arith)
        requires
            (j + k + 8) as real == m + n + 8 as real,
    ;
}

/// The quotient of what stands for two values.
pub proof fn lemma_stands_quotient(
    a: Number,
    v: real,
    s: real,
    j: nat,
    b: Number,
    w: real,
    k: nat,
)
    requires
        stands_for(a, v, s, j),
        stands_for(b, w, distance(w), k),
        j <= 1000,
        k <= 1000,
        is_ordinary(s / distance(w)),
    ensures
        w != 0 as real,
        b.magnitude() != 0,
        stands_for(a.over(b), v / w, s / distance(w), j + k + 12),
{
    let t = distance(w);
    lemma_bounded(a, v, s, j);
    lemma_bounded(b, w, t, k);
    lemma_ordinary(s);
    lemma_ordinary(t);
    lemma_ordinary(s / t);
    assert(w != 0 as real) by {
        reveal(distance);
    }
    let (u, h) = (roundoff(), least());
    let (x, y) = (amount(a), amount(b));
    let (m, n) = (j as real, k as real);
    let be = y - w;
    let db = distance(be);
    assert(db <= t / 1000 as real) by {
        assert(n * (u * t) <= 1000 as real * (u * t)) by (nonlinear_arith)
            requires
                n <= 1000 as real,
                u * t >= 0 as real,
        ;
    }
    let dy = distance(y);
    lemma_distances(y, w);
    lemma_triangle(w, y, 0 as real);
    lemma_distances(w, y);
    assert(dy >= t - t / 1000 as real);
    // The divisor is not small.
    let q3 = pow2(300) as real;
    lemma_pow2_unfold(301);
    lemma_pow2_pos(300);
    assert(dy * pow2(301) as real >= 1 as real) by (nonlinear_arith)
        requires
            dy >= t - t / 1000 as real,
            t * q3 >= 1 as real,
            pow2(301) as real == 2 as real * q3,
            q3 > 0 as real,
            t > 0 as real,
    ;
    assert(beyond(b, 301));
    lemma_quotient_fits(a, b, 401, 301);
    lemma_over_accuracy(a, b);
    let size = s / t;
    let us = u * size;
    assert(size * t == s) by (nonlinear_arith)
        requires
            size == s / t,
            t > 0 as real,
    ;
    let (e, f) = (v / w, x / y);
    assert(e * w == v && f * y == x) by (nonlinear_arith)
        requires
            e == v / w,
            f == x / y,
            w != 0 as real,
            y != 0 as real,
    ;
    let al = x - v;
    assert((f - e) * y == al - e * be) by (nonlinear_arith)
        requires
            e * w == v,
            f * y == x,
            al == x - v,
            be == y - w,
    ;
    lemma_distance_of_product(f - e, y);
    lemma_distance_of_product(e, be);
    lemma_distance_of_product(e, w);
    lemma_distance_of_product(f, y);
    lemma_distances(al, e * be);
    lemma_distances(e, f);
    lemma_distances(f - e, be);
    let (da, de, g) = (distance(al), distance(e), distance(f - e));
    assert(de <= size) by (nonlinear_arith)
        requires
            de * t <= s,
            size * t == s,
            t > 0 as real,
    ;
    assert(de * db <= n * (us * t)) by (nonlinear_arith)
        requires
            0 as real <= de <= size,
            0 as real <= db <= n * (u * t),
            us == u * size,
            n >= 0 as real,
            u * t > 0 as real,
    ;
    assert(u * s == us * t) by (nonlinear_arith)
        requires
            us == u * size,
            size * t == s,
    ;
    let z = us * t;
    assert(g * dy <= (m + n) * z) by (nonlinear_arith)
        requires
            g * dy <= da + de * db,
            da <= m * z,
            de * db <= n * z,
    ;
    assert(g <= (m + n) * us + 3 as real * us) by (nonlinear_arith)
        requires
            g * dy <= (m + n) * z,
            z == us * t,
            dy >= t - t / 1000 as real,
            t > 0 as real,
            us > 0 as real,
            0 as real <= m <= 1000 as real,
            0 as real <= n <= 1000 as real,
            g >= 0 as real,
    ;
    let p = amount(a.over(b));
    lemma_close(p, f, h);
    let df = distance(f);
    assert(df <= 3 as real * size) by (nonlinear_arith)
        requires
            df * dy <= 2 as real * s,
            size * t == s,
            dy >= t - t / 1000 as real,
            t > 0 as real,
            size > 0 as real,
            df >= 0 as real,
    ;
    assert(u * df <= 3 as real * us) by (nonlinear_arith)
        requires
            df <= 3 as real * size,
            us == u * size,
            u >= 0 as real,
    ;
    lemma_triangle(p, f, e);
    assert((j + k + 12) as real * us == (m + n) * us + 12 as real * us) by (nonlinear_arith)
        requires
            (j + k + 12) as real == m + n + 12 as real,
    ;
}

} // verus!
