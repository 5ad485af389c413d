//! Rounding to binary floating point.
//!
//! A magnitude is a bit pattern without its sign: an exponent field above `k`
//! fraction bits, 52 of them in double precision and 23 in single precision.
//! Its value is counted in units of the smallest positive magnitude, so every
//! value here is a natural number and nothing is lost to approximation.
use vstd::arithmetic::div_mod::{
    lemma_div_by_self, lemma_div_is_ordered, lemma_fundamental_div_mod,
    lemma_fundamental_div_mod_converse,
};
use vstd::arithmetic::mul::*;
use vstd::arithmetic::power2::{
    lemma2_to64, lemma2_to64_rest, lemma_pow2_adds, lemma_pow2_pos, lemma_pow2_strictly_increases,
    lemma_pow2_unfold, pow2,
};
use vstd::bits::{lemma_u128_shr_is_div, lemma_u64_shl_is_mul};
use vstd::prelude::*;

verus! {

/// An offset that makes every exponent used while rounding nonnegative.
pub const OFFSET: i32 = 4000;

/// The value of a magnitude, in units of the smallest positive magnitude.
pub open spec fn units(k: nat, mag: nat) -> nat {
    if mag < pow2(k) {
        mag
    } else {
        ((pow2(k) + mag % pow2(k)) * pow2((mag / pow2(k) - 1) as nat)) as nat
    }
}

/// Whether `mag` is the magnitude nearest to the quotient `n / d`; a quotient
/// halfway between two magnitudes belongs to the even one.
pub open spec fn rounds_to(k: nat, n: nat, d: nat, mag: nat) -> bool {
    &&& mag > 0 ==> {
        let edge = (units(k, (mag - 1) as nat) + units(k, mag)) * d;
        edge < 2 * n || (edge == 2 * n && mag % 2 == 0)
    }
    &&& {
        let edge = (units(k, mag) + units(k, mag + 1)) * d;
        2 * n < edge || (2 * n == edge && mag % 2 == 0)
    }
}

/// The magnitude nearest to `n / d`.
pub open spec fn nearest(k: nat, n: nat, d: nat) -> nat {
    choose|mag: nat| rounds_to(k, n, d, mag)
}

/// The magnitude nearest to `n / d`, with everything too large at `top`, the
/// magnitude that stands for infinity.
pub open spec fn rounded(k: nat, top: nat, n: nat, d: nat) -> nat {
    if nearest(k, n, d) < top {
        nearest(k, n, d)
    } else {
        top
    }
}

/// Consecutive magnitudes have increasing values.
pub proof fn lemma_units_step(k: nat, mag: nat)
    ensures
        units(k, mag) < units(k, mag + 1),
{
    let f = pow2(k);
    lemma_pow2_pos(k);
    lemma2_to64();
    if mag + 1 < f {
    } else if mag < f {
        lemma_fundamental_div_mod_converse((mag + 1) as int, f as int, 1, 0);
        assert(units(k, mag + 1) == f * pow2(0));
        lemma_mul_basics_3(f as int);
    } else {
        let e = mag / f;
        let r = mag % f;
        lemma_fundamental_div_mod(mag as int, f as int);
        assert(e > 0) by (nonlinear_arith)
            requires
                mag == f * e + r,
                r < f,
                mag >= f,
                e >= 0,
        ;
        let p = pow2((e - 1) as nat);
        lemma_pow2_pos((e - 1) as nat);
        assert(units(k, mag) == (f + r) * p);
        if r + 1 < f {
            lemma_fundamental_div_mod_converse(
                (mag + 1) as int,
                f as int,
                e as int,
                (r + 1) as int,
            );
            assert(units(k, mag + 1) == (f + (r + 1) as nat) * p);
            assert((f + r) * p < (f + r + 1) * p) by (nonlinear_arith)
                requires
                    p > 0,
            ;
        } else {
            assert(f * (e + 1) == f * e + f) by (nonlinear_arith);
            lemma_fundamental_div_mod_converse((mag + 1) as int, f as int, (e + 1) as int, 0);
            assert(units(k, mag + 1) == f * pow2(e));
            lemma_pow2_unfold(e);
            assert((f + r) * p < f * (2 * p)) by (nonlinear_arith)
                requires
                    p > 0,
                    r + 1 == f,
            ;
        }
    }
}

/// Values grow with magnitudes.
pub proof fn lemma_units_increase(k: nat, a: nat, b: nat)
    requires
        a < b,
    ensures
        units(k, a) < units(k, b),
    decreases b - a,
{
    lemma_units_step(k, (b - 1) as nat);
    if a < b - 1 {
        lemma_units_increase(k, a, (b - 1) as nat);
    }
}

/// A quotient rounds to one magnitude only.
pub proof fn lemma_rounding_is_unique(k: nat, n: nat, d: nat, a: nat, b: nat)
    requires
        d > 0,
        rounds_to(k, n, d, a),
        rounds_to(k, n, d, b),
    ensures
        a == b,
{
    if a < b {
        lemma_rounding_is_ordered(k, n, d, a, b);
    } else if b < a {
        lemma_rounding_is_ordered(k, n, d, b, a);
    }
}

proof fn lemma_rounding_is_ordered(k: nat, n: nat, d: nat, a: nat, b: nat)
    requires
        d > 0,
        rounds_to(k, n, d, a),
        a < b,
    ensures
        !rounds_to(k, n, d, b),
{
    let top = units(k, a) + units(k, a + 1);
    let low = units(k, (b - 1) as nat) + units(k, b);
    if a + 1 < b {
        lemma_units_increase(k, a, (b - 1) as nat);
        lemma_units_increase(k, a + 1, b);
        assert(top * d < low * d) by (nonlinear_arith)
            requires
                top < low,
                d > 0,
        ;
    }
}

/// Every quotient rounds to some magnitude.
pub proof fn lemma_rounding_exists(k: nat, n: nat, d: nat)
    requires
        d > 0,
    ensures
        rounds_to(k, n, d, nearest(k, n, d)),
{
    let far = 2 * n + 1;
    lemma_units_reach(k, far);
    let edge = units(k, far) + units(k, far + 1);
    assert(2 * n < edge * d) by (nonlinear_arith)
        requires
            edge > 2 * n,
            d > 0,
    ;
    let mag = lemma_rounding_descends(k, n, d, far);
    assert(rounds_to(k, n, d, mag));
}

/// No magnitude is worth less than its own pattern.
pub proof fn lemma_units_reach(k: nat, mag: nat)
    ensures
        units(k, mag) >= mag,
    decreases mag,
{
    if mag > 0 {
        lemma_units_reach(k, (mag - 1) as nat);
        lemma_units_step(k, (mag - 1) as nat);
    }
}

/// From a magnitude that is not too small, downwards to the nearest.
proof fn lemma_rounding_descends(k: nat, n: nat, d: nat, from: nat) -> (mag: nat)
    requires
        ({
            let edge = (units(k, from) + units(k, from + 1)) * d;
            2 * n < edge || (2 * n == edge && from % 2 == 0)
        }),
    ensures
        rounds_to(k, n, d, mag),
    decreases from,
{
    if from == 0 {
        from
    } else {
        let edge = (units(k, (from - 1) as nat) + units(k, from)) * d;
        if 2 * n < edge || (2 * n == edge && (from - 1) % 2 == 0) {
            lemma_rounding_descends(k, n, d, (from - 1) as nat)
        } else {
            from
        }
    }
}

/// A greater quotient does not round to a lesser magnitude.
pub proof fn lemma_rounding_keeps_order(k: nat, n: nat, d: nat, more: nat, over: nat)
    requires
        d > 0,
        over > 0,
        n * over <= more * d,
    ensures
        nearest(k, n, d) <= nearest(k, more, over),
{
    lemma_rounding_exists(k, n, d);
    lemma_rounding_exists(k, more, over);
    let a = nearest(k, n, d);
    let b = nearest(k, more, over);
    if b < a {
        let low = units(k, (a - 1) as nat) + units(k, a);
        let high = units(k, b) + units(k, b + 1);
        if b + 1 < a {
            lemma_units_increase(k, b, (a - 1) as nat);
            lemma_units_increase(k, b + 1, a);
        }
        assert(low * d <= 2 * n);
        assert(2 * more <= high * over);
        assert(low * d * over <= 2 * n * over) by (nonlinear_arith)
            requires
                low * d <= 2 * n,
                over > 0,
        ;
        assert(2 * more * d <= high * over * d) by (nonlinear_arith)
            requires
                2 * more <= high * over,
                d > 0,
        ;
        assert(low <= high) by (nonlinear_arith)
            requires
                low * d * over <= 2 * n * over,
                2 * more * d <= high * over * d,
                n * over <= more * d,
                d > 0,
                over > 0,
        ;
        assert(low == high && a == b + 1);
        assert(2 * n == low * d && 2 * more == high * over) by (nonlinear_arith)
            requires
                low == high,
                low * d <= 2 * n,
                2 * more <= high * over,
                n * over <= more * d,
                d > 0,
                over > 0,
        ;
    }
}

/// A quotient that is at most a magnitude's value does not round above it.
pub proof fn lemma_rounding_at_most(k: nat, n: nat, d: nat, bound: nat)
    requires
        d > 0,
        n <= units(k, bound) * d,
    ensures
        nearest(k, n, d) <= bound,
{
    lemma_rounding_exists(k, n, d);
    let mag = nearest(k, n, d);
    if mag > bound {
        lemma_units_increase(k, bound, mag);
        if bound < mag - 1 {
            lemma_units_increase(k, bound, (mag - 1) as nat);
        }
        let edge = units(k, (mag - 1) as nat) + units(k, mag);
        assert(edge * d > 2 * (units(k, bound) * d)) by (nonlinear_arith)
            requires
                edge > 2 * units(k, bound),
                d > 0,
        ;
    }
}

/// A quotient that is at least a magnitude's value does not round below it.
pub proof fn lemma_rounding_at_least(k: nat, n: nat, d: nat, bound: nat)
    requires
        d > 0,
        n >= units(k, bound) * d,
    ensures
        nearest(k, n, d) >= bound,
{
    lemma_rounding_exists(k, n, d);
    let mag = nearest(k, n, d);
    if mag < bound {
        lemma_units_increase(k, mag, bound);
        if mag + 1 < bound {
            lemma_units_increase(k, mag + 1, bound);
        }
        let edge = units(k, mag) + units(k, mag + 1);
        assert(edge * d < 2 * (units(k, bound) * d)) by (nonlinear_arith)
            requires
                edge < 2 * units(k, bound),
                d > 0,
        ;
    }
}

/// What rounds a quotient rounds it in lowest terms too.
proof fn lemma_rounding_cancels(k: nat, n: nat, d: nat, c: nat, mag: nat)
    requires
        c > 0,
        rounds_to(k, (n * c) as nat, (d * c) as nat, mag),
    ensures
        rounds_to(k, n, d, mag),
{
    if mag > 0 {
        lemma_edges_cancel(units(k, (mag - 1) as nat) + units(k, mag), n, d, c);
    }
    lemma_edges_cancel(units(k, mag) + units(k, mag + 1), n, d, c);
}

proof fn lemma_edges_cancel(edge: nat, n: nat, d: nat, c: nat)
    requires
        c > 0,
    ensures
        edge * (d * c) < 2 * (n * c) <==> edge * d < 2 * n,
        edge * (d * c) == 2 * (n * c) <==> edge * d == 2 * n,
{
    let x: nat = edge * d;
    let y: nat = 2 * n;
    assert(edge * (d * c) == x * c) by (nonlinear_arith)
        requires
            x == edge * d,
    ;
    assert(2 * (n * c) == y * c) by (nonlinear_arith)
        requires
            y == 2 * n,
    ;
    assert(x * c < y * c <==> x < y) by (nonlinear_arith)
        requires
            c > 0,
    ;
    assert(x * c == y * c <==> x == y) by (nonlinear_arith)
        requires
            c > 0,
    ;
}

/// What a magnitude built from a scale and a significand is worth.
pub proof fn lemma_units_of_parts(k: nat, t: nat, sig: nat)
    requires
        sig <= 2 * pow2(k),
        t == 0 || pow2(k) <= sig,
    ensures
        units(k, (t * pow2(k) + sig) as nat) == sig * pow2(t),
{
    let f = pow2(k);
    let mag = (t * f + sig) as nat;
    lemma2_to64();
    lemma_pow2_pos(k);
    if t == 0 && sig < f {
        assert(pow2(0) == 1);
    } else if sig < 2 * f {
        assert(mag == (t + 1) * f + (sig - f)) by (nonlinear_arith)
            requires
                mag == t * f + sig,
        ;
        lemma_fundamental_div_mod_converse(
            mag as int,
            f as int,
            (t + 1) as int,
            (sig - f) as int,
        );
    } else {
        assert(mag == (t + 2) * f + 0) by (nonlinear_arith)
            requires
                mag == t * f + sig,
                sig == 2 * f,
        ;
        lemma_fundamental_div_mod_converse(
            mag as int,
            f as int,
            (t + 2) as int,
            0,
        );
        lemma_pow2_unfold(t + 1);
        assert(f * (2 * pow2(t)) == (2 * f) * pow2(t)) by (nonlinear_arith);
    }
}

/// Whether the quotient `n / d` is `m` times two to the `e`, or, where `sticky`
/// says that something was left over, lies strictly between that and the same
/// with `m + 1`.
pub open spec fn approximates(m: int, e: int, sticky: bool, n: nat, d: nat) -> bool {
    let whole = n * pow2(OFFSET as nat);
    let step = d * pow2((e + OFFSET) as nat);
    if sticky {
        m * step < whole < (m + 1) * step
    } else {
        whole == m * step
    }
}

/// Dropping the low `shift` bits of `m` and rounding on what they held gives
/// the nearest magnitude.
proof fn lemma_rounds(k: nat, m: nat, e: int, sticky: bool, shift: nat, sig: nat, n: nat, d: nat)
    requires
        k > 0,
        d > 0,
        shift > 0,
        e + shift >= 0,
        e + OFFSET >= 0,
        approximates(m as int, e, sticky, n, d),
        m / pow2(shift) < 2 * pow2(k),
        e + shift == 0 || pow2(k) <= m / pow2(shift),
        ({
            let q = m / pow2(shift);
            let twice = 2 * (m % pow2(shift));
            let up = twice > pow2(shift) || (twice == pow2(shift) && (sticky || q % 2 == 1));
            sig == if up {
                q + 1
            } else {
                q
            }
        }),
    ensures
        rounds_to(k, n, d, ((e + shift) * pow2(k) + sig) as nat),
{
    let t = (e + shift) as nat;
    let p = pow2(shift);
    let q = m / p;
    let rem = m % p;
    let c = pow2(OFFSET as nat);
    let step = d * pow2((e + OFFSET) as nat);
    let whole = n * c;
    let mag = (t * pow2(k) + sig) as nat;
    lemma_pow2_pos(shift);
    lemma_pow2_pos(OFFSET as nat);
    lemma_pow2_pos((e + OFFSET) as nat);
    lemma_mul_strictly_positive(d as int, pow2((e + OFFSET) as nat) as int);
    lemma_fundamental_div_mod(m as int, p as int);
    lemma_pow2_unfold(shift);
    assert(m == p * q + rem && rem < p);
    // What one step of the significand is worth, scaled.
    assert(pow2(t) * (d * c) == p * step) by {
        lemma_pow2_adds(t, OFFSET as nat);
        lemma_pow2_adds(shift, (e + OFFSET) as nat);
        assert(t + OFFSET == shift + (e + OFFSET));
        let a = pow2(t);
        let b = pow2((e + OFFSET) as nat);
        assert(a * c == p * b);
        assert(a * (d * c) == d * (a * c)) by (nonlinear_arith);
        assert(p * (d * b) == d * (p * b)) by (nonlinear_arith);
    }
    let unit = (p * step) as nat;
    lemma_units_of_parts(k, t, q);
    lemma_units_of_parts(k, t, q + 1);
    let lower = (t * pow2(k) + q) as nat;
    assert(t * pow2(k) + (q + 1) == lower + 1);
    lemma_units_step(k, lower);
    let dk = (d * c) as nat;
    lemma_mul_strictly_positive(d as int, c as int);
    assert(units(k, lower) * dk == q * unit) by {
        assert((q * pow2(t)) * dk == q * (pow2(t) * dk)) by (nonlinear_arith);
    }
    assert(units(k, lower + 1) * dk == (q + 1) * unit) by {
        assert(((q + 1) * pow2(t)) * dk == (q + 1) * (pow2(t) * dk)) by (nonlinear_arith);
    }
    assert((units(k, lower) + units(k, lower + 1)) * dk == (2 * q + 1) * unit) by (nonlinear_arith)
        requires
            units(k, lower) * dk == q * unit,
            units(k, lower + 1) * dk == (q + 1) * unit,
    ;
    let middle: nat = (2 * q + 1) * p;
    assert((2 * q + 1) * unit == middle * step) by (nonlinear_arith)
        requires
            unit == p * step,
            middle == (2 * q + 1) * p,
    ;
    assert(middle == 2 * (p * q) + p) by (nonlinear_arith)
        requires
            middle == (2 * q + 1) * p,
    ;
    assert(middle == 2 * m + p - 2 * rem);
    // Where the quotient stands against the middle.
    if 2 * rem < p {
        assert(p % 2 == 0);
        assert(middle >= 2 * m + 2);
        assert(middle * step >= (2 * m + 2) * step) by (nonlinear_arith)
            requires
                middle >= 2 * m + 2,
                step > 0,
        ;
        assert((2 * m + 2) * step == 2 * ((m + 1) * step)) by (nonlinear_arith);
        assert((m + 1) * step == m * step + step) by (nonlinear_arith);
        assert(2 * whole < middle * step);
    } else if 2 * rem > p {
        assert(middle * step < (2 * m) * step) by (nonlinear_arith)
            requires
                middle < 2 * m,
                step > 0,
        ;
        assert((2 * m) * step == 2 * (m * step)) by (nonlinear_arith);
        assert(2 * whole > middle * step);
    } else {
        assert(middle * step == 2 * (m * step)) by (nonlinear_arith)
            requires
                middle == 2 * m,
        ;
    }
    // The quotient lies between the two candidates.
    assert(q * unit <= whole) by {
        assert(q * unit == (p * q) * step) by (nonlinear_arith)
            requires
                unit == p * step,
        ;
        assert((p * q) * step <= m * step) by (nonlinear_arith)
            requires
                p * q <= m,
                step > 0,
        ;
    }
    assert((q + 1) * unit > whole) by {
        assert((q + 1) * unit == (p * q + p) * step) by (nonlinear_arith)
            requires
                unit == p * step,
        ;
        assert((p * q + p) * step >= (m + 1) * step) by (nonlinear_arith)
            requires
                p * q + p >= m + 1,
                step > 0,
        ;
        assert((m + 1) * step == m * step + step) by (nonlinear_arith);
    }
    assert(mag % 2 == sig % 2) by {
        lemma_pow2_unfold(k);
        let half = pow2((k - 1) as nat);
        assert(mag == 2 * (t * half) + sig) by (nonlinear_arith)
            requires
                mag == t * pow2(k) + sig,
                pow2(k) == 2 * half,
        ;
    }
    if sig == q {
        if mag > 0 {
            let below = units(k, (mag - 1) as nat);
            lemma_units_step(k, (mag - 1) as nat);
            assert((below + units(k, mag)) * dk < 2 * (units(k, mag) * dk)) by (nonlinear_arith)
                requires
                    below < units(k, mag),
                    dk > 0,
            ;
        }
    } else {
        let above = units(k, mag + 1);
        lemma_units_step(k, mag);
        assert((above + units(k, mag)) * dk > 2 * (units(k, mag) * dk)) by (nonlinear_arith)
            requires
                above > units(k, mag),
                dk > 0,
        ;
    }
    assert(rounds_to(k, whole, dk, mag));
    lemma_rounding_cancels(k, n, d, c, mag);
}

/// Two to the `k`.
pub fn power(k: u32) -> (p: u128)
    requires
        k < 128,
    ensures
        p == pow2(k as nat),
{
    proof {
        lemma2_to64();
    }
    if k < 64 {
        proof {
            lemma_pow2_strictly_increases(k as nat, 64);
            lemma_mul_basics_3(pow2(k as nat) as int);
            lemma_u64_shl_is_mul(1, k as u64);
        }
        (1u64 << (k as u64)) as u128
    } else {
        let low: u32 = k - 64;
        proof {
            lemma_pow2_strictly_increases(low as nat, 64);
            lemma_mul_basics_3(pow2(low as nat) as int);
            lemma_u64_shl_is_mul(1, low as u64);
            lemma_pow2_adds(low as nat, 64);
        }
        ((1u64 << (low as u64)) as u128) * 0x1_0000_0000_0000_0000
    }
}

/// How many bits it takes to write `m`.
pub fn bit_length(m: u128) -> (len: u32)
    requires
        m > 0,
    ensures
        1 <= len <= 128,
        pow2((len - 1) as nat) <= m < pow2(len as nat),
{
    let mut rest: u128 = m;
    let mut len: u32 = 0;
    let mut step: u32 = 64;
    proof {
        lemma2_to64();
        lemma_pow2_adds(64, 64);
        assert(pow2(0) == 1);
    }
    while step > 0
        invariant
            step <= 64,
            step == 64 || step == 32 || step == 16 || step == 8 || step == 4 || step == 2 || step
                == 1 || step == 0,
            0 < rest < pow2(if step == 0 { 1 } else { (2 * step) as nat }),
            len <= 128 - if step == 0 { 1 } else { 2 * step },
            rest * pow2(len as nat) <= m < (rest + 1) * pow2(len as nat),
        decreases step,
    {
        let half = power(step);
        if rest >= half {
            let next = rest >> (step as u128);
            proof {
                lemma_u128_shr_is_div(rest, step as u128);
                lemma_pow2_adds(step as nat, step as nat);
                lemma_pow2_adds(step as nat, len as nat);
                lemma_pow2_pos(step as nat);
                lemma_pow2_pos(len as nat);
                lemma_fundamental_div_mod(rest as int, half as int);
                let p = pow2(len as nat);
                let h = half as nat;
                assert(next >= 1 && next < h) by (nonlinear_arith)
                    requires
                        rest == h * next + rest % half,
                        0 <= rest % half < h,
                        h <= rest < h * h,
                ;
                assert(next * (h * p) <= rest * p && (rest + 1) * p <= (next + 1) * (h * p))
                    by (nonlinear_arith)
                    requires
                        rest == h * next + rest % half,
                        0 <= rest % half < h,
                        p > 0,
                        h > 0,
                ;
            }
            rest = next;
            len = len + step;
        }
        step = step / 2;
    }
    proof {
        lemma_pow2_unfold((len + 1) as nat);
        assert(rest == 1);
        assert(1 * pow2(len as nat) == pow2(len as nat)) by (nonlinear_arith);
    }
    len + 1
}

/// The magnitude nearest to the quotient that `m`, `e` and `sticky` stand for,
/// with `width` fraction bits and infinity at `top`.
pub fn round(
    width: u32,
    top: u64,
    m: u128,
    e: i32,
    sticky: bool,
    Ghost(n): Ghost<nat>,
    Ghost(d): Ghost<nat>,
) -> (mag: u64)
    requires
        1 < width <= 52,
        0 < top,
        0x40_0000_0000_0000 <= m < 0x8000_0000_0000_0000_0000_0000_0000_0000,
        -3000 <= e <= 3200,
        d > 0,
        approximates(m as int, e as int, sticky, n, d),
    ensures
        mag == rounded(width as nat, top as nat, n, d),
        mag <= top,
{
    let ghost k = width as nat;
    let len = bit_length(m);
    proof {
        lemma2_to64();
        lemma2_to64_rest();
        lemma_pow2_adds(63, 64);
        if len < 55 {
            lemma_pow2_increases(len as nat, 54);
        }
        if len > 127 {
            lemma_pow2_increases(127, (len - 1) as nat);
        }
    }
    let wanted: i32 = len as i32 - width as i32 - 1;
    let shift: i32 = if e + wanted < 0 {
        -e
    } else {
        wanted
    };
    if shift > 127 {
        proof {
            lemma_tiny(k, m as nat, e as int, sticky, n, d);
            assert(rounds_to(k, n, d, 0));
            lemma_rounding_is_unique(k, n, d, 0, nearest(k, n, d));
        }
        return 0;
    }
    let p = power(shift as u32);
    let q = m >> (shift as u128);
    let f = power(width) as u64;
    proof {
        lemma_u128_shr_is_div(m, shift as u128);
        lemma_pow2_pos(shift as nat);
        lemma_pow2_adds(k + 1, wanted as nat);
        lemma_pow2_adds(k, wanted as nat);
        lemma_pow2_unfold(k + 1);
        lemma_pow2_increases(k, 52);
        lemma_pow2_increases(wanted as nat, shift as nat);
        lemma_fundamental_div_mod(m as int, p as int);
        let high = pow2(k + 1) as int;
        assert(q < high) by (nonlinear_arith)
            requires
                m == p * q + m % p,
                0 <= m % p,
                m < high * pow2(wanted as nat),
                pow2(wanted as nat) <= p,
                high > 0,
        ;
        if shift == wanted {
            let low = pow2(k) as int;
            assert(q >= low) by (nonlinear_arith)
                requires
                    m == p * q + m % p,
                    m % p < p,
                    m >= low * p,
            ;
        }
        assert(p * q <= m);
        lemma_mul_is_commutative(p as int, q as int);
    }
    let rem: u128 = m - q * p;
    proof {
        lemma_pow2_unfold(shift as nat);
    }
    let half: u128 = p / 2;
    let up = rem > half || (rem == half && (sticky || q % 2 == 1));
    let sig: u64 = if up {
        q as u64 + 1
    } else {
        q as u64
    };
    let t: u64 = (e + shift) as u64;
    proof {
        lemma_mul_upper_bound(t as int, 3400, f as int, 0x10_0000_0000_0000);
    }
    let mag: u64 = t * f + sig;
    proof {
        assert(rem == m % p);
        lemma_rounds(k, m as nat, e as int, sticky, shift as nat, sig as nat, n, d);
        assert(rounds_to(k, n, d, mag as nat));
        lemma_rounding_is_unique(k, n, d, mag as nat, nearest(k, n, d));
    }
    if mag < top {
        mag
    } else {
        top
    }
}

pub proof fn lemma_pow2_increases(a: nat, b: nat)
    requires
        a <= b,
    ensures
        pow2(a) <= pow2(b),
{
    if a < b {
        lemma_pow2_strictly_increases(a, b);
    }
}

/// What lies below half a unit rounds to nothing.
proof fn lemma_tiny(k: nat, m: nat, e: int, sticky: bool, n: nat, d: nat)
    requires
        k > 0,
        d > 0,
        m < 0x8000_0000_0000_0000_0000_0000_0000_0000,
        -OFFSET <= e <= -128,
        approximates(m as int, e, sticky, n, d),
    ensures
        rounds_to(k, n, d, 0),
{
    let c = pow2(OFFSET as nat);
    let b = pow2((e + OFFSET) as nat);
    let step = d * b;
    lemma2_to64();
    lemma2_to64_rest();
    lemma_pow2_adds(63, 64);
    lemma_pow2_pos((e + OFFSET) as nat);
    lemma_pow2_adds(128, (e + OFFSET) as nat);
    lemma_pow2_adds(64, 64);
    lemma_pow2_increases((128 + e + OFFSET) as nat, OFFSET as nat);
    lemma_pow2_pos(OFFSET as nat);
    lemma_mul_strictly_positive(d as int, b as int);
    let top = pow2(128);
    assert(2 * ((m + 1) * step) <= top * step) by (nonlinear_arith)
        requires
            2 * (m + 1) <= top,
            step > 0,
    ;
    assert(top * step == d * (top * b)) by (nonlinear_arith)
        requires
            step == d * b,
    ;
    assert(d * (top * b) <= d * c) by (nonlinear_arith)
        requires
            top * b <= c,
            d > 0,
    ;
    assert((m + 1) * step == m * step + step) by (nonlinear_arith);
    assert(2 * (n * c) < d * c);
    assert(2 * n < d) by (nonlinear_arith)
        requires
            2 * (n * c) < d * c,
            c > 0,
    ;
    assert((0 + 1) * d == d) by (nonlinear_arith);
    if 1 < k {
        lemma_pow2_strictly_increases(1, k);
    }
}

/// The magnitude nearest to a quotient that is exactly `m` times two to the
/// `e`.
pub fn round_exact(
    width: u32,
    top: u64,
    m: u128,
    e: i32,
    Ghost(n): Ghost<nat>,
    Ghost(d): Ghost<nat>,
) -> (mag: u64)
    requires
        1 < width <= 52,
        0 < top,
        0 < m < 0x8000_0000_0000_0000_0000_0000_0000_0000,
        -2900 <= e <= 3200,
        d > 0,
        approximates(m as int, e as int, false, n, d),
    ensures
        mag == rounded(width as nat, top as nat, n, d),
        mag <= top,
{
    if m < 0x40_0000_0000_0000 {
        let wide: u128 = m * 0x1_0000_0000_0000_0000;
        proof {
            lemma2_to64();
            lemma_pow2_adds(64, (e - 64 + OFFSET) as nat);
            let b = pow2((e - 64 + OFFSET) as nat);
            let c = pow2(64);
            assert(m * (d * (c * b)) == (m * c) * (d * b)) by (nonlinear_arith);
        }
        round(width, top, wide, e - 64, false, Ghost(n), Ghost(d))
    } else {
        round(width, top, m, e, false, Ghost(n), Ghost(d))
    }
}

/// A magnitude taken apart into a significand and a scale.
pub fn parts(width: u32, mag: u64) -> (r: (u64, i32))
    requires
        1 < width <= 52,
        mag as nat / pow2(width as nat) < 2047,
    ensures
        r.0 < 2 * pow2(width as nat),
        0 <= r.1 <= 2045,
        r.1 > 0 ==> r.0 >= pow2(width as nat),
        units(width as nat, mag as nat) == r.0 * pow2(r.1 as nat),
        r.0 == 0 <==> mag == 0,
        r.1 == if mag < pow2(width as nat) {
            0
        } else {
            mag as nat / pow2(width as nat) - 1
        },
{
    let one = power(width) as u64;
    proof {
        lemma2_to64();
        lemma2_to64_rest();
        lemma_pow2_pos(width as nat);
        lemma_pow2_increases(width as nat, 52);
        lemma_fundamental_div_mod(mag as int, one as int);
    }
    let e: u64 = mag / one;
    let f: u64 = mag % one;
    if e == 0 {
        proof {
            lemma_mul_basics_3(f as int);
            assert(mag == f) by (nonlinear_arith)
                requires
                    mag == one * e + f,
                    e == 0,
            ;
        }
        (f, 0)
    } else {
        proof {
            assert(mag >= one) by (nonlinear_arith)
                requires
                    mag == one * e + f,
                    e >= 1,
                    f >= 0,
            ;
        }
        (one + f, (e - 1) as i32)
    }
}

/// A value that is a magnitude's own rounds to that magnitude.
pub proof fn lemma_rounding_is_exact(k: nat, top: nat, mag: nat)
    requires
        mag < top,
    ensures
        rounded(k, top, units(k, mag), 1) == mag,
{
    lemma_units_step(k, mag);
    if mag > 0 {
        lemma_units_step(k, (mag - 1) as nat);
        lemma_mul_basics_3((units(k, (mag - 1) as nat) + units(k, mag)) as int);
    }
    lemma_mul_basics_3((units(k, mag) + units(k, mag + 1)) as int);
    assert(rounds_to(k, units(k, mag), 1, mag));
    lemma_rounding_is_unique(k, units(k, mag), 1, mag, nearest(k, units(k, mag), 1));
}

/// Nothing rounds to nothing.
pub proof fn lemma_rounding_of_nothing(k: nat, top: nat, d: nat)
    requires
        k > 0,
        top > 0,
        d > 0,
    ensures
        rounded(k, top, 0, d) == 0,
{
    lemma_units_step(k, 0);
    lemma_pow2_pos(k);
    let one = units(k, 1);
    assert((0 + one) * d > 0) by (nonlinear_arith)
        requires
            one > 0,
            d > 0,
    ;
    assert(rounds_to(k, 0, d, 0));
    lemma_rounding_is_unique(k, 0, d, 0, nearest(k, 0, d));
}

/// A whole number of scaled steps, exactly.
pub proof fn lemma_exactly(m: nat, e: nat, n: nat)
    requires
        n == m * pow2(e),
    ensures
        approximates(m as int, e as int, false, n, 1),
{
    let k = pow2(OFFSET as nat);
    let b = pow2(e);
    lemma_pow2_adds(e, OFFSET as nat);
    assert((m * b) * k == m * (1 * (b * k))) by (nonlinear_arith);
}

/// Strictly between two neighbouring whole numbers of scaled steps.
pub proof fn lemma_between(m: nat, e: nat, n: nat)
    requires
        m * pow2(e) < n < (m + 1) * pow2(e),
    ensures
        approximates(m as int, e as int, true, n, 1),
{
    let k = pow2(OFFSET as nat);
    let b = pow2(e);
    lemma_pow2_adds(e, OFFSET as nat);
    lemma_pow2_pos(OFFSET as nat);
    assert((m * b) * k == m * (1 * (b * k))) by (nonlinear_arith);
    assert(((m + 1) * b) * k == (m + 1) * (1 * (b * k))) by (nonlinear_arith);
    assert((m * b) * k < n * k && n * k < ((m + 1) * b) * k) by (nonlinear_arith)
        requires
            m * b < n < (m + 1) * b,
            k > 0,
    ;
}

/// The absolute value.
pub open spec fn size(v: int) -> nat {
    if v < 0 {
        (-v) as nat
    } else {
        v as nat
    }
}

/// The sum of two finite magnitudes, rounded; the second, which is not the
/// larger, is taken away where `apart` says so.
pub fn combine(width: u32, top: u64, a: u64, b: u64, apart: bool) -> (mag: u64)
    requires
        1 < width <= 52,
        b <= a < top,
        a as nat / pow2(width as nat) < 2047,
    ensures
        ({
            let k = width as nat;
            let exact = units(k, a as nat) + if apart {
                -units(k, b as nat)
            } else {
                units(k, b as nat) as int
            };
            &&& exact >= 0
            &&& exact == 0 <==> mag == 0
            &&& exact > 0 ==> mag == rounded(k, top as nat, exact as nat, 1)
            &&& mag <= top
        }),
{
    let ghost k = width as nat;
    let ghost exact = units(k, a as nat) + if apart {
        -units(k, b as nat)
    } else {
        units(k, b as nat) as int
    };
    proof {
        lemma2_to64();
        lemma2_to64_rest();
        lemma_pow2_pos(k);
        lemma_pow2_increases(k, 52);
        lemma_div_is_ordered(b as int, a as int, pow2(k) as int);
        if b < a {
            lemma_units_increase(k, b as nat, a as nat);
        }
        lemma_units_step(k, 0);
    }
    let (ma, ea) = parts(width, a);
    let (mb, eb) = parts(width, b);
    proof {
        if b >= pow2(k) {
        } else if a >= pow2(k) {
            lemma_div_is_ordered(pow2(k) as int, a as int, pow2(k) as int);
            lemma_div_by_self(pow2(k) as int);
        }
    }
    let gap: i32 = ea - eb;
    proof {
        lemma_pow2_pos(eb as nat);
        lemma_pow2_adds(eb as nat, gap as nat);
        lemma_scaled(ma as nat, gap as nat, eb as nat);
    }
    if gap <= 73 {
        proof {
            lemma_pow2_increases(gap as nat, 73);
            lemma_pow2_adds(64, 9);
            lemma_mul_upper_bound(
                ma as int,
                0x20_0000_0000_0000,
                pow2(gap as nat) as int,
                pow2(73) as int,
            );
        }
        let big: u128 = ma as u128 * power(gap as u32);
        let small: u128 = mb as u128;
        proof {
            let p = pow2(eb as nat);
            assert(big * p == units(k, a as nat));
            assert(small * p == units(k, b as nat));
            assert((big + small) * p == big * p + small * p) by (nonlinear_arith);
            assert((big - small) * p == big * p - small * p) by (nonlinear_arith);
            if big < small {
                lemma_mul_strict_inequality(big as int, small as int, p as int);
            }
        }
        let m: u128 = if apart {
            big - small
        } else {
            big + small
        };
        proof {
            assert(exact == m * pow2(eb as nat));
            if m > 0 {
                lemma_mul_strictly_positive(m as int, pow2(eb as nat) as int);
            }
        }
        if m == 0 {
            assert(0 * pow2(eb as nat) == 0);
            return 0;
        }
        proof {
            lemma_exactly(m as nat, eb as nat, exact as nat);
        }
        let mag = round_exact(width, top, m, eb, Ghost(exact as nat), Ghost(1nat));
        proof {
            lemma_not_lost(k, exact as nat);
            lemma_rounding_exists(k, exact as nat, 1);
        }
        mag
    } else if mb == 0 {
        proof {
            assert(0 * pow2(eb as nat) == 0);
            lemma_rounding_is_exact(k, top as nat, a as nat);
            lemma_units_increase(k, 0, a as nat);
        }
        a
    } else {
        // The second magnitude is too small to matter beyond its being there.
        let lift: u32 = 72 - width;
        let e: i32 = ea - lift as i32;
        proof {
            lemma_far_apart(k, ma as nat, ea as nat, mb as nat, eb as nat);
            lemma_pow2_adds(k, lift as nat);
            lemma_pow2_adds(k + 1, lift as nat);
            lemma_pow2_unfold(k + 1);
            lemma_pow2_adds(64, 8);
            lemma_pow2_adds(64, 9);
            lemma_pow2_pos(lift as nat);
            lemma_mul_inequality(pow2(k) as int, ma as int, pow2(lift as nat) as int);
            lemma_mul_strict_inequality(ma as int, pow2(k + 1) as int, pow2(lift as nat) as int);
        }
        let wide: u128 = ma as u128 * power(lift);
        proof {
            lemma_not_lost(k, exact as nat);
            lemma_rounding_exists(k, exact as nat, 1);
        }
        if apart {
            let m: u128 = wide - 1;
            proof {
                lemma_between(m as nat, e as nat, exact as nat);
            }
            round(width, top, m, e, true, Ghost(exact as nat), Ghost(1nat))
        } else {
            proof {
                lemma_between(wide as nat, e as nat, exact as nat);
            }
            round(width, top, wide, e, true, Ghost(exact as nat), Ghost(1nat))
        }
    }
}

/// A whole number that is not zero does not round to zero.
proof fn lemma_not_lost(k: nat, n: nat)
    requires
        k > 0,
        n > 0,
    ensures
        !rounds_to(k, n, 1, 0),
{
    lemma2_to64();
    lemma_pow2_increases(1, k);
    assert(units(k, 0) == 0 && units(k, 1) == 1);
}

proof fn lemma_scaled(m: nat, gap: nat, e: nat)
    ensures
        m * pow2(e + gap) == (m * pow2(gap)) * pow2(e),
{
    lemma_pow2_adds(e, gap);
    let x = pow2(e);
    let y = pow2(gap);
    assert(m * (x * y) == (m * y) * x) by (nonlinear_arith);
}

/// A significand far below another, against a small step of the other.
proof fn lemma_far_apart(k: nat, ma: nat, ea: nat, mb: nat, eb: nat)
    requires
        1 < k <= 52,
        ea >= eb + 74,
        0 < mb < 2 * pow2(k),
        ma > 0,
    ensures
        ({
            let w = (ma * pow2((72 - k) as nat)) as nat;
            let p = pow2((ea - (72 - k)) as nat);
            &&& w * p == ma * pow2(ea)
            &&& w * p < ma * pow2(ea) + mb * pow2(eb) < (w + 1) * p
            &&& (w - 1) * p < ma * pow2(ea) - mb * pow2(eb) < w * p
        }),
{
    let lift = (72 - k) as nat;
    let w = (ma * pow2(lift)) as nat;
    let p = pow2((ea - lift) as nat);
    lemma_scaled(ma, lift, (ea - lift) as nat);
    lemma_pow2_pos(eb);
    lemma_mul_strictly_positive(mb as int, pow2(eb) as int);
    let q = pow2(eb);
    let g = (ea - lift - eb) as nat;
    lemma_pow2_adds(eb, g);
    lemma_pow2_unfold(k + 1);
    lemma_pow2_increases(k + 1, g);
    let h = pow2(g);
    assert(mb * q < q * h) by (nonlinear_arith)
        requires
            mb < h,
            q > 0,
    ;
    assert((w + 1) * p == w * p + p) by (nonlinear_arith);
    assert((w - 1) * p == w * p - p) by (nonlinear_arith);
}

/// A product of two significands with their scales, brought down by `depth`
/// halvings.
pub proof fn lemma_product_parts(depth: nat, ma: nat, ea: nat, mb: nat, eb: nat)
    requires
        ea + eb - depth + OFFSET >= 0,
    ensures
        approximates(
            (ma * mb) as int,
            ea + eb - depth,
            false,
            ((ma * pow2(ea)) * (mb * pow2(eb))) as nat,
            pow2(depth),
        ),
{
    let a = pow2(ea);
    let b = pow2(eb);
    let c = pow2(OFFSET as nat);
    let d = pow2(depth);
    let x = pow2((ea + eb - depth + OFFSET) as nat);
    lemma_pow2_adds(ea, eb);
    lemma_pow2_adds(ea + eb, OFFSET as nat);
    lemma_pow2_adds(depth, (ea + eb - depth + OFFSET) as nat);
    assert(((ma * a) * (mb * b)) * c == (ma * mb) * ((a * b) * c)) by (nonlinear_arith);
    assert((a * b) * c == d * x);
}

} // verus!
