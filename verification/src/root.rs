//! Square roots of numbers.
use vstd::arithmetic::div_mod::lemma_fundamental_div_mod;
use vstd::arithmetic::mul::*;
use vstd::arithmetic::power2::{
    lemma2_to64, lemma2_to64_rest, lemma_pow2_adds, lemma_pow2_pos, lemma_pow2_unfold, pow2,
};
use vstd::bits::lemma_u128_shr_is_div;
use vstd::prelude::*;

use crate::number::{lemma_format, worth, FRACTIONS, INFINITE, WIDTH};
use crate::rounding::{
    bit_length, lemma_pow2_increases, lemma_units_increase, lemma_units_of_parts, lemma_units_step,
    power,
};

verus! {

/// Whether `mag` is the magnitude nearest to the square root of `n`; a root
/// halfway between two magnitudes belongs to the even one.
pub open spec fn root_rounds_to(n: nat, mag: nat) -> bool {
    &&& mag > 0 ==> {
        let edge = worth((mag - 1) as nat) + worth(mag);
        edge * edge < 4 * n || (edge * edge == 4 * n && mag % 2 == 0)
    }
    &&& {
        let edge = worth(mag) + worth(mag + 1);
        4 * n < edge * edge || (4 * n == edge * edge && mag % 2 == 0)
    }
}

/// The magnitude nearest to the square root of `n`.
pub open spec fn nearest_root(n: nat) -> nat {
    choose|mag: nat| root_rounds_to(n, mag)
}

/// A root rounds to one magnitude only.
pub proof fn lemma_root_is_unique(n: nat, a: nat, b: nat)
    requires
        root_rounds_to(n, a),
        root_rounds_to(n, b),
    ensures
        a == b,
{
    if a < b {
        lemma_root_is_ordered(n, a, b);
    } else if b < a {
        lemma_root_is_ordered(n, b, a);
    }
}

proof fn lemma_root_is_ordered(n: nat, a: nat, b: nat)
    requires
        root_rounds_to(n, a),
        a < b,
    ensures
        !root_rounds_to(n, b),
{
    let top = worth(a) + worth(a + 1);
    let low = worth((b - 1) as nat) + worth(b);
    if a + 1 < b {
        lemma_units_increase(WIDTH as nat, a, (b - 1) as nat);
        lemma_units_increase(WIDTH as nat, a + 1, b);
        assert(top * top < low * low) by (nonlinear_arith)
            requires
                top < low,
        ;
    }
}

/// The largest number whose square is at most `m`.
fn integer_root(m: u128) -> (s: u128)
    requires
        m < 0x4000_0000_0000_0000_0000_0000_0000_0000,
    ensures
        s * s <= m < (s + 1) * (s + 1),
        s < 0x8000_0000_0000_0000,
{
    let mut s: u128 = 0;
    let mut bit: u128 = 0x4000_0000_0000_0000;
    let mut left: u32 = 63;
    proof {
        lemma2_to64();
        lemma2_to64_rest();
    }
    assert(m < (0 + 2 * bit) * (0 + 2 * bit)) by (nonlinear_arith)
        requires
            m < 0x4000_0000_0000_0000_0000_0000_0000_0000,
            bit == 0x4000_0000_0000_0000,
    ;
    while left > 0
        invariant
            left <= 63,
            left > 0 ==> bit == pow2((left - 1) as nat),
            left == 0 ==> bit == 0,
            s + 2 * pow2((if left > 0 { left - 1 } else { 0 }) as nat) <= 0x8000_0000_0000_0000
                || (left == 0 && s < 0x8000_0000_0000_0000),
            s * s <= m,
            left > 0 ==> m < (s + 2 * bit) * (s + 2 * bit),
            left == 0 ==> m < (s + 1) * (s + 1),
        decreases left,
    {
        let next: u128 = s + bit;
        proof {
            lemma2_to64();
            lemma_pow2_pos((left - 1) as nat);
            lemma_mul_upper_bound(
                next as int,
                0x8000_0000_0000_0000,
                next as int,
                0x8000_0000_0000_0000,
            );
            if left > 1 {
                lemma_pow2_unfold((left - 1) as nat);
            } else {
                assert(bit == 1);
            }
        }
        if next * next <= m {
            s = next;
        }
        bit = bit / 2;
        left = left - 1;
    }
    s
}

/// The magnitude nearest to the square root of a positive number whose square
/// root lies at `s` steps of two to the `h`, or just above where `sticky`.
fn round_root(s: u128, h: i32, sticky: bool, Ghost(n): Ghost<nat>) -> (mag: u64)
    requires
        0x40_0000_0000_0000 <= s < 0x8000_0000_0000_0000,
        0 <= h <= 1900,
        ({
            let low = s * pow2(h as nat);
            let high = (s + 1) * pow2(h as nat);
            &&& low * low <= n < high * high
            &&& sticky <==> low * low < n
        }),
    ensures
        mag == nearest_root(n),
        mag < INFINITE,
{
    let len = bit_length(s);
    proof {
        lemma2_to64();
        lemma2_to64_rest();
        lemma_format();
        if len < 55 {
            lemma_pow2_increases(len as nat, 54);
        }
        if len > 63 {
            lemma_pow2_increases(63, (len - 1) as nat);
        }
    }
    let shift: u32 = len - 53;
    let p = power(shift);
    let q = s >> (shift as u128);
    proof {
        lemma_u128_shr_is_div(s, shift as u128);
        lemma_pow2_pos(shift as nat);
        lemma_pow2_adds(53, shift as nat);
        lemma_pow2_adds(52, shift as nat);
        lemma_fundamental_div_mod(s as int, p as int);
        assert(q < 0x20_0000_0000_0000) by (nonlinear_arith)
            requires
                s == p * q + s % p,
                0 <= s % p,
                s < 0x20_0000_0000_0000 * p,
                p > 0,
        ;
        assert(q >= 0x10_0000_0000_0000) by (nonlinear_arith)
            requires
                s == p * q + s % p,
                s % p < p,
                s >= 0x10_0000_0000_0000 * p,
        ;
        lemma_mul_is_commutative(p as int, q as int);
        lemma_pow2_unfold(shift as nat);
    }
    let rem: u128 = s - q * p;
    let half: u128 = p / 2;
    let up = rem > half || (rem == half && (sticky || q % 2 == 1));
    let sig: u64 = if up {
        q as u64 + 1
    } else {
        q as u64
    };
    let t: u64 = h as u64 + shift as u64;
    let mag: u64 = t * FRACTIONS + sig;
    proof {
        lemma_root_rounds(s as nat, h as nat, sticky, shift as nat, sig as nat, n);
        lemma_root_is_unique(n, mag as nat, nearest_root(n));
    }
    mag
}

/// Where the two candidates, and the middle between them, stand against the
/// steps that hold the root.
proof fn lemma_root_position(s: nat, h: nat, shift: nat)
    requires
        shift > 0,
        FRACTIONS <= s / pow2(shift) < 2 * FRACTIONS,
    ensures
        ({
            let low = s * pow2(h);
            let high = (s + 1) * pow2(h);
            let twice = 2 * (s % pow2(shift));
            let lower = ((h + shift) * FRACTIONS + s / pow2(shift)) as nat;
            let middle = worth(lower) + worth(lower + 1);
            &&& worth(lower) <= low
            &&& worth(lower + 1) >= high
            &&& twice < pow2(shift) ==> middle >= 2 * high
            &&& twice > pow2(shift) ==> middle < 2 * low
            &&& twice == pow2(shift) ==> middle == 2 * low
        }),
{
    let t = h + shift;
    let p = pow2(shift);
    let q = s / p;
    let rem = s % p;
    let step = pow2(h);
    let low = s * step;
    let high = (s + 1) * step;
    lemma_format();
    lemma_pow2_pos(shift);
    lemma_pow2_pos(h);
    lemma_pow2_unfold(shift);
    lemma_pow2_adds(h, shift);
    lemma_fundamental_div_mod(s as int, p as int);
    let unit = (p * step) as nat;
    assert(pow2(t) == unit) by {
        lemma_mul_is_commutative(p as int, step as int);
    }
    lemma_units_of_parts(WIDTH as nat, t, q);
    lemma_units_of_parts(WIDTH as nat, t, q + 1);
    let lower = (t * FRACTIONS + q) as nat;
    assert(t * FRACTIONS + (q + 1) == lower + 1);
    assert(worth(lower) == q * unit);
    assert(worth(lower + 1) == (q + 1) * unit);
    let count = (2 * q + 1) * p;
    let middle = worth(lower) + worth(lower + 1);
    assert(middle == count * step) by (nonlinear_arith)
        requires
            middle == q * unit + (q + 1) * unit,
            unit == p * step,
            count == (2 * q + 1) * p,
    ;
    assert(count == 2 * (p * q) + p) by (nonlinear_arith)
        requires
            count == (2 * q + 1) * p,
    ;
    assert((2 * (s + 1)) * step == 2 * high) by (nonlinear_arith)
        requires
            high == (s + 1) * step,
    ;
    assert((2 * s) * step == 2 * low) by (nonlinear_arith)
        requires
            low == s * step,
    ;
    if 2 * rem < p {
        lemma_mul_inequality((2 * (s + 1)) as int, count as int, step as int);
    } else if 2 * rem > p {
        lemma_mul_strict_inequality(count as int, (2 * s) as int, step as int);
    }
    assert(q * unit <= low) by (nonlinear_arith)
        requires
            unit == p * step,
            low == s * step,
            p * q <= s,
            step > 0,
    ;
    assert((q + 1) * unit >= high) by (nonlinear_arith)
        requires
            unit == p * step,
            high == (s + 1) * step,
            p * q + p >= s + 1,
            step > 0,
    ;
}

proof fn lemma_squares(a: nat, b: nat)
    ensures
        a < 2 * b ==> a * a < 4 * (b * b),
        a == 2 * b ==> a * a == 4 * (b * b),
        a >= 2 * b ==> a * a >= 4 * (b * b),
{
    assert(a < 2 * b ==> a * a < 4 * (b * b)) by (nonlinear_arith)
        requires
            a >= 0,
            b >= 0,
    ;
    assert(a == 2 * b ==> a * a == 4 * (b * b)) by (nonlinear_arith);
    assert(a >= 2 * b ==> a * a >= 4 * (b * b)) by (nonlinear_arith)
        requires
            a >= 0,
            b >= 0,
    ;
}

#[verifier::spinoff_prover]
#[verifier::rlimit(60)]
proof fn lemma_root_rounds(s: nat, h: nat, sticky: bool, shift: nat, sig: nat, n: nat)
    requires
        shift > 0,
        ({
            let low = s * pow2(h);
            let high = (s + 1) * pow2(h);
            &&& low * low <= n < high * high
            &&& sticky <==> low * low < n
        }),
        FRACTIONS <= s / pow2(shift) < 2 * FRACTIONS,
        ({
            let q = s / pow2(shift);
            let twice = 2 * (s % pow2(shift));
            let up = twice > pow2(shift) || (twice == pow2(shift) && (sticky || q % 2 == 1));
            sig == if up {
                q + 1
            } else {
                q
            }
        }),
    ensures
        root_rounds_to(n, ((h + shift) * FRACTIONS + sig) as nat),
{
    let t = h + shift;
    let q = s / pow2(shift);
    let low = s * pow2(h);
    let high = (s + 1) * pow2(h);
    let mag = (t * FRACTIONS + sig) as nat;
    let lower = (t * FRACTIONS + q) as nat;
    let middle = worth(lower) + worth(lower + 1);
    lemma_root_position(s, h, shift);
    lemma_squares(middle, low);
    lemma_squares(middle, high);
    assert(mag % 2 == sig % 2) by {
        assert(mag == 2 * (t * (FRACTIONS / 2)) + sig) by (nonlinear_arith)
            requires
                mag == t * FRACTIONS + sig,
                FRACTIONS == 2 * (FRACTIONS / 2),
        ;
    }
    if sig == q {
        lemma_units_step(WIDTH as nat, (mag - 1) as nat);
        lemma_squares(worth((mag - 1) as nat) + worth(mag), low);
    } else {
        lemma_units_step(WIDTH as nat, mag);
        lemma_squares(worth(mag) + worth(mag + 1), high);
    }
}

/// The magnitude nearest to the square root of a positive magnitude `m` times
/// two to the `e`, counted so that the root comes out in units.
pub(crate) fn root(m: u64, e: i32, Ghost(n): Ghost<nat>) -> (mag: u64)
    requires
        0 < m < 2 * FRACTIONS,
        1074 <= e <= 3200,
        n == m * pow2(e as nat),
    ensures
        mag == nearest_root(n),
        mag < INFINITE,
{
    let len = bit_length(m as u128);
    proof {
        lemma2_to64();
        lemma2_to64_rest();
        if len > 53 {
            lemma_pow2_increases(53, (len - 1) as nat);
        }
    }
    let lift: u32 = if (e as u32 + len) % 2 == 0 {
        120 - len
    } else {
        121 - len
    };
    let h: i32 = (e - lift as i32) / 2;
    let ghost top = pow2(lift as nat);
    proof {
        lemma_pow2_pos(lift as nat);
        lemma_pow2_adds(len as nat, lift as nat);
        lemma_pow2_adds((len - 1) as nat, lift as nat);
        lemma_pow2_adds(57, 64);
        lemma_pow2_adds(55, 64);
        lemma_pow2_increases((len + lift) as nat, 121);
        lemma_pow2_increases(119, (len - 1 + lift) as nat);
        assert(m * top < pow2(len as nat) * top && m * top >= pow2((len - 1) as nat) * top)
            by (nonlinear_arith)
            requires
                pow2((len - 1) as nat) <= m < pow2(len as nat),
                top > 0,
        ;
    }
    let wide: u128 = (m as u128) * power(lift);
    let s = integer_root(wide);
    proof {
        assert(s >= 0x40_0000_0000_0000) by (nonlinear_arith)
            requires
                wide < (s + 1) * (s + 1),
                wide >= 0x80_0000_0000_0000_0000_0000_0000_0000,
        ;
        let step = pow2(h as nat);
        lemma_pow2_pos(h as nat);
        lemma_pow2_adds(h as nat, h as nat);
        lemma_pow2_adds(lift as nat, (2 * h) as nat);
        let square = step * step;
        assert(e == lift + 2 * h);
        assert(n == wide * square) by (nonlinear_arith)
            requires
                n == m * (top * square),
                wide == m * top,
        ;
        let low = s * step;
        let high = (s + 1) * step;
        assert(low * low == (s * s) * square) by (nonlinear_arith)
            requires
                low == s * step,
                square == step * step,
        ;
        assert(high * high == ((s + 1) * (s + 1)) * square) by (nonlinear_arith)
            requires
                high == (s + 1) * step,
                square == step * step,
        ;
        lemma_mul_strictly_positive(step as int, step as int);
        lemma_mul_inequality((s * s) as int, wide as int, square as int);
        lemma_mul_strict_inequality(wide as int, ((s + 1) * (s + 1)) as int, square as int);
        if s * s < wide {
            lemma_mul_strict_inequality((s * s) as int, wide as int, square as int);
        }
    }
    round_root(s, h, wide != s * s, Ghost(n))
}

} // verus!
