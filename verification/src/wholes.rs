//! Whole numbers beside a number: the one below it, the one above it and the
//! nearest.
use vstd::arithmetic::div_mod::{lemma_fundamental_div_mod, lemma_fundamental_div_mod_converse};
use vstd::arithmetic::mul::lemma_mul_basics;
use vstd::arithmetic::power2::{
    lemma2_to64, lemma2_to64_rest, lemma_pow2_adds, lemma_pow2_pos, lemma_pow2_unfold, pow2,
};
use vstd::prelude::*;

use crate::accuracy::{amount, distance};
use crate::number::{
    beyond, lemma_format, of_whole, signed, whole, worth, Number, DEPTH, FRACTIONS, INFINITE, WIDTH,
};
use crate::rounding::{lemma_rounding_is_exact, lemma_units_of_parts};

verus! {

/// How great a number can be with every whole number up to it exact: two to the
/// 53rd, less one.
pub const GREATEST_EXACT: u64 = 0x1f_ffff_ffff_ffff;

/// The power of two below a whole number.
proof fn lemma_leading_power(n: nat, k: nat) -> (j: nat)
    requires
        1 <= n < pow2(k),
    ensures
        j < k,
        pow2(j) <= n < 2 * pow2(j),
    decreases k,
{
    lemma2_to64();
    if k == 0 {
        0
    } else {
        lemma_pow2_unfold(k);
        if n >= pow2((k - 1) as nat) {
            (k - 1) as nat
        } else {
            lemma_leading_power(n, (k - 1) as nat)
        }
    }
}

/// A whole number that is not too great is exact.
pub proof fn lemma_whole_is_exact(n: nat)
    requires
        n <= GREATEST_EXACT,
    ensures
        worth(of_whole(n)) == n * pow2(DEPTH as nat),
        of_whole(n) < INFINITE,
        whole(of_whole(n)) == n,
        beyond(of_whole(n)) == 0,
{
    let p = pow2(DEPTH as nat);
    lemma_format();
    lemma2_to64();
    lemma2_to64_rest();
    lemma_pow2_pos(DEPTH as nat);
    let mag: nat = if n == 0 {
        0
    } else {
        let k = lemma_leading_power(n, 53);
        let sig = n * pow2((52 - k) as nat);
        lemma_pow2_adds((52 - k) as nat, k);
        lemma_pow2_adds((52 - k) as nat, (1022 + k) as nat);
        lemma_pow2_pos((52 - k) as nat);
        let (a, b, c) = (pow2((52 - k) as nat), pow2(k), pow2((1022 + k) as nat));
        assert(FRACTIONS <= sig < 2 * FRACTIONS) by (nonlinear_arith)
            requires
                sig == n * a,
                b <= n < 2 * b,
                a * b == FRACTIONS,
                a > 0,
        ;
        lemma_units_of_parts(WIDTH as nat, (1022 + k) as nat, sig as nat);
        assert(sig * c == n * p) by (nonlinear_arith)
            requires
                sig == n * a,
                p == a * c,
        ;
        ((1022 + k) * FRACTIONS + sig) as nat
    };
    assert(worth(mag) == n * p) by {
        lemma_mul_basics(p as int);
    }
    assert(mag < INFINITE);
    lemma_rounding_is_exact(WIDTH as nat, INFINITE as nat, mag);
    assert(of_whole(n) == mag);
    assert((n * p) / p == n && (n * p) % p == 0) by {
        lemma_fundamental_div_mod_converse(
            (n * p) as int,
            p as int,
            n as int,
            0,
        );
    }
}

/// The parts of a number: so many whole units, and less than one.
proof fn lemma_parts(x: Number)
    requires
        x.is_finite(),
    ensures
        ({
            let p = pow2(DEPTH as nat);
            let m = x.magnitude();
            let rest = beyond(m) as real / p as real;
            &&& p > 0 && beyond(m) < p
            &&& 0 as real <= rest
            &&& rest < 1 as real
            &&& beyond(m) == 0 <==> rest == 0 as real
            &&& 2 * beyond(m) >= p <==> rest >= 1 as real / 2 as real
            &&& amount(x) == if x.negative() {
                -(whole(m) as real + rest)
            } else {
                whole(m) as real + rest
            }
        }),
{
    let p = pow2(DEPTH as nat);
    let m = x.magnitude();
    let w = worth(m);
    lemma_pow2_pos(DEPTH as nat);
    lemma_fundamental_div_mod(w as int, p as int);
    let (n, b) = (whole(m), beyond(m));
    let (rn, rb, rp) = (n as real, b as real, p as real);
    assert(w as real == rp * rn + rb) by (nonlinear_arith)
        requires
            w == p * n + b,
            rn == n as real,
            rb == b as real,
            rp == p as real,
    ;
    let rest = rb / rp;
    assert(rest * rp == rb) by (nonlinear_arith)
        requires
            rest == rb / rp,
            rp > 0 as real,
    ;
    assert(0 as real <= rest && rest < 1 as real && (rb == 0 as real <==> rest == 0 as real) && (2
        as real * rb >= rp <==> rest >= 1 as real / 2 as real)) by (nonlinear_arith)
        requires
            rest * rp == rb,
            0 as real <= rb,
            rb < rp,
            rp > 0 as real,
    ;
    assert((w as real) / rp == rn + rest && (-(w as real)) / rp == -(rn + rest))
        by (nonlinear_arith)
        requires
            w as real == rp * rn + rb,
            rest * rp == rb,
            rp > 0 as real,
    ;
}

/// Whether a number is a whole one.
pub open spec fn is_whole(x: Number, n: int) -> bool {
    &&& x.is_finite()
    &&& amount(x) == n as real
    &&& i64::MIN <= n <= i64::MAX ==> x.to_i64() == n
    &&& 0 <= n <= u64::MAX ==> x.to_u64() == n
}

/// A signed whole number that is not too great.
proof fn lemma_signed_whole(negative: bool, n: nat)
    requires
        n <= GREATEST_EXACT,
    ensures
        is_whole(
            signed(negative, of_whole(n)),
            if negative {
                -(n as int)
            } else {
                n as int
            },
        ),
{
    let x = signed(negative, of_whole(n));
    lemma_format();
    lemma_whole_is_exact(n);
    lemma_parts(x);
    reveal(Number::spec_to_i64);
    reveal(Number::spec_to_u64);
}

/// The floor of a number is the greatest whole number that is not above it.
pub proof fn a_floor_is_the_whole_number_below(x: Number) -> (n: int)
    requires
        x.is_finite(),
        distance(amount(x)) < GREATEST_EXACT as real,
    ensures
        is_whole(x.floor(), n),
        n as real <= amount(x),
        amount(x) < n as real + 1 as real,
{
    let m = x.magnitude();
    reveal(Number::spec_floor);
    reveal(distance);
    lemma_parts(x);
    let k: nat = whole(m) + if x.negative() && beyond(m) > 0 {
        1nat
    } else {
        0nat
    };
    assert(k <= GREATEST_EXACT);
    lemma_signed_whole(x.negative(), k);
    if x.negative() {
        -(k as int)
    } else {
        k as int
    }
}

/// The ceiling of a number is the least whole number that is not below it.
pub proof fn a_ceiling_is_the_whole_number_above(x: Number) -> (n: int)
    requires
        x.is_finite(),
        distance(amount(x)) < GREATEST_EXACT as real,
    ensures
        is_whole(x.ceil(), n),
        n as real >= amount(x),
        amount(x) > n as real - 1 as real,
{
    let m = x.magnitude();
    reveal(Number::spec_ceil);
    reveal(distance);
    lemma_parts(x);
    let k: nat = whole(m) + if !x.negative() && beyond(m) > 0 {
        1nat
    } else {
        0nat
    };
    assert(k <= GREATEST_EXACT);
    lemma_signed_whole(x.negative(), k);
    if x.negative() {
        -(k as int)
    } else {
        k as int
    }
}

/// A rounded number is the nearest whole one; halfway between two it is the one
/// farther from nothing.
pub proof fn a_rounded_number_is_the_nearest_whole_one(x: Number) -> (n: int)
    requires
        x.is_finite(),
        distance(amount(x)) < GREATEST_EXACT as real,
    ensures
        is_whole(x.round(), n),
        distance(amount(x) - n as real) <= 1 as real / 2 as real,
        distance(amount(x) - n as real) == 1 as real / 2 as real ==> distance(n as real)
            > distance(amount(x)),
{
    let m = x.magnitude();
    reveal(Number::spec_round);
    reveal(distance);
    lemma_parts(x);
    let k: nat = whole(m) + if 2 * beyond(m) >= pow2(DEPTH as nat) {
        1nat
    } else {
        0nat
    };
    assert(k <= GREATEST_EXACT);
    lemma_signed_whole(x.negative(), k);
    if x.negative() {
        -(k as int)
    } else {
        k as int
    }
}

/// The whole part of a number is the whole number next to it on the way to
/// nothing, and what is left is less than one.
pub proof fn a_whole_part_is_toward_nothing(x: Number) -> (n: int)
    requires
        x.is_finite(),
        distance(amount(x)) < GREATEST_EXACT as real,
    ensures
        is_whole(x.trunc(), n),
        x.to_i64() == n,
        distance(n as real) <= distance(amount(x)),
        distance(amount(x) - n as real) < 1 as real,
        amount(x) >= 0 as real ==> n >= 0,
        amount(x) <= 0 as real ==> n <= 0,
{
    let m = x.magnitude();
    reveal(Number::spec_trunc);
    reveal(Number::spec_to_i64);
    reveal(distance);
    lemma_parts(x);
    let k = whole(m);
    assert(k <= GREATEST_EXACT);
    lemma_signed_whole(x.negative(), k);
    if x.negative() {
        -(k as int)
    } else {
        k as int
    }
}

} // verus!
