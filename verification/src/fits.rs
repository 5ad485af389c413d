//! Sizes that no rounded result leaves: what keeps arithmetic finite.
use vstd::arithmetic::power2::{lemma_pow2_adds, lemma_pow2_pos, lemma_pow2_unfold, pow2};
use vstd::prelude::*;

use crate::accuracy::{amount, distance, lemma_amount_of_sign};
use crate::number::{
    correctly_rounded, lemma_format, lemma_worth_of_power, worth, Number, DEPTH, FRACTIONS,
    INFINITE, WIDTH,
};
use crate::rounding::{lemma_pow2_increases, lemma_rounding_at_most, lemma_units_increase, size};

verus! {

/// Whether a number is finite and at most two to the `k` in size.
pub open spec fn within(x: Number, k: nat) -> bool {
    x.is_finite() && distance(amount(x)) <= pow2(k) as real
}

/// Whether a number is finite and at least two to the minus `k` in size.
pub open spec fn beyond(x: Number, k: nat) -> bool {
    x.is_finite() && distance(amount(x)) * pow2(k) as real >= 1 as real
}

/// The size of a number in units of the smallest.
proof fn lemma_worth_of_size(x: Number, k: nat)
    requires
        x.is_finite(),
    ensures
        within(x, k) <==> worth(x.magnitude()) <= pow2(DEPTH as nat + k),
        distance(amount(x)) * pow2(DEPTH as nat) as real == worth(x.magnitude()) as real,
{
    let p = pow2(DEPTH as nat);
    lemma_pow2_pos(DEPTH as nat);
    lemma_pow2_adds(DEPTH as nat, k);
    lemma_amount_of_sign(x);
    reveal(distance);
    let (w, r, q) = (worth(x.magnitude()) as real, p as real, pow2(k) as real);
    let a = amount(x.abs());
    assert(a == w / r);
    assert(a * r == w) by (nonlinear_arith)
        requires
            a == w / r,
            r > 0 as real,
    ;
    assert((p * pow2(k)) as real == r * q) by (nonlinear_arith)
        requires
            r == p as real,
            q == pow2(k) as real,
    ;
    assert(a <= q <==> w <= r * q) by (nonlinear_arith)
        requires
            a * r == w,
            r > 0 as real,
    ;
}

/// The magnitude of two to the `k`.
spec fn power_of(k: nat) -> nat {
    ((1023 + k) * FRACTIONS) as nat
}

proof fn lemma_power_of(k: nat)
    requires
        k <= 1023,
    ensures
        worth(power_of(k)) == pow2(DEPTH as nat + k),
        power_of(k) < INFINITE,
{
    lemma_worth_of_power(1023 + k);
}

/// A magnitude that is no greater than two to the `k` is worth no more.
proof fn lemma_worth_in_order(mag: nat, k: nat)
    requires
        k <= 1023,
        mag <= power_of(k),
    ensures
        worth(mag) <= pow2(DEPTH as nat + k),
{
    lemma_power_of(k);
    if mag < power_of(k) {
        lemma_units_increase(WIDTH as nat, mag, power_of(k));
    }
}

/// A product of sizes.
pub proof fn lemma_product_fits(a: Number, b: Number, i: nat, j: nat)
    requires
        within(a, i),
        within(b, j),
        i + j <= 1023,
    ensures
        within(a.times(b), i + j),
{
    reveal(Number::spec_times);
    let p = pow2(DEPTH as nat);
    let (x, y) = (worth(a.magnitude()), worth(b.magnitude()));
    let (m, n) = (pow2(DEPTH as nat + i), pow2(DEPTH as nat + j));
    lemma_format();
    lemma_pow2_pos(DEPTH as nat);
    lemma_worth_of_size(a, i);
    lemma_worth_of_size(b, j);
    lemma_power_of(i + j);
    lemma_pow2_adds(DEPTH as nat + i, DEPTH as nat + j);
    lemma_pow2_adds(DEPTH as nat + (i + j), DEPTH as nat);
    assert(x * y <= m * n) by (nonlinear_arith)
        requires
            0 <= x <= m,
            0 <= y <= n,
    ;
    lemma_rounding_at_most(WIDTH as nat, (x * y) as nat, p, power_of(i + j));
    let mag = correctly_rounded((x * y) as nat, p);
    lemma_worth_in_order(mag, i + j);
    lemma_worth_of_size(a.times(b), i + j);
}

/// A sum of sizes.
pub proof fn lemma_sum_fits(a: Number, b: Number, i: nat)
    requires
        within(a, i),
        within(b, i),
        i + 1 <= 1023,
    ensures
        within(a.plus(b), i + 1),
        within(a.minus(b), i + 1),
{
    lemma_amount_of_sign(b);
    assert(within(b.negated(), i)) by {
        reveal(distance);
    }
    lemma_plain_sum_fits(a, b, i);
    lemma_plain_sum_fits(a, b.negated(), i);
}

proof fn lemma_plain_sum_fits(a: Number, b: Number, i: nat)
    requires
        within(a, i),
        within(b, i),
        i + 1 <= 1023,
    ensures
        within(a.plus(b), i + 1),
{
    reveal(Number::spec_plus);
    lemma_format();
    lemma_worth_of_size(a, i);
    lemma_worth_of_size(b, i);
    lemma_power_of(i + 1);
    lemma_pow2_unfold(DEPTH as nat + i + 1);
    let exact = a.value() + b.value();
    let mag = correctly_rounded(size(exact), 1);
    if exact == 0 {
        lemma_worth_in_order(0, i + 1);
    } else {
        lemma_rounding_at_most(WIDTH as nat, size(exact), 1, power_of(i + 1));
        lemma_worth_in_order(mag, i + 1);
    }
    lemma_worth_of_size(a.plus(b), i + 1);
}

/// A quotient of sizes.
pub proof fn lemma_quotient_fits(a: Number, b: Number, i: nat, j: nat)
    requires
        within(a, i),
        beyond(b, j),
        i + j <= 1023,
    ensures
        within(a.over(b), i + j),
        b.magnitude() != 0,
{
    reveal(Number::spec_over);
    let p = pow2(DEPTH as nat);
    let (x, y) = (worth(a.magnitude()), worth(b.magnitude()));
    lemma_format();
    lemma_pow2_pos(DEPTH as nat);
    lemma_pow2_pos(j);
    lemma_worth_of_size(a, i);
    lemma_worth_of_size(b, j);
    lemma_power_of(i + j);
    lemma_pow2_adds(DEPTH as nat, i);
    lemma_pow2_adds(DEPTH as nat + i, j);
    let (d, r, q) = (distance(amount(b)), p as real, pow2(j) as real);
    let w = y as real;
    assert(w * q >= r) by (nonlinear_arith)
        requires
            d * r == w,
            d * q >= 1 as real,
            r > 0 as real,
    ;
    assert((y * pow2(j)) as real == w * q) by (nonlinear_arith)
        requires
            w == y as real,
            q == pow2(j) as real,
    ;
    assert(y * pow2(j) >= p);
    assert(y > 0) by (nonlinear_arith)
        requires
            y * pow2(j) >= p,
            p > 0,
            y >= 0,
    ;
    let top = pow2(DEPTH as nat + i);
    assert(x * p <= (top * pow2(j)) * y) by (nonlinear_arith)
        requires
            0 <= x <= top,
            p <= y * pow2(j),
            p > 0,
    ;
    lemma_rounding_at_most(WIDTH as nat, (x * p) as nat, y, power_of(i + j));
    let mag = correctly_rounded((x * p) as nat, y);
    lemma_worth_in_order(mag, i + j);
    lemma_worth_of_size(a.over(b), i + j);
}

/// Sizes in order.
pub proof fn lemma_within_more(x: Number, i: nat, j: nat)
    requires
        within(x, i),
        i <= j,
    ensures
        within(x, j),
{
    lemma_pow2_increases(i, j);
}

} // verus!
