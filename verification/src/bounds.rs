//! Bounds on rounded results: rounding keeps order.
use vstd::arithmetic::div_mod::{lemma_fundamental_div_mod, lemma_fundamental_div_mod_converse};
use vstd::arithmetic::mul::{
    lemma_mul_basics, lemma_mul_is_commutative, lemma_mul_is_distributive_add_other_way,
    lemma_mul_is_distributive_sub_other_way,
};
use vstd::arithmetic::power2::{lemma_pow2_adds, lemma_pow2_pos, lemma_pow2_unfold, pow2};
use vstd::prelude::*;

use crate::number::{
    correctly_rounded, lemma_format, lemma_rank_is_value_order, lemma_worth_of_power, of_whole,
    worth, Number, DEPTH, FRACTIONS, INFINITE, WIDTH,
};
use crate::numerals::{ONE, TWO, ZERO};
use crate::rounding::{
    lemma_rounding_at_least, lemma_rounding_at_most, lemma_rounding_keeps_order,
    lemma_rounding_is_exact, lemma_rounding_of_nothing, lemma_units_increase, lemma_units_of_parts,
    size,
};

verus! {

/// The rank of a finite number has the sign of its value.
proof fn lemma_rank_sign(a: Number)
    requires
        a.is_finite(),
    ensures
        a.value() > 0 <==> a.rank() > 0,
        a.value() < 0 <==> a.rank() < 0,
        a.value() == 0 <==> a.magnitude() == 0,
{
    let zero = Number::from_bits(ZERO);
    lemma_format();
    lemma_rank_is_value_order(a, zero);
    lemma_rank_is_value_order(zero, a);
}

/// A sum lies on the same side of every finite number as the exact sum does.
pub proof fn lemma_sum_keeps_order(a: Number, b: Number, u: Number)
    requires
        a.is_finite(),
        b.is_finite(),
        u.is_finite(),
    ensures
        !a.plus(b).is_nan(),
        a.value() + b.value() <= u.value() ==> a.plus(b).le(u),
        a.value() + b.value() >= u.value() ==> u.le(a.plus(b)),
        a.value() + b.value() == 0 <==> a.plus(b).magnitude() == 0,
{
    reveal(Number::spec_plus);
    let exact = a.value() + b.value();
    let m = correctly_rounded(size(exact), 1);
    lemma_rank_sign(u);
    lemma_format();
    if exact != 0 {
        lemma_mul_basics(worth(u.magnitude()) as int);
        assert(worth(1) == 1) by {
            lemma_pow2_pos(WIDTH as nat);
            lemma_pow2_unfold(WIDTH as nat);
        }
        lemma_mul_basics(1);
        lemma_rounding_at_least(WIDTH as nat, size(exact), 1, 1);
        if size(exact) <= worth(u.magnitude()) {
            lemma_rounding_at_most(WIDTH as nat, size(exact), 1, u.magnitude());
        }
        if size(exact) >= worth(u.magnitude()) {
            lemma_rounding_at_least(WIDTH as nat, size(exact), 1, u.magnitude());
        }
        assert(0 < m <= INFINITE);
    }
}

/// A difference lies on the same side of every finite number as the exact
/// difference does.
pub proof fn lemma_difference_keeps_order(a: Number, b: Number, u: Number)
    requires
        a.is_finite(),
        b.is_finite(),
        u.is_finite(),
    ensures
        !a.minus(b).is_nan(),
        a.value() - b.value() <= u.value() ==> a.minus(b).le(u),
        a.value() - b.value() >= u.value() ==> u.le(a.minus(b)),
        a.same(b) <==> a.minus(b).magnitude() == 0,
{
    lemma_sum_keeps_order(a, b.negated(), u);
    lemma_rank_is_value_order(a, b);
    lemma_rank_is_value_order(b, a);
    assert(b.negated().value() == -b.value());
}

/// A finite number times zero is zero, on either side.
pub proof fn lemma_times_nothing(a: Number, zero: Number)
    requires
        a.is_finite(),
        zero.magnitude() == 0,
    ensures
        a.times(zero).magnitude() == 0,
        zero.times(a).magnitude() == 0,
{
    reveal(Number::spec_times);
    lemma_format();
    lemma_pow2_pos(DEPTH as nat);
    lemma_mul_basics(worth(a.magnitude()) as int);
    lemma_rounding_of_nothing(WIDTH as nat, INFINITE as nat, pow2(DEPTH as nat));
}

/// Zero shared over a finite number that is not zero is zero.
pub proof fn lemma_nothing_over(zero: Number, a: Number)
    requires
        a.is_finite(),
        a.magnitude() != 0,
        zero.magnitude() == 0,
    ensures
        zero.over(a).magnitude() == 0,
{
    reveal(Number::spec_over);
    lemma_format();
    lemma_mul_basics(pow2(DEPTH as nat) as int);
    lemma_units_increase(WIDTH as nat, 0, a.magnitude());
    lemma_rounding_of_nothing(WIDTH as nat, INFINITE as nat, worth(a.magnitude()));
}

/// A finite number and a zero make that number.
pub proof fn lemma_plus_nothing(a: Number, zero: Number)
    requires
        a.is_finite(),
        zero.magnitude() == 0,
    ensures
        a.plus(zero).same(a),
{
    lemma_format();
    lemma_sum_keeps_order(a, zero, a);
}

/// A magnitude one exponent higher is worth twice as much.
pub proof fn lemma_next_exponent(mag: nat)
    requires
        mag >= FRACTIONS,
    ensures
        worth(mag + FRACTIONS as nat) == 2 * worth(mag),
{
    let k = pow2(WIDTH as nat);
    lemma_format();
    let e = mag / k;
    let rest = mag % k;
    lemma_fundamental_div_mod(mag as int, k as int);
    assert(mag + k == (e + 1) * k + rest) by (nonlinear_arith)
        requires
            mag == k * e + rest,
    ;
    lemma_fundamental_div_mod_converse((mag + k) as int, k as int, (e + 1) as int, rest as int);
    assert(e >= 1) by (nonlinear_arith)
        requires
            mag == k * e + rest,
            rest < k,
            mag >= k,
            e >= 0,
    ;
    lemma_pow2_unfold(e);
    assert((k + rest) * (2 * pow2((e - 1) as nat)) == 2 * ((k + rest) * pow2((e - 1) as nat)))
        by (nonlinear_arith);
}

/// The worth of the number two.
proof fn lemma_worth_of_two()
    ensures
        worth(TWO as nat) == 2 * pow2(DEPTH as nat),
{
    lemma_worth_of_power(1024);
    lemma_pow2_unfold(1075);
}

/// Half of a finite number lies on the same side of a finite number as the
/// exact half does.
pub proof fn lemma_half_keeps_order(a: Number, u: Number)
    requires
        a.is_finite(),
        u.is_finite(),
    ensures
        a.over(Number::from_bits(TWO)).is_finite(),
        a.value() <= 2 * u.value() ==> a.over(Number::from_bits(TWO)).le(u),
        a.value() >= 2 * u.value() ==> u.le(a.over(Number::from_bits(TWO))),
{
    reveal(Number::spec_over);
    let two = Number::from_bits(TWO);
    let n = worth(a.magnitude()) * pow2(DEPTH as nat);
    let d = worth(two.magnitude());
    lemma_worth_of_two();
    lemma_format();
    lemma_pow2_pos(DEPTH as nat);
    lemma_rank_sign(a);
    lemma_rank_sign(u);
    assert(two.magnitude() == TWO);
    let p = pow2(DEPTH as nat);
    let wa = worth(a.magnitude());
    let wu = worth(u.magnitude());
    assert(n <= wa * d) by (nonlinear_arith)
        requires
            n == wa * p,
            d == 2 * p,
            wa >= 0,
            p > 0,
    ;
    lemma_rounding_at_most(WIDTH as nat, n as nat, d, a.magnitude());
    if wa <= 2 * wu {
        assert(n <= wu * d) by (nonlinear_arith)
            requires
                n == wa * p,
                d == 2 * p,
                wa <= 2 * wu,
                p > 0,
        ;
        lemma_rounding_at_most(WIDTH as nat, n as nat, d, u.magnitude());
    }
    if wa >= 2 * wu {
        assert(n >= wu * d) by (nonlinear_arith)
            requires
                n == wa * p,
                d == 2 * p,
                wa >= 2 * wu,
                p > 0,
        ;
        lemma_rounding_at_least(WIDTH as nat, n as nat, d, u.magnitude());
    }
    if a.magnitude() == 0 {
        assert(0 * p == 0);
        lemma_rounding_of_nothing(WIDTH as nat, INFINITE as nat, d);
    }
}

/// The middle of two numbers that are not extreme lies between any two bounds
/// that they both lie between.
pub proof fn lemma_middle_stays_between(a: Number, b: Number, low: Number, high: Number)
    requires
        low.is_finite(),
        high.is_finite(),
        low.le(a) && a.le(high),
        low.le(b) && b.le(high),
        FRACTIONS <= low.magnitude() < INFINITE - FRACTIONS,
        FRACTIONS <= high.magnitude() < INFINITE - FRACTIONS,
    ensures
        ({
            let mid = a.plus(b).over(Number::from_bits(TWO));
            mid.is_finite() && low.le(mid) && mid.le(high)
        }),
{
    let twice_low = Number { bits: (low.bits + FRACTIONS) as u64 };
    let twice_high = Number { bits: (high.bits + FRACTIONS) as u64 };
    lemma_next_exponent(low.magnitude());
    lemma_next_exponent(high.magnitude());
    assert(twice_low.value() == 2 * low.value());
    assert(twice_high.value() == 2 * high.value());
    assert(a.is_finite() && b.is_finite());
    lemma_rank_is_value_order(a, high);
    lemma_rank_is_value_order(b, high);
    lemma_rank_is_value_order(low, a);
    lemma_rank_is_value_order(low, b);
    lemma_sum_keeps_order(a, b, twice_low);
    lemma_sum_keeps_order(a, b, twice_high);
    let sum = a.plus(b);
    assert(sum.is_finite());
    lemma_rank_is_value_order(sum, twice_high);
    lemma_rank_is_value_order(twice_low, sum);
    lemma_half_keeps_order(sum, low);
    lemma_half_keeps_order(sum, high);
}

/// A sum with a finite number keeps order.
pub proof fn lemma_plus_keeps_order(a: Number, b: Number, c: Number)
    requires
        a.le(b),
        c.is_finite(),
    ensures
        a.plus(c).le(b.plus(c)),
        c.plus(a).le(c.plus(b)),
{
    reveal(Number::spec_plus);
    lemma_format();
    if a.is_finite() {
        lemma_sum_keeps_order(a, c, c);
    }
    if b.is_finite() {
        lemma_sum_keeps_order(b, c, c);
    }
    if a.is_finite() && b.is_finite() {
        lemma_rank_is_value_order(a, b);
        lemma_rank_is_value_order(b, a);
        let x = a.value() + c.value();
        let y = b.value() + c.value();
        lemma_mul_basics(size(x) as int);
        lemma_mul_basics(size(y) as int);
        if 0 <= x {
            lemma_rounding_keeps_order(WIDTH as nat, size(x), 1, size(y), 1);
        } else if y <= 0 {
            lemma_rounding_keeps_order(WIDTH as nat, size(y), 1, size(x), 1);
        }
    }
}

/// The magnitude of a product grows with a factor's.
proof fn lemma_product_keeps_order(x: nat, y: nat, c: nat)
    requires
        x <= y,
    ensures
        correctly_rounded(worth(x) * worth(c), pow2(DEPTH as nat)) <= correctly_rounded(
            worth(y) * worth(c),
            pow2(DEPTH as nat),
        ),
{
    let p = pow2(DEPTH as nat);
    let (wx, wy, wc) = (worth(x), worth(y), worth(c));
    lemma_pow2_pos(DEPTH as nat);
    if x < y {
        lemma_units_increase(WIDTH as nat, x, y);
    }
    assert(wx * wc * p <= wy * wc * p) by (nonlinear_arith)
        requires
            wx <= wy,
            wc >= 0,
            p >= 0,
    ;
    lemma_rounding_keeps_order(WIDTH as nat, wx * wc, p, wy * wc, p);
}

/// A product with a finite number keeps order, or turns it round where the
/// number is negative.
pub proof fn lemma_times_keeps_order(a: Number, b: Number, c: Number)
    requires
        a.le(b),
        c.is_finite(),
        c.magnitude() != 0,
    ensures
        !c.negative() ==> a.times(c).le(b.times(c)) && c.times(a).le(c.times(b)),
        c.negative() ==> b.times(c).le(a.times(c)) && c.times(b).le(c.times(a)),
{
    reveal(Number::spec_times);
    lemma_format();
    lemma_mul_is_commutative(worth(a.magnitude()) as int, worth(c.magnitude()) as int);
    lemma_mul_is_commutative(worth(b.magnitude()) as int, worth(c.magnitude()) as int);
    lemma_product_keeps_order(0, a.magnitude(), c.magnitude());
    lemma_product_keeps_order(0, b.magnitude(), c.magnitude());
    lemma_mul_basics(worth(c.magnitude()) as int);
    lemma_pow2_pos(DEPTH as nat);
    lemma_rounding_of_nothing(WIDTH as nat, INFINITE as nat, pow2(DEPTH as nat));
    if a.magnitude() <= b.magnitude() {
        lemma_product_keeps_order(a.magnitude(), b.magnitude(), c.magnitude());
    } else {
        lemma_product_keeps_order(b.magnitude(), a.magnitude(), c.magnitude());
    }
}

/// The magnitude of a quotient grows with the dividend's.
proof fn lemma_quotient_keeps_order(x: nat, y: nat, c: nat)
    requires
        x <= y,
        c > 0,
    ensures
        correctly_rounded(worth(x) * pow2(DEPTH as nat), worth(c)) <= correctly_rounded(
            worth(y) * pow2(DEPTH as nat),
            worth(c),
        ),
{
    let p = pow2(DEPTH as nat);
    let (wx, wy, wc) = (worth(x), worth(y), worth(c));
    lemma_units_increase(WIDTH as nat, 0, c);
    if x < y {
        lemma_units_increase(WIDTH as nat, x, y);
    }
    assert(wx * p * wc <= wy * p * wc) by (nonlinear_arith)
        requires
            wx <= wy,
            wc >= 0,
            p >= 0,
    ;
    lemma_rounding_keeps_order(WIDTH as nat, wx * p, wc, wy * p, wc);
}

/// A quotient by a finite positive number keeps order.
pub proof fn lemma_over_keeps_order(a: Number, b: Number, c: Number)
    requires
        a.le(b),
        c.is_finite(),
        c.magnitude() != 0,
        !c.negative(),
    ensures
        a.over(c).le(b.over(c)),
{
    reveal(Number::spec_over);
    lemma_format();
    lemma_quotient_keeps_order(0, a.magnitude(), c.magnitude());
    lemma_quotient_keeps_order(0, b.magnitude(), c.magnitude());
    lemma_mul_basics(pow2(DEPTH as nat) as int);
    lemma_units_increase(WIDTH as nat, 0, c.magnitude());
    lemma_rounding_of_nothing(WIDTH as nat, INFINITE as nat, worth(c.magnitude()));
    if a.magnitude() <= b.magnitude() {
        lemma_quotient_keeps_order(a.magnitude(), b.magnitude(), c.magnitude());
    } else {
        lemma_quotient_keeps_order(b.magnitude(), a.magnitude(), c.magnitude());
    }
}

/// A finite number that is not zero goes into itself once.
pub proof fn lemma_over_itself(a: Number)
    requires
        a.is_finite(),
        a.magnitude() != 0,
    ensures
        a.over(a) == Number::from_bits(ONE),
{
    reveal(Number::spec_over);
    lemma_format();
    let p = pow2(DEPTH as nat);
    let w = worth(a.magnitude());
    lemma_units_increase(WIDTH as nat, 0, a.magnitude());
    lemma_worth_of_power(1023);
    assert(ONE == 1023 * FRACTIONS);
    assert(w * p == worth(ONE as nat) * w) by (nonlinear_arith)
        requires
            worth(ONE as nat) == p,
    ;
    lemma_rounding_at_least(WIDTH as nat, w * p, w, ONE as nat);
    lemma_rounding_at_most(WIDTH as nat, w * p, w, ONE as nat);
}

/// Integers become numbers in their own order.
pub proof fn lemma_integers_keep_order(a: int, b: int)
    requires
        a <= b,
    ensures
        Number::spec_from_int(a).le(Number::spec_from_int(b)),
{
    lemma_format();
    lemma_whole_keeps_order(0, size(a));
    lemma_whole_keeps_order(0, size(b));
    lemma_mul_basics(pow2(DEPTH as nat) as int);
    lemma_rounding_of_nothing(WIDTH as nat, INFINITE as nat, 1);
    if size(a) <= size(b) {
        lemma_whole_keeps_order(size(a), size(b));
    } else {
        lemma_whole_keeps_order(size(b), size(a));
    }
}

proof fn lemma_whole_keeps_order(x: nat, y: nat)
    requires
        x <= y,
    ensures
        of_whole(x) <= of_whole(y),
{
    let p = pow2(DEPTH as nat);
    assert(x * p * 1 <= y * p * 1) by (nonlinear_arith)
        requires
            x <= y,
            p >= 0,
    ;
    lemma_rounding_keeps_order(WIDTH as nat, x * p, 1, y * p, 1);
}

/// The integer one is the number one.
pub proof fn lemma_one_is_whole()
    ensures
        Number::spec_from_int(1) == Number::from_bits(ONE),
{
    let p = pow2(DEPTH as nat);
    lemma_format();
    lemma_worth_of_power(1023);
    assert(ONE == 1023 * FRACTIONS);
    lemma_mul_basics(p as int);
    lemma_rounding_at_least(WIDTH as nat, p, 1, ONE as nat);
    lemma_rounding_at_most(WIDTH as nat, p, 1, ONE as nat);
}

/// A finite number times one is that number, on either side.
pub proof fn lemma_times_one(a: Number)
    requires
        a.is_finite(),
    ensures
        a.times(Number::from_bits(ONE)).same(a),
        Number::from_bits(ONE).times(a).same(a),
{
    reveal(Number::spec_times);
    lemma_format();
    lemma_mul_is_commutative(worth(a.magnitude()) as int, worth(ONE as nat) as int);
    let p = pow2(DEPTH as nat);
    let n = worth(a.magnitude()) * worth(ONE as nat);
    lemma_pow2_pos(DEPTH as nat);
    lemma_worth_of_power(1023);
    assert(ONE == 1023 * FRACTIONS);
    lemma_rounding_at_least(WIDTH as nat, n, p, a.magnitude());
    lemma_rounding_at_most(WIDTH as nat, n, p, a.magnitude());
}

/// A number is no greater than the integer after its whole part.
pub proof fn lemma_next_integer(x: Number)
    requires
        !x.is_nan(),
        x.to_i64() < i64::MAX,
    ensures
        x.le(Number::spec_from_int(x.to_i64() + 1)),
{
    reveal(Number::spec_to_i64);
    lemma_format();
    let p = pow2(DEPTH as nat);
    let w = worth(x.magnitude());
    let next = x.to_i64() + 1;
    let m = size(next);
    lemma_pow2_pos(DEPTH as nat);
    lemma_fundamental_div_mod(w as int, p as int);
    lemma_mul_is_commutative(p as int, (w / p) as int);
    lemma_mul_is_distributive_add_other_way(p as int, (w / p) as int, 1);
    lemma_mul_is_distributive_sub_other_way(p as int, (w / p) as int, 1);
    if x.is_finite() {
        if !x.negative() {
            assert(m == w / p + 1);
            lemma_rounding_at_least(WIDTH as nat, m * p, 1, x.magnitude());
        } else if next < 0 {
            assert(m * p <= w) by (nonlinear_arith)
                requires
                    m + 1 <= w / p,
                    w / p * p <= w,
                    p > 0,
            ;
            lemma_rounding_at_most(WIDTH as nat, m * p, 1, x.magnitude());
        } else if next == 0 {
            lemma_mul_basics(p as int);
            lemma_rounding_of_nothing(WIDTH as nat, INFINITE as nat, 1);
        }
    }
}

/// Every whole multiple of a power of two, up to two to the 53rd times it, is
/// the value of a magnitude.
proof fn lemma_representable(m: nat, e: nat) -> (mag: nat)
    requires
        m <= 2 * FRACTIONS,
    ensures
        worth(mag) == m * pow2(e),
    decreases e,
{
    lemma_format();
    if m >= FRACTIONS || e == 0 {
        lemma_units_of_parts(WIDTH as nat, e, m);
        (e * pow2(WIDTH as nat) + m) as nat
    } else {
        lemma_pow2_unfold(e);
        let p = pow2((e - 1) as nat);
        assert((2 * m) * p == m * (2 * p)) by (nonlinear_arith);
        lemma_representable(2 * m, (e - 1) as nat)
    }
}

/// A difference of positive numbers that is not past the lesser one's next
/// power of two is exact.
pub proof fn lemma_exact_difference(a: Number, b: Number)
    requires
        a.is_finite(),
        !a.negative(),
        !b.negative(),
        FRACTIONS <= b.magnitude() < a.magnitude(),
        a.value() - b.value() <= 2 * FRACTIONS * pow2((b.magnitude() / FRACTIONS as nat - 1) as nat),
    ensures
        b.minus(a).is_finite(),
        b.minus(a).value() == b.value() - a.value(),
{
    reveal(Number::spec_plus);
    lemma_format();
    let f = FRACTIONS as nat;
    let (x, y) = (a.magnitude(), b.magnitude());
    let (ex, ey) = (x / f, y / f);
    let (sx, sy) = (f + x % f, f + y % f);
    lemma_fundamental_div_mod(x as int, f as int);
    lemma_fundamental_div_mod(y as int, f as int);
    assert(f == 0x10_0000_0000_0000);
    assert(ey >= 1 && ex >= ey);
    let p = pow2((ey - 1) as nat);
    let g = pow2((ex - ey) as nat);
    lemma_pow2_pos((ey - 1) as nat);
    lemma_pow2_adds((ex - ey) as nat, (ey - 1) as nat);
    assert(worth(x) == sx * (g * p) && worth(y) == sy * p);
    lemma_units_increase(WIDTH as nat, y, x);
    let m: int = sx * g - sy;
    assert(m * p == sx * (g * p) - sy * p) by (nonlinear_arith)
        requires
            m == sx * g - sy,
    ;
    assert(0 < m <= 2 * f) by (nonlinear_arith)
        requires
            m * p > 0,
            m * p <= 2 * f * p,
            p > 0,
    ;
    let mag = lemma_representable(m as nat, (ey - 1) as nat);
    if mag >= x {
        if mag > x {
            lemma_units_increase(WIDTH as nat, x, mag);
        }
    }
    lemma_rounding_is_exact(WIDTH as nat, INFINITE as nat, mag);
}

/// A finite number over one is that number.
pub proof fn lemma_over_one(a: Number)
    requires
        a.is_finite(),
    ensures
        a.over(Number::from_bits(ONE)) == a,
{
    reveal(Number::spec_over);
    lemma_format();
    let p = pow2(DEPTH as nat);
    let n = worth(a.magnitude()) * p;
    lemma_pow2_pos(DEPTH as nat);
    lemma_worth_of_power(1023);
    assert(ONE == 1023 * FRACTIONS);
    lemma_rounding_at_least(WIDTH as nat, n, p, a.magnitude());
    lemma_rounding_at_most(WIDTH as nat, n, p, a.magnitude());
}

} // verus!
