//! How far rounded results are from exact ones.
//!
//! The exact value of a finite number is a real number. One operation changes
//! it by at most the roundoff, in proportion, and by half the smallest positive
//! number.
use vstd::arithmetic::div_mod::{lemma_fundamental_div_mod, lemma_fundamental_div_mod_converse};
use vstd::arithmetic::power2::{
    lemma2_to64, lemma2_to64_rest, lemma_pow2_adds, lemma_pow2_pos, lemma_pow2_unfold, pow2,
};
use vstd::prelude::*;

use crate::number::{
    lemma_format, lemma_rank_is_value_order, lemma_worth_of_power, worth, Number, DEPTH, FRACTIONS,
    WIDTH,
};
use crate::numerals::{EPSILON, ZERO};
use crate::rounding::{
    lemma_rounding_exists, lemma_units_increase, nearest, size, units,
};

verus! {

/// The distance of a real number from zero.
#[verifier::opaque]
pub open spec fn distance(x: real) -> real {
    if x < 0 as real {
        -x
    } else {
        x
    }
}

/// The exact value of a finite number.
pub open spec fn amount(x: Number) -> real {
    x.value() as real / pow2(DEPTH as nat) as real
}

/// The greatest part of a result that rounding takes or adds: one in two to
/// the 53rd.
pub open spec fn roundoff() -> real {
    1 as real / 9007199254740992 as real
}

/// Half the smallest positive number.
pub open spec fn least() -> real {
    (1 as real / 2 as real) / pow2(DEPTH as nat) as real
}

/// Neighbouring magnitudes are one unit apart, or apart by a small part of
/// their value.
pub proof fn lemma_gap(mag: nat)
    ensures
        ({
            let gap = units(WIDTH as nat, mag + 1) - units(WIDTH as nat, mag);
            gap == 1 || gap * FRACTIONS <= units(WIDTH as nat, mag)
        }),
{
    lemma_format();
    lemma2_to64();
    let f = pow2(WIDTH as nat);
    if mag + 1 < f {
    } else if mag < f {
        lemma_fundamental_div_mod_converse((mag + 1) as int, f as int, 1, 0);
        assert(units(WIDTH as nat, mag + 1) == f * pow2(0));
        assert(f * 1 == f);
    } else {
        let e = mag / f;
        let r = mag % f;
        lemma_fundamental_div_mod(mag as int, f as int);
        assert(e > 0) by (nonlinear_arith)
            requires
                mag == f * e + r,
                r < f,
                mag >= f,
                e >= 0,
        ;
        let p = pow2((e - 1) as nat);
        lemma_pow2_pos((e - 1) as nat);
        assert(units(WIDTH as nat, mag) == (f + r) * p);
        if r + 1 < f {
            lemma_fundamental_div_mod_converse(
                (mag + 1) as int,
                f as int,
                e as int,
                (r + 1) as int,
            );
            assert(units(WIDTH as nat, mag + 1) == (f + (r + 1) as nat) * p);
            assert((f + r + 1) * p - (f + r) * p == p) by (nonlinear_arith);
        } else {
            assert(f * (e + 1) == f * e + f) by (nonlinear_arith);
            lemma_fundamental_div_mod_converse((mag + 1) as int, f as int, (e + 1) as int, 0);
            lemma_pow2_unfold(e);
            assert(units(WIDTH as nat, mag + 1) == f * pow2(e));
            assert(f * (2 * p) - (f + r) * p == p) by (nonlinear_arith)
                requires
                    r + 1 == f,
            ;
        }
        assert(p * f <= (f + r) * p) by (nonlinear_arith)
            requires
                p > 0,
                r >= 0,
        ;
    }
}

/// A rounded quotient is near the exact one; a whole number rounds without the
/// loss of less than a unit.
proof fn lemma_rounding_error(n: nat, d: nat)
    requires
        d > 0,
    ensures
        ({
            let w = worth(nearest(WIDTH as nat, n, d)) as real;
            let q = n as real / d as real;
            &&& distance(w - q) <= roundoff() * w + 1 as real / 2 as real
            &&& d == 1 ==> distance(w - q) <= roundoff() * w
        }),
{
    let k = WIDTH as nat;
    let m = nearest(k, n, d);
    let w = units(k, m);
    lemma_rounding_exists(k, n, d);
    lemma_gap(m);
    let above = units(k, m + 1) - w;
    assert(2 * n <= (2 * w + above) * d);
    let below: int = if m > 0 {
        lemma_gap((m - 1) as nat);
        lemma_units_increase(k, (m - 1) as nat, m);
        w - units(k, (m - 1) as nat)
    } else {
        1
    };
    assert((2 * w - below) * d <= 2 * n) by {
        if m == 0 {
            lemma_format();
            assert((0 - 1) * d <= 0) by (nonlinear_arith)
                requires
                    d > 0,
            ;
        }
    }
    lemma_near(n as int, d as int, w as int, above, below);
}

/// Bounds on a quotient from bounds on its multiples.
proof fn lemma_near(n: int, d: int, w: int, above: int, below: int)
    requires
        d > 0,
        w >= 0,
        2 * n <= (2 * w + above) * d,
        (2 * w - below) * d <= 2 * n,
        above == 1 || above * FRACTIONS <= w,
        below == 1 || below * FRACTIONS <= w,
    ensures
        ({
            let q = n as real / d as real;
            let v = w as real;
            &&& distance(v - q) <= roundoff() * v + 1 as real / 2 as real
            &&& d == 1 ==> distance(v - q) <= roundoff() * v
        }),
{
    reveal(distance);
    let q = n as real / d as real;
    let v = w as real;
    let r = d as real;
    let a = above as real;
    let b = below as real;
    assert(q * r == n as real) by (nonlinear_arith)
        requires
            q == n as real / r,
            r > 0 as real,
    ;
    assert(((2 * w + above) * d) as real == (2 as real * v + a) * r) by (nonlinear_arith)
        requires
            v == w as real,
            a == above as real,
            r == d as real,
    ;
    assert(((2 * w - below) * d) as real == (2 as real * v - b) * r) by (nonlinear_arith)
        requires
            v == w as real,
            b == below as real,
            r == d as real,
    ;
    assert(2 as real * q <= 2 as real * v + a) by (nonlinear_arith)
        requires
            2 as real * (q * r) <= (2 as real * v + a) * r,
            r > 0 as real,
    ;
    assert(2 as real * v - b <= 2 as real * q) by (nonlinear_arith)
        requires
            (2 as real * v - b) * r <= 2 as real * (q * r),
            r > 0 as real,
    ;
    assert(a == 1 as real || a * 4503599627370496 as real <= v);
    assert(b == 1 as real || b * 4503599627370496 as real <= v);
    assert(roundoff() * v * 9007199254740992 as real == v) by (nonlinear_arith)
        requires
            roundoff() == 1 as real / 9007199254740992 as real,
    ;
    assert(v >= 0 as real);
    if d == 1 {
        assert(q == n as real) by (nonlinear_arith)
            requires
                q * r == n as real,
                r == 1 as real,
        ;
        assert(above == 1 ==> n <= w);
        assert(below == 1 ==> w <= n);
    }
}

/// A sum is exact up to the roundoff.
pub proof fn lemma_plus_accuracy(a: Number, b: Number)
    requires
        a.is_finite(),
        b.is_finite(),
        a.plus(b).is_finite(),
    ensures
        distance(amount(a.plus(b)) - (amount(a) + amount(b))) <= roundoff() * distance(
            amount(a.plus(b)),
        ),
{
    reveal(distance);
    reveal(Number::spec_plus);
    lemma_format();
    lemma_pow2_pos(DEPTH as nat);
    let p = pow2(DEPTH as nat) as real;
    let exact = a.value() + b.value();
    let sum = a.plus(b);
    let n = size(exact);
    let w = worth(nearest(WIDTH as nat, n, 1)) as real;
    lemma_rounding_error(n, 1);
    assert(n as real / 1 as real == n as real);
    let e = exact as real;
    let v = sum.value() as real;
    assert(distance(v - e) <= roundoff() * distance(v)) by {
        if exact == 0 {
        } else if exact < 0 {
            assert(v == -w && e == -(n as real));
        } else {
            assert(v == w && e == n as real);
        }
    }
    assert(amount(a) + amount(b) == e / p) by (nonlinear_arith)
        requires
            p > 0 as real,
            e == a.value() as real + b.value() as real,
            amount(a) == a.value() as real / p,
            amount(b) == b.value() as real / p,
    ;
    lemma_scaled(v, e, roundoff() * distance(v), p);
    assert(roundoff() * distance(v) / p == roundoff() * distance(v / p)) by {
        lemma_distance_over(v, p);
        lemma_product_over(roundoff(), distance(v), p);
    }
}

/// Distances scale.
proof fn lemma_scaled(v: real, e: real, bound: real, p: real)
    requires
        p > 0 as real,
        distance(v - e) <= bound,
    ensures
        distance(v / p - e / p) <= bound / p,
{
    reveal(distance);
    let (x, y, z) = (v / p, e / p, bound / p);
    assert(x * p == v && y * p == e && z * p == bound) by (nonlinear_arith)
        requires
            x == v / p,
            y == e / p,
            z == bound / p,
            p > 0 as real,
    ;
    assert((x - y) * p == v - e) by (nonlinear_arith)
        requires
            x * p == v,
            y * p == e,
    ;
    assert(x - y <= z && y - x <= z) by (nonlinear_arith)
        requires
            (x - y) * p <= z * p,
            -((x - y) * p) <= z * p,
            p > 0 as real,
    ;
}

proof fn lemma_distance_over(v: real, p: real)
    requires
        p > 0 as real,
    ensures
        distance(v / p) == distance(v) / p,
{
    reveal(distance);
    let x = v / p;
    assert(x * p == v) by (nonlinear_arith)
        requires
            x == v / p,
            p > 0 as real,
    ;
    assert(v < 0 as real <==> x < 0 as real) by (nonlinear_arith)
        requires
            x * p == v,
            p > 0 as real,
    ;
    assert(-x == (-v) / p) by (nonlinear_arith)
        requires
            x == v / p,
            p > 0 as real,
    ;
}

proof fn lemma_product_over(a: real, b: real, p: real)
    requires
        p > 0 as real,
    ensures
        a * b / p == a * (b / p),
{
    assert(a * b / p == a * (b / p)) by (nonlinear_arith)
        requires
            p > 0 as real,
    ;
}

/// A product is exact up to the roundoff and half the smallest number.
pub proof fn lemma_times_accuracy(a: Number, b: Number)
    requires
        a.is_finite(),
        b.is_finite(),
        a.times(b).is_finite(),
    ensures
        distance(amount(a.times(b)) - amount(a) * amount(b)) <= roundoff() * distance(
            amount(a.times(b)),
        ) + least(),
{
    reveal(distance);
    reveal(Number::spec_times);
    lemma_format();
    lemma_pow2_pos(DEPTH as nat);
    let p = pow2(DEPTH as nat) as real;
    let (wa, wb) = (worth(a.magnitude()), worth(b.magnitude()));
    let n = wa * wb;
    let w = worth(nearest(WIDTH as nat, n, pow2(DEPTH as nat))) as real;
    lemma_rounding_error(n, pow2(DEPTH as nat));
    let q = n as real / p;
    let negative = a.negative() != b.negative();
    let v = a.times(b).value() as real;
    let e = if negative {
        -q
    } else {
        q
    };
    assert(v == if negative {
        -w
    } else {
        w
    });
    assert(distance(v - e) <= roundoff() * distance(v) + 1 as real / 2 as real);
    lemma_scaled(v, e, roundoff() * distance(v) + 1 as real / 2 as real, p);
    lemma_distance_over(v, p);
    lemma_product_over(roundoff(), distance(v), p);
    lemma_sum_over(roundoff() * distance(v), 1 as real / 2 as real, p);
    let (ra, rb) = (wa as real, wb as real);
    assert(n as real == ra * rb) by (nonlinear_arith)
        requires
            n == wa * wb,
            ra == wa as real,
            rb == wb as real,
    ;
    assert(amount(a) * amount(b) == e / p) by {
        let (x, y) = (a.value() as real, b.value() as real);
        assert(x * y == if negative {
            -(ra * rb)
        } else {
            ra * rb
        }) by (nonlinear_arith)
            requires
                x == ra || x == -ra,
                y == rb || y == -rb,
                x == ra && y == rb ==> !negative || ra == 0 as real || rb == 0 as real,
                x == -ra && y == rb ==> negative || ra == 0 as real || rb == 0 as real,
                x == ra && y == -rb ==> negative || ra == 0 as real || rb == 0 as real,
                x == -ra && y == -rb ==> !negative || ra == 0 as real || rb == 0 as real,
        ;
        assert((x / p) * (y / p) == (x * y / p) / p) by (nonlinear_arith)
            requires
                p > 0 as real,
        ;
        assert(-(ra * rb) / p == -(ra * rb / p)) by (nonlinear_arith)
            requires
                p > 0 as real,
        ;
    }
}

proof fn lemma_sum_over(a: real, b: real, p: real)
    requires
        p > 0 as real,
    ensures
        (a + b) / p == a / p + b / p,
{
    assert((a + b) / p == a / p + b / p) by (nonlinear_arith)
        requires
            p > 0 as real,
    ;
}

/// A quotient is exact up to the roundoff and half the smallest number.
pub proof fn lemma_over_accuracy(a: Number, b: Number)
    requires
        a.is_finite(),
        b.is_finite(),
        b.magnitude() != 0,
        a.over(b).is_finite(),
    ensures
        amount(b) != 0 as real,
        distance(amount(a.over(b)) - amount(a) / amount(b)) <= roundoff() * distance(
            amount(a.over(b)),
        ) + least(),
{
    reveal(distance);
    reveal(Number::spec_over);
    lemma_format();
    lemma_pow2_pos(DEPTH as nat);
    lemma_units_increase(WIDTH as nat, 0, b.magnitude());
    let p = pow2(DEPTH as nat) as real;
    let (wa, wb) = (worth(a.magnitude()), worth(b.magnitude()));
    let n = wa * pow2(DEPTH as nat);
    let w = worth(nearest(WIDTH as nat, n, wb)) as real;
    lemma_rounding_error(n, wb);
    let (ra, rb) = (wa as real, wb as real);
    let q = n as real / rb;
    let negative = a.negative() != b.negative();
    let v = a.over(b).value() as real;
    let e = if negative {
        -q
    } else {
        q
    };
    assert(v == if negative {
        -w
    } else {
        w
    });
    assert(distance(v - e) <= roundoff() * distance(v) + 1 as real / 2 as real);
    lemma_scaled(v, e, roundoff() * distance(v) + 1 as real / 2 as real, p);
    lemma_distance_over(v, p);
    lemma_product_over(roundoff(), distance(v), p);
    lemma_sum_over(roundoff() * distance(v), 1 as real / 2 as real, p);
    assert(n as real == ra * p) by (nonlinear_arith)
        requires
            n == wa * pow2(DEPTH as nat),
            ra == wa as real,
            p == pow2(DEPTH as nat) as real,
    ;
    let (x, y) = (a.value() as real, b.value() as real);
    assert(amount(b) != 0 as real) by (nonlinear_arith)
        requires
            amount(b) == y / p,
            p > 0 as real,
            y != 0 as real,
    ;
    assert(q / p == ra / rb) by (nonlinear_arith)
        requires
            q == (ra * p) / rb,
            p > 0 as real,
            rb > 0 as real,
    ;
    assert((x / p) / (y / p) == x / y) by (nonlinear_arith)
        requires
            p > 0 as real,
            y != 0 as real,
    ;
    assert((-ra) / rb == -(ra / rb) && ra / (-rb) == -(ra / rb) && (-ra) / (-rb) == ra / rb)
        by (nonlinear_arith)
        requires
            rb > 0 as real,
    ;
    assert((-q) / p == -(q / p)) by (nonlinear_arith)
        requires
            p > 0 as real,
    ;
}

/// Finite numbers are ordered as their exact values are.
pub proof fn lemma_amounts_in_order(a: Number, b: Number)
    requires
        a.is_finite(),
        b.is_finite(),
    ensures
        a.le(b) <==> amount(a) <= amount(b),
        a.lt(b) <==> amount(a) < amount(b),
        a.same(b) <==> amount(a) == amount(b),
{
    lemma_rank_is_value_order(a, b);
    lemma_rank_is_value_order(b, a);
    lemma_pow2_pos(DEPTH as nat);
    let p = pow2(DEPTH as nat) as real;
    let (x, y) = (a.value() as real, b.value() as real);
    assert((x <= y <==> x / p <= y / p) && (x < y <==> x / p < y / p)) by (nonlinear_arith)
        requires
            p > 0 as real,
    ;
}

/// The exact values of a number's negation and of its distance from zero.
pub proof fn lemma_amount_of_sign(a: Number)
    requires
        a.is_finite(),
    ensures
        a.negated().is_finite(),
        amount(a.negated()) == -amount(a),
        a.abs().is_finite(),
        amount(a.abs()) == distance(amount(a)),
        a.magnitude() == 0 <==> amount(a) == 0 as real,
{
    reveal(distance);
    let zero = Number::from_bits(ZERO);
    let p = pow2(DEPTH as nat) as real;
    lemma_format();
    lemma_pow2_pos(DEPTH as nat);
    lemma_amounts_in_order(a, zero);
    assert(a.negated().value() == -a.value());
    assert(a.abs().value() == if a.negative() {
        -a.value()
    } else {
        a.value()
    });
    lemma_distance_over(a.value() as real, p);
    assert(0 as real / p == 0 as real) by (nonlinear_arith)
        requires
            p > 0 as real,
    ;
    assert((-a.value() as real) / p == -(a.value() as real / p)) by (nonlinear_arith)
        requires
            p > 0 as real,
    ;
}

/// A difference is exact up to the roundoff.
pub proof fn lemma_minus_accuracy(a: Number, b: Number)
    requires
        a.is_finite(),
        b.is_finite(),
        a.minus(b).is_finite(),
    ensures
        distance(amount(a.minus(b)) - (amount(a) - amount(b))) <= roundoff() * distance(
            amount(a.minus(b)),
        ),
{
    lemma_amount_of_sign(b);
    lemma_plus_accuracy(a, b.negated());
}

/// A whole number is exact up to the roundoff.
pub proof fn lemma_amount_of_whole(n: int)
    requires
        Number::spec_from_int(n).is_finite(),
    ensures
        distance(amount(Number::spec_from_int(n)) - n as real) <= roundoff() * distance(
            amount(Number::spec_from_int(n)),
        ),
{
    reveal(distance);
    lemma_format();
    lemma_pow2_pos(DEPTH as nat);
    let p = pow2(DEPTH as nat) as real;
    let m = (size(n) * pow2(DEPTH as nat)) as nat;
    lemma_rounding_error(m, 1);
    let w = worth(nearest(WIDTH as nat, m, 1)) as real;
    let v = Number::spec_from_int(n).value() as real;
    let e = n as real * p;
    assert(m as real / 1 as real == m as real);
    assert(m as real == size(n) as real * p) by (nonlinear_arith)
        requires
            m == size(n) * pow2(DEPTH as nat),
            p == pow2(DEPTH as nat) as real,
    ;
    assert(distance(v - e) <= roundoff() * distance(v)) by {
        if n < 0 {
            assert(v == -w);
            assert(e == -(size(n) as real * p)) by (nonlinear_arith)
                requires
                    e == n as real * p,
                    size(n) as real == -(n as real),
            ;
        } else {
            assert(v == w);
        }
    }
    lemma_scaled(v, e, roundoff() * distance(v), p);
    assert(e / p == n as real) by (nonlinear_arith)
        requires
            e == n as real * p,
            p > 0 as real,
    ;
    assert(roundoff() * distance(v) / p == roundoff() * distance(v / p)) by {
        lemma_distance_over(v, p);
        lemma_product_over(roundoff(), distance(v), p);
    }
}

/// Half the smallest number is far below the roundoff.
pub proof fn lemma_least_is_small()
    ensures
        least() > 0 as real,
        least() * 324518553658426726783156020576256 as real <= roundoff(),
{
    let p = pow2(DEPTH as nat) as real;
    lemma_pow2_adds(108, 966);
    lemma_pow2_adds(54, 54);
    lemma2_to64_rest();
    assert(pow2(54) == 18014398509481984);
    assert(pow2(108) == 324518553658426726783156020576256) by (nonlinear_arith)
        requires
            pow2(108) == pow2(54) * pow2(54),
            pow2(54) == 18014398509481984,
    ;
    let q = pow2(966) as real;
    lemma_pow2_adds(52, 914);
    lemma_pow2_pos(914);
    assert(pow2(966) >= 4503599627370496) by (nonlinear_arith)
        requires
            pow2(966) == pow2(52) * pow2(914),
            pow2(52) == 4503599627370496,
            pow2(914) >= 1,
    ;
    assert(p == 324518553658426726783156020576256 as real * q);
    assert((1 as real / 2 as real) / p > 0 as real && (1 as real / 2 as real) / p
        * 324518553658426726783156020576256 as real <= 1 as real / 9007199254740992 as real)
        by (nonlinear_arith)
        requires
            p == 324518553658426726783156020576256 as real * q,
            q >= 4503599627370496 as real,
    ;
}

/// What lies within a part of itself of another is at most twice the other.
pub proof fn lemma_close(a: real, b: real, c: real)
    requires
        c >= 0 as real,
        distance(a - b) <= roundoff() * distance(a) + c,
    ensures
        distance(a) <= 2 as real * distance(b) + 2 as real * c,
        distance(a - b) <= 2 as real * (roundoff() * distance(b)) + 2 as real * c,
{
    reveal(distance);
    lemma_part(distance(a));
    lemma_part(distance(b));
    lemma_part(c);
}

/// The roundoff of a value is a small part of it.
pub proof fn lemma_part(x: real)
    ensures
        roundoff() * x * 9007199254740992 as real == x,
{
    assert(roundoff() * x * 9007199254740992 as real == x) by (nonlinear_arith)
        requires
            roundoff() == 1 as real / 9007199254740992 as real,
    ;
}

/// Closeness scales.
pub proof fn lemma_close_scaled(a: real, b: real, c: real, k: real)
    requires
        distance(a - b) <= roundoff() * distance(a) + c,
    ensures
        distance(a * k - b * k) <= roundoff() * distance(a * k) + c * distance(k),
{
    reveal(distance);
    let u = roundoff();
    lemma_distance_of_product(a - b, k);
    lemma_distance_of_product(a, k);
    let m = distance(k);
    let (x, y) = (distance(a - b), distance(a));
    assert(a * k - b * k == (a - b) * k) by (nonlinear_arith);
    assert(x * m <= u * (y * m) + c * m) by (nonlinear_arith)
        requires
            x <= u * y + c,
            m >= 0 as real,
    ;
}

/// The distance of a product is the product of the distances.
pub proof fn lemma_distance_of_product(a: real, b: real)
    ensures
        distance(a * b) == distance(a) * distance(b),
{
    reveal(distance);
    assert(distance(a * b) == distance(a) * distance(b)) by (nonlinear_arith)
        requires
            distance(a * b) == if a * b < 0 as real {
                -(a * b)
            } else {
                a * b
            },
            distance(a) == if a < 0 as real {
                -a
            } else {
                a
            },
            distance(b) == if b < 0 as real {
                -b
            } else {
                b
            },
    ;
}

/// The steps of the way from a value to a pixel and back, as exact values of
/// rounded results: the value `v` from its origin `a`, over the span `d`, along
/// the way `r` from `s`, to the pixel `p`; and from there back to `w`.
pub ghost struct Trip {
    pub v: real,
    pub a: real,
    pub x: real,
    pub d: real,
    pub t: real,
    pub r: real,
    pub q: real,
    pub s: real,
    pub p: real,
    pub e: real,
    pub back: real,
    pub near: real,
    pub w: real,
}

/// Whether every step is exact up to rounding.
pub open spec fn rounded_trip(i: Trip) -> bool {
    let u = roundoff();
    &&& distance(i.d) >= 1 as real / 4503599627370496 as real
    &&& distance(i.r) >= 1 as real / 4503599627370496 as real
    &&& distance(i.x - (i.v - i.a)) <= u * distance(i.x)
    &&& distance(i.t - i.x / i.d) <= u * distance(i.t) + least()
    &&& distance(i.q - i.t * i.r) <= u * distance(i.q) + least()
    &&& distance(i.p - (i.s + i.q)) <= u * distance(i.p)
    &&& distance(i.e - (i.p - i.s)) <= u * distance(i.e)
    &&& distance(i.back - i.e / i.r) <= u * distance(i.back) + least()
    &&& distance(i.near - i.back * i.d) <= u * distance(i.near) + least()
    &&& distance(i.w - (i.a + i.near)) <= u * distance(i.w)
}

/// One in two to the 44th: what a value may change by on the way to a pixel and
/// back, in proportion.
pub open spec fn trip_roundoff() -> real {
    1 as real / 17592186044416 as real
}

/// A rounded way there and back leads near to where it started.
pub proof fn lemma_trip(i: Trip)
    requires
        rounded_trip(i),
    ensures
        distance(i.w - i.v) <= trip_roundoff() * (distance(i.v) + distance(i.a) + distance(i.d)
            + distance(i.s * (i.d / i.r))),
{
    let zero = 0 as real;
    let h = least();
    lemma_least_is_small();
    let k = i.d / i.r;
    let (dd, m) = (distance(i.d), distance(k));
    lemma_ratio(i.d, i.r);
    lemma_distances(k, i.d);
    lemma_distances(i.r, zero);
    lemma_small_terms(h, dd, m);
    assert(i.r * k == i.d);
    assert(m <= 4503599627370496 as real * dd);
    // There.
    lemma_close(i.x, i.v - i.a, zero);
    lemma_close_scaled(i.t, i.x / i.d, h, i.d);
    assert((i.x / i.d) * i.d == i.x) by (nonlinear_arith)
        requires
            i.d != 0 as real,
    ;
    let td = i.t * i.d;
    lemma_close(td, i.x, h * dd);
    lemma_close_scaled(i.q, i.t * i.r, h, k);
    assert((i.t * i.r) * k == td) by (nonlinear_arith)
        requires
            i.r * k == i.d,
            td == i.t * i.d,
    ;
    let qk = i.q * k;
    lemma_close(qk, td, h * m);
    lemma_close_scaled(i.p, i.s + i.q, zero, k);
    let (pk, sk) = (i.p * k, i.s * k);
    assert((i.s + i.q) * k == sk + qk) by (nonlinear_arith)
        requires
            sk == i.s * k,
            qk == i.q * k,
    ;
    assert(zero * m == zero) by (nonlinear_arith)
        requires
            zero == 0 as real,
    ;
    lemma_close(pk, sk + qk, zero);
    // Back.
    lemma_close_scaled(i.e, i.p - i.s, zero, k);
    let ek = i.e * k;
    assert((i.p - i.s) * k == pk - sk) by (nonlinear_arith)
        requires
            sk == i.s * k,
            pk == i.p * k,
    ;
    lemma_close(ek, pk - sk, zero);
    lemma_close_scaled(i.back, i.e / i.r, h, i.d);
    assert((i.e / i.r) * i.d == ek) by (nonlinear_arith)
        requires
            i.r * k == i.d,
            ek == i.e * k,
            i.r != 0 as real,
    ;
    let bd = i.back * i.d;
    lemma_close(bd, ek, h * dd);
    lemma_close(i.near, bd, h);
    lemma_close(i.w, i.a + i.near, zero);
    lemma_add_up(i, td, qk, pk, sk, ek, bd);
}

proof fn lemma_ratio(d: real, r: real)
    requires
        distance(d) >= 1 as real / 4503599627370496 as real,
        distance(r) >= 1 as real / 4503599627370496 as real,
    ensures
        d != 0 as real,
        r != 0 as real,
        r * (d / r) == d,
        distance(d / r) <= 4503599627370496 as real * distance(d),
{
    reveal(distance);
    let k = d / r;
    assert(r * k == d) by (nonlinear_arith)
        requires
            k == d / r,
            r != 0 as real,
    ;
    lemma_distance_of_product(r, k);
    let (x, y, z) = (distance(r), distance(k), distance(d));
    assert(y <= 4503599627370496 as real * z) by (nonlinear_arith)
        requires
            x * y == z,
            y >= 0 as real,
            x >= 1 as real / 4503599627370496 as real,
    ;
}

/// What underflow adds is small beside the span.
proof fn lemma_small_terms(h: real, dd: real, m: real)
    requires
        h > 0 as real,
        h * 324518553658426726783156020576256 as real <= roundoff(),
        dd >= 1 as real / 4503599627370496 as real,
        0 as real <= m,
        m <= 4503599627370496 as real * dd,
    ensures
        0 as real <= h * dd,
        h * dd <= roundoff() * dd,
        0 as real <= h * m,
        h * m <= roundoff() * dd,
        h <= roundoff() * dd,
{
    let u = roundoff();
    assert(0 as real <= h * dd && h * dd <= u * dd) by (nonlinear_arith)
        requires
            h > 0 as real,
            h * 324518553658426726783156020576256 as real <= u,
            dd > 0 as real,
    ;
    assert(0 as real <= h * m && h * m <= u * dd) by (nonlinear_arith)
        requires
            h > 0 as real,
            h * 324518553658426726783156020576256 as real <= u,
            dd > 0 as real,
            0 as real <= m,
            m <= 4503599627370496 as real * dd,
    ;
    assert(h <= u * dd) by (nonlinear_arith)
        requires
            h > 0 as real,
            h * 324518553658426726783156020576256 as real <= u,
            dd >= 1 as real / 4503599627370496 as real,
    ;
}

/// The distance of a sum, and of a difference, is at most the sum of the
/// distances.
pub proof fn lemma_distances(a: real, b: real)
    ensures
        distance(a) >= 0 as real,
        distance(b) >= 0 as real,
        distance(a + b) <= distance(a) + distance(b),
        distance(a - b) <= distance(a) + distance(b),
        distance(a - 0 as real) == distance(a),
        distance(b - 0 as real) == distance(b),
        distance(a - b) == distance(b - a),
{
    reveal(distance);
}

/// A way round is no shorter.
pub proof fn lemma_triangle(a: real, b: real, c: real)
    ensures
        distance(a - c) <= distance(a - b) + distance(b - c),
        distance(a - b) >= 0 as real,
        distance(b - c) >= 0 as real,
{
    reveal(distance);
}

/// The errors of the steps of a trip, added up.
proof fn lemma_add_up(i: Trip, td: real, qk: real, pk: real, sk: real, ek: real, bd: real)
    requires
        ({
            let u = roundoff();
            let two = 2 as real;
            let e = u * distance(i.d);
            &&& distance(i.x - (i.v - i.a)) <= two * (u * distance(i.v - i.a))
            &&& distance(i.x) <= two * distance(i.v - i.a)
            &&& distance(td - i.x) <= two * (u * distance(i.x)) + two * e
            &&& distance(td) <= two * distance(i.x) + two * e
            &&& distance(qk - td) <= two * (u * distance(td)) + two * e
            &&& distance(qk) <= two * distance(td) + two * e
            &&& distance(pk - (sk + qk)) <= two * (u * distance(sk + qk))
            &&& distance(pk) <= two * distance(sk + qk)
            &&& distance(ek - (pk - sk)) <= two * (u * distance(pk - sk))
            &&& distance(ek) <= two * distance(pk - sk)
            &&& distance(bd - ek) <= two * (u * distance(ek)) + two * e
            &&& distance(bd) <= two * distance(ek) + two * e
            &&& distance(i.near - bd) <= two * (u * distance(bd)) + two * e
            &&& distance(i.near) <= two * distance(bd) + two * e
            &&& distance(i.w - (i.a + i.near)) <= two * (u * distance(i.a + i.near))
        }),
    ensures
        distance(i.w - i.v) <= trip_roundoff() * (distance(i.v) + distance(i.a) + distance(i.d)
            + distance(sk)),
{
    let whole = distance(i.v) + distance(i.a) + distance(i.d) + distance(sk);
    lemma_part(distance(i.d));
    lemma_part(distance(i.v - i.a));
    lemma_part(distance(i.x));
    lemma_part(distance(td));
    lemma_part(distance(sk + qk));
    lemma_part(distance(pk - sk));
    lemma_part(distance(ek));
    lemma_part(distance(bd));
    lemma_part(distance(i.a + i.near));
    lemma_distances(i.v, i.a);
    lemma_distances(sk, qk);
    lemma_distances(i.a, i.near);
    lemma_distances(i.d, qk);
    lemma_triangle(pk - sk, qk, 0 as real);
    assert((pk - sk) - qk == pk - (sk + qk));
    lemma_triangle(i.w, i.a + i.near, i.v);
    lemma_triangle(i.a + i.near, i.a + bd, i.v);
    lemma_triangle(i.a + bd, i.a + ek, i.v);
    lemma_triangle(i.a + ek, i.a + (pk - sk), i.v);
    lemma_triangle(i.a + (pk - sk), i.a + qk, i.v);
    lemma_triangle(i.a + qk, i.a + td, i.v);
    lemma_triangle(i.a + td, i.a + i.x, i.v);
    assert((i.a + i.near) - (i.a + bd) == i.near - bd);
    assert((i.a + bd) - (i.a + ek) == bd - ek);
    assert((i.a + ek) - (i.a + (pk - sk)) == ek - (pk - sk));
    assert((i.a + (pk - sk)) - (i.a + qk) == pk - (sk + qk));
    assert((i.a + qk) - (i.a + td) == qk - td);
    assert((i.a + td) - (i.a + i.x) == td - i.x);
    assert((i.a + i.x) - i.v == i.x - (i.v - i.a));
    assert(trip_roundoff() * whole * 17592186044416 as real == whole) by (nonlinear_arith)
        requires
            trip_roundoff() == 1 as real / 17592186044416 as real,
    ;
}

/// What a finite result was made of, beside a finite number, was finite.
pub proof fn lemma_finite_parts(a: Number, b: Number)
    requires
        b.is_finite(),
    ensures
        b.plus(a).is_finite() ==> a.is_finite(),
        a.minus(b).is_finite() ==> a.is_finite(),
        b.magnitude() != 0 && a.times(b).is_finite() ==> a.is_finite(),
        b.magnitude() != 0 && a.over(b).is_finite() ==> a.is_finite(),
{
    reveal(Number::spec_plus);
    reveal(Number::spec_times);
    reveal(Number::spec_over);
    lemma_format();
}

/// A number that is not below a span's least is at least two to the -52nd.
pub proof fn lemma_amount_of_epsilon(x: Number)
    requires
        x.is_finite(),
        !x.abs().lt(Number::from_bits(EPSILON)),
    ensures
        distance(amount(x)) >= 1 as real / 4503599627370496 as real,
        x.magnitude() != 0,
{
    let least = Number::from_bits(EPSILON);
    lemma_format();
    lemma_amount_of_sign(x);
    lemma_amounts_in_order(x.abs(), least);
    lemma_worth_of_power(971);
    lemma_pow2_adds(1022, 52);
    lemma_pow2_pos(1022);
    lemma2_to64_rest();
    let (p, q) = (pow2(DEPTH as nat) as real, pow2(1022) as real);
    assert(EPSILON == 971 * FRACTIONS);
    assert(least.value() == pow2(1022));
    assert(p == q * 4503599627370496 as real);
    assert(q / p == 1 as real / 4503599627370496 as real) by (nonlinear_arith)
        requires
            p == q * 4503599627370496 as real,
            q > 0 as real,
    ;
    lemma_amount_of_sign(least);
    reveal(distance);
}

/// The exact value of a positive number by its significant digits: `above` is
/// how many of its binary digits stand behind the point.
pub proof fn lemma_amount_of_parts(x: Number, above: nat)
    requires
        x.is_finite(),
        !x.negative(),
        x.magnitude() >= FRACTIONS,
        x.magnitude() / FRACTIONS as nat + above == 1075,
    ensures
        amount(x) * pow2(above) as real == (FRACTIONS + x.magnitude() % FRACTIONS as nat) as real,
{
    lemma_format();
    let f = FRACTIONS as nat;
    let low = (x.magnitude() / f - 1) as nat;
    let sig = (f + x.magnitude() % f) as nat;
    lemma_pow2_adds(low, above);
    lemma_pow2_pos(low);
    lemma_pow2_pos(above);
    let (p, q, r) = (pow2(DEPTH as nat) as real, pow2(low) as real, pow2(above) as real);
    assert(p == q * r) by (nonlinear_arith)
        requires
            pow2(DEPTH as nat) == pow2(low) * pow2(above),
            p == pow2(DEPTH as nat) as real,
            q == pow2(low) as real,
            r == pow2(above) as real,
    ;
    let s = sig as real;
    assert(x.value() as real == s * q) by (nonlinear_arith)
        requires
            x.value() == sig * pow2(low),
            s == sig as real,
            q == pow2(low) as real,
    ;
    assert(s * q / p * r == s) by (nonlinear_arith)
        requires
            p == q * r,
            q > 0 as real,
            r > 0 as real,
    ;
}

} // verus!
