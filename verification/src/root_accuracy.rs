//! How far a rounded square root is from the exact one.
use vstd::arithmetic::power2::{
    lemma2_to64, lemma2_to64_rest, lemma_pow2_adds, lemma_pow2_pos, pow2,
};
use vstd::prelude::*;

use crate::accuracy::{
    amount, distance, lemma_amount_of_sign, lemma_amounts_in_order, lemma_gap, lemma_part, roundoff,
};
use crate::fits::within;
use crate::number::{
    lemma_format, lemma_rank_is_value_order, lemma_worth_of_power, worth, Number, DEPTH, FRACTIONS,
    INFINITE, WIDTH,
};
use crate::numerals::{ONE, ZERO};
use crate::root::{nearest_root, root_rounds_to};
use crate::rounding::{lemma_units_increase, lemma_units_reach};

verus! {

/// From a magnitude that is not too small, downwards to the nearest root.
proof fn lemma_root_descends(n: nat, from: nat) -> (mag: nat)
    requires
        ({
            let edge = worth(from) + worth(from + 1);
            4 * n < edge * edge || (4 * n == edge * edge && from % 2 == 0)
        }),
    ensures
        root_rounds_to(n, mag),
    decreases from,
{
    if from == 0 {
        from
    } else {
        let edge = worth((from - 1) as nat) + worth(from);
        if 4 * n < edge * edge || (4 * n == edge * edge && (from - 1) % 2 == 0) {
            lemma_root_descends(n, (from - 1) as nat)
        } else {
            from
        }
    }
}

/// Every root rounds to a magnitude.
pub proof fn lemma_root_exists(n: nat)
    ensures
        root_rounds_to(n, nearest_root(n)),
{
    let far = 2 * n + 1;
    lemma_units_reach(WIDTH as nat, far);
    let edge = worth(far) + worth(far + 1);
    assert(4 * n < edge * edge) by (nonlinear_arith)
        requires
            edge > 2 * n,
            n >= 0,
            edge >= 1,
    ;
    let mag = lemma_root_descends(n, far);
    assert(root_rounds_to(n, mag));
}

/// The root of no more than a square rounds to no more than its side.
proof fn lemma_root_at_most(n: nat, b: nat)
    requires
        n <= worth(b) * worth(b),
    ensures
        nearest_root(n) <= b,
{
    let m = nearest_root(n);
    lemma_root_exists(n);
    if m > b {
        let edge = worth((m - 1) as nat) + worth(m);
        let w = worth(b);
        lemma_units_increase(WIDTH as nat, b, m);
        if b < m - 1 {
            lemma_units_increase(WIDTH as nat, b, (m - 1) as nat);
        }
        assert(edge * edge > 4 * (w * w)) by (nonlinear_arith)
            requires
                edge > 2 * w,
                w >= 0,
        ;
    }
}

/// A greater number has no lesser root.
proof fn lemma_root_keeps_order(n: nat, more: nat)
    requires
        n <= more,
    ensures
        nearest_root(n) <= nearest_root(more),
{
    let (a, b) = (nearest_root(n), nearest_root(more));
    lemma_root_exists(n);
    lemma_root_exists(more);
    if b < a {
        let top = worth(b) + worth(b + 1);
        let low = worth((a - 1) as nat) + worth(a);
        if b + 1 < a {
            lemma_units_increase(WIDTH as nat, b, (a - 1) as nat);
            lemma_units_increase(WIDTH as nat, b + 1, a);
            assert(top * top < low * low) by (nonlinear_arith)
                requires
                    0 <= top < low,
            ;
        }
    }
}

/// A rounded root squared is near the number, in proportion, where the number
/// is not too small.
proof fn lemma_root_near(n: nat, w: nat, above: int, below: int)
    requires
        above * FRACTIONS <= w,
        below * FRACTIONS <= w,
        above >= 0,
        0 <= below <= w,
        4 * n <= (2 * w + above) * (2 * w + above),
        (2 * w - below) * (2 * w - below) <= 4 * n,
    ensures
        distance(n as real - w as real * w as real) <= 3 as real * (roundoff() * (w as real
            * w as real)),
{
    reveal(distance);
    let u = roundoff();
    let (x, v, a, b) = (n as real, w as real, above as real, below as real);
    let s = v * v;
    assert(((2 * w + above) * (2 * w + above)) as real == (2 as real * v + a) * (2 as real * v
        + a)) by (nonlinear_arith)
        requires
            v == w as real,
            a == above as real,
    ;
    assert(((2 * w - below) * (2 * w - below)) as real == (2 as real * v - b) * (2 as real * v
        - b)) by (nonlinear_arith)
        requires
            v == w as real,
            b == below as real,
    ;
    lemma_part(v);
    assert(a <= 2 as real * (u * v));
    assert(b <= 2 as real * (u * v));
    let c = u * v;
    assert(v * a <= 2 as real * (u * s) && a * a <= 4 as real * (u * (u * s)))
        by (nonlinear_arith)
        requires
            0 as real <= a <= 2 as real * c,
            c == u * v,
            s == v * v,
            v >= 0 as real,
    ;
    assert(v * b <= 2 as real * (u * s) && b * b >= 0 as real) by (nonlinear_arith)
        requires
            0 as real <= b <= 2 as real * c,
            c == u * v,
            s == v * v,
            v >= 0 as real,
    ;
    assert((2 as real * v + a) * (2 as real * v + a) == 4 as real * s + 4 as real * (v * a) + a
        * a) by (nonlinear_arith)
        requires
            s == v * v,
    ;
    assert((2 as real * v - b) * (2 as real * v - b) == 4 as real * s - 4 as real * (v * b) + b
        * b) by (nonlinear_arith)
        requires
            s == v * v,
    ;
    assert(s >= 0 as real) by (nonlinear_arith)
        requires
            s == v * v,
    ;
    lemma_part(s);
    lemma_part(u * s);
}

/// A square root is finite and not negative, and its square is the number up to
/// three times the roundoff.
pub proof fn lemma_sqrt_accuracy(x: Number)
    requires
        x.is_finite(),
        amount(x) >= 0 as real,
    ensures
        x.sqrt().is_finite(),
        amount(x.sqrt()) >= 0 as real,
        amount(x.sqrt()) == 0 as real <==> amount(x) == 0 as real,
        amount(x) > 0 as real ==> x.sqrt().rank() == nearest_root(
            (worth(x.magnitude()) * pow2(DEPTH as nat)) as nat,
        ),
        distance(amount(x) - amount(x.sqrt()) * amount(x.sqrt())) <= 3 as real * (roundoff() * (
        amount(x.sqrt()) * amount(x.sqrt()))),
{
    reveal(Number::spec_sqrt);
    let zero = Number::from_bits(ZERO);
    let p = pow2(DEPTH as nat);
    let root = x.sqrt();
    lemma_format();
    lemma_pow2_pos(DEPTH as nat);
    lemma_amount_of_sign(x);
    lemma_amount_of_sign(zero);
    lemma_amounts_in_order(x, zero);
    lemma_amounts_in_order(zero, x);
    if x.magnitude() == 0 {
        reveal(distance);
        assert(0 as real * 0 as real == 0 as real);
        assert(3 as real * (roundoff() * 0 as real) == 0 as real) by (nonlinear_arith);
    } else {
        assert(!x.negative());
        let wx = worth(x.magnitude());
        let n = (wx * p) as nat;
        let m = nearest_root(n);
        let w = worth(m);
        lemma_units_increase(WIDTH as nat, 0, x.magnitude());
        lemma_worth_of_power(1023);
        assert(ONE == 1023 * FRACTIONS);
        lemma_root_exists(n);
        if wx >= p {
            assert(n <= wx * wx) by (nonlinear_arith)
                requires
                    n == wx * p,
                    wx >= p,
                    p > 0,
            ;
            lemma_root_at_most(n, x.magnitude());
        } else {
            assert(n <= p * p) by (nonlinear_arith)
                requires
                    n == wx * p,
                    wx <= p,
                    p > 0,
            ;
            lemma_root_at_most(n, ONE as nat);
        }
        assert(m < INFINITE);
        assert(root.magnitude() == m && !root.negative());
        // The root is far above the smallest numbers.
        assert(m >= FRACTIONS) by {
            if m < FRACTIONS {
                let edge = worth(m) + worth(m + 1);
                lemma_worth_of_power(1);
                lemma2_to64_rest();
                if m + 1 < FRACTIONS {
                    lemma_units_increase(WIDTH as nat, m + 1, FRACTIONS as nat);
                }
                lemma_units_increase(WIDTH as nat, m, m + 1);
                assert(edge <= 2 * 4503599627370496);
                assert(edge * edge <= 4 * 4503599627370496 * 4503599627370496)
                    by (nonlinear_arith)
                    requires
                        0 <= edge <= 2 * 4503599627370496,
                ;
                lemma_pow2_adds(53, 53);
                lemma_pow2_adds(106, 968);
                lemma_pow2_pos(968);
                assert(pow2(106) == 9007199254740992 * 9007199254740992);
                assert(p >= pow2(106)) by (nonlinear_arith)
                    requires
                        p == pow2(106) * pow2(968),
                        pow2(968) >= 1,
                ;
                assert(n >= p) by (nonlinear_arith)
                    requires
                        n == wx * p,
                        wx >= 1,
                        p > 0,
                ;
            }
        }
        lemma_gap(m);
        lemma_gap((m - 1) as nat);
        let above = worth(m + 1) - w;
        let below = w - worth((m - 1) as nat);
        lemma_units_increase(WIDTH as nat, m, m + 1);
        lemma_units_increase(WIDTH as nat, (m - 1) as nat, m);
        lemma_units_reach(WIDTH as nat, m);
        lemma_units_reach(WIDTH as nat, (m - 1) as nat);
        assert(above * FRACTIONS <= w);
        assert(below * FRACTIONS <= w);
        assert(worth(m) + worth(m + 1) == 2 * w + above);
        assert(worth((m - 1) as nat) + worth(m) == 2 * w - below);
        lemma_root_near(n, w, above, below);
        let (y, v, r) = (wx as real, w as real, p as real);
        assert(n as real == y * r) by (nonlinear_arith)
            requires
                n == wx * p,
                y == wx as real,
                r == p as real,
        ;
        let (a, s) = (amount(x), amount(root));
        assert(a == y / r && s == v / r);
        assert(a * r == y && s * r == v) by (nonlinear_arith)
            requires
                a == y / r,
                s == v / r,
                r > 0 as real,
        ;
        let t = r * r;
        assert(y * r == a * t && v * v == (s * s) * t) by (nonlinear_arith)
            requires
                a * r == y,
                s * r == v,
                t == r * r,
        ;
        assert(t > 0 as real) by (nonlinear_arith)
            requires
                t == r * r,
                r > 0 as real,
        ;
        let u = roundoff();
        let e = u * (s * s);
        assert(u * (v * v) == e * t) by (nonlinear_arith)
            requires
                v * v == (s * s) * t,
                e == u * (s * s),
        ;
        let d = a - s * s;
        assert(y * r - v * v == d * t) by (nonlinear_arith)
            requires
                y * r == a * t,
                v * v == (s * s) * t,
                d == a - s * s,
        ;
        reveal(distance);
        assert(d <= 3 as real * e && -d <= 3 as real * e) by (nonlinear_arith)
            requires
                d * t <= 3 as real * (e * t),
                -(d * t) <= 3 as real * (e * t),
                t > 0 as real,
        ;
        assert(s > 0 as real) by (nonlinear_arith)
            requires
                s * r == v,
                v > 0 as real,
                r > 0 as real,
        ;
    }
}

/// The size of a square root.
pub proof fn lemma_sqrt_fits(x: Number, k: nat)
    requires
        within(x, 2 * k),
        amount(x) >= 0 as real,
    ensures
        within(x.sqrt(), k + 1),
{
    lemma_sqrt_accuracy(x);
    lemma_pow2_adds(k, k);
    lemma_pow2_adds(1, k);
    lemma2_to64();
    lemma_pow2_pos(k);
    let (s, q) = (amount(x.sqrt()), pow2(k) as real);
    let square = s * s;
    lemma_part(square);
    assert(square >= 0 as real) by (nonlinear_arith)
        requires
            square == s * s,
    ;
    reveal(distance);
    assert((pow2(k) * pow2(k)) as real == q * q) by (nonlinear_arith)
        requires
            q == pow2(k) as real,
    ;
    assert(square <= 2 as real * (q * q));
    assert(pow2(k + 1) as real == 2 as real * q);
    assert(s <= 2 as real * q) by (nonlinear_arith)
        requires
            square == s * s,
            square <= 2 as real * (q * q),
            s >= 0 as real,
            q > 0 as real,
    ;
}

/// A square root keeps order.
pub proof fn lemma_sqrt_keeps_order(a: Number, b: Number)
    requires
        a.is_finite(),
        b.is_finite(),
        amount(a) >= 0 as real,
        a.le(b),
    ensures
        a.sqrt().le(b.sqrt()),
{
    lemma_amounts_in_order(a, b);
    lemma_sqrt_accuracy(a);
    lemma_sqrt_accuracy(b);
    lemma_amounts_in_order(a.sqrt(), b.sqrt());
    lemma_amount_of_sign(a);
    lemma_amount_of_sign(b);
    if amount(a) > 0 as real {
        reveal(Number::spec_sqrt);
        let zero = Number::from_bits(ZERO);
        let p = pow2(DEPTH as nat);
        lemma_format();
        lemma_amount_of_sign(zero);
        lemma_amounts_in_order(zero, a);
        lemma_amounts_in_order(zero, b);
        lemma_rank_is_value_order(a, b);
        let (x, y) = (worth(a.magnitude()), worth(b.magnitude()));
        assert(x <= y);
        assert(x * p <= y * p) by (nonlinear_arith)
            requires
                x <= y,
                p >= 0,
        ;
        lemma_root_keeps_order((x * p) as nat, (y * p) as nat);
    }
}

} // verus!
