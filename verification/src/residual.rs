//! What a confidence band is for: it shows how far the points scatter about
//! their least-squares line.
use vstd::arithmetic::power2::{
    lemma2_to64, lemma2_to64_rest, lemma_pow2_adds, lemma_pow2_pos, pow2,
};
use vstd::prelude::*;

use crate::accuracy::{
    amount, distance, least, lemma_amount_of_parts, lemma_amount_of_sign, lemma_amounts_in_order,
    lemma_close, lemma_close_scaled, lemma_distances, lemma_least_is_small, lemma_minus_accuracy,
    lemma_over_accuracy, lemma_part, lemma_plus_accuracy, lemma_times_accuracy, lemma_triangle,
    roundoff, trip_roundoff,
};
use crate::bounds::{
    lemma_difference_keeps_order, lemma_nothing_over, lemma_over_keeps_order,
    lemma_plus_keeps_order, lemma_plus_nothing, lemma_times_keeps_order, lemma_times_nothing,
};
use crate::euclid::{across, lemma_squared_difference};
use crate::fits::{
    beyond, lemma_product_fits, lemma_quotient_fits, lemma_sum_fits, lemma_within_more, within,
};
use crate::fitting::lemma_two;
use crate::number::{lemma_format, worth, Number, DEPTH, WIDTH};
use crate::numerals::{ONE, THREE, TWO, ZERO};
use crate::regression::Coefficients;
use crate::root_accuracy::{lemma_sqrt_accuracy, lemma_sqrt_fits, lemma_sqrt_keeps_order};
use crate::rounding::{lemma_rounding_at_least, lemma_rounding_at_most, lemma_units_increase};
use crate::student::{critical, quantiles_are_moderate};

verus! {

/// A real number, or zero where it is negative.
pub open spec fn positive_part(x: real) -> real {
    if x < 0 as real {
        0 as real
    } else {
        x
    }
}

impl Coefficients {
    /// Whether a fit has a band and coefficients that are neither extremely
    /// great nor, where they are divided by, extremely small.
    pub open spec fn is_sound(self) -> bool {
        &&& within(self.n, 200) && amount(self.n) >= 3 as real
        &&& within(self.sxx, 200) && amount(self.sxx) > 0 as real && beyond(self.sxx, 200)
        &&& within(self.sxy, 200)
        &&& within(self.syy, 200)
    }

    /// The part of the points' scatter that the line accounts for.
    pub open spec fn explained(self) -> real {
        amount(self.sxy) * amount(self.sxy) / amount(self.sxx)
    }

    /// The sum of the squares of what the line leaves over.
    pub open spec fn residual(self) -> real {
        amount(self.syy) - self.explained()
    }

    /// What rounding may change of a sum of squares: a tiny part of the
    /// scatter, and almost nothing beside.
    pub open spec fn scatter_slack(self) -> real {
        trip_roundoff() * (distance(amount(self.syy)) + self.explained()) + least() * pow2(
            210,
        ) as real
    }
}

/// The numbers two and three, exactly.
proof fn lemma_two_and_three()
    ensures
        amount(Number::from_bits(TWO)) == 2 as real,
        amount(Number::from_bits(THREE)) == 3 as real,
        within(Number::from_bits(TWO), 200),
{
    lemma_two();
    lemma_format();
    lemma2_to64_rest();
    let three = Number::from_bits(THREE);
    lemma_amount_of_parts(three, 51);
    assert(pow2(51) == 2251799813685248);
    assert(amount(three) * 2251799813685248 as real == 6755399441055744 as real);
    lemma_pow2_adds(51, 149);
    lemma_pow2_pos(149);
    assert(pow2(200) >= pow2(51)) by (nonlinear_arith)
        requires
            pow2(200) == pow2(51) * pow2(149),
            pow2(149) >= 1,
    ;
    reveal(distance);
}

/// The steps of a spread are finite, and it stands on what it should.
proof fn lemma_spread_steps(c: Coefficients)
    requires
        c.is_sound(),
    ensures
        ({
            let zero = Number::from_bits(ZERO);
            let f = c.sxy.times(c.sxy);
            let g = f.over(c.sxx);
            let e = c.syy.minus(g);
            let m = c.n.minus(Number::from_bits(TWO));
            let v = e.over(m);
            &&& c.has_band() && zero.lt(c.sxx)
            &&& c.spread() == v.max(zero).sqrt()
            &&& f.is_finite() && g.is_finite() && e.is_finite() && m.is_finite() && v.is_finite()
            &&& m.magnitude() != 0
            &&& c.sxx.magnitude() != 0
            &&& amount(f) >= 0 as real
            &&& amount(m) >= 1 as real / 2 as real
            &&& amount(m) <= 2 as real * (amount(c.n) - 2 as real)
            &&& distance(amount(m) - (amount(c.n) - 2 as real)) <= roundoff() * amount(m)
            &&& amount(v.max(zero)) == positive_part(amount(v))
            &&& v.max(zero).is_finite()
        }),
{
    let zero = Number::from_bits(ZERO);
    let two = Number::from_bits(TWO);
    let three = Number::from_bits(THREE);
    let f = c.sxy.times(c.sxy);
    let g = f.over(c.sxx);
    let e = c.syy.minus(g);
    let m = c.n.minus(two);
    lemma_format();
    lemma_two_and_three();
    lemma_amount_of_sign(zero);
    lemma_amounts_in_order(three, c.n);
    lemma_amounts_in_order(zero, c.sxx);
    lemma_product_fits(c.sxy, c.sxy, 200, 200);
    lemma_quotient_fits(f, c.sxx, 400, 200);
    lemma_within_more(c.syy, 200, 600);
    lemma_sum_fits(c.syy, g, 600);
    lemma_sum_fits(c.n, two, 200);
    lemma_minus_accuracy(c.n, two);
    let (a, k) = (amount(m), amount(c.n) - 2 as real);
    lemma_close(a, k, 0 as real);
    lemma_part(k);
    lemma_part(distance(a));
    reveal(distance);
    assert(a >= 1 as real / 2 as real);
    lemma_pow2_pos(1);
    lemma2_to64_rest();
    lemma2_to64();
    assert(pow2(1) == 2);
    assert(beyond(m, 1));
    lemma_quotient_fits(e, m, 601, 1);
    let v = e.over(m);
    lemma_amounts_in_order(v, zero);
    lemma_amounts_in_order(zero, f);
    assert(amount(f) >= 0 as real) by {
        reveal(Number::spec_times);
    }
}

/// The steps of a spread, as exact values of rounded results.
ghost struct Scatter {
    syy: real,
    sxy: real,
    sxx: real,
    free: real,
    f: real,
    g: real,
    e: real,
    m: real,
    v: real,
    s: real,
}

spec fn rounded_scatter(i: Scatter) -> bool {
    let u = roundoff();
    let h = least();
    &&& i.sxx > 0 as real
    &&& i.sxx * pow2(200) as real >= 1 as real
    &&& i.free >= 1 as real
    &&& i.m >= 1 as real / 2 as real
    &&& i.m <= 2 as real * i.free
    &&& i.m <= 2 as real * pow2(200) as real
    &&& i.s >= 0 as real
    &&& i.f >= 0 as real
    &&& distance(i.m - i.free) <= u * i.m
    &&& distance(i.f - i.sxy * i.sxy) <= u * distance(i.f) + h
    &&& distance(i.g - i.f / i.sxx) <= u * distance(i.g) + h
    &&& distance(i.e - (i.syy - i.g)) <= u * distance(i.e)
    &&& distance(i.v - i.e / i.m) <= u * distance(i.v) + h
    &&& distance(positive_part(i.v) - i.s * i.s) <= 3 as real * (u * (i.s * i.s))
}

/// Half the smallest number as often as two to the 200th.
spec fn dust() -> real {
    least() * pow2(200) as real
}

proof fn lemma_dust()
    ensures
        least() > 0 as real,
        dust() >= least(),
        least() * pow2(210) as real == 1024 as real * dust(),
        pow2(200) as real >= 1 as real,
{
    let (h, big) = (least(), pow2(200) as real);
    lemma_least_is_small();
    lemma_pow2_adds(10, 200);
    lemma2_to64();
    lemma_pow2_pos(200);
    assert(pow2(210) as real == 1024 as real * big);
    assert(h * pow2(210) as real == 1024 as real * (h * big)) by (nonlinear_arith)
        requires
            pow2(210) as real == 1024 as real * big,
    ;
    assert(h * big >= h) by (nonlinear_arith)
        requires
            big >= 1 as real,
            h > 0 as real,
    ;
}

/// A rounded quotient of a rounded square.
proof fn lemma_explained(i: Scatter)
    requires
        rounded_scatter(i),
    ensures
        ({
            let q = i.sxy * i.sxy / i.sxx;
            &&& q >= 0 as real
            &&& distance(i.g - q) <= 6 as real * (roundoff() * q) + 8 as real * dust()
        }),
{
    let (u, h, hb) = (roundoff(), least(), dust());
    let zero = 0 as real;
    let y2 = i.sxy * i.sxy;
    let q = y2 / i.sxx;
    let k = 1 as real / i.sxx;
    let big = pow2(200) as real;
    lemma_dust();
    assert(k > zero && k <= big) by (nonlinear_arith)
        requires
            k == 1 as real / i.sxx,
            i.sxx > 0 as real,
            i.sxx * big >= 1 as real,
            zero == 0 as real,
    ;
    assert(y2 >= zero) by (nonlinear_arith)
        requires
            y2 == i.sxy * i.sxy,
            zero == 0 as real,
    ;
    assert(q == y2 * k && i.f / i.sxx == i.f * k && q >= zero) by (nonlinear_arith)
        requires
            q == y2 / i.sxx,
            k == 1 as real / i.sxx,
            i.sxx > 0 as real,
            y2 >= zero,
            zero == 0 as real,
    ;
    let fk = i.f * k;
    lemma_close_scaled(i.f, y2, h, k);
    assert(distance(k) == k && distance(q) == q) by {
        reveal(distance);
    }
    assert(h * k <= hb && h * k >= zero) by (nonlinear_arith)
        requires
            k <= big,
            k > 0 as real,
            hb == h * big,
            h > 0 as real,
            zero == 0 as real,
    ;
    lemma_close(fk, q, hb);
    lemma_close(i.g, fk, h);
    lemma_triangle(i.g, fk, q);
    lemma_distances(fk, q);
    let uq = u * q;
    assert(u * distance(fk) <= 2 as real * uq + hb) by (nonlinear_arith)
        requires
            distance(fk) <= 2 as real * q + 2 as real * hb,
            u >= 0 as real,
            u <= 1 as real / 2 as real,
            uq == u * q,
            hb >= 0 as real,
    ;
}

/// The mean square, back as a sum.
proof fn lemma_left_over(i: Scatter)
    requires
        rounded_scatter(i),
    ensures
        ({
            let q = i.sxy * i.sxy / i.sxx;
            distance(i.v * i.m - (i.syy - q)) <= 32 as real * (roundoff() * (distance(i.syy) + q))
                + 128 as real * dust()
        }),
{
    let (u, h, hb) = (roundoff(), least(), dust());
    let zero = 0 as real;
    let q = i.sxy * i.sxy / i.sxx;
    let big = pow2(200) as real;
    lemma_dust();
    lemma_explained(i);
    let a = distance(i.syy);
    let whole = a + q;
    let uw = u * whole;
    lemma_part(whole);
    lemma_part(q);
    lemma_distances(i.syy, i.g);
    lemma_distances(i.g, q);
    lemma_triangle(i.g, q, zero);
    assert(distance(q) == q) by {
        reveal(distance);
    }
    assert(u * q <= uw) by (nonlinear_arith)
        requires
            q <= whole,
            uw == u * whole,
            u >= 0 as real,
    ;
    let left = distance(i.syy - i.g);
    assert(left <= 2 as real * whole + 8 as real * hb);
    lemma_close(i.e, i.syy - i.g, zero);
    assert(u * left <= 2 as real * uw + hb) by (nonlinear_arith)
        requires
            left <= 2 as real * whole + 8 as real * hb,
            u >= 0 as real,
            u <= 1 as real / 8 as real,
            uw == u * whole,
            hb >= 0 as real,
    ;
    let exact = i.syy - q;
    lemma_triangle(i.e, i.syy - i.g, exact);
    assert((i.syy - i.g) - exact == q - i.g);
    assert(distance(i.e - exact) <= 10 as real * uw + 10 as real * hb);
    let vm = i.v * i.m;
    assert(i.e / i.m * i.m == i.e) by (nonlinear_arith)
        requires
            i.m > 0 as real,
    ;
    lemma_close_scaled(i.v, i.e / i.m, h, i.m);
    assert(distance(i.m) == i.m) by {
        reveal(distance);
    }
    assert(h * i.m <= 2 as real * hb && h * i.m >= zero) by (nonlinear_arith)
        requires
            i.m <= 2 as real * big,
            i.m > 0 as real,
            hb == h * big,
            h > 0 as real,
            zero == 0 as real,
    ;
    lemma_close(vm, i.e, 2 as real * hb);
    let ae = distance(i.e);
    assert(ae <= 4 as real * whole + 16 as real * hb);
    assert(u * ae <= 4 as real * uw + 2 as real * hb) by (nonlinear_arith)
        requires
            ae <= 4 as real * whole + 16 as real * hb,
            u >= 0 as real,
            u <= 1 as real / 8 as real,
            uw == u * whole,
            hb >= 0 as real,
    ;
    lemma_triangle(vm, i.e, exact);
}

/// The square of the spread, times the degrees of freedom.
proof fn lemma_squared_spread(i: Scatter)
    requires
        rounded_scatter(i),
    ensures
        distance(i.s * i.s * i.free - positive_part(i.v * i.m)) <= 13 as real * (roundoff()
            * positive_part(i.v * i.m)),
{
    let u = roundoff();
    let zero = 0 as real;
    let vm = i.v * i.m;
    let p = positive_part(i.v);
    let pm = p * i.m;
    assert(pm == positive_part(vm)) by (nonlinear_arith)
        requires
            pm == p * i.m,
            vm == i.v * i.m,
            i.m > 0 as real,
            p == if i.v < 0 as real {
                0 as real
            } else {
                i.v
            },
            positive_part(vm) == if vm < 0 as real {
                0 as real
            } else {
                vm
            },
    ;
    let s2 = i.s * i.s;
    assert(s2 >= zero) by (nonlinear_arith)
        requires
            s2 == i.s * i.s,
            zero == 0 as real,
    ;
    lemma_part(s2);
    lemma_part(p);
    assert(s2 <= 2 as real * p) by {
        reveal(distance);
    }
    assert(u * s2 <= 2 as real * (u * p)) by (nonlinear_arith)
        requires
            s2 <= 2 as real * p,
            u >= 0 as real,
    ;
    let d = s2 - p;
    assert(-(6 as real * (u * p)) <= d && d <= 6 as real * (u * p)) by {
        reveal(distance);
    }
    let b = s2 * i.free;
    let gap = i.free - i.m;
    assert(-(u * i.m) <= gap && gap <= u * i.m) by {
        reveal(distance);
    }
    assert(b - pm == d * i.free + p * gap) by (nonlinear_arith)
        requires
            b == s2 * i.free,
            pm == p * i.m,
            d == s2 - p,
            gap == i.free - i.m,
    ;
    assert(i.free <= 2 as real * i.m) by {
        lemma_part(i.m);
    }
    let um = u * pm;
    assert(d * i.free <= 12 as real * um && -(12 as real * um) <= d * i.free)
        by (nonlinear_arith)
        requires
            -(6 as real * (u * p)) <= d,
            d <= 6 as real * (u * p),
            i.free > 0 as real,
            i.free <= 2 as real * i.m,
            um == u * pm,
            pm == p * i.m,
            u * p >= 0 as real,
    ;
    assert(p * gap <= um && -um <= p * gap) by (nonlinear_arith)
        requires
            -(u * i.m) <= gap,
            gap <= u * i.m,
            p >= 0 as real,
            um == u * pm,
            pm == p * i.m,
    ;
    reveal(distance);
}

/// Rounded steps lead near the residual sum of squares.
proof fn lemma_scatter(i: Scatter)
    requires
        rounded_scatter(i),
    ensures
        ({
            let q = i.sxy * i.sxy / i.sxx;
            distance(i.s * i.s * i.free - positive_part(i.syy - q)) <= trip_roundoff() * (
            distance(i.syy) + q) + least() * pow2(210) as real
        }),
{
    let (u, hb) = (roundoff(), dust());
    let q = i.sxy * i.sxy / i.sxx;
    let whole = distance(i.syy) + q;
    let uw = u * whole;
    lemma_dust();
    lemma_explained(i);
    lemma_left_over(i);
    lemma_squared_spread(i);
    let pm = positive_part(i.v * i.m);
    lemma_part(whole);
    assert(pm <= 2 as real * whole + 128 as real * hb) by {
        reveal(distance);
    }
    assert(u * pm <= 2 as real * uw + 16 as real * hb) by (nonlinear_arith)
        requires
            pm <= 2 as real * whole + 128 as real * hb,
            u >= 0 as real,
            u <= 1 as real / 8 as real,
            uw == u * whole,
            hb >= 0 as real,
    ;
    assert(trip_roundoff() * whole == 512 as real * uw) by (nonlinear_arith)
        requires
            trip_roundoff() == 1 as real / 17592186044416 as real,
            u == 1 as real / 9007199254740992 as real,
            uw == u * whole,
    ;
    reveal(distance);
}

/// The spread is the residual standard deviation of the line: its square, times
/// the points less two, is what is left of the scatter when the part that the
/// line accounts for is taken away, up to rounding.
pub proof fn the_spread_is_what_the_line_leaves_over(c: Coefficients)
    requires
        c.is_sound(),
    ensures
        c.spread().is_finite(),
        amount(c.spread()) >= 0 as real,
        distance(
            amount(c.spread()) * amount(c.spread()) * (amount(c.n) - 2 as real) - positive_part(
                c.residual(),
            ),
        ) <= c.scatter_slack(),
{
    let zero = Number::from_bits(ZERO);
    let f = c.sxy.times(c.sxy);
    let g = f.over(c.sxx);
    let e = c.syy.minus(g);
    let m = c.n.minus(Number::from_bits(TWO));
    let v = e.over(m);
    lemma_spread_steps(c);
    lemma_times_accuracy(c.sxy, c.sxy);
    lemma_over_accuracy(f, c.sxx);
    lemma_minus_accuracy(c.syy, g);
    lemma_over_accuracy(e, m);
    lemma_sqrt_accuracy(v.max(zero));
    let i = Scatter {
        syy: amount(c.syy),
        sxy: amount(c.sxy),
        sxx: amount(c.sxx),
        free: amount(c.n) - 2 as real,
        f: amount(f),
        g: amount(g),
        e: amount(e),
        m: amount(m),
        v: amount(v),
        s: amount(c.spread()),
    };
    assert(rounded_scatter(i)) by {
        reveal(distance);
    }
    lemma_scatter(i);
}

/// The square of a number grows with its size.
proof fn lemma_squares_keep_order(a: Number, b: Number)
    requires
        a.is_finite(),
        b.is_finite(),
        a.abs().le(b.abs()),
    ensures
        a.times(a).le(b.times(b)),
{
    let (x, y) = (a.abs(), b.abs());
    reveal(Number::spec_times);
    lemma_amount_of_sign(a);
    lemma_amount_of_sign(b);
    assert(a.times(a) == x.times(x) && b.times(b) == y.times(y));
    if y.magnitude() == 0 {
        lemma_times_nothing(x, y);
        assert(x.magnitude() == 0);
    } else {
        lemma_times_keeps_order(x, y, y);
        if x.magnitude() == 0 {
            lemma_times_nothing(x, x);
            lemma_times_nothing(y, x);
        } else {
            lemma_times_keeps_order(x, y, x);
        }
    }
}

/// The better the line accounts for the scatter, the smaller the spread: with
/// the same points across and the same scatter, it does not grow with what the
/// line explains.
pub proof fn a_better_fit_has_no_greater_spread(worse: Coefficients, better: Coefficients)
    requires
        worse.is_sound(),
        better.is_sound(),
        worse.syy == better.syy,
        worse.sxx == better.sxx,
        worse.n == better.n,
        worse.sxy.abs().le(better.sxy.abs()),
    ensures
        better.spread().le(worse.spread()),
{
    let zero = Number::from_bits(ZERO);
    let m = worse.n.minus(Number::from_bits(TWO));
    let (f, k) = (worse.sxy.times(worse.sxy), better.sxy.times(better.sxy));
    let (g, l) = (f.over(worse.sxx), k.over(worse.sxx));
    lemma_format();
    lemma_spread_steps(worse);
    lemma_spread_steps(better);
    lemma_amount_of_sign(zero);
    lemma_amounts_in_order(zero, m);
    lemma_squares_keep_order(worse.sxy, better.sxy);
    lemma_over_keeps_order(f, k, worse.sxx);
    assert(l.negated().le(g.negated()));
    lemma_plus_keeps_order(l.negated(), g.negated(), worse.syy);
    lemma_over_keeps_order(worse.syy.minus(l), worse.syy.minus(g), m);
    let (v, w) = (worse.syy.minus(g).over(m), worse.syy.minus(l).over(m));
    assert(w.max(zero).le(v.max(zero)));
    lemma_amounts_in_order(zero, w.max(zero));
    lemma_sqrt_keeps_order(w.max(zero), v.max(zero));
}

/// A quotient that is a number is that number.
proof fn lemma_exact_quotient(a: Number, b: Number, c: Number)
    requires
        a.is_finite(),
        b.is_finite(),
        c.is_finite(),
        amount(a) >= 0 as real,
        amount(b) > 0 as real,
        amount(c) >= 0 as real,
        a.over(b).is_finite(),
        amount(c) * amount(b) == amount(a),
    ensures
        amount(a.over(b)) == amount(c),
{
    let zero = Number::from_bits(ZERO);
    let p = pow2(DEPTH as nat);
    reveal(Number::spec_over);
    lemma_format();
    lemma_pow2_pos(DEPTH as nat);
    lemma_amount_of_sign(zero);
    lemma_amount_of_sign(a);
    lemma_amount_of_sign(b);
    lemma_amount_of_sign(c);
    lemma_amounts_in_order(zero, a);
    lemma_amounts_in_order(zero, b);
    lemma_amounts_in_order(zero, c);
    let (x, y, z) = (worth(a.magnitude()), worth(b.magnitude()), worth(c.magnitude()));
    let (rx, ry, rz, r) = (x as real, y as real, z as real, p as real);
    if a.magnitude() == 0 {
        lemma_nothing_over(a, b);
        lemma_amount_of_sign(a.over(b));
        assert(amount(c) == 0 as real) by (nonlinear_arith)
            requires
                amount(c) * amount(b) == 0 as real,
                amount(b) > 0 as real,
        ;
    } else {
        assert(c.magnitude() != 0) by {
            if c.magnitude() == 0 {
                assert(0 as real * amount(b) == 0 as real);
            }
        }
        let (i, j, k) = (amount(a), amount(b), amount(c));
        assert(i == rx / r && j == ry / r && k == rz / r);
        assert(rx * r == rz * ry) by (nonlinear_arith)
            requires
                i == rx / r,
                j == ry / r,
                k == rz / r,
                k * j == i,
                r > 0 as real,
        ;
        assert((x * p) as real == rx * r && (z * y) as real == rz * ry) by (nonlinear_arith)
            requires
                rx == x as real,
                ry == y as real,
                rz == z as real,
                r == p as real,
        ;
        assert(x * p == z * y);
        lemma_units_increase(WIDTH as nat, 0, b.magnitude());
        lemma_rounding_at_least(WIDTH as nat, (x * p) as nat, y, c.magnitude());
        lemma_rounding_at_most(WIDTH as nat, (x * p) as nat, y, c.magnitude());
        assert(a.over(b).magnitude() == c.magnitude());
    }
}

/// Points that lie exactly on a line leave nothing over: where the line
/// accounts for the whole scatter, and the square of the mixed sum is exact, the
/// spread is zero and the band has no height anywhere.
pub proof fn a_perfect_fit_has_no_band(c: Coefficients, ci: Number, x: Number)
    requires
        c.is_sound(),
        amount(c.sxy.times(c.sxy)) == amount(c.sxy) * amount(c.sxy),
        amount(c.syy) * amount(c.sxx) == amount(c.sxy) * amount(c.sxy),
        within(c.x_bar, 200),
        within(x, 200),
        c.at(x).is_finite(),
    ensures
        c.spread().magnitude() == 0,
        c.reach(ci, x).magnitude() == 0,
        c.at(x).plus(c.reach(ci, x)).same(c.at(x)),
        c.at(x).minus(c.reach(ci, x)).same(c.at(x)),
{
    let zero = Number::from_bits(ZERO);
    let f = c.sxy.times(c.sxy);
    let g = f.over(c.sxx);
    let e = c.syy.minus(g);
    let m = c.n.minus(Number::from_bits(TWO));
    let v = e.over(m);
    lemma_format();
    lemma_spread_steps(c);
    let (a, b, y) = (amount(c.syy), amount(c.sxx), amount(c.sxy));
    assert(a >= 0 as real) by (nonlinear_arith)
        requires
            a * b == y * y,
            b > 0 as real,
    ;
    lemma_exact_quotient(f, c.sxx, c.syy);
    lemma_amounts_in_order(c.syy, g);
    lemma_difference_keeps_order(c.syy, g, c.syy);
    lemma_nothing_over(e, m);
    lemma_amount_of_sign(v.max(zero));
    lemma_sqrt_accuracy(v.max(zero));
    lemma_amount_of_sign(c.spread());
    lemma_band_steps(c, ci, x);
    let inner = inner_root(c, x);
    lemma_times_nothing(inner, c.spread());
    lemma_times_nothing(critical(ci, c.n), c.spread().times(inner));
    lemma_plus_nothing(c.at(x), c.reach(ci, x));
    lemma_plus_nothing(c.at(x), c.reach(ci, x).negated());
}

/// The rounded root that a band's height is the spread times.
spec fn inner_root(c: Coefficients, x: Number) -> Number {
    let away = x.minus(c.x_bar);
    Number::from_bits(ONE).over(c.n).plus(away.times(away).over(c.sxx)).sqrt()
}

/// What a band's height grows with: one over the points, and the square of the
/// way from their middle over their scatter across.
pub open spec fn leverage(c: Coefficients, x: Number) -> real {
    1 as real / amount(c.n) + (amount(x) - amount(c.x_bar)) * (amount(x) - amount(c.x_bar))
        / amount(c.sxx)
}

/// The steps of a band's height are finite.
proof fn lemma_band_steps(c: Coefficients, ci: Number, x: Number)
    requires
        c.is_sound(),
        within(c.x_bar, 200),
        within(x, 200),
    ensures
        ({
            let t = critical(ci, c.n);
            let away = x.minus(c.x_bar);
            let sq = away.times(away);
            let one = Number::from_bits(ONE).over(c.n);
            let far = sq.over(c.sxx);
            let g = inner_root(c, x);
            &&& c.reach(ci, x) == t.times(c.spread().times(g))
            &&& t.is_finite() && amount(t) > 0 as real && amount(t) <= 64 as real
            &&& sq.is_finite() && one.is_finite() && far.is_finite() && one.plus(far).is_finite()
            &&& amount(sq) >= 0 as real && amount(one) >= 0 as real && amount(far) >= 0 as real
            &&& amount(one.plus(far)) >= 0 as real
            &&& g.is_finite()
            &&& c.spread().is_finite()
            &&& c.spread().times(g).is_finite()
            &&& c.reach(ci, x).is_finite()
            &&& c.n.magnitude() != 0
            &&& c.sxx.magnitude() != 0
        }),
{
    let zero = Number::from_bits(ZERO);
    let unit = Number::from_bits(ONE);
    let t = critical(ci, c.n);
    let away = x.minus(c.x_bar);
    let sq = away.times(away);
    let one = unit.over(c.n);
    let far = sq.over(c.sxx);
    let g = inner_root(c, x);
    let m = c.n.minus(Number::from_bits(TWO));
    let v = c.syy.minus(c.sxy.times(c.sxy).over(c.sxx)).over(m);
    lemma_format();
    lemma2_to64();
    lemma2_to64_rest();
    lemma_two_and_three();
    lemma_spread_steps(c);
    lemma_amount_of_sign(zero);
    lemma_amounts_in_order(Number::from_bits(THREE), c.n);
    quantiles_are_moderate(ci, c.n);
    lemma_sixty_four();
    lemma_amounts_in_order(t, Number::from_bits(0x4050_0000_0000_0000));
    lemma_amounts_in_order(zero, t);
    lemma_amounts_in_order(zero, c.n);
    assert(within(t, 6)) by {
        reveal(distance);
    }
    lemma_sum_fits(x, c.x_bar, 200);
    lemma_product_fits(away, away, 201, 201);
    lemma_quotient_fits(sq, c.sxx, 402, 200);
    lemma_one();
    assert(pow2(1) as real == 2 as real && pow2(0) as real == 1 as real);
    let size = distance(amount(c.n));
    assert(size >= 3 as real && distance(1 as real) == 1 as real) by {
        reveal(distance);
    }
    assert(size * pow2(1) as real >= 1 as real) by (nonlinear_arith)
        requires
            size >= 3 as real,
            pow2(1) as real == 2 as real,
    ;
    lemma_quotient_fits(unit, c.n, 0, 1);
    lemma_within_more(one, 1, 602);
    lemma_sum_fits(one, far, 602);
    assert(amount(sq) >= 0 as real && amount(one) >= 0 as real && amount(far) >= 0 as real) by {
        reveal(Number::spec_times);
        reveal(Number::spec_over);
        lemma_amounts_in_order(zero, sq);
        lemma_amounts_in_order(zero, one);
        lemma_amounts_in_order(zero, far);
        lemma_amounts_in_order(zero, c.sxx);
    }
    let sum = one.plus(far);
    lemma_plus_accuracy(one, far);
    lemma_close(amount(sum), amount(one) + amount(far), 0 as real);
    lemma_part(amount(one) + amount(far));
    assert(amount(sum) >= 0 as real) by {
        reveal(distance);
    }
    lemma_within_more(sum, 603, 604);
    lemma_sqrt_fits(sum, 302);
    // The spread's own size.
    lemma_product_fits(c.sxy, c.sxy, 200, 200);
    lemma_quotient_fits(c.sxy.times(c.sxy), c.sxx, 400, 200);
    lemma_within_more(c.syy, 200, 600);
    lemma_sum_fits(c.syy, c.sxy.times(c.sxy).over(c.sxx), 600);
    assert(beyond(m, 1)) by {
        reveal(distance);
    }
    lemma_quotient_fits(c.syy.minus(c.sxy.times(c.sxy).over(c.sxx)), m, 601, 1);
    assert(within(v.max(zero), 602)) by {
        reveal(distance);
    }
    lemma_sqrt_fits(v.max(zero), 301);
    lemma_product_fits(c.spread(), g, 302, 303);
    lemma_product_fits(t, c.spread().times(g), 6, 605);
}

/// The number one, exactly.
pub proof fn lemma_one()
    ensures
        amount(Number::from_bits(ONE)) == 1 as real,
        Number::from_bits(ONE).is_finite(),
{
    lemma_format();
    lemma2_to64_rest();
    let one = Number::from_bits(ONE);
    lemma_amount_of_parts(one, 52);
    assert(amount(one) * 4503599627370496 as real == 4503599627370496 as real);
}

proof fn lemma_sixty_four()
    ensures
        amount(Number::from_bits(0x4050_0000_0000_0000)) == 64 as real,
{
    lemma_format();
    lemma2_to64();
    lemma2_to64_rest();
    let x = Number::from_bits(0x4050_0000_0000_0000);
    lemma_amount_of_parts(x, 46);
    assert(pow2(46) == 70368744177664);
    assert(amount(x) * 70368744177664 as real == 4503599627370496 as real);
}

/// The exact values of a leverage's parts and of their rounded forms.
struct Lever {
    /// How many points there are, their scatter across, and the way from their
    /// middle.
    n: real,
    sxx: real,
    d: real,
    /// One over the points.
    one: real,
    /// The square of the way, and that over the scatter.
    s: real,
    far: real,
    /// The sum, and its root.
    sum: real,
    g: real,
}

/// The sum of a leverage's two parts is near the leverage.
#[verifier::rlimit(60)]
proof fn lemma_leverage_sum(i: Lever)
    requires
        i.n > 0 as real,
        i.sxx > 0 as real,
        i.sxx * pow2(200) as real >= 1 as real,
        i.one >= 0 as real,
        i.s >= 0 as real,
        i.far >= 0 as real,
        distance(i.one - 1 as real / i.n) <= roundoff() * distance(i.one) + least(),
        distance(i.s - i.d * i.d) <= 32 as real * (roundoff() * (i.d * i.d)) + 2 as real * least(),
        distance(i.far - i.s / i.sxx) <= roundoff() * distance(i.far) + least(),
    ensures
        ({
            let whole = 1 as real / i.n + i.d * i.d / i.sxx;
            &&& whole > 0 as real
            &&& distance(i.one + i.far - whole) <= 40 as real * (roundoff() * whole) + 10 as real
                * dust()
        }),
{
    let (u, h, hb) = (roundoff(), least(), dust());
    let zero = 0 as real;
    let big = pow2(200) as real;
    let (n, sxx, d, s) = (i.n, i.sxx, i.d, i.s);
    lemma_dust();
    let first = 1 as real / n;
    assert(first > zero) by (nonlinear_arith)
        requires
            first == 1 as real / n,
            n > 0 as real,
            zero == 0 as real,
    ;
    lemma_close(i.one, first, h);
    // The way from the middle.
    let d2 = d * d;
    let k = 1 as real / sxx;
    let second = d2 / sxx;
    assert(k > zero && k <= big) by (nonlinear_arith)
        requires
            k == 1 as real / sxx,
            sxx > 0 as real,
            sxx * big >= 1 as real,
            zero == 0 as real,
    ;
    assert(d2 >= zero) by (nonlinear_arith)
        requires
            d2 == d * d,
            zero == 0 as real,
    ;
    let sk = s * k;
    assert(second == d2 * k && s / sxx == sk && second >= zero) by (nonlinear_arith)
        requires
            second == d2 / sxx,
            sk == s * k,
            k == 1 as real / sxx,
            sxx > 0 as real,
            d2 >= zero,
            zero == 0 as real,
    ;
    let gap = s - d2;
    assert(sk - second == gap * k) by (nonlinear_arith)
        requires
            sk == s * k,
            second == d2 * k,
            gap == s - d2,
    ;
    assert(-(32 as real * (u * d2) + 2 as real * h) <= gap && gap <= 32 as real * (u * d2) + 2
        as real * h) by {
        reveal(distance);
    }
    let us = u * second;
    assert(-(32 as real * us + 2 as real * hb) <= gap * k && gap * k <= 32 as real * us + 2 as real
        * hb) by (nonlinear_arith)
        requires
            -(32 as real * (u * d2) + 2 as real * h) <= gap,
            gap <= 32 as real * (u * d2) + 2 as real * h,
            k > 0 as real,
            k <= big,
            us == u * second,
            second == d2 * k,
            hb == h * big,
            h > 0 as real,
    ;
    lemma_close(i.far, sk, h);
    let whole = first + second;
    let uw = u * whole;
    assert(u * first <= uw && us <= uw && u * first >= zero && us >= zero) by (nonlinear_arith)
        requires
            whole == first + second,
            first > 0 as real,
            second >= 0 as real,
            uw == u * whole,
            us == u * second,
            u >= 0 as real,
            zero == 0 as real,
    ;
    assert(sk >= zero) by (nonlinear_arith)
        requires
            sk == s * k,
            s >= 0 as real,
            k > 0 as real,
            zero == 0 as real,
    ;
    assert(distance(first) == first && distance(sk) == sk) by {
        reveal(distance);
    }
    lemma_part(second);
    lemma_part(whole);
    assert(sk <= 2 as real * second + 2 as real * hb);
    assert(u * sk <= 2 as real * us + hb) by (nonlinear_arith)
        requires
            sk <= 2 as real * second + 2 as real * hb,
            us == u * second,
            u >= 0 as real,
            u <= 1 as real / 2 as real,
            hb >= 0 as real,
    ;
    let t = i.one + i.far;
    assert(distance(t - whole) <= 40 as real * uw + 10 as real * hb) by {
        reveal(distance);
    }
}

/// The root of a sum near a leverage squares to nearly the leverage.
#[verifier::rlimit(60)]
proof fn lemma_leverage_root(t: real, whole: real, sum: real, g: real)
    requires
        t >= 0 as real,
        whole > 0 as real,
        sum >= 0 as real,
        g >= 0 as real,
        distance(t - whole) <= 40 as real * (roundoff() * whole) + 10 as real * dust(),
        distance(sum - t) <= roundoff() * distance(sum),
        distance(sum - g * g) <= 3 as real * (roundoff() * (g * g)),
    ensures
        distance(g * g - whole) <= trip_roundoff() * whole + least() * pow2(210) as real,
{
    let (u, hb) = (roundoff(), dust());
    let zero = 0 as real;
    let uw = u * whole;
    lemma_dust();
    lemma_part(whole);
    lemma_close(sum, t, zero);
    assert(distance(t) == t) by {
        reveal(distance);
    }
    assert(t <= 2 as real * whole + 10 as real * hb) by {
        reveal(distance);
    }
    assert(u * t <= 2 as real * uw + 10 as real * hb) by (nonlinear_arith)
        requires
            t <= 2 as real * whole + 10 as real * hb,
            uw == u * whole,
            u >= 0 as real,
            u <= 1 as real,
            hb >= 0 as real,
    ;
    let g2 = g * g;
    assert(g2 >= zero) by (nonlinear_arith)
        requires
            g2 == g * g,
            zero == 0 as real,
    ;
    lemma_part(g2);
    assert(g2 <= 2 as real * sum && sum <= 2 as real * t) by {
        reveal(distance);
    }
    assert(u * g2 <= 4 as real * (u * t)) by (nonlinear_arith)
        requires
            g2 <= 2 as real * sum,
            sum <= 2 as real * t,
            u >= 0 as real,
    ;
    assert(trip_roundoff() * whole == 512 as real * uw) by (nonlinear_arith)
        requires
            trip_roundoff() == 1 as real / 17592186044416 as real,
            u == 1 as real / 9007199254740992 as real,
            uw == u * whole,
    ;
    reveal(distance);
}

/// The errors of a leverage, added up.
proof fn lemma_leverage_in_reals(i: Lever)
    requires
        i.n > 0 as real,
        i.sxx > 0 as real,
        i.sxx * pow2(200) as real >= 1 as real,
        i.one >= 0 as real,
        i.s >= 0 as real,
        i.far >= 0 as real,
        i.sum >= 0 as real,
        i.g >= 0 as real,
        distance(i.one - 1 as real / i.n) <= roundoff() * distance(i.one) + least(),
        distance(i.s - i.d * i.d) <= 32 as real * (roundoff() * (i.d * i.d)) + 2 as real * least(),
        distance(i.far - i.s / i.sxx) <= roundoff() * distance(i.far) + least(),
        distance(i.sum - (i.one + i.far)) <= roundoff() * distance(i.sum),
        distance(i.sum - i.g * i.g) <= 3 as real * (roundoff() * (i.g * i.g)),
    ensures
        ({
            let whole = 1 as real / i.n + i.d * i.d / i.sxx;
            &&& whole > 0 as real
            &&& distance(i.g * i.g - whole) <= trip_roundoff() * whole + least() * pow2(210) as real
        }),
{
    lemma_leverage_sum(i);
    lemma_leverage_root(i.one + i.far, 1 as real / i.n + i.d * i.d / i.sxx, i.sum, i.g);
}

/// A rounded root of a rounded leverage squares to nearly the leverage.
proof fn lemma_leverage(c: Coefficients, ci: Number, x: Number)
    requires
        c.is_sound(),
        within(c.x_bar, 200),
        within(x, 200),
    ensures
        ({
            let g = amount(inner_root(c, x));
            let whole = leverage(c, x);
            &&& g >= 0 as real
            &&& whole > 0 as real
            &&& distance(g * g - whole) <= trip_roundoff() * whole + least() * pow2(210) as real
        }),
{
    let unit = Number::from_bits(ONE);
    let away = x.minus(c.x_bar);
    let sq = away.times(away);
    let one = unit.over(c.n);
    let far = sq.over(c.sxx);
    let sum = one.plus(far);
    lemma_one();
    lemma_band_steps(c, ci, x);
    lemma_squared_difference(c.x_bar, x);
    lemma_over_accuracy(unit, c.n);
    lemma_over_accuracy(sq, c.sxx);
    lemma_plus_accuracy(one, far);
    lemma_sqrt_accuracy(sum);
    assert(distance(amount(c.sxx)) == amount(c.sxx)) by {
        reveal(distance);
    }
    lemma_leverage_in_reals(
        Lever {
            n: amount(c.n),
            sxx: amount(c.sxx),
            d: across(c.x_bar, x),
            one: amount(one),
            s: amount(sq),
            far: amount(far),
            sum: amount(sum),
            g: amount(inner_root(c, x)),
        },
    );
}

/// Whether a real number is the root of another, up to rounding.
pub open spec fn is_root(g: real, of: real) -> bool {
    &&& g >= 0 as real
    &&& distance(g * g - of) <= trip_roundoff() * of + least() * pow2(210) as real
}

/// Whether a reach is half the height of a confidence band at `x`: the quantile
/// times the spread times the root of the leverage, up to rounding.
pub open spec fn is_half_height(c: Coefficients, ci: Number, x: Number, reach: Number) -> bool {
    reach.is_finite() && exists|g: real| #[trigger]
        is_root(g, leverage(c, x)) && {
            let exact = amount(critical(ci, c.n)) * (amount(c.spread()) * g);
            distance(amount(reach) - exact) <= trip_roundoff() * exact + 1024 as real * least()
        }
}

/// The band reaches above and below the line by the quantile times the spread
/// times the root of one over the points and the square of the way from their
/// middle over their scatter across.
pub proof fn a_band_widens_away_from_the_middle(c: Coefficients, ci: Number, x: Number)
    requires
        c.is_sound(),
        within(c.x_bar, 200),
        within(x, 200),
    ensures
        is_half_height(c, ci, x, c.reach(ci, x)),
{
    let (u, h) = (roundoff(), least());
    let t = critical(ci, c.n);
    let w = c.spread().times(inner_root(c, x));
    let reach = c.reach(ci, x);
    lemma_least_is_small();
    lemma_band_steps(c, ci, x);
    lemma_leverage(c, ci, x);
    the_spread_is_what_the_line_leaves_over(c);
    lemma_times_accuracy(c.spread(), inner_root(c, x));
    lemma_times_accuracy(t, w);
    let g = amount(inner_root(c, x));
    let p = amount(c.spread()) * g;
    let a = amount(t);
    let exact = a * p;
    assert(p >= 0 as real) by (nonlinear_arith)
        requires
            p == amount(c.spread()) * g,
            amount(c.spread()) >= 0 as real,
            g >= 0 as real,
    ;
    assert(exact >= 0 as real) by (nonlinear_arith)
        requires
            exact == a * p,
            a >= 0 as real,
            p >= 0 as real,
    ;
    lemma_close(amount(w), p, h);
    let tw = a * amount(w);
    lemma_close(amount(reach), tw, h);
    let gap = amount(w) - p;
    assert(distance(p) == p) by {
        reveal(distance);
    }
    assert(-(2 as real * (u * p) + 2 as real * h) <= gap && gap <= 2 as real * (u * p) + 2 as real
        * h) by {
        reveal(distance);
    }
    let ue = u * exact;
    assert(tw - exact == a * gap) by (nonlinear_arith)
        requires
            tw == a * amount(w),
            exact == a * p,
            gap == amount(w) - p,
    ;
    assert(-(2 as real * ue + 128 as real * h) <= a * gap && a * gap <= 2 as real * ue + 128 as real
        * h) by (nonlinear_arith)
        requires
            -(2 as real * (u * p) + 2 as real * h) <= gap,
            gap <= 2 as real * (u * p) + 2 as real * h,
            a > 0 as real,
            a <= 64 as real,
            ue == u * exact,
            exact == a * p,
            h > 0 as real,
    ;
    lemma_part(exact);
    let size = distance(tw);
    assert(size <= 2 as real * exact + 128 as real * h) by {
        reveal(distance);
    }
    assert(u * size <= 2 as real * ue + 128 as real * h) by (nonlinear_arith)
        requires
            size <= 2 as real * exact + 128 as real * h,
            ue == u * exact,
            u >= 0 as real,
            u <= 1 as real,
            h > 0 as real,
    ;
    assert(trip_roundoff() * exact == 512 as real * ue) by (nonlinear_arith)
        requires
            trip_roundoff() == 1 as real / 17592186044416 as real,
            u == 1 as real / 9007199254740992 as real,
            ue == u * exact,
    ;
    lemma_triangle(amount(reach), tw, exact);
    assert(distance(tw - exact) <= 2 as real * ue + 128 as real * h) by {
        reveal(distance);
    }
    assert(is_root(g, leverage(c, x)));
}

/// The line of a fit: a value is the slope times the place plus the intercept,
/// up to rounding.
pub proof fn a_fit_is_a_straight_line(c: Coefficients, x: Number)
    requires
        within(c.slope, 200),
        within(c.intercept, 200),
        within(x, 200),
    ensures
        c.at(x).is_finite(),
        distance(amount(c.at(x)) - (amount(c.slope) * amount(x) + amount(c.intercept)))
            <= trip_roundoff() * (distance(amount(c.slope) * amount(x)) + distance(
            amount(c.intercept),
        )) + 8 as real * least(),
{
    let (u, h) = (roundoff(), least());
    let p = c.slope.times(x);
    lemma_least_is_small();
    lemma_product_fits(c.slope, x, 200, 200);
    lemma_within_more(c.intercept, 200, 400);
    lemma_sum_fits(p, c.intercept, 400);
    lemma_times_accuracy(c.slope, x);
    lemma_plus_accuracy(p, c.intercept);
    let e = amount(c.slope) * amount(x);
    let b = amount(c.intercept);
    lemma_close(amount(p), e, h);
    lemma_close(amount(c.at(x)), amount(p) + b, 0 as real);
    lemma_distances(amount(p), b);
    lemma_distances(e, b);
    let whole = distance(e) + distance(b);
    lemma_part(distance(e));
    lemma_part(whole);
    let s = distance(amount(p) + b);
    assert(s <= 2 as real * whole + 2 as real * h);
    let uw = u * whole;
    assert(u * s <= 2 as real * uw + h && u * distance(e) <= uw) by (nonlinear_arith)
        requires
            s <= 2 as real * whole + 2 as real * h,
            distance(e) <= whole,
            uw == u * whole,
            u >= 0 as real,
            u <= 1 as real / 2 as real,
            h > 0 as real,
    ;
    assert(trip_roundoff() * whole == 512 as real * uw) by (nonlinear_arith)
        requires
            trip_roundoff() == 1 as real / 17592186044416 as real,
            u == 1 as real / 9007199254740992 as real,
            uw == u * whole,
    ;
    lemma_triangle(amount(c.at(x)), amount(p) + b, e + b);
    assert((amount(p) + b) - (e + b) == amount(p) - e);
}

} // verus!
