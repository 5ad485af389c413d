//! Double-precision numbers by their bit patterns.
//!
//! A [`Number`] is the 64-bit pattern of an IEEE 754 double. Order and
//! arithmetic are computed on the pattern; every result of arithmetic is the
//! correctly rounded one, ties to even.
use vstd::arithmetic::div_mod::{
    lemma_fundamental_div_mod, lemma_fundamental_div_mod_converse, lemma_small_mod,
};
use vstd::arithmetic::mul::*;
use vstd::arithmetic::power2::{
    lemma2_to64, lemma2_to64_rest, lemma_pow2_adds, lemma_pow2_pos, lemma_pow2_strictly_increases,
    lemma_pow2_unfold, pow2,
};
use vstd::prelude::*;

use crate::root::{nearest_root, root};
use crate::rounding::{
    approximates, bit_length, combine, lemma_exactly, lemma_pow2_increases, lemma_product_parts,
    lemma_rounding_at_most, lemma_rounding_is_exact, lemma_rounding_of_nothing,
    lemma_units_increase, lemma_units_of_parts, parts, power, round, round_exact, rounded, size,
    units, OFFSET,
};

verus! {

/// The sign bit.
pub const SIGN: u64 = 0x8000_0000_0000_0000;

/// The pattern that arithmetic gives where it has no answer.
pub const QUIET: u64 = 0x7ff8_0000_0000_0000;

/// How many fraction bits there are.
pub const WIDTH: u32 = 52;

/// One more than the largest fraction field.
pub const FRACTIONS: u64 = 0x10_0000_0000_0000;

/// The magnitude that stands for infinity.
pub const INFINITE: u64 = 0x7ff0_0000_0000_0000;

/// How many halvings lead from one to the smallest positive magnitude.
pub const DEPTH: i32 = 1074;

/// A double-precision number, by its bit pattern.
///
/// `==` compares patterns; [`Number::same`] compares numbers.
#[derive(Clone, Copy, Debug, PartialEq, Eq, Structural)]
pub struct Number {
    pub bits: u64,
}

/// The number with a given sign and magnitude.
pub open spec fn signed(negative: bool, mag: nat) -> Number {
    Number {
        bits: (mag + if negative {
            SIGN as nat
        } else {
            0
        }) as u64,
    }
}

/// The value of a magnitude, in units of the smallest positive magnitude.
pub open spec fn worth(mag: nat) -> nat {
    units(WIDTH as nat, mag)
}

/// The magnitude nearest to `n / d`; a quotient halfway between two magnitudes
/// goes to the even one.
pub open spec fn correctly_rounded(n: nat, d: nat) -> nat {
    rounded(WIDTH as nat, INFINITE as nat, n, d)
}

impl Number {
    /// Whether the sign bit is set.
    pub open spec fn negative(self) -> bool {
        self.bits >= SIGN
    }

    /// The pattern without its sign bit.
    pub open spec fn magnitude(self) -> nat {
        if self.negative() {
            (self.bits - SIGN) as nat
        } else {
            self.bits as nat
        }
    }

    pub open spec fn spec_is_nan(self) -> bool {
        self.magnitude() > INFINITE
    }

    pub open spec fn spec_is_infinite(self) -> bool {
        self.magnitude() == INFINITE
    }

    pub open spec fn spec_is_finite(self) -> bool {
        self.magnitude() < INFINITE
    }

    /// The value of a finite number, in units of the smallest positive one.
    pub open spec fn value(self) -> int {
        if self.negative() {
            -(worth(self.magnitude()) as int)
        } else {
            worth(self.magnitude()) as int
        }
    }

    /// Where the number stands in the order of all numbers; both zeros stand
    /// in one place.
    pub open spec fn rank(self) -> int {
        if self.negative() {
            -(self.magnitude() as int)
        } else {
            self.magnitude() as int
        }
    }

    pub open spec fn spec_from_bits(bits: u64) -> Number {
        Number { bits }
    }

    /// The number with the bit pattern `bits`.
    #[verifier::when_used_as_spec(spec_from_bits)]
    pub fn from_bits(bits: u64) -> (r: Number)
        ensures
            r == Number::spec_from_bits(bits),
    {
        Number { bits }
    }

    pub open spec fn spec_to_bits(self) -> u64 {
        self.bits
    }

    /// The bit pattern.
    #[verifier::when_used_as_spec(spec_to_bits)]
    pub fn to_bits(self) -> (r: u64)
        ensures
            r == self.spec_to_bits(),
    {
        self.bits
    }

    pub(crate) fn sign(self) -> (r: bool)
        ensures
            r == self.negative(),
    {
        self.bits >= SIGN
    }

    pub(crate) fn mag(self) -> (r: u64)
        ensures
            r == self.magnitude(),
            r < SIGN,
    {
        if self.bits >= SIGN {
            self.bits - SIGN
        } else {
            self.bits
        }
    }

    /// Whether the number is not a number.
    #[verifier::when_used_as_spec(spec_is_nan)]
    pub fn is_nan(self) -> (r: bool)
        ensures
            r == self.spec_is_nan(),
    {
        self.mag() > INFINITE
    }

    /// Whether the number is infinite.
    #[verifier::when_used_as_spec(spec_is_infinite)]
    pub fn is_infinite(self) -> (r: bool)
        ensures
            r == self.spec_is_infinite(),
    {
        self.mag() == INFINITE
    }

    /// Whether the number is neither infinite nor undefined.
    #[verifier::when_used_as_spec(spec_is_finite)]
    pub fn is_finite(self) -> (r: bool)
        ensures
            r == self.spec_is_finite(),
    {
        self.mag() < INFINITE
    }

    pub open spec fn spec_lt(self, other: Number) -> bool {
        !self.is_nan() && !other.is_nan() && self.rank() < other.rank()
    }

    /// Whether the number is less than another. Nothing is less or greater
    /// than what is not a number.
    #[verifier::when_used_as_spec(spec_lt)]
    pub fn lt(self, other: Number) -> (r: bool)
        ensures
            r == self.spec_lt(other),
    {
        if self.is_nan() || other.is_nan() {
            false
        } else if self.sign() {
            if other.sign() {
                self.mag() > other.mag()
            } else {
                self.mag() != 0 || other.mag() != 0
            }
        } else if other.sign() {
            false
        } else {
            self.mag() < other.mag()
        }
    }

    pub open spec fn spec_le(self, other: Number) -> bool {
        !self.is_nan() && !other.is_nan() && self.rank() <= other.rank()
    }

    /// Whether the number is at most another.
    #[verifier::when_used_as_spec(spec_le)]
    pub fn le(self, other: Number) -> (r: bool)
        ensures
            r == self.spec_le(other),
    {
        if self.is_nan() || other.is_nan() {
            false
        } else {
            !other.lt(self)
        }
    }

    pub open spec fn spec_same(self, other: Number) -> bool {
        !self.is_nan() && !other.is_nan() && self.rank() == other.rank()
    }

    /// Whether the two are the same number. The two zeros are; what is not a
    /// number is the same as nothing.
    #[verifier::when_used_as_spec(spec_same)]
    pub fn same(self, other: Number) -> (r: bool)
        ensures
            r == self.spec_same(other),
    {
        self.le(other) && other.le(self)
    }

    pub open spec fn spec_min(self, other: Number) -> Number {
        if self.is_nan() || other.lt(self) {
            other
        } else {
            self
        }
    }

    /// The lesser of two numbers; the other one where one is not a number.
    #[verifier::when_used_as_spec(spec_min)]
    pub fn min(self, other: Number) -> (r: Number)
        ensures
            r == self.spec_min(other),
    {
        if self.is_nan() || other.lt(self) {
            other
        } else {
            self
        }
    }

    pub open spec fn spec_max(self, other: Number) -> Number {
        if self.is_nan() || self.lt(other) {
            other
        } else {
            self
        }
    }

    /// The greater of two numbers; the other one where one is not a number.
    #[verifier::when_used_as_spec(spec_max)]
    pub fn max(self, other: Number) -> (r: Number)
        ensures
            r == self.spec_max(other),
    {
        if self.is_nan() || self.lt(other) {
            other
        } else {
            self
        }
    }

    pub open spec fn spec_negated(self) -> Number {
        signed(!self.negative(), self.magnitude())
    }

    /// The number with its sign turned round.
    #[verifier::when_used_as_spec(spec_negated)]
    pub fn negated(self) -> (r: Number)
        ensures
            r == self.spec_negated(),
    {
        let m = self.mag();
        if self.sign() {
            Number { bits: m }
        } else {
            Number { bits: m + SIGN }
        }
    }

    pub open spec fn spec_abs(self) -> Number {
        signed(false, self.magnitude())
    }

    /// The number without its sign.
    #[verifier::when_used_as_spec(spec_abs)]
    pub fn abs(self) -> (r: Number)
        ensures
            r == self.spec_abs(),
    {
        Number { bits: self.mag() }
    }
}

/// The constants of the format fit together.
pub proof fn lemma_format()
    ensures
        pow2(WIDTH as nat) == FRACTIONS,
        worth(0) == 0,
{
    lemma2_to64_rest();
}

/// A finite magnitude as a significand and a scale.
pub(crate) fn take_apart(mag: u64) -> (r: (u64, i32))
    requires
        mag < INFINITE,
    ensures
        r.0 < 2 * FRACTIONS,
        0 <= r.1 <= 2045,
        r.1 > 0 ==> r.0 >= FRACTIONS,
        worth(mag as nat) == r.0 * pow2(r.1 as nat),
        r.0 == 0 <==> mag == 0,
        r.1 == if mag < FRACTIONS {
            0
        } else {
            mag / FRACTIONS - 1
        },
{
    proof {
        lemma_format();
    }
    parts(WIDTH, mag)
}

pub(crate) fn make(negative: bool, mag: u64) -> (r: Number)
    requires
        mag < SIGN,
    ensures
        r == signed(negative, mag as nat),
{
    if negative {
        Number { bits: mag + SIGN }
    } else {
        Number { bits: mag }
    }
}

/// Ranks order finite numbers as their values do.
pub proof fn lemma_rank_is_value_order(a: Number, b: Number)
    requires
        a.is_finite(),
        b.is_finite(),
    ensures
        a.rank() < b.rank() <==> a.value() < b.value(),
        a.rank() == b.rank() <==> a.value() == b.value(),
{
    let x = a.magnitude();
    let y = b.magnitude();
    lemma_format();
    if x < y {
        lemma_units_increase(WIDTH as nat, x, y);
    } else if y < x {
        lemma_units_increase(WIDTH as nat, y, x);
    }
    if x > 0 {
        lemma_units_increase(WIDTH as nat, 0, x);
    }
    if y > 0 {
        lemma_units_increase(WIDTH as nat, 0, y);
    }
}

impl Number {
    #[verifier::opaque]
    pub open spec fn spec_plus(self, other: Number) -> Number {
        if self.is_nan() || other.is_nan() {
            Number { bits: QUIET }
        } else if self.is_infinite() {
            if other.is_infinite() && self.negative() != other.negative() {
                Number { bits: QUIET }
            } else {
                self
            }
        } else if other.is_infinite() {
            other
        } else {
            let exact = self.value() + other.value();
            if exact == 0 {
                signed(self.negative() && other.negative(), 0)
            } else {
                signed(exact < 0, correctly_rounded(size(exact), 1))
            }
        }
    }

    pub open spec fn spec_minus(self, other: Number) -> Number {
        self.spec_plus(other.spec_negated())
    }

    #[verifier::opaque]
    pub open spec fn spec_times(self, other: Number) -> Number {
        let negative = self.negative() != other.negative();
        if self.is_nan() || other.is_nan() {
            Number { bits: QUIET }
        } else if self.is_infinite() || other.is_infinite() {
            if self.magnitude() == 0 || other.magnitude() == 0 {
                Number { bits: QUIET }
            } else {
                signed(negative, INFINITE as nat)
            }
        } else {
            signed(
                negative,
                correctly_rounded(
                    worth(self.magnitude()) * worth(other.magnitude()),
                    pow2(DEPTH as nat),
                ),
            )
        }
    }

    #[verifier::opaque]
    pub open spec fn spec_over(self, other: Number) -> Number {
        let negative = self.negative() != other.negative();
        if self.is_nan() || other.is_nan() {
            Number { bits: QUIET }
        } else if self.is_infinite() {
            if other.is_infinite() {
                Number { bits: QUIET }
            } else {
                signed(negative, INFINITE as nat)
            }
        } else if other.is_infinite() {
            signed(negative, 0)
        } else if other.magnitude() == 0 {
            if self.magnitude() == 0 {
                Number { bits: QUIET }
            } else {
                signed(negative, INFINITE as nat)
            }
        } else {
            signed(
                negative,
                correctly_rounded(
                    worth(self.magnitude()) * pow2(DEPTH as nat),
                    worth(other.magnitude()),
                ),
            )
        }
    }

    /// The sum, correctly rounded.
    #[verifier::when_used_as_spec(spec_plus)]
    pub fn plus(self, other: Number) -> (r: Number)
        ensures
            r == self.spec_plus(other),
    {
        proof {
            reveal(Number::spec_plus);
        }
        if self.is_nan() || other.is_nan() {
            return Number { bits: QUIET };
        }
        if self.is_infinite() {
            if other.is_infinite() && self.sign() != other.sign() {
                return Number { bits: QUIET };
            }
            return self;
        }
        if other.is_infinite() {
            return other;
        }
        let a = self.mag();
        let b = other.mag();
        let apart = self.sign() != other.sign();
        proof {
            lemma_format();
        }
        if a >= b {
            let mag = combine(WIDTH, INFINITE, a, b, apart);
            if mag == 0 {
                make(self.sign() && other.sign(), 0)
            } else {
                make(self.sign(), mag)
            }
        } else {
            let mag = combine(WIDTH, INFINITE, b, a, apart);
            if mag == 0 {
                make(self.sign() && other.sign(), 0)
            } else {
                make(other.sign(), mag)
            }
        }
    }

    /// The difference, correctly rounded.
    #[verifier::when_used_as_spec(spec_minus)]
    pub fn minus(self, other: Number) -> (r: Number)
        ensures
            r == self.spec_minus(other),
    {
        self.plus(other.negated())
    }

    /// The product, correctly rounded.
    #[verifier::when_used_as_spec(spec_times)]
    pub fn times(self, other: Number) -> (r: Number)
        ensures
            r == self.spec_times(other),
    {
        proof {
            reveal(Number::spec_times);
            lemma_format();
            lemma_pow2_pos(DEPTH as nat);
        }
        if self.is_nan() || other.is_nan() {
            return Number { bits: QUIET };
        }
        let negative = self.sign() != other.sign();
        let a = self.mag();
        let b = other.mag();
        if a == INFINITE || b == INFINITE {
            if a == 0 || b == 0 {
                return Number { bits: QUIET };
            }
            return make(negative, INFINITE);
        }
        if a == 0 || b == 0 {
            proof {
                lemma_mul_basics(worth(a as nat) as int);
                lemma_mul_basics(worth(b as nat) as int);
                lemma_rounding_of_nothing(WIDTH as nat, INFINITE as nat, pow2(DEPTH as nat));
            }
            return make(negative, 0);
        }
        let (ma, ea) = take_apart(a);
        let (mb, eb) = take_apart(b);
        proof {
            lemma_mul_upper_bound(
                ma as int,
                2 * FRACTIONS as int,
                mb as int,
                2 * FRACTIONS as int,
            );
            lemma_mul_strictly_positive(ma as int, mb as int);
        }
        let m: u128 = ma as u128 * mb as u128;
        let ghost n = worth(a as nat) * worth(b as nat);
        proof {
            lemma_product_parts(DEPTH as nat, ma as nat, ea as nat, mb as nat, eb as nat);
        }
        let mag = round_exact(WIDTH, INFINITE, m, ea + eb - DEPTH, Ghost(n), Ghost(pow2(DEPTH as nat)));
        make(negative, mag)
    }

    /// The quotient, correctly rounded.
    #[verifier::when_used_as_spec(spec_over)]
    pub fn over(self, other: Number) -> (r: Number)
        ensures
            r == self.spec_over(other),
    {
        proof {
            reveal(Number::spec_over);
            lemma_format();
        }
        if self.is_nan() || other.is_nan() {
            return Number { bits: QUIET };
        }
        let negative = self.sign() != other.sign();
        let a = self.mag();
        let b = other.mag();
        if a == INFINITE {
            if b == INFINITE {
                return Number { bits: QUIET };
            }
            return make(negative, INFINITE);
        }
        if b == INFINITE {
            return make(negative, 0);
        }
        if b == 0 {
            if a == 0 {
                return Number { bits: QUIET };
            }
            return make(negative, INFINITE);
        }
        if a == 0 {
            proof {
                lemma_units_increase(WIDTH as nat, 0, b as nat);
                lemma_mul_basics(pow2(DEPTH as nat) as int);
                lemma_rounding_of_nothing(WIDTH as nat, INFINITE as nat, worth(b as nat));
            }
            return make(negative, 0);
        }
        make(negative, divide(a, b))
    }
}

/// The quotient of two positive magnitudes, correctly rounded.
fn divide(a: u64, b: u64) -> (mag: u64)
    requires
        0 < a < INFINITE,
        0 < b < INFINITE,
    ensures
        mag == correctly_rounded(worth(a as nat) * pow2(DEPTH as nat), worth(b as nat)),
        mag <= INFINITE,
{
    let (ma, ea) = take_apart(a);
    let (mb, eb) = take_apart(b);
    let len = bit_length(ma as u128);
    proof {
        lemma2_to64();
        lemma2_to64_rest();
        if len > 53 {
            if len > 54 {
                lemma_pow2_strictly_increases(53, (len - 1) as nat);
            }
        }
    }
    let lift: u32 = 127 - len;
    let ghost top = pow2(lift as nat);
    proof {
        lemma_pow2_pos(lift as nat);
        lemma_pow2_adds(len as nat, lift as nat);
        lemma_pow2_adds((len - 1) as nat, lift as nat);
        lemma_pow2_adds(63, 64);
        lemma_pow2_adds(62, 64);
        assert(ma * top < pow2(len as nat) * top && ma * top >= pow2((len - 1) as nat) * top)
            by (nonlinear_arith)
            requires
                pow2((len - 1) as nat) <= ma < pow2(len as nat),
                top > 0,
        ;
    }
    let wide: u128 = (ma as u128) * power(lift);
    let q: u128 = wide / (mb as u128);
    let rest: u128 = wide % (mb as u128);
    let e: i32 = ea - lift as i32 + DEPTH - eb;
    let ghost n = worth(a as nat) * pow2(DEPTH as nat);
    let ghost d = worth(b as nat);
    proof {
        lemma_pow2_pos(eb as nat);
        lemma_mul_strictly_positive(mb as int, pow2(eb as nat) as int);
        lemma_fundamental_div_mod(wide as int, mb as int);
        assert(q >= 0x40_0000_0000_0000) by (nonlinear_arith)
            requires
                wide == mb * q + rest,
                0 <= rest < mb,
                mb < 0x20_0000_0000_0000,
                wide >= 0x4000_0000_0000_0000_0000_0000_0000_0000,
        ;
        assert(q <= wide) by (nonlinear_arith)
            requires
                wide == mb * q + rest,
                0 <= rest,
                mb >= 1,
        ;
        lemma_quotient_parts(
            ma as nat,
            ea as nat,
            lift as nat,
            mb as nat,
            eb as nat,
            q as nat,
            rest as nat,
        );
    }
    round(WIDTH, INFINITE, q, e, rest != 0, Ghost(n), Ghost(d))
}

proof fn lemma_quotient_parts(ma: nat, ea: nat, lift: nat, mb: nat, eb: nat, q: nat, rest: nat)
    requires
        ea - lift + DEPTH + OFFSET - eb >= 0,
        mb > 0,
        ma * pow2(lift) == mb * q + rest,
        rest < mb,
    ensures
        approximates(
            q as int,
            ea - lift + DEPTH - eb,
            rest != 0,
            ((ma * pow2(ea)) * pow2(DEPTH as nat)) as nat,
            (mb * pow2(eb)) as nat,
        ),
{
    let g = (ea - lift + DEPTH + OFFSET) as nat;
    let h = (ea - lift + DEPTH + OFFSET - eb) as nat;
    let a = pow2(ea);
    let b = pow2(eb);
    let k = pow2(OFFSET as nat);
    let d = pow2(DEPTH as nat);
    let l = pow2(lift);
    let y = pow2(g);
    lemma_pow2_adds(ea, DEPTH as nat);
    lemma_pow2_adds(ea + DEPTH as nat, OFFSET as nat);
    lemma_pow2_adds(lift, g);
    lemma_pow2_adds(eb, h);
    lemma_pow2_pos(g);
    assert((a * d) * k == l * y);
    let whole = ((ma * a) * d) * k;
    let step = (mb * b) * pow2(h);
    assert(whole == (ma * l) * y) by (nonlinear_arith)
        requires
            (a * d) * k == l * y,
            whole == ((ma * a) * d) * k,
    ;
    assert(step == mb * y) by (nonlinear_arith)
        requires
            b * pow2(h) == y,
            step == (mb * b) * pow2(h),
    ;
    assert(q * step == (mb * q) * y) by (nonlinear_arith)
        requires
            step == mb * y,
    ;
    assert((q + 1) * step == (mb * q + mb) * y) by (nonlinear_arith)
        requires
            step == mb * y,
    ;
    assert((mb * q + rest) * y == (mb * q) * y + rest * y) by (nonlinear_arith);
    assert((mb * q + mb) * y == (mb * q) * y + mb * y) by (nonlinear_arith);
    assert(rest * y < mb * y) by (nonlinear_arith)
        requires
            rest < mb,
            y > 0,
    ;
    if rest > 0 {
        lemma_mul_strictly_positive(rest as int, y as int);
    } else {
        assert(0 * y == 0);
    }
}

/// The whole part of a finite magnitude.
pub open spec fn whole(mag: nat) -> nat {
    worth(mag) / pow2(DEPTH as nat)
}

/// What a finite magnitude has beyond its whole part, in units.
pub open spec fn beyond(mag: nat) -> nat {
    worth(mag) % pow2(DEPTH as nat)
}

/// The magnitude of a whole number.
pub open spec fn of_whole(n: nat) -> nat {
    correctly_rounded((n * pow2(DEPTH as nat)) as nat, 1)
}

/// From this magnitude on every number is whole.
pub const ALL_WHOLE: u64 = 0x4330_0000_0000_0000;

fn whole_magnitude(n: u128) -> (mag: u64)
    requires
        n < 0x8000_0000_0000_0000_0000_0000_0000_0000,
    ensures
        mag == of_whole(n as nat),
        mag <= INFINITE,
{
    let ghost exact = (n * pow2(DEPTH as nat)) as nat;
    if n == 0 {
        proof {
            assert(0 * pow2(DEPTH as nat) == 0);
            lemma_rounding_of_nothing(WIDTH as nat, INFINITE as nat, 1);
        }
        return 0;
    }
    proof {
        lemma_exactly(n as nat, DEPTH as nat, exact);
    }
    round_exact(WIDTH, INFINITE, n, DEPTH, Ghost(exact), Ghost(1nat))
}

/// Whole part, whether anything is beyond it, and whether that is half or more.
fn split_whole(mag: u64) -> (r: (u64, bool, bool))
    requires
        mag < ALL_WHOLE,
    ensures
        r.0 == whole(mag as nat),
        r.0 < 2 * FRACTIONS,
        r.1 == (beyond(mag as nat) > 0),
        r.2 == (2 * beyond(mag as nat) >= pow2(DEPTH as nat)),
{
    let (m, e) = take_apart(mag);
    let shift: i32 = DEPTH - e;
    proof {
        lemma2_to64();
        lemma2_to64_rest();
        lemma_pow2_adds(e as nat, shift as nat);
        lemma_pow2_pos(e as nat);
        lemma_pow2_pos(shift as nat);
        lemma_whole_parts(m as nat, e as nat, shift as nat);
        lemma_pow2_unfold(shift as nat);
    }
    if shift >= 60 {
        proof {
            lemma_pow2_increases(60, shift as nat);
            lemma_small_mod(m as nat, pow2(shift as nat));
            vstd::arithmetic::div_mod::lemma_basic_div(m as int, pow2(shift as nat) as int);
        }
        return (0, m > 0, false);
    }
    proof {
        lemma_pow2_increases(shift as nat, 60);
    }
    let p = power(shift as u32) as u64;
    let rest: u64 = m % p;
    (m / p, rest > 0, 2 * rest >= p)
}

proof fn lemma_whole_parts(m: nat, e: nat, shift: nat)
    requires
        e + shift == DEPTH,
    ensures
        ({
            let v = (m * pow2(e)) as nat;
            let d = pow2(DEPTH as nat);
            let p = pow2(shift);
            &&& v / d == m / p
            &&& (v % d > 0) == (m % p > 0)
            &&& (2 * (v % d) >= d) == (2 * (m % p) >= p)
        }),
{
    let v = (m * pow2(e)) as nat;
    let d = pow2(DEPTH as nat);
    let p = pow2(shift);
    let x = pow2(e);
    lemma_pow2_adds(e, shift);
    lemma_pow2_pos(e);
    lemma_pow2_pos(shift);
    lemma_fundamental_div_mod(m as int, p as int);
    let q = m / p;
    let r = m % p;
    assert(v == d * q + r * x) by (nonlinear_arith)
        requires
            v == m * x,
            m == p * q + r,
            d == x * p,
    ;
    assert(0 <= r * x < d) by (nonlinear_arith)
        requires
            0 <= r < p,
            d == x * p,
            x > 0,
    ;
    lemma_fundamental_div_mod_converse(v as int, d as int, q as int, (r * x) as int);
    assert((r * x > 0) == (r > 0)) by (nonlinear_arith)
        requires
            x > 0,
            r >= 0,
    ;
    assert((2 * (r * x) >= d) == (2 * r >= p)) by (nonlinear_arith)
        requires
            d == x * p,
            x > 0,
    ;
}

/// A magnitude past the last fraction is its own whole part.
proof fn lemma_all_whole(mag: u64, m: u64, e: i32)
    requires
        ALL_WHOLE <= mag < INFINITE,
        worth(mag as nat) == m * pow2(e as nat),
        e >= DEPTH,
    ensures
        beyond(mag as nat) == 0,
        whole(mag as nat) == m * pow2((e - DEPTH) as nat),
        of_whole(whole(mag as nat)) == mag,
{
    let d = pow2(DEPTH as nat);
    let w = pow2((e - DEPTH) as nat);
    lemma_pow2_adds((e - DEPTH) as nat, DEPTH as nat);
    lemma_pow2_pos(DEPTH as nat);
    let q = m * w;
    assert(m * (w * d) == d * q) by (nonlinear_arith)
        requires
            q == m * w,
    ;
    lemma_fundamental_div_mod_converse(worth(mag as nat) as int, d as int, q as int, 0);
    lemma_mul_is_commutative(q as int, d as int);
    lemma_rounding_is_exact(WIDTH as nat, INFINITE as nat, mag as nat);
}

impl Number {
    pub open spec fn spec_from_int(n: int) -> Number {
        signed(n < 0, of_whole(size(n)))
    }

    /// The number nearest to an integer.
    pub fn from_i64(n: i64) -> (r: Number)
        ensures
            r == Number::spec_from_int(n as int),
    {
        if n < 0 {
            make(true, whole_magnitude((-(n as i128)) as u128))
        } else {
            make(false, whole_magnitude(n as u128))
        }
    }

    /// The number nearest to the exact difference of two integers.
    pub fn from_difference(a: i64, b: i64) -> (r: Number)
        ensures
            r == Number::spec_from_int(a - b),
    {
        let d: i128 = a as i128 - b as i128;
        if d < 0 {
            make(true, whole_magnitude((-d) as u128))
        } else {
            make(false, whole_magnitude(d as u128))
        }
    }

    /// The number nearest to the exact sum of two integers.
    pub fn from_sum(a: i64, b: i64) -> (r: Number)
        ensures
            r == Number::spec_from_int(a + b),
    {
        let d: i128 = a as i128 + b as i128;
        if d < 0 {
            make(true, whole_magnitude((-d) as u128))
        } else {
            make(false, whole_magnitude(d as u128))
        }
    }

    /// The number nearest to an unsigned integer.
    pub fn from_u64(n: u64) -> (r: Number)
        ensures
            r == Number::spec_from_int(n as int),
    {
        make(false, whole_magnitude(n as u128))
    }

    /// The number nearest to a count.
    pub fn from_usize(n: usize) -> (r: Number)
        ensures
            r == Number::spec_from_int(n as int),
    {
        make(false, whole_magnitude(n as u128))
    }

    #[verifier::opaque]
    pub open spec fn spec_floor(self) -> Number {
        if self.is_finite() {
            let m = self.magnitude();
            signed(
                self.negative(),
                of_whole(
                    whole(m) + if self.negative() && beyond(m) > 0 {
                        1nat
                    } else {
                        0nat
                    },
                ),
            )
        } else {
            self
        }
    }

    /// The largest whole number that is not greater.
    #[verifier::when_used_as_spec(spec_floor)]
    pub fn floor(self) -> (r: Number)
        ensures
            r == self.spec_floor(),
    {
        proof {
            reveal(Number::spec_floor);
        }
        let m = self.mag();
        if m >= ALL_WHOLE {
            proof {
                self.lemma_stays();
            }
            return self;
        }
        let (w, more, _) = split_whole(m);
        if self.sign() && more {
            make(true, whole_magnitude(w as u128 + 1))
        } else {
            make(self.sign(), whole_magnitude(w as u128))
        }
    }

    #[verifier::opaque]
    pub open spec fn spec_ceil(self) -> Number {
        if self.is_finite() {
            let m = self.magnitude();
            signed(
                self.negative(),
                of_whole(
                    whole(m) + if !self.negative() && beyond(m) > 0 {
                        1nat
                    } else {
                        0nat
                    },
                ),
            )
        } else {
            self
        }
    }

    /// The smallest whole number that is not less.
    #[verifier::when_used_as_spec(spec_ceil)]
    pub fn ceil(self) -> (r: Number)
        ensures
            r == self.spec_ceil(),
    {
        proof {
            reveal(Number::spec_ceil);
        }
        let m = self.mag();
        if m >= ALL_WHOLE {
            proof {
                self.lemma_stays();
            }
            return self;
        }
        let (w, more, _) = split_whole(m);
        if !self.sign() && more {
            make(false, whole_magnitude(w as u128 + 1))
        } else {
            make(self.sign(), whole_magnitude(w as u128))
        }
    }

    #[verifier::opaque]
    pub open spec fn spec_round(self) -> Number {
        if self.is_finite() {
            let m = self.magnitude();
            signed(
                self.negative(),
                of_whole(
                    whole(m) + if 2 * beyond(m) >= pow2(DEPTH as nat) {
                        1nat
                    } else {
                        0nat
                    },
                ),
            )
        } else {
            self
        }
    }

    /// The nearest whole number; a half goes away from zero.
    #[verifier::when_used_as_spec(spec_round)]
    pub fn round(self) -> (r: Number)
        ensures
            r == self.spec_round(),
    {
        proof {
            reveal(Number::spec_round);
            lemma_pow2_pos(DEPTH as nat);
        }
        let m = self.mag();
        if m >= ALL_WHOLE {
            proof {
                self.lemma_stays();
            }
            return self;
        }
        let (w, _, half) = split_whole(m);
        if half {
            make(self.sign(), whole_magnitude(w as u128 + 1))
        } else {
            make(self.sign(), whole_magnitude(w as u128))
        }
    }

    #[verifier::opaque]
    pub open spec fn spec_trunc(self) -> Number {
        if self.is_finite() {
            signed(self.negative(), of_whole(whole(self.magnitude())))
        } else {
            self
        }
    }

    /// The whole part.
    #[verifier::when_used_as_spec(spec_trunc)]
    pub fn trunc(self) -> (r: Number)
        ensures
            r == self.spec_trunc(),
    {
        proof {
            reveal(Number::spec_trunc);
        }
        let m = self.mag();
        if m >= ALL_WHOLE {
            proof {
                self.lemma_stays();
            }
            return self;
        }
        let (w, _, _) = split_whole(m);
        make(self.sign(), whole_magnitude(w as u128))
    }

    pub open spec fn spec_fract(self) -> Number {
        self.spec_minus(self.spec_trunc())
    }

    /// What the number has beyond its whole part.
    #[verifier::when_used_as_spec(spec_fract)]
    pub fn fract(self) -> (r: Number)
        ensures
            r == self.spec_fract(),
    {
        self.minus(self.trunc())
    }

    proof fn lemma_stays(self)
        ensures
            self.is_finite() && self.magnitude() >= ALL_WHOLE ==> {
                &&& beyond(self.magnitude()) == 0
                &&& of_whole(whole(self.magnitude())) == self.magnitude()
                &&& signed(self.negative(), self.magnitude()) == self
            },
    {
        if self.is_finite() && self.magnitude() >= ALL_WHOLE {
            let mag = self.magnitude();
            lemma_format();
            let f = FRACTIONS as nat;
            lemma_all_whole(
                mag as u64,
                (FRACTIONS as nat + mag % f) as u64,
                (mag / f - 1) as i32,
            );
        }
    }

    #[verifier::opaque]
    pub open spec fn spec_to_i64(self) -> i64 {
        if self.is_nan() {
            0
        } else if self.is_infinite() || whole(self.magnitude()) > i64::MAX {
            if self.negative() {
                i64::MIN
            } else {
                i64::MAX
            }
        } else if self.negative() {
            (-(whole(self.magnitude()) as int)) as i64
        } else {
            whole(self.magnitude()) as i64
        }
    }

    /// The whole part as an integer, held to the integers' range; zero for
    /// what is not a number.
    #[verifier::when_used_as_spec(spec_to_i64)]
    pub fn to_i64(self) -> (r: i64)
        ensures
            r == self.spec_to_i64(),
    {
        proof {
            reveal(Number::spec_to_i64);
        }
        let m = self.mag();
        if m > INFINITE {
            return 0;
        }
        if m == INFINITE {
            return if self.sign() {
                i64::MIN
            } else {
                i64::MAX
            };
        }
        let w = whole_part(m);
        if w > 0x7fff_ffff_ffff_ffff {
            if self.sign() {
                i64::MIN
            } else {
                i64::MAX
            }
        } else if self.sign() {
            -(w as i64)
        } else {
            w as i64
        }
    }

    #[verifier::opaque]
    pub open spec fn spec_to_u64(self) -> u64 {
        if self.is_nan() || self.negative() {
            0
        } else if self.is_infinite() || whole(self.magnitude()) > u64::MAX {
            u64::MAX
        } else {
            whole(self.magnitude()) as u64
        }
    }

    /// The whole part as an unsigned integer, held to that range; zero for
    /// what is negative or not a number.
    #[verifier::when_used_as_spec(spec_to_u64)]
    pub fn to_u64(self) -> (r: u64)
        ensures
            r == self.spec_to_u64(),
    {
        proof {
            reveal(Number::spec_to_u64);
        }
        let m = self.mag();
        if m > INFINITE || self.sign() {
            return 0;
        }
        if m == INFINITE {
            return u64::MAX;
        }
        whole_part(m)
    }

    pub open spec fn spec_to_usize(self) -> usize {
        if self.to_u64() > usize::MAX {
            usize::MAX
        } else {
            self.to_u64() as usize
        }
    }

    /// The whole part as a count, held to that range.
    #[verifier::when_used_as_spec(spec_to_usize)]
    pub fn to_usize(self) -> (r: usize)
        ensures
            r == self.spec_to_usize(),
    {
        let w = self.to_u64();
        if w > usize::MAX as u64 {
            usize::MAX
        } else {
            w as usize
        }
    }

    pub open spec fn spec_copysign(self, sign: Number) -> Number {
        signed(sign.negative(), self.magnitude())
    }

    /// The number with the sign of another.
    #[verifier::when_used_as_spec(spec_copysign)]
    pub fn copysign(self, sign: Number) -> (r: Number)
        ensures
            r == self.spec_copysign(sign),
    {
        make(sign.sign(), self.mag())
    }

    pub open spec fn spec_clamp(self, low: Number, high: Number) -> Number {
        if self.lt(low) {
            low
        } else if high.lt(self) {
            high
        } else {
            self
        }
    }

    /// The number held between two others.
    #[verifier::when_used_as_spec(spec_clamp)]
    pub fn clamp(self, low: Number, high: Number) -> (r: Number)
        ensures
            r == self.spec_clamp(low, high),
    {
        if self.lt(low) {
            low
        } else if high.lt(self) {
            high
        } else {
            self
        }
    }

    #[verifier::opaque]
    pub open spec fn spec_sqrt(self) -> Number {
        if self.is_nan() {
            Number { bits: QUIET }
        } else if self.magnitude() == 0 {
            self
        } else if self.negative() {
            Number { bits: QUIET }
        } else if self.is_infinite() {
            self
        } else {
            signed(
                false,
                nearest_root((worth(self.magnitude()) * pow2(DEPTH as nat)) as nat),
            )
        }
    }

    /// The square root, correctly rounded.
    #[verifier::when_used_as_spec(spec_sqrt)]
    pub fn sqrt(self) -> (r: Number)
        ensures
            r == self.spec_sqrt(),
    {
        proof {
            reveal(Number::spec_sqrt);
        }
        let mag = self.mag();
        if mag > INFINITE {
            return Number { bits: QUIET };
        }
        if mag == 0 {
            return self;
        }
        if self.sign() {
            return Number { bits: QUIET };
        }
        if mag == INFINITE {
            return self;
        }
        let (m, e) = take_apart(mag);
        let ghost n = (worth(mag as nat) * pow2(DEPTH as nat)) as nat;
        proof {
            lemma_pow2_adds(e as nat, DEPTH as nat);
            let x = pow2(e as nat);
            let y = pow2(DEPTH as nat);
            assert((m * x) * y == m * (x * y)) by (nonlinear_arith);
        }
        make(false, root(m, e + DEPTH, Ghost(n)))
    }
}

/// The whole part of a finite magnitude, held to the range of `u64`.
fn whole_part(mag: u64) -> (w: u64)
    requires
        mag < INFINITE,
    ensures
        w == if whole(mag as nat) > u64::MAX {
            u64::MAX as nat
        } else {
            whole(mag as nat)
        },
{
    if mag < ALL_WHOLE {
        let (w, _, _) = split_whole(mag);
        return w;
    }
    let (m, e) = take_apart(mag);
    let up: i32 = e - DEPTH;
    proof {
        lemma2_to64();
        lemma2_to64_rest();
        lemma_all_whole(mag, m, e);
    }
    if up > 11 {
        proof {
            lemma_pow2_increases(12, up as nat);
            lemma_mul_upper_bound(FRACTIONS as int, m as int, 4096, pow2(up as nat) as int);
        }
        return u64::MAX;
    }
    proof {
        lemma_pow2_increases(up as nat, 11);
        lemma_mul_upper_bound(m as int, 2 * FRACTIONS - 1, pow2(up as nat) as int, 2048);
    }
    m * (power(up as u32) as u64)
}

/// What a power of two is worth.
pub proof fn lemma_worth_of_power(field: nat)
    requires
        field >= 1,
    ensures
        worth((field * FRACTIONS) as nat) == pow2((51 + field) as nat),
{
    lemma_format();
    lemma_units_of_parts(WIDTH as nat, (field - 1) as nat, FRACTIONS as nat);
    lemma_pow2_adds(52, (field - 1) as nat);
    assert((field - 1) * FRACTIONS + FRACTIONS == field * FRACTIONS);
}

/// Whole numbers up to two to the 64th round to at most that.
pub proof fn lemma_whole_is_moderate(n: nat)
    requires
        n <= 0x1_0000_0000_0000_0000,
    ensures
        of_whole(n) <= 0x43f0_0000_0000_0000,
{
    let unit = pow2(DEPTH as nat);
    lemma_format();
    lemma2_to64();
    lemma_pow2_pos(DEPTH as nat);
    lemma_worth_of_power(0x43f);
    lemma_pow2_adds(64, DEPTH as nat);
    assert(n * unit <= pow2(1138) * 1) by (nonlinear_arith)
        requires
            n <= 0x1_0000_0000_0000_0000,
            pow2(1138) == 0x1_0000_0000_0000_0000 * unit,
            unit > 0,
    ;
    lemma_rounding_at_most(WIDTH as nat, (n * unit) as nat, 1, 0x43f0_0000_0000_0000);
}

/// An integer of at most 64 bits is a finite number.
pub proof fn lemma_from_int_is_finite(n: int)
    requires
        -0x1_0000_0000_0000_0000 <= n <= 0x1_0000_0000_0000_0000,
    ensures
        Number::spec_from_int(n).is_finite(),
{
    lemma_whole_is_moderate(size(n));
}

} // verus!
