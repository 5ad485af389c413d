//! Single-precision numbers by their bit patterns, for colour channels.
use vstd::arithmetic::mul::*;
use vstd::arithmetic::power2::{
    lemma2_to64, lemma2_to64_rest, lemma_pow2_adds, lemma_pow2_pos, pow2,
};
use vstd::prelude::*;

use crate::number::{self, correctly_rounded, signed, worth, Number};
use crate::rounding::{
    approximates, combine, lemma_exactly, lemma_product_parts, lemma_rounding_of_nothing, parts,
    power, round, round_exact, rounded, units, OFFSET,
};

verus! {

/// The sign bit.
pub const SIGN: u32 = 0x8000_0000;

/// The pattern that arithmetic gives where it has no answer.
pub const QUIET: u32 = 0x7fc0_0000;

/// How many fraction bits there are.
pub const WIDTH: u32 = 23;

/// The magnitude that stands for infinity.
pub const INFINITE: u32 = 0x7f80_0000;

/// How many halvings lead from one to the smallest positive magnitude.
pub const DEPTH: i32 = 149;

/// How many halvings lead from the smallest positive single to the smallest
/// positive double.
pub const DEEPER: i32 = 925;

/// A single-precision number, by its bit pattern.
///
/// `==` compares patterns.
#[derive(Clone, Copy, Debug, PartialEq, Eq, Structural)]
pub struct Single {
    pub bits: u32,
}

/// The single with a given sign and magnitude.
pub open spec fn signed_single(negative: bool, mag: nat) -> Single {
    Single {
        bits: (mag + if negative {
            SIGN as nat
        } else {
            0
        }) as u32,
    }
}

/// The magnitude nearest to `n / d`; a quotient halfway between two magnitudes
/// goes to the even one.
pub open spec fn singly_rounded(n: nat, d: nat) -> nat {
    rounded(WIDTH as nat, INFINITE as nat, n, d)
}

fn make(negative: bool, mag: u64) -> (r: Single)
    requires
        mag < SIGN,
    ensures
        r == signed_single(negative, mag as nat),
{
    if negative {
        Single { bits: mag as u32 + SIGN }
    } else {
        Single { bits: mag as u32 }
    }
}

proof fn lemma_single_format(mag: nat)
    ensures
        pow2(WIDTH as nat) == 0x80_0000,
        mag < INFINITE ==> mag / pow2(WIDTH as nat) < 2047,
{
    lemma2_to64();
    lemma2_to64_rest();
}

impl Single {
    /// Whether the sign bit is set.
    pub open spec fn negative(self) -> bool {
        self.bits >= SIGN
    }

    /// The pattern without its sign bit.
    pub open spec fn magnitude(self) -> nat {
        if self.negative() {
            (self.bits - SIGN) as nat
        } else {
            self.bits as nat
        }
    }

    /// The size of a finite single, in units of the smallest positive one.
    pub open spec fn extent(self) -> nat {
        units(WIDTH as nat, self.magnitude())
    }

    /// The value of a finite single, in units of the smallest positive one.
    pub open spec fn value(self) -> int {
        if self.negative() {
            -(self.extent() as int)
        } else {
            self.extent() as int
        }
    }

    fn sign(self) -> (r: bool)
        ensures
            r == self.negative(),
    {
        self.bits >= SIGN
    }

    fn mag(self) -> (r: u64)
        ensures
            r == self.magnitude(),
            r < SIGN,
    {
        if self.bits >= SIGN {
            (self.bits - SIGN) as u64
        } else {
            self.bits as u64
        }
    }

    pub open spec fn spec_from_bits(bits: u32) -> Single {
        Single { bits }
    }

    /// The single with the bit pattern `bits`.
    #[verifier::when_used_as_spec(spec_from_bits)]
    pub fn from_bits(bits: u32) -> (r: Single)
        ensures
            r == Single::spec_from_bits(bits),
    {
        Single { bits }
    }

    #[verifier::opaque]
    pub open spec fn spec_plus(self, other: Single) -> Single {
        if self.magnitude() > INFINITE || other.magnitude() > INFINITE {
            Single { bits: QUIET }
        } else if self.magnitude() == INFINITE {
            if other.magnitude() == INFINITE && self.negative() != other.negative() {
                Single { bits: QUIET }
            } else {
                self
            }
        } else if other.magnitude() == INFINITE {
            other
        } else {
            let exact = self.value() + other.value();
            if exact == 0 {
                signed_single(self.negative() && other.negative(), 0)
            } else {
                signed_single(exact < 0, singly_rounded(crate::rounding::size(exact), 1))
            }
        }
    }

    /// The sum, correctly rounded.
    #[verifier::when_used_as_spec(spec_plus)]
    pub fn plus(self, other: Single) -> (r: Single)
        ensures
            r == self.spec_plus(other),
    {
        proof {
            reveal(Single::spec_plus);
        }
        let a = self.mag();
        let b = other.mag();
        if a > INFINITE as u64 || b > INFINITE as u64 {
            return Single { bits: QUIET };
        }
        if a == INFINITE as u64 {
            if b == INFINITE as u64 && self.sign() != other.sign() {
                return Single { bits: QUIET };
            }
            return self;
        }
        if b == INFINITE as u64 {
            return other;
        }
        let apart = self.sign() != other.sign();
        proof {
            lemma_single_format(a as nat);
            lemma_single_format(b as nat);
        }
        if a >= b {
            let mag = combine(WIDTH, INFINITE as u64, a, b, apart);
            if mag == 0 {
                make(self.sign() && other.sign(), 0)
            } else {
                make(self.sign(), mag)
            }
        } else {
            let mag = combine(WIDTH, INFINITE as u64, b, a, apart);
            if mag == 0 {
                make(self.sign() && other.sign(), 0)
            } else {
                make(other.sign(), mag)
            }
        }
    }

    pub open spec fn spec_negated(self) -> Single {
        signed_single(!self.negative(), self.magnitude())
    }

    /// The single with its sign turned round.
    #[verifier::when_used_as_spec(spec_negated)]
    pub fn negated(self) -> (r: Single)
        ensures
            r == self.spec_negated(),
    {
        make(!self.sign(), self.mag())
    }

    pub open spec fn spec_minus(self, other: Single) -> Single {
        self.spec_plus(other.spec_negated())
    }

    /// The difference, correctly rounded.
    #[verifier::when_used_as_spec(spec_minus)]
    pub fn minus(self, other: Single) -> (r: Single)
        ensures
            r == self.spec_minus(other),
    {
        self.plus(other.negated())
    }

    #[verifier::opaque]
    pub open spec fn spec_times(self, other: Single) -> Single {
        let negative = self.negative() != other.negative();
        if self.magnitude() > INFINITE || other.magnitude() > INFINITE {
            Single { bits: QUIET }
        } else if self.magnitude() == INFINITE || other.magnitude() == INFINITE {
            if self.magnitude() == 0 || other.magnitude() == 0 {
                Single { bits: QUIET }
            } else {
                signed_single(negative, INFINITE as nat)
            }
        } else {
            signed_single(
                negative,
                singly_rounded(self.extent() * other.extent(), pow2(DEPTH as nat)),
            )
        }
    }

    /// The product, correctly rounded.
    #[verifier::when_used_as_spec(spec_times)]
    pub fn times(self, other: Single) -> (r: Single)
        ensures
            r == self.spec_times(other),
    {
        proof {
            reveal(Single::spec_times);
            lemma_pow2_pos(DEPTH as nat);
        }
        let a = self.mag();
        let b = other.mag();
        if a > INFINITE as u64 || b > INFINITE as u64 {
            return Single { bits: QUIET };
        }
        let negative = self.sign() != other.sign();
        if a == INFINITE as u64 || b == INFINITE as u64 {
            if a == 0 || b == 0 {
                return Single { bits: QUIET };
            }
            return make(negative, INFINITE as u64);
        }
        proof {
            lemma_single_format(a as nat);
            lemma_single_format(b as nat);
        }
        if a == 0 || b == 0 {
            proof {
                lemma_mul_basics(self.extent() as int);
                lemma_mul_basics(other.extent() as int);
                lemma_rounding_of_nothing(WIDTH as nat, INFINITE as nat, pow2(DEPTH as nat));
            }
            return make(negative, 0);
        }
        let (ma, ea) = parts(WIDTH, a);
        let (mb, eb) = parts(WIDTH, b);
        proof {
            lemma_mul_upper_bound(ma as int, 0x100_0000, mb as int, 0x100_0000);
            lemma_mul_strictly_positive(ma as int, mb as int);
            lemma_product_parts(DEPTH as nat, ma as nat, ea as nat, mb as nat, eb as nat);
        }
        let m: u128 = ma as u128 * mb as u128;
        let mag = round_exact(
            WIDTH,
            INFINITE as u64,
            m,
            ea + eb - DEPTH,
            Ghost(self.extent() * other.extent()),
            Ghost(pow2(DEPTH as nat)),
        );
        make(negative, mag)
    }

    #[verifier::opaque]
    pub open spec fn spec_widened(self) -> Number {
        if self.magnitude() > INFINITE {
            Number { bits: number::QUIET }
        } else if self.magnitude() == INFINITE {
            signed(self.negative(), number::INFINITE as nat)
        } else {
            signed(
                self.negative(),
                correctly_rounded((self.extent() * pow2(DEEPER as nat)) as nat, 1),
            )
        }
    }

    /// The same number in double precision.
    #[verifier::when_used_as_spec(spec_widened)]
    pub fn widened(self) -> (r: Number)
        ensures
            r == self.spec_widened(),
    {
        proof {
            reveal(Single::spec_widened);
        }
        let a = self.mag();
        if a > INFINITE as u64 {
            return Number { bits: number::QUIET };
        }
        if a == INFINITE as u64 {
            return number::make(self.sign(), number::INFINITE);
        }
        proof {
            lemma_single_format(a as nat);
        }
        let ghost n = (self.extent() * pow2(DEEPER as nat)) as nat;
        if a == 0 {
            proof {
                assert(0 * pow2(DEEPER as nat) == 0);
                lemma_rounding_of_nothing(number::WIDTH as nat, number::INFINITE as nat, 1);
            }
            return number::make(self.sign(), 0);
        }
        let (m, e) = parts(WIDTH, a);
        proof {
            lemma_pow2_adds(e as nat, DEEPER as nat);
            let x = pow2(e as nat);
            let y = pow2(DEEPER as nat);
            assert((m * x) * y == m * (x * y)) by (nonlinear_arith);
            lemma_exactly(m as nat, (e + DEEPER) as nat, n);
        }
        number::make(
            self.sign(),
            round_exact(
                number::WIDTH,
                number::INFINITE,
                m as u128,
                e + DEEPER,
                Ghost(n),
                Ghost(1nat),
            ),
        )
    }

    #[verifier::opaque]
    pub open spec fn spec_nearest(x: Number) -> Single {
        if x.is_nan() {
            Single { bits: QUIET }
        } else if x.is_infinite() {
            signed_single(x.negative(), INFINITE as nat)
        } else {
            signed_single(
                x.negative(),
                singly_rounded(worth(x.magnitude()), pow2(DEEPER as nat)),
            )
        }
    }

    /// The single nearest to a double.
    #[verifier::when_used_as_spec(spec_nearest)]
    pub fn nearest(x: Number) -> (r: Single)
        ensures
            r == Single::spec_nearest(x),
    {
        proof {
            reveal(Single::spec_nearest);
            lemma_pow2_pos(DEEPER as nat);
            number::lemma_format();
        }
        if x.is_nan() {
            return Single { bits: QUIET };
        }
        if x.is_infinite() {
            return make(x.sign(), INFINITE as u64);
        }
        let a = x.mag();
        if a == 0 {
            proof {
                lemma_rounding_of_nothing(WIDTH as nat, INFINITE as nat, pow2(DEEPER as nat));
            }
            return make(x.sign(), 0);
        }
        let (m, e) = number::take_apart(a);
        proof {
            let b = pow2((e - DEEPER + OFFSET) as nat);
            let c = pow2(OFFSET as nat);
            let p = pow2(e as nat);
            let d = pow2(DEEPER as nat);
            lemma_pow2_adds(e as nat, OFFSET as nat);
            lemma_pow2_adds(DEEPER as nat, (e - DEEPER + OFFSET) as nat);
            assert((m * p) * c == m * (p * c)) by (nonlinear_arith);
            assert(p * c == d * b);
        }
        let mag = round_exact(
            WIDTH,
            INFINITE as u64,
            m as u128,
            e - DEEPER,
            Ghost(worth(a as nat)),
            Ghost(pow2(DEEPER as nat)),
        );
        make(x.sign(), mag)
    }

    #[verifier::opaque]
    pub open spec fn spec_of_byte(byte: u8) -> Single {
        signed_single(false, singly_rounded((byte * pow2(DEPTH as nat)) as nat, 255))
    }

    /// The single nearest to `byte / 255`.
    #[verifier::when_used_as_spec(spec_of_byte)]
    pub fn of_byte(byte: u8) -> (r: Single)
        ensures
            r == Single::spec_of_byte(byte),
    {
        proof {
            reveal(Single::spec_of_byte);
        }
        if byte == 0 {
            proof {
                assert(0 * pow2(DEPTH as nat) == 0);
                lemma_rounding_of_nothing(WIDTH as nat, INFINITE as nat, 255);
            }
            return Single { bits: 0 };
        }
        proof {
            lemma2_to64();
            lemma2_to64_rest();
            lemma_pow2_adds(64, 36);
            lemma_mul_upper_bound(byte as int, 255, pow2(100) as int, pow2(100) as int);
        }
        let wide: u128 = byte as u128 * power(100);
        let q: u128 = wide / 255;
        let rest: u128 = wide % 255;
        let ghost n = (byte * pow2(DEPTH as nat)) as nat;
        proof {
            // The quotient, one hundred bits up, stands forty-nine bits above
            // the smallest single.
            let c = pow2((OFFSET + 49) as nat);
            lemma_pow2_adds(DEPTH as nat, OFFSET as nat);
            lemma_pow2_adds(100, (OFFSET + 49) as nat);
            lemma_pow2_pos((OFFSET + 49) as nat);
            let a = pow2(DEPTH as nat);
            let b = pow2(OFFSET as nat);
            assert((byte * a) * b == byte * (a * b)) by (nonlinear_arith);
            assert(byte * (pow2(100) * c) == (byte * pow2(100)) * c) by (nonlinear_arith);
            assert(n * b == wide * c);
            assert(wide == 255 * q + rest);
            assert((255 * q + rest) * c == q * (255 * c) + rest * c) by (nonlinear_arith);
            assert((q + 1) * (255 * c) == q * (255 * c) + 255 * c) by (nonlinear_arith);
            assert(rest * c < 255 * c) by (nonlinear_arith)
                requires
                    rest < 255,
                    c > 0,
            ;
            if rest > 0 {
                lemma_mul_strictly_positive(rest as int, c as int);
            } else {
                assert(0 * c == 0);
            }
            assert(approximates(q as int, 49, rest != 0, n, 255));
        }
        make(false, round(WIDTH, INFINITE as u64, q, 49, rest != 0, Ghost(n), Ghost(255nat)))
    }
}

} // verus!
