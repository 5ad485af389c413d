//! The remainder of a division of numbers.
use vstd::arithmetic::div_mod::{
    lemma_fundamental_div_mod, lemma_fundamental_div_mod_converse, lemma_small_mod,
};
use vstd::arithmetic::mul::*;
use vstd::arithmetic::power2::{
    lemma2_to64, lemma_pow2_adds, lemma_pow2_pos, lemma_pow2_unfold, pow2,
};
use vstd::prelude::*;

use crate::number::{
    correctly_rounded, lemma_format, make, signed, take_apart, worth, Number, FRACTIONS, INFINITE,
    QUIET, WIDTH,
};
use crate::rounding::{
    lemma_exactly, lemma_rounding_is_exact, lemma_rounding_of_nothing, lemma_units_increase,
    round_exact,
};

verus! {

impl Number {
    #[verifier::opaque]
    pub open spec fn spec_remainder(self, other: Number) -> Number {
        if self.is_nan() || other.is_nan() || self.is_infinite() || other.magnitude() == 0 {
            Number { bits: QUIET }
        } else if other.is_infinite() {
            self
        } else {
            signed(
                self.negative(),
                correctly_rounded(worth(self.magnitude()) % worth(other.magnitude()), 1),
            )
        }
    }

    /// What is left of the number once the other has been taken away as often
    /// as it fits, with the sign of the number. The remainder is exact.
    #[verifier::when_used_as_spec(spec_remainder)]
    pub fn remainder(self, other: Number) -> (r: Number)
        ensures
            r == self.spec_remainder(other),
    {
        proof {
            reveal(Number::spec_remainder);
        }
        if self.is_nan() || other.is_nan() || self.is_infinite() {
            return Number { bits: QUIET };
        }
        let b = other.mag();
        if b == 0 {
            return Number { bits: QUIET };
        }
        if other.is_infinite() {
            return self;
        }
        make(self.sign(), rest(self.mag(), b))
    }
}

/// The remainder of one finite magnitude by another.
fn rest(a: u64, b: u64) -> (mag: u64)
    requires
        a < INFINITE,
        0 < b < INFINITE,
    ensures
        mag == correctly_rounded(worth(a as nat) % worth(b as nat), 1),
        mag <= INFINITE,
{
    proof {
        lemma_format();
    }
    if a < b {
        proof {
            lemma_units_increase(WIDTH as nat, a as nat, b as nat);
            lemma_small_mod(worth(a as nat), worth(b as nat));
            lemma_rounding_is_exact(WIDTH as nat, INFINITE as nat, a as nat);
        }
        return a;
    }
    let (ma, ea) = take_apart(a);
    let (mb, eb) = take_apart(b);
    let mut left: u64 = ma % mb;
    let mut k: i32 = 0;
    proof {
        lemma2_to64();
        lemma_mul_basics(ma as int);
        lemma_exponents_follow(a as nat, b as nat);
    }
    while k < ea - eb
        invariant
            0 <= k <= ea - eb,
            ea <= 2045,
            eb >= 0,
            0 < mb < 2 * FRACTIONS,
            left < mb,
            left == (ma * pow2(k as nat)) % mb as int,
        decreases ea - eb - k,
    {
        let twice: u64 = left * 2;
        let ghost before = left;
        left = if twice >= mb {
            twice - mb
        } else {
            twice
        };
        proof {
            lemma_pow2_unfold((k + 1) as nat);
            lemma_doubles(ma as int, pow2(k as nat) as int, mb as int, before as int, left as int);
        }
        k = k + 1;
    }
    let ghost n = worth(a as nat) % worth(b as nat);
    proof {
        lemma_pow2_pos(eb as nat);
        lemma_pow2_adds((ea - eb) as nat, eb as nat);
        lemma_scales(
            ma as int,
            pow2((ea - eb) as nat) as int,
            pow2(eb as nat) as int,
            mb as int,
            left as int,
        );
        assert(ma * pow2(ea as nat) == (ma * pow2((ea - eb) as nat)) * pow2(eb as nat))
            by (nonlinear_arith)
            requires
                pow2(ea as nat) == pow2((ea - eb) as nat) * pow2(eb as nat),
        ;
        assert(n == left * pow2(eb as nat));
    }
    if left == 0 {
        proof {
            lemma_mul_basics(pow2(eb as nat) as int);
            lemma_rounding_of_nothing(WIDTH as nat, INFINITE as nat, 1);
        }
        return 0;
    }
    proof {
        lemma_exactly(left as nat, eb as nat, n);
    }
    round_exact(WIDTH, INFINITE, left as u128, eb, Ghost(n), Ghost(1))
}

proof fn lemma_exponents_follow(a: nat, b: nat)
    requires
        b <= a,
    ensures
        (if b < FRACTIONS {
            0
        } else {
            b / FRACTIONS as nat - 1
        }) <= if a < FRACTIONS {
            0
        } else {
            a / FRACTIONS as nat - 1
        },
{
    lemma_fundamental_div_mod(a as int, FRACTIONS as int);
    lemma_fundamental_div_mod(b as int, FRACTIONS as int);
    assert(b / FRACTIONS as nat <= a / FRACTIONS as nat);
}

proof fn lemma_doubles(m: int, p: int, d: int, before: int, after: int)
    requires
        d > 0,
        0 <= before < d,
        before == (m * p) % d,
        after == if 2 * before >= d {
            2 * before - d
        } else {
            2 * before
        },
    ensures
        after == (m * (2 * p)) % d,
{
    let q = (m * p) / d;
    lemma_fundamental_div_mod(m * p, d);
    let twice = if 2 * before >= d {
        2 * q + 1
    } else {
        2 * q
    };
    assert(m * (2 * p) == 2 * (m * p)) by (nonlinear_arith);
    assert(twice * d + after == 2 * (d * q + before)) by (nonlinear_arith)
        requires
            twice == 2 * q + 1 && after == 2 * before - d || twice == 2 * q && after == 2 * before,
    ;
    lemma_fundamental_div_mod_converse(m * (2 * p), d, twice, after);
}

proof fn lemma_scales(m: int, p: int, s: int, d: int, left: int)
    requires
        d > 0,
        s > 0,
        0 <= left < d,
        left == (m * p) % d,
    ensures
        ((m * p) * s) % (d * s) == left * s,
{
    let q = (m * p) / d;
    lemma_fundamental_div_mod(m * p, d);
    assert((m * p) * s == q * (d * s) + left * s) by (nonlinear_arith)
        requires
            m * p == d * q + left,
    ;
    assert(0 <= left * s < d * s) by (nonlinear_arith)
        requires
            0 <= left < d,
            s > 0,
    ;
    lemma_fundamental_div_mod_converse((m * p) * s, d * s, q, left * s);
}

} // verus!
