//! Numbers in decimal.
use vstd::arithmetic::power::{lemma_pow0, lemma_pow1, lemma_pow_adds, pow};
use vstd::arithmetic::power2::{lemma_pow2_pos, pow2};
use vstd::prelude::*;

use crate::number::{worth, Number, DEPTH};

verus! {

/// Appends a character; this is `String::push`.
pub assume_specification[ String::push ](s: &mut String, c: char)
    ensures
        final(s)@ == old(s)@.push(c),
;

/// The character of a decimal digit.
pub open spec fn digit(d: nat) -> char {
    (('0' as nat) + d) as char
}

/// A natural number in decimal.
pub open spec fn decimal(n: nat) -> Seq<char>
    decreases n,
{
    if n < 10 {
        seq![digit(n)]
    } else {
        decimal(n / 10).push(digit(n % 10))
    }
}

/// A natural number in decimal, with zeros in front to make `places` digits.
pub open spec fn padded(n: nat, places: nat) -> Seq<char>
    decreases places,
{
    if places == 0 {
        Seq::empty()
    } else {
        padded(n / 10, (places - 1) as nat).push(digit(n % 10))
    }
}

/// A natural number in decimal, with a comma before every three digits from
/// the right.
pub open spec fn grouped(n: nat) -> Seq<char>
    decreases n,
{
    if n < 1000 {
        decimal(n)
    } else {
        grouped(n / 1000).push(',') + padded(n % 1000, 3)
    }
}

/// An integer in decimal, with a minus sign where it is negative.
pub open spec fn signed_decimal(n: int) -> Seq<char> {
    if n < 0 {
        seq!['-'] + decimal((-n) as nat)
    } else {
        decimal(n as nat)
    }
}

/// Every decimal has a digit, and only zero's is one `0`.
pub proof fn lemma_decimal_digits(n: nat)
    ensures
        decimal(n).len() >= 1,
        n >= 10 ==> decimal(n).len() >= 2,
        decimal(n) == seq!['0'] <==> n == 0,
    decreases n,
{
    if n >= 10 {
        lemma_decimal_digits(n / 10);
    } else {
        assert(decimal(n)[0] == digit(n));
    }
}

/// Padding gives the digits asked for.
pub proof fn lemma_padded_digits(n: nat, places: nat)
    ensures
        padded(n, places).len() == places,
    decreases places,
{
    if places > 0 {
        lemma_padded_digits(n / 10, (places - 1) as nat);
    }
}

pub(crate) fn digit_char(d: u8) -> (c: char)
    requires
        d < 10,
    ensures
        c == digit(d as nat),
{
    (48 + d) as char
}

/// Appends a natural number in decimal.
pub(crate) fn push_decimal(s: &mut String, n: u128)
    ensures
        final(s)@ == old(s)@ + decimal(n as nat),
    decreases n,
{
    if n < 10 {
        s.push(digit_char(n as u8));
    } else {
        push_decimal(s, n / 10);
        s.push(digit_char((n % 10) as u8));
    }
    assert(s@ =~= old(s)@ + decimal(n as nat));
}

/// Appends a natural number with zeros in front.
pub(crate) fn push_padded(s: &mut String, n: u64, places: u32)
    ensures
        final(s)@ == old(s)@ + padded(n as nat, places as nat),
    decreases places,
{
    if places > 0 {
        push_padded(s, n / 10, places - 1);
        s.push(digit_char((n % 10) as u8));
    }
    assert(s@ =~= old(s)@ + padded(n as nat, places as nat));
}

/// Appends a natural number in groups of three digits.
pub(crate) fn push_grouped(s: &mut String, n: u64)
    ensures
        final(s)@ == old(s)@ + grouped(n as nat),
    decreases n,
{
    if n < 1000 {
        push_decimal(s, n as u128);
    } else {
        push_grouped(s, n / 1000);
        s.push(',');
        push_padded(s, n % 1000, 3);
    }
    assert(s@ =~= old(s)@ + grouped(n as nat));
}

/// Appends an integer in decimal.
pub(crate) fn push_signed(s: &mut String, n: i64)
    ensures
        final(s)@ == old(s)@ + signed_decimal(n as int),
{
    if n < 0 {
        s.push('-');
        push_decimal(s, (-(n as i128)) as u128);
    } else {
        push_decimal(s, n as u128);
    }
    assert(s@ =~= old(s)@ + signed_decimal(n as int));
}

/// The natural number nearest to `n / d`; a half goes to the even one.
pub open spec fn half_even(n: nat, d: nat) -> nat {
    let q = n / d;
    let twice = 2 * (n % d);
    if twice > d || (twice == d && q % 2 == 1) {
        q + 1
    } else {
        q
    }
}

/// A finite number without sign, counted in steps of one tenth to the
/// `places`, rounded.
pub open spec fn tenths(p: Number, places: nat) -> nat {
    half_even((worth(p.magnitude()) * pow(10, places)) as nat, pow2(DEPTH as nat))
}

/// A count of tenths to the `places`, written with that many decimals.
pub open spec fn pointed(count: nat, places: nat) -> Seq<char> {
    if places == 0 {
        decimal(count)
    } else {
        decimal(count / (pow(10, places) as nat)).push('.') + padded(
            count % (pow(10, places) as nat),
            places,
        )
    }
}

/// Ten to the `places`.
fn ten_to(places: u32) -> (r: u64)
    requires
        places <= 3,
    ensures
        r == pow(10, places as nat),
        1 <= r <= 1000,
{
    proof {
        lemma_pow0(10);
        lemma_pow1(10);
        lemma_pow_adds(10, 1, 1);
        lemma_pow_adds(10, 2, 1);
    }
    if places == 0 {
        1
    } else if places == 1 {
        10
    } else if places == 2 {
        100
    } else {
        1000
    }
}

/// Counts a number of moderate size in tenths to the `places`.
pub(crate) fn count_tenths(p: Number, places: u32) -> (r: u128)
    requires
        places <= 3,
        p.magnitude() <= 0x4470_0000_0000_0000,
    ensures
        r == tenths(p, places as nat),
{
    let (m, e) = crate::number::take_apart(p.mag());
    let ten = ten_to(places);
    proof {
        vstd::arithmetic::mul::lemma_mul_upper_bound(
            m as int,
            0x20_0000_0000_0000,
            ten as int,
            1000,
        );
    }
    let n: u128 = m as u128 * ten as u128;
    let ghost scaled = (worth(p.magnitude()) * pow(10, places as nat)) as nat;
    let ghost unit = pow2(DEPTH as nat);
    proof {
        vstd::arithmetic::power2::lemma2_to64();
        vstd::arithmetic::power2::lemma2_to64_rest();
        lemma_pow2_pos(DEPTH as nat);
        let x = pow2(e as nat);
        assert((m * x) * ten == n * x) by (nonlinear_arith)
            requires
                n == m * ten,
        ;
    }
    if e >= DEPTH {
        let up: i32 = e - DEPTH;
        proof {
            crate::rounding::lemma_pow2_increases(up as nat, 33);
            vstd::arithmetic::power2::lemma_pow2_adds(DEPTH as nat, up as nat);
            let y = pow2(up as nat);
            vstd::arithmetic::mul::lemma_mul_upper_bound(
                n as int,
                0x20_0000_0000_0000int * 1000int,
                y as int,
                pow2(33) as int,
            );
            assert(n * (unit * y) == unit * (n * y)) by (nonlinear_arith);
            vstd::arithmetic::div_mod::lemma_fundamental_div_mod_converse(
                scaled as int,
                unit as int,
                (n * y) as int,
                0,
            );
        }
        return n * crate::rounding::power(up as u32);
    }
    let down: i32 = DEPTH - e;
    proof {
        lemma_scaled_down(n as nat, e as nat, down as nat);
        lemma_pow2_pos(down as nat);
    }
    if down >= 120 {
        proof {
            crate::rounding::lemma_pow2_increases(65, down as nat);
            vstd::arithmetic::power2::lemma_pow2_adds(64, 1);
            vstd::arithmetic::div_mod::lemma_basic_div(n as int, pow2(down as nat) as int);
            vstd::arithmetic::div_mod::lemma_small_mod(n as nat, pow2(down as nat));
        }
        return 0;
    }
    let d = crate::rounding::power(down as u32);
    let q: u128 = n / d;
    let rest: u128 = n % d;
    proof {
        crate::rounding::lemma_pow2_increases(down as nat, 120);
        vstd::arithmetic::power2::lemma_pow2_adds(60, 60);
        vstd::arithmetic::div_mod::lemma_div_nonincreasing(n as int, d as int);
    }
    if 2 * rest > d || (2 * rest == d && q % 2 == 1) {
        q + 1
    } else {
        q
    }
}

/// Rounding does not change when numerator and denominator share a factor.
proof fn lemma_scaled_down(n: nat, e: nat, down: nat)
    requires
        e + down == DEPTH,
    ensures
        half_even((n * pow2(e)) as nat, pow2(DEPTH as nat)) == half_even(n, pow2(down)),
{
    let x = pow2(e);
    let p = pow2(down);
    let d = pow2(DEPTH as nat);
    let v = (n * x) as nat;
    vstd::arithmetic::power2::lemma_pow2_adds(e, down);
    lemma_pow2_pos(e);
    lemma_pow2_pos(down);
    vstd::arithmetic::div_mod::lemma_fundamental_div_mod(n as int, p as int);
    let q = n / p;
    let r = n % p;
    assert(v == d * q + r * x) by (nonlinear_arith)
        requires
            v == n * x,
            n == p * q + r,
            d == x * p,
    ;
    assert(0 <= r * x < d) by (nonlinear_arith)
        requires
            0 <= r < p,
            d == x * p,
            x > 0,
    ;
    vstd::arithmetic::div_mod::lemma_fundamental_div_mod_converse(
        v as int,
        d as int,
        q as int,
        (r * x) as int,
    );
    assert((2 * (r * x) > d) == (2 * r > p)) by (nonlinear_arith)
        requires
            d == x * p,
            x > 0,
    ;
    assert((2 * (r * x) == d) == (2 * r == p)) by (nonlinear_arith)
        requires
            d == x * p,
            x > 0,
    ;
}

/// Appends a count of tenths with its decimals.
pub(crate) fn push_pointed(s: &mut String, count: u128, places: u32)
    requires
        places <= 3,
    ensures
        final(s)@ == old(s)@ + pointed(count as nat, places as nat),
{
    if places == 0 {
        push_decimal(s, count);
    } else {
        let ten = ten_to(places) as u128;
        push_decimal(s, count / ten);
        s.push('.');
        push_padded(s, (count % ten) as u64, places);
    }
    assert(s@ =~= old(s)@ + pointed(count as nat, places as nat));
}

/// The number that decimal digits stand for, the lowest digit first.
pub open spec fn digits_value(d: Seq<u8>) -> nat
    decreases d.len(),
{
    if d.len() == 0 {
        0
    } else {
        d[0] as nat + 10 * digits_value(d.drop_first())
    }
}

/// Whether digits are decimal digits without zeros in front.
pub open spec fn proper_digits(d: Seq<u8>) -> bool {
    &&& d.len() > 0
    &&& d.last() != 0
    &&& forall|i: int| 0 <= i < d.len() ==> #[trigger] d[i] < 10
}

/// Digits doubled, with a carry added in.
pub open spec fn doubled(d: Seq<u8>, carry: u8) -> Seq<u8>
    decreases d.len(),
{
    if d.len() == 0 {
        if carry == 0 {
            Seq::empty()
        } else {
            seq![carry]
        }
    } else {
        seq![((2 * d[0] + carry) % 10) as u8] + doubled(
            d.drop_first(),
            ((2 * d[0] + carry) / 10) as u8,
        )
    }
}

proof fn lemma_doubled(d: Seq<u8>, carry: u8)
    requires
        forall|i: int| 0 <= i < d.len() ==> #[trigger] d[i] < 10,
        carry <= 1,
        d.len() > 0 ==> d.last() != 0,
    ensures
        digits_value(doubled(d, carry)) == 2 * digits_value(d) + carry,
        d.len() > 0 || carry > 0 ==> proper_digits(doubled(d, carry)),
    decreases d.len(),
{
    if d.len() == 0 {
        reveal_with_fuel(digits_value, 2);
        if carry > 0 {
            assert(doubled(d, carry).drop_first() =~= Seq::<u8>::empty());
        }
    } else {
        let rest = d.drop_first();
        let next = ((2 * d[0] + carry) / 10) as u8;
        let low = ((2 * d[0] + carry) % 10) as u8;
        assert forall|i: int| 0 <= i < rest.len() implies #[trigger] rest[i] < 10 by {
            assert(rest[i] == d[i + 1]);
        }
        lemma_doubled(rest, next);
        let more = doubled(rest, next);
        let all = doubled(d, carry);
        assert(all =~= seq![low] + more);
        assert(all.drop_first() =~= more);
        assert(2 * d[0] + carry == 10 * next + low);
        assert forall|i: int| 0 <= i < all.len() implies #[trigger] all[i] < 10 by {
            if i > 0 {
                assert(all[i] == more[i - 1]);
            }
        }
        if rest.len() > 0 || next > 0 {
            assert(all.last() == more.last());
        } else {
            assert(more.len() == 0);
            assert(d.last() == d[0]);
        }
    }
}

/// Doubles a number by its digits.
fn double_digits(d: &Vec<u8>) -> (r: Vec<u8>)
    requires
        proper_digits(d@),
    ensures
        proper_digits(r@),
        digits_value(r@) == 2 * digits_value(d@),
{
    let mut out: Vec<u8> = Vec::new();
    let mut carry: u8 = 0;
    let mut i: usize = 0;
    assert(d@.skip(0) =~= d@);
    assert(doubled(d@, 0) =~= out@ + doubled(d@.skip(0), carry));
    while i < d.len()
        invariant
            i <= d.len(),
            carry <= 1,
            proper_digits(d@),
            doubled(d@, 0) == out@ + doubled(d@.skip(i as int), carry),
        decreases d.len() - i,
    {
        let ghost rest = d@.skip(i as int);
        assert(rest[0] == d@[i as int]);
        assert(rest.drop_first() =~= d@.skip(i + 1));
        let ghost before = out@;
        let twice: u8 = 2 * d[i] + carry;
        out.push(twice % 10);
        carry = twice / 10;
        i = i + 1;
        assert(out@ + doubled(d@.skip(i as int), carry) =~= before + doubled(
            rest,
            ((twice - 2 * rest[0]) as u8),
        ));
    }
    assert(d@.skip(i as int) =~= Seq::<u8>::empty());
    if carry > 0 {
        out.push(carry);
    }
    assert(out@ =~= doubled(d@, 0));
    proof {
        lemma_doubled(d@, 0);
    }
    out
}

/// The digits of a positive number.
pub(crate) fn digits_of(n: u64) -> (d: Vec<u8>)
    requires
        n > 0,
    ensures
        proper_digits(d@),
        digits_value(d@) == n,
    decreases n,
{
    if n < 10 {
        let mut d: Vec<u8> = Vec::new();
        d.push(n as u8);
        proof {
            reveal_with_fuel(digits_value, 2);
            assert(d@.drop_first() =~= Seq::<u8>::empty());
        }
        d
    } else {
        let mut rest = digits_of(n / 10);
        let ghost before = rest@;
        rest.insert(0, (n % 10) as u8);
        proof {
            assert(rest@.drop_first() =~= before);
            assert(rest@.last() == before.last());
            assert forall|i: int| 0 <= i < rest@.len() implies #[trigger] rest@[i] < 10 by {
                if i > 0 {
                    assert(rest@[i] == before[i - 1]);
                }
            }
        }
        rest
    }
}

/// Appends digits, the highest first.
pub(crate) fn push_digits(s: &mut String, d: &Vec<u8>)
    requires
        proper_digits(d@),
    ensures
        final(s)@ == old(s)@ + decimal(digits_value(d@)),
{
    let mut i: usize = d.len();
    let ghost n = d.len() as int;
    assert(old(s)@ + Seq::<char>::empty() =~= old(s)@);
    while i > 0
        invariant
            i <= d.len(),
            n == d.len(),
            proper_digits(d@),
            s@ == old(s)@ + if i == n {
                Seq::<char>::empty()
            } else {
                decimal(digits_value(d@.skip(i as int)))
            },
            i < n ==> digits_value(d@.skip(i as int)) > 0,
        decreases i,
    {
        i = i - 1;
        let ghost rest = d@.skip(i as int);
        assert(rest.drop_first() =~= d@.skip(i + 1));
        assert(rest[0] == d@[i as int]);
        s.push(digit_char(d[i]));
        proof {
            let v = digits_value(rest);
            if i + 1 < n {
                let w = digits_value(d@.skip(i + 1));
                assert(v == d@[i as int] + 10 * w);
                assert(v / 10 == w && v % 10 == d@[i as int]);
            } else {
                assert(rest.drop_first() =~= Seq::<u8>::empty());
                assert(digits_value(Seq::<u8>::empty()) == 0);
                assert(v == d@[i as int]);
                assert(d@.last() == d@[i as int]);
            }
            assert(s@ =~= old(s)@ + decimal(v));
        }
    }
    assert(d@.skip(0) =~= d@);
}

/// Appends a whole number times a power of two.
fn push_scaled(s: &mut String, m: u64, up: u32)
    requires
        m > 0,
    ensures
        final(s)@ == old(s)@ + decimal((m * pow2(up as nat)) as nat),
{
    let mut d = digits_of(m);
    let mut k: u32 = 0;
    proof {
        vstd::arithmetic::power2::lemma2_to64();
        assert(m * 1 == m);
    }
    while k < up
        invariant
            k <= up,
            proper_digits(d@),
            digits_value(d@) == m * pow2(k as nat),
        decreases up - k,
    {
        d = double_digits(&d);
        proof {
            vstd::arithmetic::power2::lemma_pow2_unfold((k + 1) as nat);
            let p = pow2(k as nat);
            assert(2 * (m * p) == m * (2 * p)) by (nonlinear_arith);
        }
        k = k + 1;
    }
    push_digits(s, &d);
}

/// A number written with a fixed count of decimals, rounded to the nearest,
/// halves to even.
pub open spec fn fixed(p: Number, places: nat) -> Seq<char> {
    if p.is_nan() {
        "NaN"@
    } else {
        (if p.negative() {
            seq!['-']
        } else {
            Seq::empty()
        }) + if p.is_infinite() {
            "inf"@
        } else {
            pointed(tenths(p, places), places)
        }
    }
}

/// Appends a number with a fixed count of decimals.
pub(crate) fn push_fixed(s: &mut String, p: Number, places: u32)
    requires
        places <= 1,
    ensures
        final(s)@ == old(s)@ + fixed(p, places as nat),
{
    if p.is_nan() {
        s.append("NaN");
        return ;
    }
    if p.sign() {
        s.push('-');
    }
    if p.is_infinite() {
        s.append("inf");
    } else if p.mag() <= 0x4470_0000_0000_0000 {
        let count = count_tenths(p, places);
        push_pointed(s, count, places);
    } else {
        let (m, e) = crate::number::take_apart(p.mag());
        proof {
            lemma_large(p, m as nat, e as nat, places as nat);
        }
        push_scaled(s, m, (e - DEPTH) as u32);
        if places > 0 {
            s.push('.');
            push_padded(s, 0, places);
        }
    }
    assert(s@ =~= old(s)@ + fixed(p, places as nat));
}

/// A large number is whole, and its decimals are zeros.
proof fn lemma_large(p: Number, m: nat, e: nat, places: nat)
    requires
        p.is_finite(),
        worth(p.magnitude()) == m * pow2(e),
        e >= DEPTH,
        places <= 1,
    ensures
        places == 0 ==> tenths(p, 0) == m * pow2((e - DEPTH) as nat),
        places == 1 ==> tenths(p, 1) / 10 == m * pow2((e - DEPTH) as nat) && tenths(p, 1) % 10 == 0,
        pow(10, places) == if places == 0 {
            1int
        } else {
            10int
        },
{
    let unit = pow2(DEPTH as nat);
    let w = pow2((e - DEPTH) as nat);
    lemma_pow0(10);
    lemma_pow1(10);
    lemma_pow2_pos(DEPTH as nat);
    vstd::arithmetic::power2::lemma_pow2_adds((e - DEPTH) as nat, DEPTH as nat);
    let k = (m * w) as nat;
    let v = worth(p.magnitude());
    assert((e - DEPTH) as nat + DEPTH as nat == e);
    assert(v == m * (w * unit));
    assert((m * (w * unit)) * 10 == unit * (k * 10)) by (nonlinear_arith)
        requires
            k == m * w,
    ;
    assert((m * (w * unit)) * 1 == unit * k) by (nonlinear_arith)
        requires
            k == m * w,
    ;
    vstd::arithmetic::div_mod::lemma_fundamental_div_mod_converse(
        (v * 10) as int,
        unit as int,
        (k * 10) as int,
        0,
    );
    vstd::arithmetic::div_mod::lemma_fundamental_div_mod_converse(
        (v * 1) as int,
        unit as int,
        k as int,
        0,
    );
    assert((k * 10) / 10 == k && (k * 10) % 10 == 0);
}

} // verus!
