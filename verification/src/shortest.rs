//! Numbers written in as few digits as read back as the same number.
//!
//! A decimal is counted in units of ten to the -1075th, in which every number,
//! and every halfway point between neighbouring numbers, is whole.
use vstd::arithmetic::div_mod::{
    lemma_div_denominator, lemma_div_is_ordered, lemma_fundamental_div_mod,
    lemma_fundamental_div_mod_converse,
};
use vstd::arithmetic::power::{lemma_pow0, lemma_pow1, lemma_pow_adds, lemma_pow_positive, pow};
use vstd::arithmetic::power2::{lemma_pow2_adds, lemma_pow2_unfold, pow2};
use vstd::prelude::*;

use crate::decimal::{
    decimal, digit, digit_char, digits_of, digits_value, padded, pointed, push_digits,
};
use crate::number::{
    lemma_format, lemma_worth_of_power, take_apart, worth, Number, FRACTIONS, INFINITE, WIDTH,
};
use crate::rounding::{lemma_units_increase, rounds_to};

verus! {

/// How many decimals a halfway point has at most.
pub const DECIMALS: u32 = 1075;

/// Ten to the `n`.
pub open spec fn ten(n: nat) -> nat {
    pow(10, n) as nat
}

/// Five to the number of decimals.
pub open spec fn fives() -> nat {
    pow(5, DECIMALS as nat) as nat
}

/// A magnitude's value, counted in units of the last decimal.
pub open spec fn in_decimals(mag: nat) -> nat {
    2 * worth(mag) * fives()
}

/// Whether a decimal, counted in units of the last decimal, is nearest to a
/// magnitude of all.
pub open spec fn reads_back(mag: nat, t: nat) -> bool {
    rounds_to(WIDTH as nat, t, 2 * fives(), mag)
}

/// How far a decimal is from a magnitude's value.
pub open spec fn off_by(mag: nat, t: nat) -> int {
    if t < in_decimals(mag) {
        in_decimals(mag) - t
    } else {
        t - in_decimals(mag)
    }
}

/// Whether `n` times ten to the `q` is the shortest way to write a magnitude:
/// no multiple of a higher power of ten reads back, and no other multiple of
/// this one that does is nearer. Of two as near, it is the greater.
pub open spec fn is_shortest(mag: nat, n: nat, q: nat) -> bool {
    &&& reads_back(mag, n * ten(q))
    &&& forall|m: nat, p: nat| p > q ==> !#[trigger] reads_back(mag, m * ten(p))
    &&& forall|m: nat| #[trigger]
        reads_back(mag, m * ten(q)) ==> off_by(mag, n * ten(q)) < off_by(mag, m * ten(q)) || (
        off_by(mag, n * ten(q)) == off_by(mag, m * ten(q)) && m <= n)
}

/// The shortest way to write a magnitude.
pub open spec fn shortest(mag: nat) -> (nat, nat) {
    choose|s: (nat, nat)| is_shortest(mag, s.0, s.1)
}

/// A multiple of a power of ten, counted in units of the last decimal, as text.
pub open spec fn positional(n: nat, q: nat) -> Seq<char> {
    if q >= DECIMALS {
        decimal(n * ten((q - DECIMALS) as nat))
    } else {
        pointed(n, (DECIMALS - q) as nat)
    }
}

/// A number as text: in as few digits as read back as it, without an exponent.
pub open spec fn written(x: Number) -> Seq<char> {
    if x.is_nan() {
        "NaN"@
    } else {
        (if x.negative() {
            seq!['-']
        } else {
            Seq::empty()
        }) + if x.is_infinite() {
            "inf"@
        } else if x.magnitude() == 0 {
            "0"@
        } else {
            positional(shortest(x.magnitude()).0, shortest(x.magnitude()).1)
        }
    }
}

/// There is one shortest way to write a magnitude.
pub proof fn lemma_shortest_is_unique(mag: nat, n: nat, q: nat)
    requires
        is_shortest(mag, n, q),
    ensures
        shortest(mag) == (n, q),
{
    let s = shortest(mag);
    assert(is_shortest(mag, (n, q).0, (n, q).1));
    assert(is_shortest(mag, s.0, s.1));
    assert(reads_back(mag, n * ten(q)) && reads_back(mag, s.0 * ten(s.1)));
}

proof fn lemma_ten(n: nat)
    ensures
        ten(n) > 0,
        ten(n + 1) == 10 * ten(n),
        ten(0) == 1,
{
    lemma_pow_positive(10, n);
    lemma_pow_positive(10, n + 1);
    lemma_pow_adds(10, 1, n);
    lemma_pow1(10);
    lemma_pow0(10);
}

/// Whether digits are decimal digits.
pub open spec fn are_digits(d: Seq<u8>) -> bool {
    forall|i: int| 0 <= i < d.len() ==> #[trigger] d[i] < 10
}

/// A digit more at the high end.
proof fn lemma_push(d: Seq<u8>, x: u8)
    ensures
        digits_value(d.push(x)) == digits_value(d) + x * ten(d.len()),
    decreases d.len(),
{
    lemma_ten(d.len());
    if d.len() == 0 {
        reveal_with_fuel(digits_value, 2);
        assert(d.push(x).drop_first() =~= d);
        assert(x * 1 == x);
    } else {
        lemma_push(d.drop_first(), x);
        lemma_ten((d.len() - 1) as nat);
        assert(d.push(x).drop_first() =~= d.drop_first().push(x));
        let p = ten((d.len() - 1) as nat);
        assert(10 * (x * p) == x * (10 * p)) by (nonlinear_arith);
    }
}

/// The digits from `i` on are the quotient by that power of ten.
proof fn lemma_skip(d: Seq<u8>, i: nat)
    requires
        are_digits(d),
        i <= d.len(),
    ensures
        digits_value(d.skip(i as int)) == digits_value(d) / ten(i),
    decreases i,
{
    lemma_ten(i);
    if i == 0 {
        assert(d.skip(0) =~= d);
    } else {
        let j = (i - 1) as nat;
        lemma_skip(d, j);
        lemma_ten(j);
        let part = d.skip(j as int);
        assert(part.drop_first() =~= d.skip(i as int));
        assert(part[0] == d[j as int]);
        let rest = digits_value(d.skip(i as int));
        assert(digits_value(part) == part[0] as nat + 10 * rest);
        assert(digits_value(part) / 10 == rest);
        lemma_div_denominator(digits_value(d) as int, ten(j) as int, 10);
        assert(ten(j) * 10 == ten(i));
    }
}

/// No more digits than there are.
proof fn lemma_bounded(d: Seq<u8>)
    requires
        are_digits(d),
    ensures
        digits_value(d) < ten(d.len()),
    decreases d.len(),
{
    lemma_ten(d.len());
    if d.len() > 0 {
        let rest = d.drop_first();
        assert forall|i: int| 0 <= i < rest.len() implies #[trigger] rest[i] < 10 by {
            assert(rest[i] == d[i + 1]);
        }
        lemma_bounded(rest);
        lemma_ten((d.len() - 1) as nat);
        assert(d[0] < 10);
    }
}

/// The quotient by a power of ten, digit by digit.
proof fn lemma_next_digit(d: Seq<u8>, i: nat)
    requires
        are_digits(d),
    ensures
        digits_value(d) / ten(i) == 10 * (digits_value(d) / ten(i + 1)) + if i < d.len() {
            d[i as int] as nat
        } else {
            0
        },
{
    lemma_ten(i);
    lemma_ten(i + 1);
    if i < d.len() {
        lemma_skip(d, i);
        lemma_skip(d, i + 1);
        let part = d.skip(i as int);
        assert(part.drop_first() =~= d.skip(i as int + 1));
        assert(part[0] == d[i as int]);
    } else {
        lemma_bounded(d);
        lemma_ten_grows(d.len(), i);
        lemma_small_quotient(digits_value(d), ten(i));
        lemma_small_quotient(digits_value(d), ten(i + 1));
    }
}

proof fn lemma_ten_grows(a: nat, b: nat)
    requires
        a <= b,
    ensures
        ten(a) <= ten(b),
    decreases b - a,
{
    if a < b {
        lemma_ten_grows(a, (b - 1) as nat);
        lemma_ten((b - 1) as nat);
    }
}

proof fn lemma_small_quotient(n: nat, d: nat)
    requires
        n < d,
    ensures
        n / d == 0,
{
    lemma_fundamental_div_mod_converse(n as int, d as int, 0, n as int);
}

/// A digit of a number, and zero past its digits.
fn digit_at(d: &Vec<u8>, i: usize) -> (r: u8)
    requires
        are_digits(d@),
    ensures
        r < 10,
        digits_value(d@) / ten(i as nat) == 10 * (digits_value(d@) / ten((i + 1) as nat)) + r,
        r == (digits_value(d@) / ten(i as nat)) % 10,
{
    proof {
        lemma_ten(i as nat);
        lemma_ten((i + 1) as nat);
        lemma_next_digit(d@, i as nat);
    }
    let r: u8 = if i < d.len() {
        d[i]
    } else {
        0
    };
    proof {
        let x = digits_value(d@) / ten(i as nat);
        let y = digits_value(d@) / ten((i + 1) as nat);
        assert(i < d@.len() ==> d@[i as int] < 10);
        assert(x == y * 10 + r);
        lemma_fundamental_div_mod_converse(x as int, 10, y as int, r as int);
    }
    r
}

/// How two numbers compare.
enum Comparison {
    Less,
    Same,
    More,
}

fn compare(a: &Vec<u8>, b: &Vec<u8>) -> (r: Comparison)
    requires
        are_digits(a@),
        are_digits(b@),
    ensures
        r is Less <==> digits_value(a@) < digits_value(b@),
        r is Same <==> digits_value(a@) == digits_value(b@),
{
    let ghost x = digits_value(a@);
    let ghost y = digits_value(b@);
    let mut i: usize = if a.len() < b.len() {
        b.len()
    } else {
        a.len()
    };
    proof {
        lemma_bounded(a@);
        lemma_bounded(b@);
        lemma_ten_grows(a@.len(), i as nat);
        lemma_ten_grows(b@.len(), i as nat);
        lemma_small_quotient(x, ten(i as nat));
        lemma_small_quotient(y, ten(i as nat));
    }
    while i > 0
        invariant
            are_digits(a@),
            are_digits(b@),
            x == digits_value(a@),
            y == digits_value(b@),
            x / ten(i as nat) == y / ten(i as nat),
        decreases i,
    {
        i = i - 1;
        let p = digit_at(a, i);
        let q = digit_at(b, i);
        proof {
            lemma_ten(i as nat);
        }
        if p < q {
            proof {
                lemma_lower_quotient(x, y, ten(i as nat));
            }
            return Comparison::Less;
        }
        if q < p {
            proof {
                lemma_lower_quotient(y, x, ten(i as nat));
            }
            return Comparison::More;
        }
    }
    proof {
        lemma_ten(0);
        assert(x / 1 == x && y / 1 == y);
    }
    Comparison::Same
}

proof fn lemma_lower_quotient(x: nat, y: nat, d: nat)
    requires
        d > 0,
        x / d < y / d,
    ensures
        x < y,
{
    if y <= x {
        lemma_div_is_ordered(y as int, x as int, d as int);
    }
}

/// A number times a small one.
fn times(d: &Vec<u8>, k: u8) -> (out: Vec<u8>)
    requires
        are_digits(d@),
        k < 10,
    ensures
        are_digits(out@),
        digits_value(out@) == k * digits_value(d@),
{
    let mut out: Vec<u8> = Vec::new();
    let mut carry: u8 = 0;
    let mut i: usize = 0;
    let ghost all = digits_value(d@);
    proof {
        lemma_ten(0);
        assert(d@.skip(0) =~= d@);
        assert(1 * (0 + k * all) == k * all) by (nonlinear_arith);
    }
    while i < d.len()
        invariant
            i <= d.len(),
            k < 10,
            carry < 10,
            are_digits(d@),
            are_digits(out@),
            out.len() == i,
            all == digits_value(d@),
            digits_value(out@) + ten(i as nat) * (carry + k * digits_value(d@.skip(i as int)))
                == k * all,
        decreases d.len() - i,
    {
        let ghost rest = d@.skip(i as int);
        let ghost more = digits_value(d@.skip(i + 1));
        assert(rest[0] == d@[i as int]);
        assert(rest.drop_first() =~= d@.skip(i + 1));
        assert(d@[i as int] < 10);
        let x: u8 = d[i];
        assert(k * x <= 81) by (nonlinear_arith)
            requires
                k < 10,
                x < 10,
        ;
        let sum: u8 = k * x + carry;
        let ghost before = out@;
        let ghost p = ten(i as nat);
        proof {
            lemma_push(before, sum % 10);
            lemma_ten(i as nat);
            let (low, high) = ((sum % 10) as nat, (sum / 10) as nat);
            assert(sum == 10 * high + low);
            assert(p * (carry + k * (x + 10 * more)) == low * p + (10 * p) * (high + k * more))
                by (nonlinear_arith)
                requires
                    k * x + carry == 10 * high + low,
            ;
        }
        out.push(sum % 10);
        carry = sum / 10;
        i = i + 1;
    }
    assert(d@.skip(i as int) =~= Seq::<u8>::empty());
    proof {
        let p = ten(i as nat);
        assert(k * 0 == 0);
        assert(p * carry == carry * p) by (nonlinear_arith);
        lemma_push(out@, carry);
    }
    out.push(carry);
    out
}

/// A number and one.
fn next(d: &Vec<u8>) -> (out: Vec<u8>)
    requires
        are_digits(d@),
    ensures
        are_digits(out@),
        digits_value(out@) == digits_value(d@) + 1,
{
    let mut out: Vec<u8> = Vec::new();
    let mut carry: u8 = 1;
    let mut i: usize = 0;
    let ghost all = digits_value(d@);
    proof {
        lemma_ten(0);
        assert(d@.skip(0) =~= d@);
    }
    while i < d.len()
        invariant
            i <= d.len(),
            carry < 10,
            carry <= 1,
            are_digits(d@),
            are_digits(out@),
            out.len() == i,
            all == digits_value(d@),
            digits_value(out@) + ten(i as nat) * (carry + digits_value(d@.skip(i as int))) == all
                + 1,
        decreases d.len() - i,
    {
        let ghost rest = d@.skip(i as int);
        let ghost more = digits_value(d@.skip(i + 1));
        assert(rest[0] == d@[i as int]);
        assert(rest.drop_first() =~= d@.skip(i + 1));
        assert(d@[i as int] < 10);
        let x: u8 = d[i];
        let sum: u8 = x + carry;
        let ghost before = out@;
        let ghost p = ten(i as nat);
        proof {
            lemma_push(before, sum % 10);
            lemma_ten(i as nat);
            let (low, high) = ((sum % 10) as nat, (sum / 10) as nat);
            assert(p * (carry + (x + 10 * more)) == low * p + (10 * p) * (high + more))
                by (nonlinear_arith)
                requires
                    x + carry == 10 * high + low,
            ;
        }
        out.push(sum % 10);
        carry = sum / 10;
        i = i + 1;
    }
    assert(d@.skip(i as int) =~= Seq::<u8>::empty());
    proof {
        let p = ten(i as nat);
        assert(p * carry == carry * p) by (nonlinear_arith);
        lemma_push(out@, carry);
    }
    out.push(carry);
    out
}

/// A number without its last digits.
fn without(d: &Vec<u8>, q: usize) -> (out: Vec<u8>)
    requires
        are_digits(d@),
    ensures
        are_digits(out@),
        digits_value(out@) == digits_value(d@) / ten(q as nat),
{
    let mut out: Vec<u8> = Vec::new();
    if q >= d.len() {
        proof {
            lemma_bounded(d@);
            lemma_ten_grows(d@.len(), q as nat);
            lemma_small_quotient(digits_value(d@), ten(q as nat));
        }
        return out;
    }
    let ghost rest = d@.skip(q as int);
    let mut i: usize = q;
    while i < d.len()
        invariant
            q <= i <= d.len(),
            rest == d@.skip(q as int),
            out@ == rest.take(i - q),
        decreases d.len() - i,
    {
        out.push(d[i]);
        i = i + 1;
        assert(out@ =~= rest.take(i - q));
    }
    assert(out@ =~= rest);
    proof {
        lemma_skip(d@, q as nat);
    }
    out
}

/// A number with zeros behind it.
fn with_zeros(d: &Vec<u8>, q: usize) -> (out: Vec<u8>)
    requires
        are_digits(d@),
    ensures
        are_digits(out@),
        digits_value(out@) == digits_value(d@) * ten(q as nat),
{
    let mut out: Vec<u8> = Vec::new();
    let mut i: usize = 0;
    proof {
        lemma_ten(0);
    }
    while i < q
        invariant
            i <= q,
            out.len() == i,
            are_digits(out@),
            digits_value(out@) == 0,
        decreases q - i,
    {
        proof {
            lemma_push(out@, 0);
            assert(0 * ten(i as nat) == 0);
        }
        out.push(0);
        i = i + 1;
    }
    let mut j: usize = 0;
    proof {
        assert(d@.take(0) =~= Seq::<u8>::empty());
        assert(0 * ten(q as nat) == 0);
    }
    while j < d.len()
        invariant
            j <= d.len(),
            out.len() == q + j,
            are_digits(d@),
            are_digits(out@),
            digits_value(out@) == digits_value(d@.take(j as int)) * ten(q as nat),
        decreases d.len() - j,
    {
        assert(d@[j as int] < 10);
        proof {
            let x = d@[j as int];
            let part = d@.take(j as int);
            lemma_push(out@, x);
            lemma_push(part, x);
            assert(part.push(x) =~= d@.take(j + 1));
            lemma_pow_adds(10, q as nat, j as nat);
            lemma_pow_positive(10, q as nat);
            lemma_pow_positive(10, j as nat);
            let (a, b, v) = (ten(q as nat), ten(j as nat), digits_value(part));
            assert(v * a + x * (a * b) == (v + x * b) * a) by (nonlinear_arith);
        }
        out.push(d[j]);
        j = j + 1;
    }
    assert(d@.take(j as int) =~= d@);
    out
}

/// The halfway points below and above a magnitude, counted in units of the last
/// decimal.
spec fn low_edge(mag: nat) -> nat {
    (worth((mag - 1) as nat) + worth(mag)) * fives()
}

spec fn high_edge(mag: nat) -> nat {
    (worth(mag) + worth(mag + 1)) * fives()
}

proof fn lemma_fives()
    ensures
        fives() > 0,
{
    lemma_pow_positive(5, DECIMALS as nat);
}

/// What reads back lies between the halfway points, and on them for an even
/// magnitude.
proof fn lemma_reads_back(mag: nat, t: nat)
    requires
        mag > 0,
    ensures
        reads_back(mag, t) <==> {
            &&& low_edge(mag) < t || (low_edge(mag) == t && mag % 2 == 0)
            &&& t < high_edge(mag) || (t == high_edge(mag) && mag % 2 == 0)
        },
{
    let f = fives();
    let (a, b) = (worth((mag - 1) as nat) + worth(mag), worth(mag) + worth(mag + 1));
    assert(a * (2 * f) == 2 * (a * f) && b * (2 * f) == 2 * (b * f)) by (nonlinear_arith);
}

/// A magnitude's own value lies strictly between its halfway points.
proof fn lemma_value_between(mag: nat)
    requires
        mag > 0,
    ensures
        0 < low_edge(mag) < in_decimals(mag) < high_edge(mag),
{
    let f = fives();
    lemma_fives();
    lemma_format();
    lemma_units_increase(WIDTH as nat, (mag - 1) as nat, mag);
    lemma_units_increase(WIDTH as nat, mag, mag + 1);
    let (a, b, c) = (worth((mag - 1) as nat), worth(mag), worth(mag + 1));
    assert(0 < (a + b) * f < 2 * b * f < (b + c) * f) by (nonlinear_arith)
        requires
            a < b < c,
            f > 0,
            a >= 0,
    ;
}

/// The multiples of a power of ten around a value: below it, and above it.
proof fn lemma_multiples(v: nat, q: nat)
    ensures
        v / ten(q) * ten(q) <= v < (v / ten(q) + 1) * ten(q),
{
    lemma_ten(q);
    let (p, n) = (ten(q), v / ten(q));
    lemma_fundamental_div_mod(v as int, p as int);
    assert(n * p == p * n && (n + 1) * p == n * p + p) by (nonlinear_arith);
}

/// Of the multiples that read back, all below are at most the one next below,
/// and all above at least the one next above, and those read back with them.
proof fn lemma_neighbours(mag: nat, q: nat, m: nat)
    requires
        mag > 0,
        reads_back(mag, m * ten(q)),
    ensures
        ({
            let n = in_decimals(mag) / ten(q);
            &&& m <= n ==> m * ten(q) <= n * ten(q) && reads_back(mag, n * ten(q))
            &&& m > n ==> m * ten(q) >= (n + 1) * ten(q) && reads_back(mag, (n + 1) * ten(q))
        }),
{
    let v = in_decimals(mag);
    let (p, n) = (ten(q), v / ten(q));
    lemma_ten(q);
    lemma_multiples(v, q);
    lemma_value_between(mag);
    lemma_reads_back(mag, m * p);
    lemma_reads_back(mag, n * p);
    lemma_reads_back(mag, (n + 1) * p);
    if m <= n {
        assert(m * p <= n * p) by (nonlinear_arith)
            requires
                m <= n,
                p > 0,
        ;
    } else {
        assert(m * p >= (n + 1) * p) by (nonlinear_arith)
            requires
                m >= n + 1,
                p > 0,
        ;
    }
}

/// The power of ten is the highest at which a multiple reads back.
spec fn none_above(mag: nat, q: nat) -> bool {
    forall|m: nat, p: nat| p >= q ==> !#[trigger] reads_back(mag, m * ten(p))
}

/// No multiple of a power of ten past the halfway point reads back.
proof fn lemma_none_past(mag: nat, q: nat)
    requires
        mag > 0,
        high_edge(mag) < ten(q),
    ensures
        none_above(mag, q),
{
    assert forall|m: nat, p: nat| p >= q implies !#[trigger] reads_back(mag, m * ten(p)) by {
        lemma_reads_back(mag, m * ten(p));
        lemma_value_between(mag);
        lemma_ten_grows(q, p);
        let t = ten(p);
        if m == 0 {
            assert(0 * t == 0);
        } else {
            assert(m * t >= t) by (nonlinear_arith)
                requires
                    m >= 1,
                    t >= 0,
            ;
        }
    }
}

/// Where neither neighbour reads back, no multiple does.
proof fn lemma_none_here(mag: nat, q: nat)
    requires
        mag > 0,
        none_above(mag, q + 1),
        ({
            let n = in_decimals(mag) / ten(q);
            !reads_back(mag, n * ten(q)) && !reads_back(mag, (n + 1) * ten(q))
        }),
    ensures
        none_above(mag, q),
{
    assert forall|m: nat, p: nat| p >= q implies !#[trigger] reads_back(mag, m * ten(p)) by {
        if p == q && reads_back(mag, m * ten(q)) {
            lemma_neighbours(mag, q, m);
        }
    }
}

/// The neighbour that is nearer, of those that read back, is the shortest.
proof fn lemma_found(mag: nat, q: nat, up: bool)
    requires
        mag > 0,
        none_above(mag, q + 1),
        ({
            let v = in_decimals(mag);
            let n = v / ten(q);
            let (below, above) = (
                reads_back(mag, n * ten(q)),
                reads_back(mag, (n + 1) * ten(q)),
            );
            &&& below || above
            &&& up <==> above && (!below || 2 * (v % ten(q)) >= ten(q))
        }),
    ensures
        is_shortest(
            mag,
            if up {
                in_decimals(mag) / ten(q) + 1
            } else {
                in_decimals(mag) / ten(q)
            },
            q,
        ),
{
    let v = in_decimals(mag);
    let (p, n) = (ten(q), v / ten(q));
    lemma_ten(q);
    lemma_multiples(v, q);
    lemma_fundamental_div_mod(v as int, p as int);
    assert(p * n == n * p && (n + 1) * p == n * p + p) by (nonlinear_arith);
    let chosen: nat = if up {
        n + 1
    } else {
        n
    };
    assert forall|m: nat| #[trigger] reads_back(mag, m * ten(q)) implies off_by(
        mag,
        chosen * ten(q),
    ) < off_by(mag, m * ten(q)) || (off_by(mag, chosen * ten(q)) == off_by(mag, m * ten(q)) && m
        <= chosen) by {
        lemma_neighbours(mag, q, m);
        if m < n {
            assert(m * p + p <= n * p) by (nonlinear_arith)
                requires
                    m + 1 <= n,
                    p > 0,
            ;
        } else if m > n + 1 {
            assert(m * p >= (n + 1) * p + p) by (nonlinear_arith)
                requires
                    m >= n + 2,
                    p > 0,
            ;
        }
    }
}

/// A power of ten is that power of two and that power of five.
proof fn lemma_ten_is_two_fives(n: nat)
    ensures
        pow2(n) * pow(5, n) == ten(n),
    decreases n,
{
    lemma_ten(n);
    lemma_pow0(5);
    if n == 0 {
        vstd::arithmetic::power2::lemma2_to64();
    } else {
        let m = (n - 1) as nat;
        lemma_ten_is_two_fives(m);
        lemma_ten(m);
        lemma_pow2_unfold(n);
        lemma_pow_adds(5, 1, m);
        lemma_pow1(5);
        let (a, b) = (pow2(m) as int, pow(5, m));
        assert((2 * a) * (5 * b) == 10 * (a * b)) by (nonlinear_arith);
    }
}

/// A whole number times a power of a small one.
fn times_power(m: u64, k: u8, a: u32) -> (d: Vec<u8>)
    requires
        m > 0,
        k < 10,
    ensures
        are_digits(d@),
        digits_value(d@) == m * pow(k as int, a as nat),
{
    let mut d = digits_of(m);
    let mut i: u32 = 0;
    proof {
        lemma_pow0(k as int);
        assert(m * 1 == m);
    }
    while i < a
        invariant
            i <= a,
            k < 10,
            are_digits(d@),
            digits_value(d@) == m * pow(k as int, i as nat),
        decreases a - i,
    {
        d = times(&d, k);
        proof {
            lemma_pow_adds(k as int, 1, i as nat);
            lemma_pow1(k as int);
            let p = pow(k as int, i as nat);
            assert(k * (m * p) == m * (k * p)) by (nonlinear_arith);
        }
        i = i + 1;
    }
    d
}

/// A whole number times a power of two, counted in units of the last decimal.
fn in_units(m: u64, e: u32) -> (d: Vec<u8>)
    requires
        m > 0,
    ensures
        are_digits(d@),
        digits_value(d@) == m * pow2(e as nat) * fives(),
{
    if e <= DECIMALS {
        let d = times_power(m, 5, DECIMALS - e);
        proof {
            lemma_pow_adds(5, (DECIMALS - e) as nat, e as nat);
            lemma_ten_is_two_fives(e as nat);
            lemma_pow_positive(5, DECIMALS as nat);
            let (a, b, c) = (pow(5, (DECIMALS - e) as nat), pow2(e as nat) as int, pow(
                5,
                e as nat,
            ));
            assert(m * a * (b * c) == m * b * (a * c)) by (nonlinear_arith);
            assert(a * c == fives());
            assert(b * c == ten(e as nat));
        }
        with_zeros(&d, e as usize)
    } else {
        let d = times_power(m, 2, e - DECIMALS);
        proof {
            lemma_pow2_adds((e - DECIMALS) as nat, DECIMALS as nat);
            lemma_ten_is_two_fives(DECIMALS as nat);
            lemma_pow_positive(5, DECIMALS as nat);
            lemma_pow2_is_pow((e - DECIMALS) as nat);
            let (a, b, c) = (pow2((e - DECIMALS) as nat) as int, pow2(
                DECIMALS as nat,
            ) as int, pow(5, DECIMALS as nat));
            assert(m * a * (b * c) == m * (a * b) * c) by (nonlinear_arith);
            assert(c == fives());
            assert(b * c == ten(DECIMALS as nat));
            assert(a * b == pow2(e as nat));
            assert(digits_value(d@) == m * a);
        }
        with_zeros(&d, DECIMALS as usize)
    }
}

proof fn lemma_pow2_is_pow(n: nat)
    ensures
        pow(2, n) == pow2(n),
{
    vstd::arithmetic::power2::lemma_pow2(n);
}

/// A magnitude, infinity among them, as a whole number times a power of two.
fn parts_of(mag: u64) -> (r: (u64, u32))
    requires
        mag <= INFINITE,
    ensures
        r.0 < 2 * FRACTIONS,
        r.1 <= 2046,
        worth(mag as nat) == r.0 * pow2(r.1 as nat),
        r.0 == 0 <==> mag == 0,
        r.1 == if mag < FRACTIONS {
            0
        } else {
            mag / FRACTIONS - 1
        },
{
    if mag == INFINITE {
        proof {
            lemma_worth_of_power(2047);
            lemma_pow2_adds(52, 2046);
            lemma_format();
            assert(INFINITE == 2047 * FRACTIONS);
        }
        (FRACTIONS, 2046)
    } else {
        let (m, e) = take_apart(mag);
        (m, e as u32)
    }
}

/// Two neighbouring magnitudes together, counted in units of the last decimal.
fn pair_in_units(mag: u64) -> (d: Vec<u8>)
    requires
        mag < INFINITE,
    ensures
        are_digits(d@),
        digits_value(d@) == (worth(mag as nat) + worth((mag + 1) as nat)) * fives(),
{
    let (m, e) = parts_of(mag);
    let (n, f) = parts_of(mag + 1);
    proof {
        let p = pow2(e as nat);
        lemma_pow2_unfold((e + 1) as nat);
        assert(f == e || f == e + 1);
        assert(m * p + n * p == (m + n) * p) by (nonlinear_arith);
        assert(m * p + n * (2 * p) == (m + 2 * n) * p) by (nonlinear_arith);
    }
    if f == e {
        in_units(m + n, e)
    } else {
        in_units(m + 2 * n, e)
    }
}

/// The shortest way to write a magnitude.
fn find_shortest(mag: u64) -> (r: (Vec<u8>, usize))
    requires
        0 < mag < INFINITE,
    ensures
        are_digits(r.0@),
        (digits_value(r.0@), r.1 as nat) == shortest(mag as nat),
{
    let ghost g = mag as nat;
    let even = mag % 2 == 0;
    let (m, e) = parts_of(mag);
    let half = in_units(m, e);
    let value = times(&half, 2);
    let low = pair_in_units(mag - 1);
    let high = pair_in_units(mag);
    let ghost v = in_decimals(g);
    proof {
        let (w, f) = (worth(g), fives());
        assert(2 * (w * f) == 2 * w * f) by (nonlinear_arith);
        lemma_bounded(high@);
        lemma_none_past(g, high@.len());
        lemma_value_between(g);
    }
    let mut q: usize = high.len();
    while q > 0
        invariant
            q <= high.len(),
            0 < mag < INFINITE,
            g == mag,
            even == (mag % 2 == 0),
            are_digits(value@),
            are_digits(low@),
            are_digits(high@),
            v == in_decimals(g),
            digits_value(value@) == v,
            digits_value(low@) == low_edge(g),
            digits_value(high@) == high_edge(g),
            low_edge(g) < v < high_edge(g),
            none_above(g, q as nat),
        decreases q,
    {
        q = q - 1;
        let n = without(&value, q);
        let more = next(&n);
        let under = with_zeros(&n, q);
        let over = with_zeros(&more, q);
        proof {
            lemma_multiples(v, q as nat);
            lemma_reads_back(g, digits_value(under@));
            lemma_reads_back(g, digits_value(over@));
        }
        let below = match compare(&low, &under) {
            Comparison::Less => true,
            Comparison::Same => even,
            Comparison::More => false,
        };
        let above = match compare(&over, &high) {
            Comparison::Less => true,
            Comparison::Same => even,
            Comparison::More => false,
        };
        assert(below == reads_back(g, digits_value(under@)));
        assert(above == reads_back(g, digits_value(over@)));
        if below || above {
            let far = q > 0 && digit_at(&value, q - 1) >= 5;
            let up = above && (!below || far);
            proof {
                lemma_half_way(v, q as nat, far);
                lemma_found(g, q as nat, up);
                lemma_shortest_is_unique(
                    g,
                    if up {
                        v / ten(q as nat) + 1
                    } else {
                        v / ten(q as nat)
                    },
                    q as nat,
                );
            }
            return if up {
                (more, q)
            } else {
                (n, q)
            };
        }
        proof {
            lemma_none_here(g, q as nat);
        }
    }
    proof {
        lemma_ten(0);
        lemma_reads_back(g, v);
        assert(v * 1 == v);
        assert(reads_back(g, v * ten(0)));
    }
    (value, 0)
}

/// What is cut off is half or more exactly where its first digit is five or
/// more.
proof fn lemma_half_way(v: nat, q: nat, far: bool)
    requires
        far <==> q > 0 && (v / ten((q - 1) as nat)) % 10 >= 5,
    ensures
        far <==> 2 * (v % ten(q)) >= ten(q),
{
    lemma_ten(q);
    if q == 0 {
        assert(v % 1 == 0);
    } else {
        let j = (q - 1) as nat;
        lemma_ten(j);
        let p = ten(j);
        let a = v / p;
        lemma_fundamental_div_mod(v as int, p as int);
        lemma_fundamental_div_mod(a as int, 10);
        let (r, s, t) = (v % p, a % 10, a / 10);
        assert(v == (10 * p) * t + (s * p + r)) by (nonlinear_arith)
            requires
                v == p * a + r,
                a == 10 * t + s,
        ;
        assert(s * p + r < 10 * p) by (nonlinear_arith)
            requires
                s <= 9,
                r < p,
        ;
        lemma_fundamental_div_mod_converse(
            v as int,
            (10 * p) as int,
            t as int,
            (s * p + r) as int,
        );
        assert((2 * (s * p + r) >= 10 * p) == (s >= 5)) by (nonlinear_arith)
            requires
                0 <= r < p,
                s >= 0,
        ;
    }
}

/// Digits padded to a length are those of the remainder.
proof fn lemma_padded_rest(n: nat, places: nat)
    ensures
        padded(n % ten(places), places) == padded(n, places),
    decreases places,
{
    lemma_ten(places);
    if places > 0 {
        let j = (places - 1) as nat;
        lemma_ten(j);
        let p = ten(j);
        let (a, s) = (n / 10, n % 10);
        lemma_fundamental_div_mod(a as int, p as int);
        let (t, r) = (a / p, a % p);
        assert(n == (10 * p) * t + (10 * r + s)) by (nonlinear_arith)
            requires
                n == 10 * a + s,
                a == p * t + r,
        ;
        assert(10 * r + s < 10 * p);
        lemma_fundamental_div_mod_converse(
            n as int,
            (10 * p) as int,
            t as int,
            (10 * r + s) as int,
        );
        let rest = n % ten(places);
        assert(rest / 10 == r && rest % 10 == s);
        lemma_padded_rest(a, j);
    }
}

/// Appends a number by its digits.
fn push_number(s: &mut String, d: &Vec<u8>)
    requires
        are_digits(d@),
    ensures
        final(s)@ == old(s)@ + decimal(digits_value(d@)),
{
    let mut n: usize = d.len();
    assert(d@.take(n as int) =~= d@);
    while n > 0 && d[n - 1] == 0
        invariant
            n <= d.len(),
            are_digits(d@),
            digits_value(d@.take(n as int)) == digits_value(d@),
        decreases n,
    {
        proof {
            lemma_push(d@.take(n - 1), 0);
            assert(d@.take(n - 1).push(0) =~= d@.take(n as int));
            assert(0 * ten((n - 1) as nat) == 0);
        }
        n = n - 1;
    }
    if n == 0 {
        assert(d@.take(0) =~= Seq::<u8>::empty());
        s.push('0');
        assert(s@ =~= old(s)@ + decimal(0));
        return ;
    }
    let mut kept: Vec<u8> = Vec::new();
    let mut i: usize = 0;
    while i < n
        invariant
            i <= n <= d.len(),
            kept@ == d@.take(i as int),
        decreases n - i,
    {
        kept.push(d[i]);
        i = i + 1;
        assert(kept@ =~= d@.take(i as int));
    }
    push_digits(s, &kept);
}

/// Appends the last digits of a number.
fn push_last(s: &mut String, d: &Vec<u8>, places: usize)
    requires
        are_digits(d@),
    ensures
        final(s)@ == old(s)@ + padded(digits_value(d@) % ten(places as nat), places as nat),
{
    let ghost v = digits_value(d@);
    let ghost start = s@;
    let mut i: usize = places;
    proof {
        lemma_ten(i as nat);
    }
    assert(padded(v / ten(i as nat), 0) == Seq::<char>::empty());
    assert(start + Seq::<char>::empty() =~= start);
    while i > 0
        invariant
            i <= places,
            are_digits(d@),
            v == digits_value(d@),
            s@ == start + padded(v / ten(i as nat), (places - i) as nat),
        decreases i,
    {
        let ghost before = s@;
        i = i - 1;
        let x = digit_at(d, i);
        s.push(digit_char(x));
        proof {
            lemma_ten(i as nat);
            let a = v / ten(i as nat);
            assert(a / 10 == v / ten((i + 1) as nat));
            assert(s@ =~= start + padded(a, (places - i) as nat));
        }
    }
    proof {
        lemma_ten(0);
        assert(v / 1 == v);
        lemma_padded_rest(v, places as nat);
    }
}

/// Appends a number in as few digits as read back as it.
pub(crate) fn push_shortest(s: &mut String, x: Number)
    ensures
        final(s)@ == old(s)@ + written(x),
{
    if x.is_nan() {
        s.append("NaN");
        return ;
    }
    if x.sign() {
        s.push('-');
    }
    let ghost signed = s@;
    if x.is_infinite() {
        s.append("inf");
        assert(s@ =~= old(s)@ + written(x));
        return ;
    }
    if x.mag() == 0 {
        s.append("0");
        assert(s@ =~= old(s)@ + written(x));
        return ;
    }
    let (n, q) = find_shortest(x.mag());
    if q >= DECIMALS as usize {
        let whole = with_zeros(&n, q - DECIMALS as usize);
        push_number(s, &whole);
    } else {
        let places = DECIMALS as usize - q;
        let whole = without(&n, places);
        push_number(s, &whole);
        s.push('.');
        push_last(s, &n, places);
    }
    assert(s@ =~= signed + positional(digits_value(n@), q as nat));
    assert(s@ =~= old(s)@ + written(x));
}

/// A magnitude has a shortest form, at or below a power of ten from which on
/// none reads back.
proof fn lemma_below(mag: nat, q: nat)
    requires
        mag > 0,
        none_above(mag, q),
    ensures
        is_shortest(mag, shortest(mag).0, shortest(mag).1),
    decreases q,
{
    let v = in_decimals(mag);
    lemma_value_between(mag);
    if q == 0 {
        lemma_ten(0);
        lemma_reads_back(mag, v);
        assert(v * 1 == v);
        assert(reads_back(mag, v * ten(0)));
    } else {
        let p = (q - 1) as nat;
        let n = v / ten(p);
        lemma_ten(p);
        let (below, above) = (reads_back(mag, n * ten(p)), reads_back(mag, (n + 1) * ten(p)));
        if below || above {
            let up = above && (!below || 2 * (v % ten(p)) >= ten(p));
            lemma_found(mag, p, up);
            lemma_shortest_is_unique(
                mag,
                if up {
                    n + 1
                } else {
                    n
                },
                p,
            );
        } else {
            lemma_none_here(mag, p);
            lemma_below(mag, p);
        }
    }
}

/// Powers of ten pass every number.
proof fn lemma_ten_passes(n: nat)
    ensures
        n < ten(n),
    decreases n,
{
    lemma_ten(n);
    if n > 0 {
        lemma_ten_passes((n - 1) as nat);
        lemma_ten((n - 1) as nat);
    }
}

/// Every magnitude but zero has a shortest form.
proof fn lemma_shortest_exists(mag: nat)
    requires
        mag > 0,
    ensures
        is_shortest(mag, shortest(mag).0, shortest(mag).1),
{
    let q = high_edge(mag);
    lemma_ten_passes(q);
    lemma_none_past(mag, q);
    lemma_below(mag, q);
}

/// The natural number that decimal digits stand for, the highest digit first.
pub open spec fn read_digits(text: Seq<char>) -> nat
    decreases text.len(),
{
    if text.len() == 0 {
        0
    } else {
        (10 * read_digits(text.drop_last()) + (text.last() as nat - '0' as nat)) as nat
    }
}

/// What a decimal text stands for, counted in units of the last decimal.
pub open spec fn read_decimal(text: Seq<char>) -> nat {
    if text.contains('.') {
        let i = text.index_of('.');
        let places = (text.len() - i - 1) as nat;
        (read_digits(text.take(i)) * ten(places) + read_digits(text.skip(i + 1))) * ten(
            (DECIMALS - places) as nat,
        )
    } else {
        read_digits(text) * ten(DECIMALS as nat)
    }
}

/// A natural number reads back from its digits, none of which is a point.
proof fn lemma_decimal_reads(n: nat)
    ensures
        read_digits(decimal(n)) == n,
        !decimal(n).contains('.'),
    decreases n,
{
    let text = decimal(n);
    let rest = text.drop_last();
    if n < 10 {
        assert(rest =~= Seq::<char>::empty());
        assert(read_digits(rest) == 0);
        assert(text.last() == digit(n));
    } else {
        lemma_decimal_reads(n / 10);
        assert(rest =~= decimal(n / 10));
        assert(text.last() == digit(n % 10));
    }
    if text.contains('.') {
        let k = choose|k: int| 0 <= k < text.len() && text[k] == '.';
        if k < rest.len() {
            assert(rest[k] == '.');
            assert(rest.contains('.'));
        }
    }
}

/// The same with zeros in front.
proof fn lemma_padded_reads(n: nat, places: nat)
    requires
        n < ten(places),
    ensures
        read_digits(padded(n, places)) == n,
        padded(n, places).len() == places,
        !padded(n, places).contains('.'),
    decreases places,
{
    lemma_ten(places);
    if places > 0 {
        let j = (places - 1) as nat;
        lemma_ten(j);
        lemma_padded_reads(n / 10, j);
        let text = padded(n, places);
        let rest = text.drop_last();
        assert(rest =~= padded(n / 10, j));
        assert(text.last() == digit(n % 10));
        if text.contains('.') {
            let k = choose|k: int| 0 <= k < text.len() && text[k] == '.';
            if k < rest.len() {
                assert(rest[k] == '.');
                assert(rest.contains('.'));
            }
        }
    }
}

/// A multiple of a power of ten reads back from its text.
proof fn lemma_positional_reads(n: nat, q: nat)
    ensures
        read_decimal(positional(n, q)) == n * ten(q),
{
    let text = positional(n, q);
    lemma_ten(q);
    if q >= DECIMALS {
        let k = (q - DECIMALS) as nat;
        lemma_ten(k);
        lemma_decimal_reads(n * ten(k));
        lemma_pow_adds(10, k, DECIMALS as nat);
        lemma_pow_positive(10, k);
        lemma_pow_positive(10, DECIMALS as nat);
        let (a, b) = (ten(k), ten(DECIMALS as nat));
        assert(n * a * b == n * (a * b)) by (nonlinear_arith);
    } else {
        let k = (DECIMALS - q) as nat;
        lemma_ten(k);
        let (whole, rest) = (n / ten(k), n % ten(k));
        let (front, back) = (decimal(whole), padded(rest, k));
        lemma_fundamental_div_mod(n as int, ten(k) as int);
        lemma_decimal_reads(whole);
        lemma_padded_reads(rest, k);
        assert(text =~= front.push('.') + back);
        let i = front.len() as int;
        assert(text[i] == '.');
        assert(text.contains('.'));
        assert(text.index_of('.') == i) by {
            let j = text.index_of('.');
            if j < i {
                assert(front[j] == '.');
                assert(front.contains('.'));
            } else if j > i {
                assert(back[j - i - 1] == '.');
                assert(back.contains('.'));
            }
        }
        assert(text.take(i) =~= front);
        assert(text.skip(i + 1) =~= back);
        let p = ten(k);
        assert(whole * p + rest == n) by (nonlinear_arith)
            requires
                n == p * whole + rest,
        ;
        assert(DECIMALS - k == q);
    }
}

/// What is written of a number reads back as it: behind its sign stands a
/// decimal that no other number is nearer to. No decimal of a higher power of
/// ten would do, and none of the same power is nearer.
pub proof fn a_written_number_reads_back(x: Number)
    requires
        x.is_finite(),
        x.magnitude() != 0,
    ensures
        ({
            let body = written(x).skip(if x.negative() {
                1
            } else {
                0
            });
            let (n, q) = shortest(x.magnitude());
            &&& x.negative() ==> written(x)[0] == '-'
            &&& reads_back(x.magnitude(), read_decimal(body))
            &&& read_decimal(body) == n * ten(q)
            &&& is_shortest(x.magnitude(), n, q)
        }),
{
    let (n, q) = shortest(x.magnitude());
    let text = positional(n, q);
    lemma_shortest_exists(x.magnitude());
    lemma_positional_reads(n, q);
    if x.negative() {
        assert(written(x).skip(1) =~= text);
    } else {
        assert(written(x).skip(0) =~= text);
    }
}

} // verus!
