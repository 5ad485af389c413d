//! What is written reads back: numerals, percentages and colours.
use vstd::arithmetic::div_mod::lemma_fundamental_div_mod;
use vstd::arithmetic::power::{lemma_pow0, lemma_pow1, lemma_pow_adds, lemma_pow_positive, pow};
use vstd::arithmetic::power2::{lemma_pow2_pos, pow2};
use vstd::prelude::*;

use crate::accuracy::{amount, distance};
use crate::colour::{css_hex, hex_byte, Rgba};
use crate::decimal::{decimal, digit, grouped, half_even, padded, pointed, tenths};
use crate::number::{worth, Number, DEPTH};
use crate::words::{is_blank, trimmed};

verus! {

/// The digit that a character writes.
pub open spec fn digit_read(c: char) -> int {
    c as int - '0' as int
}

/// Whether a text is made of digits.
pub open spec fn is_digits(s: Seq<char>) -> bool {
    forall|i: int| 0 <= i < s.len() ==> '0' <= #[trigger] s[i] <= '9'
}

/// The number that digits write, the most significant first.
pub open spec fn number_read(s: Seq<char>) -> int
    decreases s.len(),
{
    if s.len() == 0 {
        0
    } else {
        10 * number_read(s.drop_last()) + digit_read(s.last())
    }
}

/// The text without its commas.
pub open spec fn without_commas(s: Seq<char>) -> Seq<char>
    decreases s.len(),
{
    if s.len() == 0 {
        s
    } else if s.last() == ',' {
        without_commas(s.drop_last())
    } else {
        without_commas(s.drop_last()).push(s.last())
    }
}

/// A numeral reads back as its number, and has no leading zero.
pub proof fn a_numeral_reads_back(n: nat)
    ensures
        is_digits(decimal(n)),
        number_read(decimal(n)) == n,
        decimal(n).len() >= 1,
        n > 0 ==> decimal(n)[0] != '0',
    decreases n,
{
    if n >= 10 {
        a_numeral_reads_back(n / 10);
        assert(decimal(n).drop_last() =~= decimal(n / 10));
        assert(decimal(n)[0] == decimal(n / 10)[0]);
    } else {
        reveal_with_fuel(number_read, 2);
        assert(decimal(n).drop_last() =~= Seq::<char>::empty());
        assert(decimal(n)[0] == digit(n));
    }
}

/// A padded numeral has so many places and reads back as the last digits.
pub proof fn a_padded_numeral_reads_back(n: nat, places: nat)
    ensures
        is_digits(padded(n, places)),
        padded(n, places).len() == places,
        n < pow(10, places) ==> number_read(padded(n, places)) == n,
    decreases places,
{
    lemma_pow0(10);
    if places > 0 {
        let rest = (places - 1) as nat;
        a_padded_numeral_reads_back(n / 10, rest);
        assert(padded(n, places).drop_last() =~= padded(n / 10, rest));
        lemma_pow1(10);
        lemma_pow_adds(10, 1, rest);
        assert(n < 10 * pow(10, rest) ==> n / 10 < pow(10, rest));
    }
}

/// Commas are left out wherever they stand.
proof fn lemma_without_commas(a: Seq<char>, b: Seq<char>)
    requires
        is_digits(b),
    ensures
        without_commas(a + b) == without_commas(a) + b,
    decreases b.len(),
{
    if b.len() > 0 {
        let rest = b.drop_last();
        assert((a + b).drop_last() =~= a + rest);
        assert((a + b).last() == b.last());
        assert('0' <= b[b.len() - 1] <= '9');
        lemma_without_commas(a, rest);
        assert((without_commas(a) + rest).push(b.last()) =~= without_commas(a) + b);
    } else {
        assert(a + b =~= a);
        assert(without_commas(a) + b =~= without_commas(a));
    }
}

/// Digits behind digits.
proof fn lemma_read_on(a: Seq<char>, b: Seq<char>)
    ensures
        number_read(a + b) == number_read(a) * pow(10, b.len()) + number_read(b),
    decreases b.len(),
{
    lemma_pow0(10);
    if b.len() > 0 {
        let rest = b.drop_last();
        assert((a + b).drop_last() =~= a + rest);
        lemma_read_on(a, rest);
        lemma_pow1(10);
        lemma_pow_adds(10, 1, rest.len());
        let (x, p) = (number_read(a), pow(10, rest.len()));
        assert(x * (10 * p) == 10 * (x * p)) by (nonlinear_arith);
    } else {
        assert(a + b =~= a);
        assert(number_read(a) * 1 == number_read(a));
    }
}

/// A grouped numeral reads back as its number once its commas are left out, and
/// has a comma before every three digits from the right.
pub proof fn a_grouped_numeral_reads_back(n: nat)
    ensures
        is_digits(without_commas(grouped(n))),
        number_read(without_commas(grouped(n))) == n,
        n < 1000 ==> grouped(n) == decimal(n),
        n >= 1000 ==> grouped(n).len() >= 5 && grouped(n)[grouped(n).len() - 4] == ',',
        n >= 1000 ==> grouped(n).take(grouped(n).len() - 4) == grouped(n / 1000),
    decreases n,
{
    let g = grouped(n);
    if n < 1000 {
        a_numeral_reads_back(n);
        let empty = Seq::<char>::empty();
        lemma_without_commas(empty, decimal(n));
        assert(empty + decimal(n) =~= decimal(n));
    } else {
        let before = grouped(n / 1000);
        let last = padded(n % 1000, 3);
        a_grouped_numeral_reads_back(n / 1000);
        lemma_pow0(10);
        lemma_pow1(10);
        lemma_pow_adds(10, 1, 1);
        lemma_pow_adds(10, 2, 1);
        a_padded_numeral_reads_back(n % 1000, 3);
        lemma_without_commas(before.push(','), last);
        assert(before.push(',').drop_last() =~= before);
        lemma_read_on(without_commas(before), last);
        assert(g.take(g.len() - 4) =~= before);
        assert(before.len() >= 1) by {
            if n / 1000 < 1000 {
                a_numeral_reads_back(n / 1000);
            }
        }
    }
}

/// A count is the nearest to a quotient, and the even one halfway between two.
proof fn lemma_half_even(n: nat, d: nat)
    requires
        d > 0,
    ensures
        2 * (half_even(n, d) * d - n) <= d,
        2 * (n - half_even(n, d) * d) <= d,
{
    lemma_fundamental_div_mod(n as int, d as int);
    let (q, r) = (n / d, n % d);
    assert(d * q == q * d) by (nonlinear_arith);
    assert((q + 1) * d == q * d + d) by (nonlinear_arith);
}

/// What is written of a number with so many places is nearest to it: the count
/// of its last places is off by half of one at most.
pub proof fn a_fixed_numeral_is_the_nearest(p: Number, places: nat)
    requires
        p.is_finite(),
    ensures
        distance(
            tenths(p, places) as real - distance(amount(p)) * pow(10, places) as real,
        ) <= 1 as real / 2 as real,
{
    let unit = pow2(DEPTH as nat);
    let w = worth(p.magnitude());
    lemma_pow2_pos(DEPTH as nat);
    lemma_pow_positive(10, places);
    let t = pow(10, places);
    let m = (w * t) as nat;
    assert(w * t >= 0) by (nonlinear_arith)
        requires
            t > 0,
    ;
    lemma_half_even(m, unit);
    let c = half_even(m, unit);
    reveal(distance);
    let (rw, rt, ru, rc) = (w as real, t as real, unit as real, c as real);
    let a = rw / ru;
    assert(a * ru == rw) by (nonlinear_arith)
        requires
            a == rw / ru,
            ru > 0 as real,
    ;
    assert((-rw) / ru == -a) by (nonlinear_arith)
        requires
            a * ru == rw,
            ru > 0 as real,
    ;
    assert(a >= 0 as real) by (nonlinear_arith)
        requires
            a * ru == rw,
            ru > 0 as real,
            rw >= 0 as real,
    ;
    assert(distance(amount(p)) == a);
    assert(m as real == rw * rt) by (nonlinear_arith)
        requires
            m == w * t,
            rw == w as real,
            rt == t as real,
    ;
    assert((c * unit) as real == rc * ru) by (nonlinear_arith)
        requires
            rc == c as real,
            ru == unit as real,
    ;
    let x = rc - a * rt;
    assert(x * ru == rc * ru - rw * rt) by (nonlinear_arith)
        requires
            x == rc - a * rt,
            a * ru == rw,
    ;
    assert(x <= 1 as real / 2 as real && x >= -(1 as real / 2 as real)) by (nonlinear_arith)
        requires
            2 as real * (x * ru) <= ru,
            -(2 as real * (x * ru)) <= ru,
            ru > 0 as real,
    ;
}

/// A numeral with a point has so many digits behind it, and reads back as the
/// count of its last places once the point is left out.
pub proof fn a_pointed_numeral_reads_back(count: nat, places: nat) -> (parts: (
    Seq<char>,
    Seq<char>,
))
    requires
        places > 0,
    ensures
        pointed(count, places) == parts.0 + seq!['.'] + parts.1,
        is_digits(parts.0),
        parts.0.len() >= 1,
        is_digits(parts.1),
        parts.1.len() == places,
        number_read(parts.0 + parts.1) == count,
{
    lemma_pow_positive(10, places);
    let t = pow(10, places) as nat;
    let (a, b) = (decimal(count / t), padded(count % t, places));
    a_numeral_reads_back(count / t);
    a_padded_numeral_reads_back(count % t, places);
    lemma_fundamental_div_mod(count as int, t as int);
    lemma_read_on(a, b);
    assert(t * (count / t) == (count / t) * t) by (nonlinear_arith);
    assert(pointed(count, places) =~= a + seq!['.'] + b);
    (a, b)
}

/// A hexadecimal digit.
pub open spec fn hexit(d: nat) -> char {
    if d < 10 {
        digit(d)
    } else {
        (('a' as nat) + d - 10) as char
    }
}

/// A byte in hexadecimal.
pub open spec fn hex_text(b: u8) -> Seq<char> {
    seq![hexit((b / 16) as nat), hexit((b % 16) as nat)]
}

/// Two hexadecimal digits read back as their byte.
proof fn lemma_hex_byte(b: u8)
    ensures
        hex_byte(hexit((b / 16) as nat), hexit((b % 16) as nat)) == Some(b),
        !is_blank(hexit((b % 16) as nat)),
{
}

/// A text that neither starts nor ends with a blank is left as it is.
proof fn lemma_nothing_to_trim(t: Seq<char>)
    requires
        t.len() > 0,
        !is_blank(t[0]),
        !is_blank(t.last()),
    ensures
        trimmed(t) == t,
{
}

/// A colour reads back from its hexadecimal digits: red first, then green, then
/// blue, and the alpha last where it is written, and opaque where it is not.
pub proof fn a_colour_reads_back(r: u8, g: u8, b: u8, a: u8)
    ensures
        css_hex(seq!['#'] + hex_text(r) + hex_text(g) + hex_text(b)) == Some(
            Rgba::from_bytes(r, g, b, 255),
        ),
        css_hex(seq!['#'] + hex_text(r) + hex_text(g) + hex_text(b) + hex_text(a)) == Some(
            Rgba::from_bytes(r, g, b, a),
        ),
{
    lemma_hex_byte(r);
    lemma_hex_byte(g);
    lemma_hex_byte(b);
    lemma_hex_byte(a);
    let short = seq!['#'] + hex_text(r) + hex_text(g) + hex_text(b);
    let long = short + hex_text(a);
    lemma_nothing_to_trim(short);
    lemma_nothing_to_trim(long);
}

} // verus!
