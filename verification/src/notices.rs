//! What a sample notice says and where it stands.
use vstd::arithmetic::power2::{
    lemma2_to64, lemma2_to64_rest, lemma_pow2_adds, lemma_pow2_pos, pow2,
};
use vstd::prelude::*;

use crate::accuracy::{amount, distance};
use crate::approximation::{
    is_about, lemma_about, lemma_beside, lemma_exactly_stands, lemma_ordinary_size,
    lemma_stands_product, lemma_stands_quotient, lemma_whole_stands, size_of,
};
use crate::drawing::{Op, Outline, Rect};
use crate::fits::within;
use crate::ink::ChartInk;
use crate::layout::ChartLayout;
use crate::number::{lemma_format, Number};
use crate::numerals::HUNDRED;
use crate::sample_notice::{label_text, notice_ops, percent, SampleFact, NOTICE_BAND, NOTICE_INSET};
use crate::widget_placement::lemma_numeral;

verus! {

/// A percentage is the drawn rows' part of all rows, in hundredths.
pub proof fn a_percentage_is_a_part_in_hundredths(fact: SampleFact)
    requires
        fact.of > 0,
    ensures
        is_about(
            percent(fact),
            100 as real * fact.drawn as real / fact.of as real,
            100 as real * (fact.drawn as real + 1 as real) / fact.of as real,
        ),
{
    let hundred = Number::from_bits(HUNDRED);
    let (n, m) = (fact.drawn as real, fact.of as real);
    let s = 100 as real * (n + 1 as real);
    lemma_format();
    lemma2_to64();
    lemma2_to64_rest();
    assert(pow2(46) == 70368744177664);
    lemma_numeral(hundred, 46, 100 as real);
    lemma_pow2_adds(63, 63);
    lemma_pow2_adds(126, 273);
    lemma_pow2_pos(273);
    assert(pow2(63) == 9223372036854775808);
    assert(pow2(126) == 9223372036854775808 * 9223372036854775808);
    assert(pow2(399) >= pow2(126)) by (nonlinear_arith)
        requires
            pow2(399) == pow2(126) * pow2(273),
            pow2(273) >= 1,
    ;
    assert(pow2(399) as real >= 10000000000000000000000000000 as real);
    lemma_ordinary_size(n + 1 as real);
    lemma_ordinary_size(m);
    lemma_ordinary_size(100 as real);
    lemma_ordinary_size(s);
    assert(distance(m) == m && distance(100 as real) == 100 as real) by {
        reveal(distance);
    }
    let q = s / m;
    assert(q * m == s) by (nonlinear_arith)
        requires
            q == s / m,
            m >= 1 as real,
    ;
    assert(q <= s && q * 18446744073709551616 as real >= s) by (nonlinear_arith)
        requires
            q * m == s,
            1 as real <= m,
            m <= 18446744073709551616 as real,
            s >= 100 as real,
    ;
    lemma_ordinary_size(q);
    lemma_whole_stands(fact.drawn as int, n + 1 as real);
    lemma_whole_stands(fact.of as int, m);
    lemma_exactly_stands(hundred, 100 as real);
    let x = Number::spec_from_int(fact.drawn as int);
    lemma_stands_product(hundred, 100 as real, 100 as real, 0, x, n, n + 1 as real, 2);
    lemma_stands_quotient(
        hundred.times(x),
        100 as real * n,
        s,
        10,
        Number::spec_from_int(fact.of as int),
        m,
        2,
    );
    lemma_about(percent(fact), 100 as real * n / m, s / m, 24);
}

/// The notice lies along the foot of the chart, as broad as the plot, and its
/// words start in its lower left corner.
pub proof fn a_notice_lies_along_the_foot(layout: ChartLayout, fact: SampleFact, ink: ChartInk)
    requires
        within(layout.width, 200),
        within(layout.height, 200),
        within(layout.margins.left, 200),
        within(layout.margins.right, 200),
        notice_ops(layout, fact, ink).len() > 0,
    ensures
        ({
            let ops = notice_ops(layout, fact, ink);
            let (tall, inset) = (Number::from_bits(NOTICE_BAND), Number::from_bits(NOTICE_INSET));
            &&& ops[0] matches Op::Fill(_, Outline::Rect(r)) && {
                &&& r.x0 == layout.margins.left
                &&& r.y1 == layout.height
                &&& is_about(
                    r.x1,
                    amount(layout.width) - amount(layout.margins.right),
                    2 as real * size_of(layout.width, layout.margins.right),
                )
                &&& is_about(
                    r.y0,
                    amount(layout.height) - 22 as real,
                    2 as real * size_of(layout.height, tall),
                )
            }
            &&& label_text(fact).len() > 0 ==> (ops[1] matches Op::Text(t, p, _, _, anchor) && {
                &&& t == label_text(fact) && anchor is Start
                &&& is_about(
                    p.x,
                    amount(layout.margins.left) + 7 as real,
                    2 as real * size_of(layout.margins.left, inset),
                )
                &&& is_about(
                    p.y,
                    amount(layout.height) - 7 as real,
                    2 as real * size_of(layout.height, inset),
                )
            })
        }),
{
    let (tall, inset) = (Number::from_bits(NOTICE_BAND), Number::from_bits(NOTICE_INSET));
    lemma_notice_lengths();
    lemma_beside(layout.width, layout.margins.right);
    lemma_beside(layout.height, tall);
    lemma_beside(layout.margins.left, inset);
    lemma_beside(layout.height, inset);
}

/// The lengths of a notice are moderate.
proof fn lemma_notice_lengths()
    ensures
        within(Number::from_bits(NOTICE_BAND), 200),
        within(Number::from_bits(NOTICE_INSET), 200),
        amount(Number::from_bits(NOTICE_BAND)) == 22 as real,
        amount(Number::from_bits(NOTICE_INSET)) == 7 as real,
{
    lemma_format();
    lemma2_to64();
    lemma2_to64_rest();
    assert(pow2(48) == 281474976710656 && pow2(50) == 1125899906842624);
    lemma_pow2_adds(10, 190);
    lemma_pow2_pos(190);
    assert(pow2(200) >= 1024) by (nonlinear_arith)
        requires
            pow2(200) == pow2(10) * pow2(190),
            pow2(10) == 1024,
            pow2(190) >= 1,
    ;
    lemma_numeral(Number::from_bits(NOTICE_BAND), 48, 22 as real);
    lemma_numeral(Number::from_bits(NOTICE_INSET), 50, 7 as real);
    reveal(distance);
}

} // verus!
