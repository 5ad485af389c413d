//! Saying, in the plot's own ink, that the picture is a sample.
//!
//! A reader who is shown a sample is owed a plain statement of what they are
//! looking at: how many rows were drawn, out of how many, and what fraction
//! that is. [`notice_label`] states it in a band below the plot, for which
//! [`sample_band_margins`] reserves the room.
use vstd::arithmetic::power::pow;
use vstd::arithmetic::power2::{lemma_pow2_adds, lemma_pow2_pos, pow2};
use vstd::prelude::*;

use crate::decimal::{
    count_tenths, grouped, lemma_decimal_digits, lemma_padded_digits, pointed, push_grouped,
    push_pointed, tenths,
};
use crate::drawing::{draw_text, text_ops, Op, Outline, Point, Rect, Scene, Shape, TextAnchor};
use crate::ink::ChartInk;
use crate::layout::{ChartLayout, Margins};
use crate::number::{
    lemma_format, lemma_whole_is_moderate, lemma_worth_of_power, of_whole, worth, Number, DEPTH,
    WIDTH,
};
use crate::numerals::{HUNDRED, ONE, TEN, TENTH, ZERO};
use crate::rounding::{
    lemma_rounding_at_least, lemma_rounding_at_most, lemma_units_increase,
};
use crate::single::Single;
use crate::text::LABEL_SIZE;

verus! {

/// The band reserved below the plot for the notice, in logical pixels: 22.
pub const NOTICE_BAND: u64 = 0x4036_0000_0000_0000;

/// What a sampled plot knows about its own sample.
#[derive(Debug, Clone, Copy, PartialEq, Eq, Structural)]
pub struct SampleFact {
    /// Rows the plot actually drew.
    pub drawn: u64,
    /// Rows the same query would have returned unsampled.
    pub of: u64,
}

/// Grow `margins` to reserve the notice band when the plot is sampled. Only
/// the bottom moves.
#[must_use]
pub fn sample_band_margins(margins: Margins, sampled: bool) -> (r: Margins)
    ensures
        !sampled ==> r == margins,
        sampled ==> r == (Margins {
            bottom: margins.bottom.plus(Number::from_bits(NOTICE_BAND)),
            ..margins
        }),
{
    if sampled {
        Margins {
            top: margins.top,
            right: margins.right,
            bottom: margins.bottom.plus(Number::from_bits(NOTICE_BAND)),
            left: margins.left,
        }
    } else {
        margins
    }
}

/// The proportion drawn, in percent.
pub open spec fn percent(fact: SampleFact) -> Number {
    Number::from_bits(HUNDRED).times(Number::spec_from_int(fact.drawn as int)).over(
        Number::spec_from_int(fact.of as int),
    )
}

/// How many decimals a percentage is written with: more, the smaller it is.
pub open spec fn places(p: Number) -> nat {
    if Number::from_bits(TEN).le(p) {
        0
    } else if Number::from_bits(ONE).le(p) {
        1
    } else if Number::from_bits(TENTH).le(p) {
        2
    } else {
        3
    }
}

/// How many decimals show two significant figures: one fewer where rounding
/// carries into a third.
pub open spec fn figures(p: Number) -> nat {
    let most = places(p);
    if most > 0 && tenths(p, most) >= 100 {
        (most - 1) as nat
    } else {
        most
    }
}

/// The proportion in words, where there is one: two significant figures, at
/// most three decimals, and a bound where those would read as nothing.
pub open spec fn percentage_text(fact: SampleFact) -> Option<Seq<char>> {
    let p = percent(fact);
    let count = tenths(p, figures(p));
    if fact.of == 0 {
        None
    } else if fact.drawn == 0 {
        Some("0%"@)
    } else if count == 0 {
        Some("<0.001%"@)
    } else {
        Some(pointed(count, figures(p)).push('%'))
    }
}

/// The words in the band.
pub open spec fn label_text(fact: SampleFact) -> Seq<char> {
    let counts = "SAMPLED — "@ + grouped(fact.drawn as nat) + " of "@ + grouped(fact.of as nat)
        + " rows drawn"@;
    match percentage_text(fact) {
        Some(p) => counts + " ("@ + p + ")"@,
        None => counts,
    }
}

/// A percentage of counts is finite and of moderate size.
proof fn lemma_percent_is_moderate(fact: SampleFact)
    requires
        fact.of > 0,
    ensures
        !percent(fact).negative(),
        percent(fact).magnitude() <= 0x4460_0000_0000_0000,
{
    reveal(Number::spec_times);
    reveal(Number::spec_over);
    let k = WIDTH as nat;
    let unit = pow2(DEPTH as nat);
    lemma_format();
    lemma_pow2_pos(DEPTH as nat);
    // The count drawn is at most two to the 64th.
    let a = of_whole(fact.drawn as nat);
    lemma_whole_is_moderate(fact.drawn as nat);
    lemma_worth_of_power(0x43f);
    // A hundred times that is at most two to the 71st.
    lemma_worth_of_power(0x406);
    lemma_units_increase(k, HUNDRED as nat, 0x4060_0000_0000_0000);
    if a < 0x43f0_0000_0000_0000 {
        lemma_units_increase(k, a, 0x43f0_0000_0000_0000);
    }
    let n = worth(HUNDRED as nat) * worth(a);
    lemma_worth_of_power(0x446);
    lemma_pow2_adds(1081, 1138);
    lemma_pow2_adds(1145, DEPTH as nat);
    vstd::arithmetic::mul::lemma_mul_upper_bound(
        worth(HUNDRED as nat) as int,
        pow2(1081) as int,
        worth(a) as int,
        pow2(1138) as int,
    );
    lemma_rounding_at_most(k, n, unit, 0x4460_0000_0000_0000);
    let x = Number::from_bits(HUNDRED).times(Number::spec_from_int(fact.drawn as int));
    assert(!x.negative() && x.magnitude() <= 0x4460_0000_0000_0000);
    // The count it is drawn from is at least one.
    let b = of_whole(fact.of as nat);
    lemma_worth_of_power(0x3ff);
    assert(fact.of * unit >= pow2(1074) * 1) by (nonlinear_arith)
        requires
            fact.of >= 1,
            pow2(1074) == unit,
            unit > 0,
    ;
    lemma_rounding_at_least(k, (fact.of * unit) as nat, 1, ONE as nat);
    lemma_whole_is_moderate(fact.of as nat);
    if (ONE as nat) < b {
        lemma_units_increase(k, ONE as nat, b);
    }
    assert(worth(b) >= unit);
    if x.magnitude() < 0x4460_0000_0000_0000 {
        lemma_units_increase(k, x.magnitude(), 0x4460_0000_0000_0000);
    }
    vstd::arithmetic::mul::lemma_mul_upper_bound(
        worth(x.magnitude()) as int,
        worth(0x4460_0000_0000_0000) as int,
        unit as int,
        worth(b) as int,
    );
    lemma_rounding_at_most(
        k,
        (worth(x.magnitude()) * unit) as nat,
        worth(b),
        0x4460_0000_0000_0000,
    );
}

/// The proportion drawn, written so that it never reads as zero on a picture
/// that has points in it.
fn percentage(fact: SampleFact) -> (r: Option<String>)
    ensures
        r is Some <==> percentage_text(fact) is Some,
        r matches Some(p) ==> percentage_text(fact) == Some(p@),
{
    if fact.of == 0 {
        return None;
    }
    if fact.drawn == 0 {
        return Some("0%".to_owned());
    }
    let p = Number::from_bits(HUNDRED).times(Number::from_u64(fact.drawn)).over(
        Number::from_u64(fact.of),
    );
    proof {
        lemma_percent_is_moderate(fact);
    }
    let most: u32 = if Number::from_bits(TEN).le(p) {
        0
    } else if Number::from_bits(ONE).le(p) {
        1
    } else if Number::from_bits(TENTH).le(p) {
        2
    } else {
        3
    };
    let decimals: u32 = if most > 0 && count_tenths(p, most) >= 100 {
        most - 1
    } else {
        most
    };
    let count = count_tenths(p, decimals);
    if count == 0 {
        return Some("<0.001%".to_owned());
    }
    let mut rendered = String::new();
    push_pointed(&mut rendered, count, decimals);
    rendered.push('%');
    assert(rendered@ =~= pointed(count as nat, decimals as nat).push('%'));
    Some(rendered)
}

/// The words in the band: the counts, which a reader checks, and the
/// proportion, which they understand.
///
/// A fact with nothing to be a proportion of drops the parenthetical.
#[must_use]
pub fn notice_label(fact: SampleFact) -> (r: String)
    ensures
        r@ == label_text(fact),
{
    let mut s = String::new();
    s.append("SAMPLED — ");
    push_grouped(&mut s, fact.drawn);
    s.append(" of ");
    push_grouped(&mut s, fact.of);
    s.append(" rows drawn");
    if let Some(p) = percentage(fact) {
        s.append(" (");
        s.append(p.as_str());
        s.append(")");
    }
    assert(s@ =~= label_text(fact));
    s
}

/// How far the words stand in from the band's left and bottom edges: 7.
pub const NOTICE_INSET: u64 = 0x401c_0000_0000_0000;

/// The band below a plot.
pub open spec fn notice_band(layout: ChartLayout) -> Rect {
    Rect {
        x0: layout.margins.left,
        y0: layout.height.minus(Number::from_bits(NOTICE_BAND)),
        x1: layout.width.minus(layout.margins.right),
        y1: layout.height,
    }
}

/// What the notice draws: the band across the whole plot and the words in it.
/// A band without room draws nothing.
pub open spec fn notice_ops(layout: ChartLayout, fact: SampleFact, ink: ChartInk) -> Seq<Op> {
    let zero = Number::from_bits(ZERO);
    let inset = Number::from_bits(NOTICE_INSET);
    let band = notice_band(layout);
    if band.x1.minus(band.x0).le(zero) || band.y1.minus(band.y0).le(zero) {
        Seq::empty()
    } else {
        seq![Op::Fill(ink.notice_fill, Outline::Rect(band))] + text_ops(
            label_text(fact),
            Point { x: band.x0.plus(inset), y: band.y1.minus(inset) },
            Single::from_bits(LABEL_SIZE),
            ink.notice_text,
            TextAnchor::Start,
        )
    }
}

/// Draw the notice for a plot whose layout already reserves the band.
pub fn render_sample_notice(
    scene: &mut Scene,
    layout: &ChartLayout,
    fact: SampleFact,
    ink: ChartInk,
)
    ensures
        final(scene)@ == old(scene)@ + notice_ops(*layout, fact, ink),
{
    let ghost start = scene@;
    let zero = Number::from_bits(ZERO);
    let inset = Number::from_bits(NOTICE_INSET);
    let band = Rect {
        x0: layout.margins.left,
        y0: layout.height.minus(Number::from_bits(NOTICE_BAND)),
        x1: layout.width.minus(layout.margins.right),
        y1: layout.height,
    };
    if band.x1.minus(band.x0).le(zero) || band.y1.minus(band.y0).le(zero) {
        assert(start + Seq::<Op>::empty() =~= start);
        return ;
    }
    scene.fill(ink.notice_fill, Shape::Rect(band));
    let label = notice_label(fact);
    draw_text(
        scene,
        label.as_str(),
        band.x0.plus(inset),
        band.y1.minus(inset),
        Single::from_bits(LABEL_SIZE),
        ink.notice_text,
        TextAnchor::Start,
    );
    assert(scene@ =~= start + notice_ops(*layout, fact, ink));
}

/// The proportion reads as zero in exactly one case: nothing was drawn.
pub proof fn zero_percent_is_nothing_drawn(fact: SampleFact)
    ensures
        percentage_text(fact) == Some("0%"@) <==> fact.of > 0 && fact.drawn == 0,
{
    reveal_strlit("0%");
    reveal_strlit("<0.001%");
    assert("0%"@.len() == 2);
    assert("<0.001%"@.len() == 7);
    let p = percent(fact);
    let count = tenths(p, figures(p));
    if fact.of > 0 && fact.drawn > 0 && count > 0 {
        let text = pointed(count, figures(p));
        lemma_decimal_digits(count);
        lemma_decimal_digits(count / (pow(10, figures(p)) as nat));
        lemma_padded_digits(count % (pow(10, figures(p)) as nat), figures(p));
        assert(text.push('%').drop_last() =~= text);
        assert("0%"@.drop_last() =~= seq!['0']);
        assert(text != seq!['0']) by {
            if figures(p) > 0 {
                assert(text.len() >= 3);
            }
        }
        assert(text.push('%') != "0%"@);
    }
}

} // verus!
