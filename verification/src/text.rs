//! Placing the glyphs of a text.
//!
//! Which glyph stands for a character, and how far it advances, is a font's to
//! say; the advances are handed in.
use vstd::prelude::*;

use crate::drawing::TextAnchor;
use crate::number::Number;
use crate::numerals::{TWO, ZERO};
use crate::single::Single;

verus! {

/// Default label size in pixels: 11.
pub const LABEL_SIZE: u32 = 0x4130_0000;

/// Axis and plot title size in pixels: 12.
pub const TITLE_SIZE: u32 = 0x4140_0000;

/// The width of a text: its advances added up.
pub open spec fn width_of(advances: Seq<Single>) -> Number
    decreases advances.len(),
{
    if advances.len() == 0 {
        Number::from_bits(ZERO)
    } else {
        width_of(advances.drop_last()).plus(advances.last().widened())
    }
}

/// Sum the pixel advance widths of a text's glyphs.
pub fn measure(advances: &Vec<Single>) -> (r: Number)
    ensures
        r == width_of(advances@),
{
    let mut sum = Number::from_bits(ZERO);
    let mut i: usize = 0;
    while i < advances.len()
        invariant
            i <= advances.len(),
            sum == width_of(advances@.take(i as int)),
        decreases advances.len() - i,
    {
        assert(advances@.take(i + 1).drop_last() =~= advances@.take(i as int));
        sum = sum.plus(advances[i].widened());
        i = i + 1;
    }
    assert(advances@.take(i as int) =~= advances@);
    sum
}

/// Where a text of a width starts that is anchored at `x`.
pub open spec fn start_of(anchor: TextAnchor, x: Number, width: Number) -> Number {
    match anchor {
        TextAnchor::Start => x,
        TextAnchor::Middle => x.minus(width.over(Number::from_bits(TWO))),
        TextAnchor::End => x.minus(width),
    }
}

/// Where a text starts that is anchored at `x`: there, half its width before,
/// or its whole width before.
pub fn run_start(advances: &Vec<Single>, x: Number, anchor: TextAnchor) -> (r: Number)
    ensures
        r == start_of(anchor, x, width_of(advances@)),
{
    match anchor {
        TextAnchor::Start => x,
        TextAnchor::Middle => x.minus(measure(advances).over(Number::from_bits(TWO))),
        TextAnchor::End => x.minus(measure(advances)),
    }
}

/// Where the pen starts along the baseline of a text that is turned.
pub open spec fn pen_start(anchor: TextAnchor, width: Number) -> Single {
    match anchor {
        TextAnchor::Start => Single::from_bits(0),
        TextAnchor::Middle => Single::nearest(width.negated().over(Number::from_bits(TWO))),
        TextAnchor::End => Single::nearest(width.negated()),
    }
}

/// Where the pen starts along the baseline of a text that is turned, so that
/// the anchor turns with the text.
pub fn turned_start(advances: &Vec<Single>, anchor: TextAnchor) -> (r: Single)
    ensures
        r == pen_start(anchor, width_of(advances@)),
{
    match anchor {
        TextAnchor::Start => Single::from_bits(0),
        TextAnchor::Middle => Single::nearest(
            measure(advances).negated().over(Number::from_bits(TWO)),
        ),
        TextAnchor::End => Single::nearest(measure(advances).negated()),
    }
}

/// Where the pen is after the first `n` glyphs.
pub open spec fn pen_after(start: Single, advances: Seq<Single>, n: nat) -> Single
    decreases n,
{
    if n == 0 {
        start
    } else {
        pen_after(start, advances, (n - 1) as nat).plus(advances[n - 1])
    }
}

/// Where each glyph stands along the baseline: each where the one before it
/// ends.
pub fn pen_positions(start: Single, advances: &Vec<Single>) -> (out: Vec<Single>)
    ensures
        out@ == Seq::new(advances@.len(), |i: int| pen_after(start, advances@, i as nat)),
{
    let ghost all = Seq::new(advances@.len(), |i: int| pen_after(start, advances@, i as nat));
    let mut out: Vec<Single> = Vec::new();
    let mut pen = start;
    let mut i: usize = 0;
    while i < advances.len()
        invariant
            i <= advances.len(),
            all == Seq::new(advances@.len(), |i: int| pen_after(start, advances@, i as nat)),
            pen == pen_after(start, advances@, i as nat),
            out@ == all.take(i as int),
        decreases advances.len() - i,
    {
        out.push(pen);
        pen = pen.plus(advances[i]);
        i = i + 1;
        assert(out@ =~= all.take(i as int));
    }
    assert(out@ =~= all);
    out
}

} // verus!
