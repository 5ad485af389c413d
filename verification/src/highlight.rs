//! Highlighting: keeping the selected rows as they are and deemphasising the
//! others.
use vstd::prelude::*;

use crate::batch::{cell_of, number_of, Batch, CellSeq, Cells};
use crate::bounds::{
    lemma_difference_keeps_order, lemma_plus_keeps_order, lemma_plus_nothing,
    lemma_times_keeps_order, lemma_times_nothing,
};
use crate::colour::{css_hex, parse_css_hex, Rgba};
use crate::number::{lemma_format, lemma_rank_is_value_order, Number};
use crate::numerals::{ONE, ZERO};
use crate::single::Single;

verus! {

/// Reserved column carrying the per-row membership of a selection.
pub const SELECTED_COLUMN: &'static str = "__bf_selected";

/// Reserved column carrying the per-group count of selected rows.
pub const SELECTED_COUNT_COLUMN: &'static str = "__bf_selected_count";

/// The single 0.2: how far the alpha of a row that is not selected is turned
/// down where the style does not say.
pub const DEFAULT_DIMMED_ALPHA: u32 = 0x3e4c_cccd;

/// The override a highlight applies to the rows it does not match. `opacity`
/// and `fill_opacity` scale the alpha, `fill` replaces the hue; a style without
/// any of these scales the alpha by the default.
#[derive(Clone, Copy, Debug, PartialEq, Eq, Structural)]
pub struct HighlightStyle {
    /// Alpha multiplier for deemphasised rows.
    pub opacity: Option<Number>,
    /// Fill colour replacing the hue.
    pub fill: Option<Rgba>,
    /// Fill-alpha multiplier for deemphasised rows.
    pub fill_opacity: Option<Number>,
    /// Carried, and not drawn.
    pub stroke: Option<Rgba>,
    /// Carried, and not drawn.
    pub stroke_opacity: Option<Number>,
}

impl Default for HighlightStyle {
    fn default() -> (r: Self)
        ensures
            r == plain_style(),
    {
        HighlightStyle {
            opacity: None,
            fill: None,
            fill_opacity: None,
            stroke: None,
            stroke_opacity: None,
        }
    }
}

/// The style that says nothing.
pub open spec fn plain_style() -> HighlightStyle {
    HighlightStyle {
        opacity: None,
        fill: None,
        fill_opacity: None,
        stroke: None,
        stroke_opacity: None,
    }
}

/// A hexadecimal colour that may not be given.
pub open spec fn optional_hex(text: Option<String>) -> Option<Rgba> {
    match text {
        Some(t) => css_hex(t@),
        None => None,
    }
}

fn read_hex(text: &Option<String>) -> (r: Option<Rgba>)
    ensures
        r == optional_hex(*text),
{
    match text {
        Some(t) => parse_css_hex(t.as_str()),
        None => None,
    }
}

impl HighlightStyle {
    /// Resolve a style whose colours are written as hexadecimal texts. A
    /// colour that cannot be read is left out.
    pub fn resolve(
        opacity: Option<Number>,
        fill: &Option<String>,
        fill_opacity: Option<Number>,
        stroke: &Option<String>,
        stroke_opacity: Option<Number>,
    ) -> (r: HighlightStyle)
        ensures
            r == (HighlightStyle {
                opacity,
                fill: optional_hex(*fill),
                fill_opacity,
                stroke: optional_hex(*stroke),
                stroke_opacity,
            }),
    {
        HighlightStyle {
            opacity,
            fill: read_hex(fill),
            fill_opacity,
            stroke: read_hex(stroke),
            stroke_opacity,
        }
    }
}

/// Highlight state for per-row emphasis.
#[derive(Debug)]
pub struct HighlightState {
    /// For each row whether it is selected; without a list no row is.
    pub selected: Option<Vec<bool>>,
    /// The override applied to rows that are not selected.
    pub otherwise: HighlightStyle,
}

impl HighlightState {
    pub open spec fn spec_keeps(&self, row: usize) -> bool {
        match self.selected {
            Some(v) => row < v.len() && v[row as int],
            None => false,
        }
    }

    /// Whether a row renders untouched.
    #[verifier::when_used_as_spec(spec_keeps)]
    pub fn keeps(&self, row: usize) -> (r: bool)
        ensures
            r == self.spec_keeps(row),
    {
        match &self.selected {
            Some(v) => row < v.len() && v[row],
            None => false,
        }
    }
}

/// The rows a membership column proves in: those whose value is there and
/// true.
pub open spec fn members(v: Seq<Option<bool>>) -> Seq<bool> {
    v.map_values(|o: Option<bool>| o == Some(true))
}

/// Build a per-row highlight from the reserved membership column of a table
/// and a resolved style.
///
/// A per-row column of truth values keeps the rows that are true; a missing
/// value reads as not selected. A per-group count keeps no row: a group is
/// selected in part. `None` when the table carries neither column, or the one
/// it does carry is of the wrong type.
#[must_use]
pub fn build_highlight_state(batch: &Batch, style: &HighlightStyle) -> (r: Option<HighlightState>)
    ensures
        match batch.cells(SELECTED_COLUMN@) {
            Some(CellSeq::Boolean(v)) => {
                &&& r matches Some(h)
                &&& h.otherwise == *style
                &&& h.selected matches Some(s)
                &&& s@ == members(v)
            },
            Some(_) => r is None,
            None => {
                if batch.numbers(SELECTED_COUNT_COLUMN@) is Some {
                    r == Some(HighlightState { selected: None, otherwise: *style })
                } else {
                    r is None
                }
            },
        },
{
    match batch.column(SELECTED_COLUMN) {
        Some(Cells::Boolean(v)) => {
            let mut selected: Vec<bool> = Vec::new();
            let mut i: usize = 0;
            while i < v.len()
                invariant
                    i <= v.len(),
                    selected.len() == i,
                    forall|j: int| 0 <= j < i ==> #[trigger] selected@[j] == (v@[j] == Some(true)),
                decreases v.len() - i,
            {
                selected.push(
                    match v[i] {
                        Some(b) => b,
                        None => false,
                    },
                );
                i = i + 1;
            }
            assert(selected@ =~= members(v@));
            Some(HighlightState { selected: Some(selected), otherwise: *style })
        },
        Some(_) => None,
        None => {
            if batch.column_as_f64(SELECTED_COUNT_COLUMN).is_some() {
                Some(HighlightState { selected: None, otherwise: *style })
            } else {
                None
            }
        },
    }
}

/// The deemphasised colour under a style.
pub open spec fn deemphasised(colour: Rgba, style: HighlightStyle) -> Rgba {
    let hue = match style.fill {
        Some(f) => f,
        None => colour,
    };
    let once = match style.opacity {
        Some(op) => colour.a.times(Single::nearest(op)),
        None => colour.a,
    };
    let twice = match style.fill_opacity {
        Some(fo) => once.times(Single::nearest(fo)),
        None => once,
    };
    let alpha = if style.opacity is None && style.fill_opacity is None && style.fill is None {
        twice.times(Single::from_bits(DEFAULT_DIMMED_ALPHA))
    } else {
        twice
    };
    Rgba { r: hue.r, g: hue.g, b: hue.b, a: alpha }
}

/// Resolve the deemphasised colour: `fill` replaces the hue, `opacity` and
/// `fill_opacity` scale the alpha, and a style that says none of these scales
/// it by the default.
pub fn deemphasise(colour: Rgba, style: &HighlightStyle) -> (r: Rgba)
    ensures
        r == deemphasised(colour, *style),
{
    let hue = match style.fill {
        Some(f) => f,
        None => colour,
    };
    let mut alpha = colour.a;
    let mut any = false;
    if let Some(op) = style.opacity {
        alpha = alpha.times(Single::nearest(op));
        any = true;
    }
    if let Some(fo) = style.fill_opacity {
        alpha = alpha.times(Single::nearest(fo));
        any = true;
    }
    if style.fill.is_some() {
        any = true;
    }
    if !any {
        alpha = alpha.times(Single::from_bits(DEFAULT_DIMMED_ALPHA));
    }
    Rgba { r: hue.r, g: hue.g, b: hue.b, a: alpha }
}

/// A row's colour under a highlight.
pub open spec fn highlighted(
    colour: Rgba,
    row: int,
    highlight: Option<&HighlightState>,
) -> Rgba {
    match highlight {
        Some(h) => if h.keeps(row as usize) {
            colour
        } else {
            deemphasised(colour, h.otherwise)
        },
        None => colour,
    }
}

/// Apply a highlight to a resolved colour. A selected row, and any row without
/// a highlight, keeps its colour.
pub fn apply_highlight(colour: Rgba, row: usize, highlight: Option<&HighlightState>) -> (r: Rgba)
    ensures
        r == highlighted(colour, row as int, highlight),
{
    match highlight {
        Some(h) => if h.keeps(row) {
            colour
        } else {
            deemphasise(colour, &h.otherwise)
        },
        None => colour,
    }
}

/// The ink for the part of a bar the selection did not account for.
pub open spec fn remainder(colour: Rgba, row: int, highlight: Option<&HighlightState>) -> Rgba {
    match highlight {
        Some(_) => highlighted(colour, row, highlight),
        None => deemphasised(colour, plain_style()),
    }
}

/// The ink for the part of a bar the selection did not account for: the mark's
/// own colour, deemphasised as the highlight says, or by default without one.
pub fn remainder_ink(colour: Rgba, row: usize, highlight: Option<&HighlightState>) -> (r: Rgba)
    ensures
        r == remainder(colour, row as int, highlight),
{
    match highlight {
        Some(_) => apply_highlight(colour, row, highlight),
        None => {
            let style: HighlightStyle = Default::default();
            deemphasise(colour, &style)
        },
    }
}

/// The fraction of a group the selection accounts for.
pub open spec fn selected_fraction(
    counts: Option<Seq<Option<Number>>>,
    row: int,
    total: Number,
) -> Option<Number> {
    let zero = Number::from_bits(ZERO);
    match cell_of(counts, row) {
        Some(selected) => if zero.lt(total) && zero.lt(selected) {
            Some(selected.over(total).min(Number::from_bits(ONE)))
        } else {
            None
        },
        None => None,
    }
}

/// The column that may not be there, as a mathematical value.
pub open spec fn numbers_view(v: Option<Vec<Option<Number>>>) -> Option<Seq<Option<Number>>> {
    match v {
        Some(s) => Some(s@),
        None => None,
    }
}

/// The fraction of row `row`'s group the selection accounts for, given the
/// group's own drawn value: at most one, and `None` without a count or where
/// the count or the value is not positive.
pub fn selected_fraction_of(
    counts: &Option<Vec<Option<Number>>>,
    row: usize,
    total: Number,
) -> (r: Option<Number>)
    ensures
        r == selected_fraction(numbers_view(*counts), row as int, total),
{
    let zero = Number::from_bits(ZERO);
    match number_of(counts, row) {
        Some(selected) => if zero.lt(total) && zero.lt(selected) {
            Some(selected.over(total).min(Number::from_bits(ONE)))
        } else {
            None
        },
        None => None,
    }
}

/// Floor on the pixel extent of an overdraw that stands for a selection that
/// is not empty: a quarter.
pub const MIN_SELECTED_EXTENT_PX: u64 = 0x3fd0_0000_0000_0000;

/// The far edge of the part of a bar that is selected: a fraction of the way,
/// or the least extent, and the tip where rounding would lead past it.
pub open spec fn tip_of_part(base: Number, tip: Number, fraction: Number) -> Number {
    let span = tip.minus(base);
    let drawn = span.times(fraction);
    let floor = Number::from_bits(MIN_SELECTED_EXTENT_PX).min(span.abs());
    let edge = if floor.le(drawn.abs()) {
        base.plus(drawn)
    } else {
        base.plus(floor.copysign(span))
    };
    if base.lt(tip) && tip.lt(edge) || tip.lt(base) && edge.lt(tip) {
        tip
    } else {
        edge
    }
}

/// The far edge of the part-of-whole overdraw: `fraction` of the way from a
/// bar's baseline to its tip, in pixels, at least a quarter pixel in the
/// direction the bar grows and never past the tip.
pub fn selected_tip(base: Number, tip: Number, fraction: Number) -> (r: Number)
    ensures
        r == tip_of_part(base, tip, fraction),
{
    let span = tip.minus(base);
    let drawn = span.times(fraction);
    let floor = Number::from_bits(MIN_SELECTED_EXTENT_PX).min(span.abs());
    let edge = if floor.le(drawn.abs()) {
        base.plus(drawn)
    } else {
        base.plus(floor.copysign(span))
    };
    if base.lt(tip) && tip.lt(edge) || tip.lt(base) && edge.lt(tip) {
        tip
    } else {
        edge
    }
}

/// A selected row is untouched under every style.
pub proof fn selected_rows_are_untouched(colour: Rgba, row: usize, h: HighlightState)
    requires
        h.keeps(row),
    ensures
        highlighted(colour, row as int, Some(&h)) == colour,
{
}

/// Deemphasising without an override keeps the hue.
pub proof fn dimming_keeps_the_hue(colour: Rgba, style: HighlightStyle)
    requires
        style.fill is None,
    ensures
        ({
            let d = deemphasised(colour, style);
            d.r == colour.r && d.g == colour.g && d.b == colour.b
        }),
{
}

/// The selected part of a bar ends between its baseline and its tip, for a
/// fraction of the bar.
pub proof fn a_selected_part_stays_on_its_bar(base: Number, tip: Number, fraction: Number)
    requires
        base.is_finite(),
        tip.is_finite(),
        tip.minus(base).is_finite(),
        Number::from_bits(ZERO).le(fraction),
        fraction.is_finite(),
    ensures
        base.le(tip) ==> base.le(tip_of_part(base, tip, fraction)) && tip_of_part(
            base,
            tip,
            fraction,
        ).le(tip),
        tip.le(base) ==> tip.le(tip_of_part(base, tip, fraction)) && tip_of_part(
            base,
            tip,
            fraction,
        ).le(base),
{
    let zero = Number::from_bits(ZERO);
    let span = tip.minus(base);
    let drawn = span.times(fraction);
    let floor = Number::from_bits(MIN_SELECTED_EXTENT_PX).min(span.abs());
    lemma_format();
    lemma_difference_keeps_order(tip, base, zero);
    lemma_rank_is_value_order(tip, base);
    lemma_rank_is_value_order(base, tip);
    if span.magnitude() == 0 {
        lemma_times_nothing(fraction, span);
    } else {
        lemma_times_keeps_order(zero, fraction, span);
        lemma_times_nothing(span, zero);
    }
    let least = floor.copysign(span);
    lemma_plus_nothing(base, zero);
    if zero.le(span) {
        lemma_plus_keeps_order(zero, drawn, base);
        lemma_plus_keeps_order(zero, least, base);
    }
    if span.le(zero) {
        lemma_plus_keeps_order(drawn, zero, base);
        lemma_plus_keeps_order(least, zero, base);
    }
}

} // verus!
