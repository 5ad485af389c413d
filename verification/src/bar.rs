//! Bars and the numbers printed on them.
use vstd::prelude::*;

use crate::batch::{cell_of, number_of, Batch};
use crate::channel::{Channel, ChannelMap, LabelForm};
use crate::colour::Rgba;
use crate::decimal::{fixed, push_fixed};
use crate::drawing::{
    draw_text, drawn_for, text_ops, Op, Outline, Point, Rect, Scene, Shape, TextAnchor,
};
use crate::folds::present;
use crate::highlight::{
    apply_highlight, highlighted, numbers_view, remainder, remainder_ink, selected_fraction,
    selected_fraction_of, selected_tip, tip_of_part, HighlightState, SELECTED_COUNT_COLUMN,
};
use crate::number::Number;
use crate::numerals::{EPSILON, HUNDRED, ONE, TWO, ZERO};
use crate::paint::{resolve_colour, row_colour};
use crate::plot::{bound, bound_to};
use crate::scale_set::ScaleSet;
use crate::single::Single;
use crate::words::optional_text;

verus! {

/// Padding between an in-bar label and the bar's tip in pixels: 6.
pub const BAR_LABEL_PAD: u64 = 0x4018_0000_0000_0000;

/// Font size for an in-bar label: 10.
pub const BAR_LABEL_SIZE: u32 = 0x4120_0000;

/// How far a centred label's baseline lies below its centre, per unit of font
/// size: 0.35.
pub const BASELINE_DROP: u64 = 0x3fd6_6666_6666_6666;

/// Which axis a bar mark is oriented along.
#[derive(Debug, Clone, Copy, PartialEq, Eq, Structural)]
pub enum BarAxis {
    /// Categorical band on x, value on y, baselined at `y = 0`.
    Y,
    /// Categorical band on y, value on x, baselined at `x = 0`.
    X,
}

impl BarAxis {
    pub open spec fn spec_band_channel(self) -> Channel {
        match self {
            BarAxis::Y => Channel::X,
            BarAxis::X => Channel::Y,
        }
    }

    /// The channel that the bars stand along.
    #[verifier::when_used_as_spec(spec_band_channel)]
    pub fn band_channel(self) -> (r: Channel)
        ensures
            r == self.spec_band_channel(),
    {
        match self {
            BarAxis::Y => Channel::X,
            BarAxis::X => Channel::Y,
        }
    }

    pub open spec fn spec_value_channel(self) -> Channel {
        match self {
            BarAxis::Y => Channel::Y,
            BarAxis::X => Channel::X,
        }
    }

    /// The channel that the bars grow along.
    #[verifier::when_used_as_spec(spec_value_channel)]
    pub fn value_channel(self) -> (r: Channel)
        ensures
            r == self.spec_value_channel(),
    {
        match self {
            BarAxis::Y => Channel::Y,
            BarAxis::X => Channel::X,
        }
    }
}

/// Renders bar marks as rectangles spanning a categorical band on one axis and
/// running from a zero baseline to the value on the other.
///
/// A batch that carries per-group counts of selected rows has each bar drawn
/// twice: the whole, deemphasised, and the selected part overdrawn on it at
/// full ink from the same baseline.
#[derive(Debug, Clone, Copy)]
pub struct BarRenderer {
    /// Orientation.
    pub axis: BarAxis,
}

/// A number in an in-bar label: whole numbers without a decimal point, others
/// with one decimal.
pub open spec fn number_text(v: Number) -> Seq<char> {
    if v.fract().abs().lt(Number::from_bits(EPSILON)) {
        fixed(v, 0)
    } else {
        fixed(v, 1)
    }
}

/// Format one number for an in-bar label.
pub fn label_number(v: Number) -> (r: String)
    ensures
        r@ == number_text(v),
{
    let mut s = String::new();
    if v.fract().abs().lt(Number::from_bits(EPSILON)) {
        push_fixed(&mut s, v, 0);
    } else {
        push_fixed(&mut s, v, 1);
    }
    assert(s@ =~= number_text(v));
    s
}

/// A number as a whole percentage of a total.
pub open spec fn percent_text(v: Number, total: Number) -> Seq<char> {
    fixed(Number::from_bits(HUNDRED).times(v).over(total), 0).push('%')
}

fn label_percent(v: Number, total: Number) -> (r: String)
    ensures
        r@ == percent_text(v, total),
{
    let mut s = String::new();
    push_fixed(&mut s, Number::from_bits(HUNDRED).times(v).over(total), 0);
    s.push('%');
    assert(s@ =~= percent_text(v, total));
    s
}

/// One number of a label in the label's form. A percentage needs a positive
/// total.
pub open spec fn form_text(form: LabelForm, v: Number, share: Option<Number>) -> Option<Seq<char>> {
    match form {
        LabelForm::Count => Some(number_text(v)),
        LabelForm::Percent => match share {
            Some(total) => if Number::from_bits(ZERO).lt(total) {
                Some(percent_text(v, total))
            } else {
                None
            },
            None => None,
        },
    }
}

fn form_number(form: LabelForm, v: Number, share: Option<Number>) -> (r: Option<String>)
    ensures
        optional_text(r) == form_text(form, v, share),
{
    match form {
        LabelForm::Count => Some(label_number(v)),
        LabelForm::Percent => match share {
            Some(total) => if Number::from_bits(ZERO).lt(total) {
                Some(label_percent(v, total))
            } else {
                None
            },
            None => None,
        },
    }
}

/// The text of one bar's label: the whole, or the part and the whole.
pub open spec fn bar_text(
    form: LabelForm,
    value: Number,
    selected: Option<Number>,
    share: Option<Number>,
) -> Option<Seq<char>> {
    match form_text(form, value, share) {
        Some(whole) => match selected {
            Some(s) => Some(form_text(form, s, share)->0 + " / "@ + whole),
            None => Some(whole),
        },
        None => None,
    }
}

/// The text of one bar's label: the whole at rest, and `part / whole` once
/// there is a selected count for the group. `share` is the denominator of a
/// percentage; without a positive one there is no percentage and no label.
pub fn bar_label(
    form: LabelForm,
    value: Number,
    selected: Option<Number>,
    share: Option<Number>,
) -> (r: Option<String>)
    ensures
        optional_text(r) == bar_text(form, value, selected, share),
{
    let whole = match form_number(form, value, share) {
        Some(w) => w,
        None => {
            return None;
        },
    };
    match selected {
        Some(s) => match form_number(form, s, share) {
            Some(part) => {
                let mut text = part;
                text.append(" / ");
                text.append(whole.as_str());
                assert(text@ =~= form_text(form, s, share)->0 + " / "@ + whole@);
                Some(text)
            },
            None => Some(whole),
        },
        None => Some(whole),
    }
}

/// Where an in-bar label goes, and in what ink.
#[derive(Debug, Clone, Copy, PartialEq, Eq, Structural)]
pub struct LabelPlacement {
    /// The anchor position along the value axis.
    pub at: Number,
    pub anchor: TextAnchor,
    pub colour: Rgba,
}

/// Where the label of a bar goes that runs from `base` to `tip`: inside against
/// the tip, in the knockout ink, where it fits with padding on both sides, and
/// just past the tip, in the bar's ink, where it does not.
pub open spec fn label_place(
    needed: Number,
    base: Number,
    tip: Number,
    ink: Rgba,
    knockout: Rgba,
) -> LabelPlacement {
    let pad = Number::from_bits(BAR_LABEL_PAD);
    let span = tip.minus(base);
    let backwards = span.lt(Number::from_bits(ZERO));
    let one = Number::from_bits(ONE);
    let direction = if backwards {
        one.negated()
    } else {
        one
    };
    if needed.plus(Number::from_bits(TWO).times(pad)).le(span.abs()) {
        LabelPlacement {
            at: tip.minus(direction.times(pad)),
            anchor: if backwards {
                TextAnchor::Start
            } else {
                TextAnchor::End
            },
            colour: knockout,
        }
    } else {
        LabelPlacement {
            at: tip.plus(direction.times(pad)),
            anchor: if backwards {
                TextAnchor::End
            } else {
                TextAnchor::Start
            },
            colour: ink,
        }
    }
}

/// Place a label on a bar running from `base` to `tip` in pixels. `needed` is
/// what the text occupies along the bar's own axis.
pub fn place_bar_label(
    needed: Number,
    base: Number,
    tip: Number,
    ink: Rgba,
    knockout: Rgba,
) -> (r: LabelPlacement)
    ensures
        r == label_place(needed, base, tip, ink, knockout),
{
    let pad = Number::from_bits(BAR_LABEL_PAD);
    let span = tip.minus(base);
    let backwards = span.lt(Number::from_bits(ZERO));
    let one = Number::from_bits(ONE);
    let direction = if backwards {
        one.negated()
    } else {
        one
    };
    if needed.plus(Number::from_bits(TWO).times(pad)).le(span.abs()) {
        LabelPlacement {
            at: tip.minus(direction.times(pad)),
            anchor: if backwards {
                TextAnchor::Start
            } else {
                TextAnchor::End
            },
            colour: knockout,
        }
    } else {
        LabelPlacement {
            at: tip.plus(direction.times(pad)),
            anchor: if backwards {
                TextAnchor::End
            } else {
                TextAnchor::Start
            },
            colour: ink,
        }
    }
}

/// Numbers added up in order, from zero.
pub open spec fn total_of(v: Seq<Number>) -> Number
    decreases v.len(),
{
    if v.len() == 0 {
        Number::from_bits(ZERO)
    } else {
        total_of(v.drop_last()).plus(v.last())
    }
}

/// The sum of the values of a column that are there.
pub fn column_total(v: &Vec<Option<Number>>) -> (r: Number)
    ensures
        r == total_of(present(v@)),
{
    let mut sum = Number::from_bits(ZERO);
    let mut i: usize = 0;
    assert(v@.take(0) =~= Seq::<Option<Number>>::empty());
    while i < v.len()
        invariant
            i <= v.len(),
            sum == total_of(present(v@.take(i as int))),
        decreases v.len() - i,
    {
        proof {
            let part = v@.take(i + 1);
            assert(part.drop_last() =~= v@.take(i as int));
            if let Some(x) = part.last() {
                let before = present(v@.take(i as int));
                assert(before.push(x).drop_last() =~= before);
            }
        }
        if let Some(x) = v[i] {
            sum = sum.plus(x);
        }
        i = i + 1;
    }
    assert(v@.take(i as int) =~= v@);
    sum
}

/// A bar in pixels: its band, the middle of it, its baseline and its tip.
#[derive(Debug, Clone, Copy, PartialEq, Eq, Structural)]
pub struct BarShape {
    pub value: Number,
    pub centre: Number,
    pub low: Number,
    pub high: Number,
    pub base: Number,
    pub tip: Number,
}

/// The bar of a row: it needs a category on the band scale and a value.
pub open spec fn bar_shape(
    axis: BarAxis,
    batch: Batch,
    channel_map: ChannelMap,
    scales: ScaleSet,
    row: int,
) -> Option<BarShape> {
    match (
        bound_to(channel_map, scales, axis.band_channel()),
        bound_to(channel_map, scales, axis.value_channel()),
    ) {
        (Some((band_col, band)), Some((value_col, values))) => match (
            band.band_width(),
            cell_of(batch.texts(band_col), row),
            cell_of(batch.numbers(value_col), row),
        ) {
            (Some(width), Some(category), Some(value)) => match band.map_category(category) {
                Some(centre) => {
                    let low = centre.minus(width.over(Number::from_bits(TWO)));
                    Some(
                        BarShape {
                            value,
                            centre,
                            low,
                            high: low.plus(width),
                            base: values.map_f64(Number::from_bits(ZERO)),
                            tip: values.map_f64(value),
                        },
                    )
                },
                None => None,
            },
            _ => None,
        },
        _ => None,
    }
}

/// A rectangle that spans a bar's band and runs from `a` to `b` along its value
/// axis.
pub open spec fn laid(axis: BarAxis, shape: BarShape, a: Number, b: Number) -> Rect {
    match axis {
        BarAxis::Y => Rect { x0: shape.low, y0: a, x1: shape.high, y1: b },
        BarAxis::X => Rect { x0: a, y0: shape.low, x1: b, y1: shape.high },
    }
}

fn lay(axis: BarAxis, shape: BarShape, a: Number, b: Number) -> (r: Rect)
    ensures
        r == laid(axis, shape, a, b),
{
    match axis {
        BarAxis::Y => Rect { x0: shape.low, y0: a, x1: shape.high, y1: b },
        BarAxis::X => Rect { x0: a, y0: shape.low, x1: b, y1: shape.high },
    }
}

/// The whole of a bar, its value span in order.
pub open spec fn whole_bar(axis: BarAxis, shape: BarShape) -> Rect {
    if shape.tip.lt(shape.base) {
        laid(axis, shape, shape.tip, shape.base)
    } else {
        laid(axis, shape, shape.base, shape.tip)
    }
}

/// The selected part of a bar.
pub open spec fn part_of_bar(axis: BarAxis, shape: BarShape, fraction: Number) -> Rect {
    let edge = tip_of_part(shape.base, shape.tip, fraction);
    laid(axis, shape, shape.base.min(edge), shape.base.max(edge))
}

/// What the values of a percentage label are percentages of.
pub open spec fn drawn_total(
    axis: BarAxis,
    batch: Batch,
    channel_map: ChannelMap,
    scales: ScaleSet,
) -> Option<Number> {
    match bound_to(channel_map, scales, axis.value_channel()) {
        Some((value_col, _)) => match batch.numbers(value_col) {
            Some(values) => if channel_map.label == Some(LabelForm::Percent) {
                Some(total_of(present(values)))
            } else {
                None
            },
            None => None,
        },
        None => None,
    }
}

/// The label of a row's bar, if the mark prints labels.
pub open spec fn row_label(
    axis: BarAxis,
    batch: Batch,
    channel_map: ChannelMap,
    scales: ScaleSet,
    row: int,
) -> Option<Seq<char>> {
    match (bar_shape(axis, batch, channel_map, scales, row), channel_map.label) {
        (Some(shape), Some(form)) => bar_text(
            form,
            shape.value,
            cell_of(batch.numbers(SELECTED_COUNT_COLUMN@), row),
            drawn_total(axis, batch, channel_map, scales),
        ),
        _ => None,
    }
}

/// What a label takes along its bar's axis: its height on an upright bar, and
/// its width, which is measured elsewhere, on a lying one.
pub open spec fn needed_along(axis: BarAxis, widths: Seq<Number>, row: int) -> Number {
    match axis {
        BarAxis::Y => Single::from_bits(BAR_LABEL_SIZE).widened(),
        BarAxis::X => if 0 <= row < widths.len() {
            widths[row]
        } else {
            Number::from_bits(ZERO)
        },
    }
}

/// What a bar's label draws.
pub open spec fn label_ops(
    axis: BarAxis,
    shape: BarShape,
    text: Seq<char>,
    needed: Number,
    ink: Rgba,
    knockout: Rgba,
) -> Seq<Op> {
    let size = Single::from_bits(BAR_LABEL_SIZE);
    let drop = size.widened().times(Number::from_bits(BASELINE_DROP));
    let placed = label_place(needed, shape.base, shape.tip, ink, knockout);
    match axis {
        BarAxis::Y => text_ops(
            text,
            Point { x: shape.centre, y: placed.at.plus(drop) },
            size,
            placed.colour,
            TextAnchor::Middle,
        ),
        BarAxis::X => text_ops(
            text,
            Point { x: placed.at, y: shape.centre.plus(drop) },
            size,
            placed.colour,
            placed.anchor,
        ),
    }
}

/// What one row draws: the whole bar, the selected part of it, and its label.
pub open spec fn bar_ops(
    axis: BarAxis,
    batch: Batch,
    channel_map: ChannelMap,
    scales: ScaleSet,
    highlight: Option<&HighlightState>,
    widths: Seq<Number>,
    row: int,
) -> Seq<Op> {
    match bar_shape(axis, batch, channel_map, scales, row) {
        Some(shape) => {
            let counts = batch.numbers(SELECTED_COUNT_COLUMN@);
            let ink = row_colour(scales, channel_map, batch, row);
            let whole = Op::Fill(
                if counts is Some {
                    remainder(ink, row, highlight)
                } else {
                    highlighted(ink, row, highlight)
                },
                Outline::Rect(whole_bar(axis, shape)),
            );
            let part = match selected_fraction(counts, row, shape.value) {
                Some(fraction) => seq![
                    Op::Fill(ink, Outline::Rect(part_of_bar(axis, shape, fraction))),
                ],
                None => Seq::empty(),
            };
            let label = match row_label(axis, batch, channel_map, scales, row) {
                Some(text) => label_ops(
                    axis,
                    shape,
                    text,
                    needed_along(axis, widths, row),
                    ink,
                    scales.ink.knockout,
                ),
                None => Seq::empty(),
            };
            seq![whole] + part + label
        },
        None => Seq::empty(),
    }
}

fn draw_label(
    scene: &mut Scene,
    axis: BarAxis,
    shape: BarShape,
    text: &str,
    needed: Number,
    ink: Rgba,
    knockout: Rgba,
)
    ensures
        final(scene)@ == old(scene)@ + label_ops(axis, shape, text@, needed, ink, knockout),
{
    let size = Single::from_bits(BAR_LABEL_SIZE);
    let drop = size.widened().times(Number::from_bits(BASELINE_DROP));
    let placed = place_bar_label(needed, shape.base, shape.tip, ink, knockout);
    match axis {
        BarAxis::Y => {
            let y = placed.at.plus(drop);
            draw_text(scene, text, shape.centre, y, size, placed.colour, TextAnchor::Middle);
        },
        BarAxis::X => {
            let y = shape.centre.plus(drop);
            draw_text(scene, text, placed.at, y, size, placed.colour, placed.anchor);
        },
    }
}

/// The columns that bars are read from.
struct BarColumns {
    values: Option<Vec<Option<Number>>>,
    counts: Option<Vec<Option<Number>>>,
    total: Option<Number>,
}

impl BarRenderer {
    spec fn columns_match(
        self,
        batch: Batch,
        channel_map: ChannelMap,
        scales: ScaleSet,
        columns: BarColumns,
    ) -> bool {
        &&& match bound_to(channel_map, scales, self.axis.value_channel()) {
            Some((column, _)) => numbers_view(columns.values) == batch.numbers(column),
            None => columns.values is None,
        }
        &&& numbers_view(columns.counts) == batch.numbers(SELECTED_COUNT_COLUMN@)
        &&& columns.total == drawn_total(self.axis, batch, channel_map, scales)
    }

    fn columns(&self, batch: &Batch, channel_map: &ChannelMap, scales: &ScaleSet) -> (r: BarColumns)
        ensures
            self.columns_match(*batch, *channel_map, *scales, r),
    {
        let values = match bound(channel_map, scales, self.axis.value_channel()) {
            Some(b) => batch.column_as_f64(b.column),
            None => None,
        };
        let total = match (&values, channel_map.label) {
            (Some(v), Some(LabelForm::Percent)) => Some(column_total(v)),
            _ => None,
        };
        let counts = batch.column_as_f64(SELECTED_COUNT_COLUMN);
        BarColumns { values, counts, total }
    }

    fn shape(
        &self,
        batch: &Batch,
        channel_map: &ChannelMap,
        scales: &ScaleSet,
        columns: &BarColumns,
        row: usize,
    ) -> (r: Option<BarShape>)
        requires
            self.columns_match(*batch, *channel_map, *scales, *columns),
        ensures
            r == bar_shape(self.axis, *batch, *channel_map, *scales, row as int),
    {
        let (band, values) = match (
            bound(channel_map, scales, self.axis.band_channel()),
            bound(channel_map, scales, self.axis.value_channel()),
        ) {
            (Some(b), Some(v)) => (b, v),
            _ => {
                return None;
            },
        };
        let width = match band.scale.band_width() {
            Some(w) => w,
            None => {
                return None;
            },
        };
        let category = match batch.text_at(band.column, row) {
            Some(c) => c,
            None => {
                return None;
            },
        };
        let value = match number_of(&columns.values, row) {
            Some(v) => v,
            None => {
                return None;
            },
        };
        let centre = match band.scale.map_category(category.as_str()) {
            Some(c) => c,
            None => {
                return None;
            },
        };
        let low = centre.minus(width.over(Number::from_bits(TWO)));
        Some(
            BarShape {
                value,
                centre,
                low,
                high: low.plus(width),
                base: values.scale.map_f64(Number::from_bits(ZERO)),
                tip: values.scale.map_f64(value),
            },
        )
    }

    /// The text of each row's label, for the caller to measure. A row without
    /// a label has none.
    pub fn labels(&self, batch: &Batch, channel_map: &ChannelMap, scales: &ScaleSet) -> (r: Vec<
        Option<String>,
    >)
        ensures
            r.len() == batch.rows,
            forall|i: int|
                0 <= i < batch.rows ==> optional_text(#[trigger] r@[i]) == row_label(
                    self.axis,
                    *batch,
                    *channel_map,
                    *scales,
                    i,
                ),
    {
        let columns = self.columns(batch, channel_map, scales);
        let mut out: Vec<Option<String>> = Vec::new();
        let mut row: usize = 0;
        while row < batch.rows
            invariant
                row <= batch.rows,
                self.columns_match(*batch, *channel_map, *scales, columns),
                out.len() == row,
                forall|i: int|
                    0 <= i < row ==> optional_text(#[trigger] out@[i]) == row_label(
                        self.axis,
                        *batch,
                        *channel_map,
                        *scales,
                        i,
                    ),
            decreases batch.rows - row,
        {
            let label = self.label(batch, channel_map, scales, &columns, row);
            out.push(label);
            row = row + 1;
        }
        out
    }

    fn label(
        &self,
        batch: &Batch,
        channel_map: &ChannelMap,
        scales: &ScaleSet,
        columns: &BarColumns,
        row: usize,
    ) -> (r: Option<String>)
        requires
            self.columns_match(*batch, *channel_map, *scales, *columns),
        ensures
            optional_text(r) == row_label(self.axis, *batch, *channel_map, *scales, row as int),
    {
        match (self.shape(batch, channel_map, scales, columns, row), channel_map.label) {
            (Some(shape), Some(form)) => bar_label(
                form,
                shape.value,
                number_of(&columns.counts, row),
                columns.total,
            ),
            _ => None,
        }
    }

    /// What the mark draws.
    pub open spec fn drawn(
        self,
        batch: Batch,
        channel_map: ChannelMap,
        scales: ScaleSet,
        highlight: Option<&HighlightState>,
        widths: Seq<Number>,
    ) -> Seq<Op> {
        drawn_for(
            batch.rows as nat,
            |row: int| bar_ops(self.axis, batch, channel_map, scales, highlight, widths, row),
        )
    }

    /// Render the mark. `widths` holds the pixel width of each row's
    /// [`BarRenderer::labels`] text at [`BAR_LABEL_SIZE`]; only lying bars with
    /// labels read it.
    pub fn render(
        &self,
        scene: &mut Scene,
        batch: &Batch,
        channel_map: &ChannelMap,
        scales: &ScaleSet,
        highlight: Option<&HighlightState>,
        widths: &Vec<Number>,
    )
        ensures
            final(scene)@ == old(scene)@ + self.drawn(
                *batch,
                *channel_map,
                *scales,
                highlight,
                widths@,
            ),
    {
        let columns = self.columns(batch, channel_map, scales);
        let ghost f = |row: int|
            bar_ops(self.axis, *batch, *channel_map, *scales, highlight, widths@, row);
        let ghost start = scene@;
        assert(start + drawn_for(0, f) =~= start);
        let mut row: usize = 0;
        while row < batch.rows
            invariant
                row <= batch.rows,
                self.columns_match(*batch, *channel_map, *scales, columns),
                f == (|row: int|
                    bar_ops(self.axis, *batch, *channel_map, *scales, highlight, widths@, row)),
                scene@ == start + drawn_for(row as nat, f),
            decreases batch.rows - row,
        {
            let ghost here = scene@;
            self.draw_row(scene, batch, channel_map, scales, highlight, widths, &columns, row);
            assert(here + f(row as int) =~= start + drawn_for((row + 1) as nat, f));
            row = row + 1;
        }
    }

    fn draw_row(
        &self,
        scene: &mut Scene,
        batch: &Batch,
        channel_map: &ChannelMap,
        scales: &ScaleSet,
        highlight: Option<&HighlightState>,
        widths: &Vec<Number>,
        columns: &BarColumns,
        row: usize,
    )
        requires
            self.columns_match(*batch, *channel_map, *scales, *columns),
        ensures
            final(scene)@ == old(scene)@ + bar_ops(
                self.axis,
                *batch,
                *channel_map,
                *scales,
                highlight,
                widths@,
                row as int,
            ),
    {
        let ghost start = scene@;
        let axis = self.axis;
        let shape = match self.shape(batch, channel_map, scales, columns, row) {
            Some(s) => s,
            None => {
                assert(start + Seq::<Op>::empty() =~= start);
                return ;
            },
        };
        let ink = resolve_colour(scales, channel_map, batch, row);
        let colour = if columns.counts.is_some() {
            remainder_ink(ink, row, highlight)
        } else {
            apply_highlight(ink, row, highlight)
        };
        let rect = if shape.tip.lt(shape.base) {
            lay(axis, shape, shape.tip, shape.base)
        } else {
            lay(axis, shape, shape.base, shape.tip)
        };
        scene.fill(colour, Shape::Rect(rect));
        let ghost first = scene@;
        let ghost part: Seq<Op> = match selected_fraction(
            batch.numbers(SELECTED_COUNT_COLUMN@),
            row as int,
            shape.value,
        ) {
            Some(fraction) => seq![
                Op::Fill(ink, Outline::Rect(part_of_bar(axis, shape, fraction))),
            ],
            None => Seq::empty(),
        };
        if let Some(fraction) = selected_fraction_of(&columns.counts, row, shape.value) {
            let edge = selected_tip(shape.base, shape.tip, fraction);
            let rect = lay(axis, shape, shape.base.min(edge), shape.base.max(edge));
            scene.fill(ink, Shape::Rect(rect));
        }
        assert(scene@ =~= first + part);
        let ghost second = scene@;
        let ghost label: Seq<Op> = match row_label(
            axis,
            *batch,
            *channel_map,
            *scales,
            row as int,
        ) {
            Some(text) => label_ops(
                axis,
                shape,
                text,
                needed_along(axis, widths@, row as int),
                ink,
                scales.ink.knockout,
            ),
            None => Seq::empty(),
        };
        if let Some(text) = self.label(batch, channel_map, scales, columns, row) {
            let needed = match axis {
                BarAxis::Y => Single::from_bits(BAR_LABEL_SIZE).widened(),
                BarAxis::X => if row < widths.len() {
                    widths[row]
                } else {
                    Number::from_bits(ZERO)
                },
            };
            draw_label(scene, axis, shape, text.as_str(), needed, ink, scales.ink.knockout);
        }
        assert(scene@ =~= second + label);
        assert(scene@ =~= start + bar_ops(
            axis,
            *batch,
            *channel_map,
            *scales,
            highlight,
            widths@,
            row as int,
        ));
    }

    pub open spec fn spec_zero_baseline_channel(&self) -> Option<Channel> {
        Some(self.axis.value_channel())
    }

    /// The channel whose domain must hold zero: the one the bars grow along.
    #[verifier::when_used_as_spec(spec_zero_baseline_channel)]
    pub fn zero_baseline_channel(&self) -> (r: Option<Channel>)
        ensures
            r == self.spec_zero_baseline_channel(),
    {
        Some(self.axis.value_channel())
    }
}

/// A selection moves no bar: the shape of a bar depends on its band column, its
/// value column and the scales, and on nothing that a selection adds.
pub proof fn a_selection_moves_no_bar(
    axis: BarAxis,
    at_rest: Batch,
    selected: Batch,
    channel_map: ChannelMap,
    scales: ScaleSet,
    row: int,
)
    requires
        forall|c: Channel| #[trigger]
            channel_map.column(c) matches Some(column) ==> at_rest.texts(column) == selected.texts(
                column,
            ) && at_rest.numbers(column) == selected.numbers(column),
    ensures
        bar_shape(axis, at_rest, channel_map, scales, row) == bar_shape(
            axis,
            selected,
            channel_map,
            scales,
            row,
        ),
{
    assert(channel_map.column(axis.band_channel()) == channel_map.column(axis.band_channel()));
    assert(channel_map.column(axis.value_channel()) == channel_map.column(axis.value_channel()));
}

/// Under a selection a bar is drawn whole first, at the place it has at rest.
pub proof fn a_bar_keeps_its_whole(
    axis: BarAxis,
    batch: Batch,
    channel_map: ChannelMap,
    scales: ScaleSet,
    highlight: Option<&HighlightState>,
    widths: Seq<Number>,
    row: int,
)
    requires
        bar_shape(axis, batch, channel_map, scales, row) is Some,
    ensures
        ({
            let ops = bar_ops(axis, batch, channel_map, scales, highlight, widths, row);
            &&& ops.len() >= 1
            &&& ops[0] matches Op::Fill(_, outline) && outline == Outline::Rect(
                whole_bar(axis, bar_shape(axis, batch, channel_map, scales, row)->0),
            )
        }),
{
}

/// A percentage is never printed against a denominator that does not exist.
pub proof fn a_percentage_needs_a_denominator(
    value: Number,
    selected: Option<Number>,
    share: Option<Number>,
)
    ensures
        bar_text(LabelForm::Percent, value, selected, share) is Some <==> (share matches Some(t)
            && Number::from_bits(ZERO).lt(t)),
        bar_text(LabelForm::Count, value, selected, share) is Some,
{
}

} // verus!
