//! Rectangles over numeric extents.
use vstd::prelude::*;

use crate::batch::{number_at, value_at, Batch};
use crate::channel::{Channel, ChannelMap};
use crate::drawing::{drawn_for, lemma_nothing_drawn, Op, Outline, Rect, Scene, Shape};
use crate::folds::{column_extremes, highest_from, lowest_from, present};
use crate::highlight::{
    apply_highlight, highlighted, numbers_view, remainder, remainder_ink, selected_fraction,
    selected_fraction_of, selected_tip, tip_of_part, HighlightState, SELECTED_COUNT_COLUMN,
};
use crate::infer::{merge_linear_scale, Range};
use crate::number::Number;
use crate::numerals::{EPSILON, INFINITY, NEG_INFINITY, ZERO};
use crate::paint::{resolve_colour, row_colour};
use crate::regression::widened_to;
use crate::scale::{Scale, ScaleModel};
use crate::scale_set::ScaleSet;

verus! {

/// Which ranged form a rect mark takes.
#[derive(Debug, Clone, Copy, PartialEq, Eq, Structural)]
pub enum RectKind {
    /// An x-extent (`x1` to `x2`) and a y-extent (`y1` to `y2`).
    Xy,
    /// A zero-baselined x value and a y-extent.
    X,
    /// A zero-baselined y value and an x-extent.
    Y,
}

/// Renders a rectangle per row spanning an x-extent and a y-extent. The
/// extents come from interval columns, or, for a value form, run from a zero
/// baseline to the value.
#[derive(Debug, Clone, Copy)]
pub struct RectRenderer {
    /// The ranged form.
    pub kind: RectKind,
}

/// The two edges of a row on one axis.
#[derive(Debug, Clone, Copy, PartialEq, Eq, Structural)]
pub struct Edges {
    pub a: Number,
    pub b: Number,
}

/// A column bound to a channel, as numbers.
pub open spec fn channel_numbers(batch: Batch, channel_map: ChannelMap, c: Channel) -> Option<
    Seq<Option<Number>>,
> {
    match channel_map.column(c) {
        Some(column) => batch.numbers(column),
        None => None,
    }
}

/// A column bound to a channel, as numbers.
pub fn channel_column(batch: &Batch, channel_map: &ChannelMap, c: Channel) -> (r: Option<
    Vec<Option<Number>>,
>)
    ensures
        numbers_view(r) == channel_numbers(*batch, *channel_map, c),
{
    match channel_map.get(c) {
        Some(column) => batch.column_as_f64(column),
        None => None,
    }
}

/// Which channels an axis reads: the two of an interval, or one value.
#[derive(Debug, Clone, Copy, PartialEq, Eq, Structural)]
pub enum EdgeSource {
    Interval(Channel, Channel),
    Value(Channel),
}

impl RectKind {
    pub open spec fn spec_across(self) -> EdgeSource {
        match self {
            RectKind::X => EdgeSource::Value(Channel::X),
            _ => EdgeSource::Interval(Channel::X1, Channel::X2),
        }
    }

    /// What the horizontal edges are read from.
    #[verifier::when_used_as_spec(spec_across)]
    pub fn across(self) -> (r: EdgeSource)
        ensures
            r == self.spec_across(),
    {
        match self {
            RectKind::X => EdgeSource::Value(Channel::X),
            _ => EdgeSource::Interval(Channel::X1, Channel::X2),
        }
    }

    pub open spec fn spec_upright(self) -> EdgeSource {
        match self {
            RectKind::Y => EdgeSource::Value(Channel::Y),
            _ => EdgeSource::Interval(Channel::Y1, Channel::Y2),
        }
    }

    /// What the vertical edges are read from.
    #[verifier::when_used_as_spec(spec_upright)]
    pub fn upright(self) -> (r: EdgeSource)
        ensures
            r == self.spec_upright(),
    {
        match self {
            RectKind::Y => EdgeSource::Value(Channel::Y),
            _ => EdgeSource::Interval(Channel::Y1, Channel::Y2),
        }
    }
}

/// The edges of a row on one axis, in data units.
pub open spec fn row_edges(
    batch: Batch,
    channel_map: ChannelMap,
    source: EdgeSource,
    row: int,
) -> Option<Edges> {
    match source {
        EdgeSource::Interval(from, to) => match (
            channel_numbers(batch, channel_map, from),
            channel_numbers(batch, channel_map, to),
        ) {
            (Some(a), Some(b)) => match (value_at(a, row), value_at(b, row)) {
                (Some(a), Some(b)) => Some(Edges { a, b }),
                _ => None,
            },
            _ => None,
        },
        EdgeSource::Value(c) => match channel_numbers(batch, channel_map, c) {
            Some(v) => match value_at(v, row) {
                Some(b) => Some(Edges { a: Number::from_bits(ZERO), b }),
                None => None,
            },
            None => None,
        },
    }
}

/// The edges of every row on one axis.
fn axis_edges(batch: &Batch, channel_map: &ChannelMap, source: EdgeSource) -> (r: Vec<
    Option<Edges>,
>)
    ensures
        r.len() == batch.rows,
        forall|i: int|
            0 <= i < batch.rows ==> #[trigger] r@[i] == row_edges(*batch, *channel_map, source, i),
{
    let (first, second) = match source {
        EdgeSource::Interval(from, to) => (
            channel_column(batch, channel_map, from),
            channel_column(batch, channel_map, to),
        ),
        EdgeSource::Value(c) => (None, channel_column(batch, channel_map, c)),
    };
    let ghost views = (numbers_view(first), numbers_view(second));
    let mut out: Vec<Option<Edges>> = Vec::new();
    let mut row: usize = 0;
    while row < batch.rows
        invariant
            row <= batch.rows,
            views == (numbers_view(first), numbers_view(second)),
            views == match source {
                EdgeSource::Interval(from, to) => (
                    channel_numbers(*batch, *channel_map, from),
                    channel_numbers(*batch, *channel_map, to),
                ),
                EdgeSource::Value(c) => (None, channel_numbers(*batch, *channel_map, c)),
            },
            out.len() == row,
            forall|i: int|
                0 <= i < row ==> #[trigger] out@[i] == row_edges(*batch, *channel_map, source, i),
        decreases batch.rows - row,
    {
        let edges = match source {
            EdgeSource::Interval(_, _) => match (&first, &second) {
                (Some(a), Some(b)) => match (number_at(a, row), number_at(b, row)) {
                    (Some(a), Some(b)) => Some(Edges { a, b }),
                    _ => None,
                },
                _ => None,
            },
            EdgeSource::Value(_) => match &second {
                Some(v) => match number_at(v, row) {
                    Some(b) => Some(Edges { a: Number::from_bits(ZERO), b }),
                    None => None,
                },
                None => None,
            },
        };
        out.push(edges);
        row = row + 1;
    }
    out
}

/// A rectangle's corners in order, from the edges on both axes.
pub open spec fn box_of(x: ScaleModel, y: ScaleModel, across: Edges, upright: Edges) -> Rect {
    let p = x.map_f64(across.a);
    let q = x.map_f64(across.b);
    let s = y.map_f64(upright.a);
    let t = y.map_f64(upright.b);
    Rect { x0: p.min(q), y0: s.min(t), x1: p.max(q), y1: s.max(t) }
}

/// Whether a rectangle can be drawn: its corners are finite, and it has a
/// positive extent on both axes.
pub open spec fn drawable(r: Rect) -> bool {
    let eps = Number::from_bits(EPSILON);
    &&& r.x0.is_finite() && r.x1.is_finite() && r.y0.is_finite() && r.y1.is_finite()
    &&& !r.x1.minus(r.x0).lt(eps)
    &&& !r.y1.minus(r.y0).lt(eps)
}

fn can_draw(r: Rect) -> (b: bool)
    ensures
        b == drawable(r),
{
    let eps = Number::from_bits(EPSILON);
    r.x0.is_finite() && r.x1.is_finite() && r.y0.is_finite() && r.y1.is_finite() && !r.x1.minus(
        r.x0,
    ).lt(eps) && !r.y1.minus(r.y0).lt(eps)
}

/// The selected part of a value form's rectangle. A fully ranged rectangle has
/// no baseline to grow a part from.
pub open spec fn part_of_box(
    kind: RectKind,
    x: ScaleModel,
    y: ScaleModel,
    across: Edges,
    upright: Edges,
    counts: Option<Seq<Option<Number>>>,
    row: int,
) -> Option<Rect> {
    let whole = box_of(x, y, across, upright);
    match kind {
        RectKind::Y => match selected_fraction(counts, row, upright.b) {
            Some(f) => {
                let base = y.map_f64(upright.a);
                let edge = tip_of_part(base, y.map_f64(upright.b), f);
                Some(Rect { x0: whole.x0, y0: base.min(edge), x1: whole.x1, y1: base.max(edge) })
            },
            None => None,
        },
        RectKind::X => match selected_fraction(counts, row, across.b) {
            Some(f) => {
                let base = x.map_f64(across.a);
                let edge = tip_of_part(base, x.map_f64(across.b), f);
                Some(Rect { x0: base.min(edge), y0: whole.y0, x1: base.max(edge), y1: whole.y1 })
            },
            None => None,
        },
        RectKind::Xy => None,
    }
}

fn selected_part(
    kind: RectKind,
    x: &Scale,
    y: &Scale,
    across: Edges,
    upright: Edges,
    whole: Rect,
    counts: &Option<Vec<Option<Number>>>,
    row: usize,
) -> (r: Option<Rect>)
    requires
        whole == box_of(x@, y@, across, upright),
    ensures
        r == part_of_box(kind, x@, y@, across, upright, numbers_view(*counts), row as int),
{
    match kind {
        RectKind::Y => match selected_fraction_of(counts, row, upright.b) {
            Some(f) => {
                let base = y.map_f64(upright.a);
                let edge = selected_tip(base, y.map_f64(upright.b), f);
                Some(Rect { x0: whole.x0, y0: base.min(edge), x1: whole.x1, y1: base.max(edge) })
            },
            None => None,
        },
        RectKind::X => match selected_fraction_of(counts, row, across.b) {
            Some(f) => {
                let base = x.map_f64(across.a);
                let edge = selected_tip(base, x.map_f64(across.b), f);
                Some(Rect { x0: base.min(edge), y0: whole.y0, x1: base.max(edge), y1: whole.y1 })
            },
            None => None,
        },
        RectKind::Xy => None,
    }
}

/// What one row draws: the whole rectangle and the selected part of it.
pub open spec fn rect_ops(
    kind: RectKind,
    batch: Batch,
    channel_map: ChannelMap,
    scales: ScaleSet,
    highlight: Option<&HighlightState>,
    row: int,
) -> Seq<Op> {
    match (
        scales.at(Channel::X),
        scales.at(Channel::Y),
        row_edges(batch, channel_map, kind.across(), row),
        row_edges(batch, channel_map, kind.upright(), row),
    ) {
        (Some(x), Some(y), Some(across), Some(upright)) => {
            let whole = box_of(x, y, across, upright);
            let counts = batch.numbers(SELECTED_COUNT_COLUMN@);
            let ink = row_colour(scales, channel_map, batch, row);
            if drawable(whole) {
                seq![
                    Op::Fill(
                        if counts is Some {
                            remainder(ink, row, highlight)
                        } else {
                            highlighted(ink, row, highlight)
                        },
                        Outline::Rect(whole),
                    ),
                ] + match part_of_box(kind, x, y, across, upright, counts, row) {
                    Some(part) => seq![Op::Fill(ink, Outline::Rect(part))],
                    None => Seq::empty(),
                }
            } else {
                Seq::empty()
            }
        },
        _ => Seq::empty(),
    }
}

/// The least and the greatest number of two columns together.
pub open spec fn joint_extent(a: Option<Seq<Option<Number>>>, b: Option<Seq<Option<Number>>>) -> Option<
    Range,
> {
    match (a, b) {
        (Some(a), Some(b)) => {
            let low = lowest_from(
                lowest_from(Number::from_bits(INFINITY), present(a)),
                present(b),
            );
            let high = highest_from(
                highest_from(Number::from_bits(NEG_INFINITY), present(a)),
                present(b),
            );
            if low.is_finite() && high.is_finite() {
                Some(Range { start: low, end: high })
            } else {
                None
            }
        },
        _ => None,
    }
}

/// The least and the greatest number of two columns together, ignoring cells
/// without one.
pub fn columns_extent(a: &Option<Vec<Option<Number>>>, b: &Option<Vec<Option<Number>>>) -> (r:
    Option<Range>)
    ensures
        r == joint_extent(numbers_view(*a), numbers_view(*b)),
{
    match (a, b) {
        (Some(a), Some(b)) => {
            let (low, high) = column_extremes(
                a,
                Number::from_bits(INFINITY),
                Number::from_bits(NEG_INFINITY),
            );
            let (low, high) = column_extremes(b, low, high);
            if low.is_finite() && high.is_finite() {
                Some(Range { start: low, end: high })
            } else {
                None
            }
        },
        _ => None,
    }
}

/// What the extents of a rect mark make of a channel's scale.
pub open spec fn ranged_slot(
    slots: spec_fn(Channel) -> Option<ScaleModel>,
    batch: Batch,
    channel_map: ChannelMap,
    x_range: Range,
    y_range: Range,
    c: Channel,
) -> Option<ScaleModel> {
    match c {
        Channel::X => widened_to(
            slots(c),
            joint_extent(
                channel_numbers(batch, channel_map, Channel::X1),
                channel_numbers(batch, channel_map, Channel::X2),
            ),
            x_range,
        ),
        Channel::Y => widened_to(
            slots(c),
            joint_extent(
                channel_numbers(batch, channel_map, Channel::Y1),
                channel_numbers(batch, channel_map, Channel::Y2),
            ),
            y_range,
        ),
        _ => slots(c),
    }
}

impl RectRenderer {
    /// What the mark draws.
    pub open spec fn drawn(
        self,
        batch: Batch,
        channel_map: ChannelMap,
        scales: ScaleSet,
        highlight: Option<&HighlightState>,
    ) -> Seq<Op> {
        drawn_for(
            batch.rows as nat,
            |row: int| rect_ops(self.kind, batch, channel_map, scales, highlight, row),
        )
    }

    /// Render the mark.
    pub fn render(
        &self,
        scene: &mut Scene,
        batch: &Batch,
        channel_map: &ChannelMap,
        scales: &ScaleSet,
        highlight: Option<&HighlightState>,
    )
        ensures
            final(scene)@ == old(scene)@ + self.drawn(*batch, *channel_map, *scales, highlight),
    {
        let kind = self.kind;
        let ghost f = |row: int|
            rect_ops(kind, *batch, *channel_map, *scales, highlight, row);
        let ghost start = scene@;
        let (x, y) = match (scales.get(Channel::X), scales.get(Channel::Y)) {
            (Some(x), Some(y)) => (x, y),
            _ => {
                proof {
                    lemma_nothing_drawn(batch.rows as nat, f);
                    assert(start + Seq::<Op>::empty() =~= start);
                }
                return ;
            },
        };
        let across = axis_edges(batch, channel_map, kind.across());
        let upright = axis_edges(batch, channel_map, kind.upright());
        let counts = batch.column_as_f64(SELECTED_COUNT_COLUMN);
        assert(start + drawn_for(0, f) =~= start);
        let mut row: usize = 0;
        while row < batch.rows
            invariant
                row <= batch.rows,
                scales.at(Channel::X) == Some(x@),
                scales.at(Channel::Y) == Some(y@),
                numbers_view(counts) == batch.numbers(SELECTED_COUNT_COLUMN@),
                across.len() == batch.rows,
                upright.len() == batch.rows,
                forall|i: int|
                    0 <= i < batch.rows ==> #[trigger] across@[i] == row_edges(
                        *batch,
                        *channel_map,
                        kind.across(),
                        i,
                    ),
                forall|i: int|
                    0 <= i < batch.rows ==> #[trigger] upright@[i] == row_edges(
                        *batch,
                        *channel_map,
                        kind.upright(),
                        i,
                    ),
                f == (|row: int| rect_ops(kind, *batch, *channel_map, *scales, highlight, row)),
                scene@ == start + drawn_for(row as nat, f),
            decreases batch.rows - row,
        {
            let ghost here = scene@;
            if let (Some(a), Some(u)) = (across[row], upright[row]) {
                let p = x.map_f64(a.a);
                let q = x.map_f64(a.b);
                let s = y.map_f64(u.a);
                let t = y.map_f64(u.b);
                let whole = Rect { x0: p.min(q), y0: s.min(t), x1: p.max(q), y1: s.max(t) };
                if can_draw(whole) {
                    let ink = resolve_colour(scales, channel_map, batch, row);
                    let colour = if counts.is_some() {
                        remainder_ink(ink, row, highlight)
                    } else {
                        apply_highlight(ink, row, highlight)
                    };
                    scene.fill(colour, Shape::Rect(whole));
                    if let Some(part) = selected_part(kind, x, y, a, u, whole, &counts, row) {
                        scene.fill(ink, Shape::Rect(part));
                    }
                }
            }
            assert(scene@ =~= here + f(row as int));
            assert(here + f(row as int) =~= start + drawn_for((row + 1) as nat, f));
            row = row + 1;
        }
    }

    pub open spec fn spec_zero_baseline_channel(&self) -> Option<Channel> {
        match self.kind {
            RectKind::Y => Some(Channel::Y),
            RectKind::X => Some(Channel::X),
            RectKind::Xy => None,
        }
    }

    /// The channel whose domain must hold zero: the value axis of a value form.
    #[verifier::when_used_as_spec(spec_zero_baseline_channel)]
    pub fn zero_baseline_channel(&self) -> (r: Option<Channel>)
        ensures
            r == self.spec_zero_baseline_channel(),
    {
        match self.kind {
            RectKind::Y => Some(Channel::Y),
            RectKind::X => Some(Channel::X),
            RectKind::Xy => None,
        }
    }

    /// Build one shared linear scale for each ranged axis, spanning both of
    /// its interval columns.
    pub fn augment_scales(
        &self,
        scales: &mut ScaleSet,
        batch: &Batch,
        channel_map: &ChannelMap,
        x_range: Range,
        y_range: Range,
    )
        ensures
            forall|c: Channel| #[trigger]
                final(scales).at(c) == ranged_slot(
                    old(scales).slots(),
                    *batch,
                    *channel_map,
                    x_range,
                    y_range,
                    c,
                ),
            final(scales).ink == old(scales).ink,
            final(scales).geo_extent == old(scales).geo_extent,
    {
        let ghost before = *scales;
        let x1 = channel_column(batch, channel_map, Channel::X1);
        let x2 = channel_column(batch, channel_map, Channel::X2);
        if let Some(span) = columns_extent(&x1, &x2) {
            merge_linear_scale(scales, Channel::X, span.start, span.end, x_range);
        }
        let ghost between = *scales;
        let y1 = channel_column(batch, channel_map, Channel::Y1);
        let y2 = channel_column(batch, channel_map, Channel::Y2);
        if let Some(span) = columns_extent(&y1, &y2) {
            merge_linear_scale(scales, Channel::Y, span.start, span.end, y_range);
        }
        assert forall|c: Channel| #[trigger] scales.at(c) == ranged_slot(
            before.slots(),
            *batch,
            *channel_map,
            x_range,
            y_range,
            c,
        ) by {
            if c != Channel::Y {
                assert(scales.at(c) == between.at(c));
            }
            if c != Channel::X {
                assert(between.at(c) == before.at(c));
            }
        }
    }
}

} // verus!
