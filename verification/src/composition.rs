//! How a picture is put together: its background first, its marks inside the
//! plot, each plot at its own origin.
use vstd::prelude::*;

use crate::bar::{bar_ops, bar_shape, BarAxis};
use crate::batch::Batch;
use crate::bounds::{lemma_over_itself, lemma_over_keeps_order};
use crate::channel::{Channel, ChannelMap};
use crate::drawing::{drawn_for, Op, Outline, Rect};
use crate::highlight::{selected_fraction, tip_of_part, HighlightState, SELECTED_COUNT_COLUMN};
use crate::ink::ChartInk;
use crate::layout::ChartLayout;
use crate::number::{lemma_format, Number};
use crate::numerals::{ONE, ZERO};
use crate::paint::row_colour;
use crate::placement::lemma_block;
use crate::rect::{box_of, part_of_box, Edges, RectKind};
use crate::scale::ScaleModel;
use crate::scale_set::ScaleSet;
use crate::scene::{dashboard_ops, placed_ops, plot_ops, Furniture, Placed};

verus! {

/// Whether entries of a display list from a place on are a picture of its own,
/// moved to an origin.
pub open spec fn is_moved_to(
    ops: Seq<Op>,
    from: int,
    x: Number,
    y: Number,
    picture: Seq<Op>,
) -> bool {
    &&& 0 <= from && from + picture.len() + 1 < ops.len()
    &&& ops[from] matches Op::PushOffset(across, down) && across == x && down == y
    &&& forall|k: int|
        0 <= k < picture.len() ==> #[trigger] ops[from + 1 + k] == picture[k]
    &&& ops[from + 1 + picture.len()] is Pop
}

/// A dashboard has every plot in it, moved as far across as its x says and as
/// far down as its y says, over a background of the whole size.
pub proof fn a_dashboard_holds_its_plots(
    width: Number,
    height: Number,
    ink: ChartInk,
    plots: Seq<Placed<'_>>,
    i: int,
) -> (from: int)
    requires
        0 <= i < plots.len(),
    ensures
        ({
            let ops = dashboard_ops(width, height, ink, plots);
            &&& ops[0] matches Op::Fill(colour, Outline::Rect(r)) && {
                &&& colour == ink.background
                &&& r.x0.magnitude() == 0 && r.y0.magnitude() == 0
                &&& r.x1 == width && r.y1 == height
            }
            &&& from >= 1
            &&& is_moved_to(ops, from, plots[i].x, plots[i].y, plots[i].scene@)
        }),
{
    let ops = dashboard_ops(width, height, ink, plots);
    let f = |i: int| placed_ops(plots[i]);
    let o = lemma_block(plots.len(), f, i);
    let all = drawn_for(plots.len(), f);
    let (one, picture) = (f(i), plots[i].scene@);
    lemma_format();
    assert forall|k: int| 0 <= k < one.len() implies #[trigger] one[k] == ops[1 + o + k] by {
        assert(all[o + k] == one[k]);
    }
    assert(one[0] == ops[1 + o + 0]);
    assert forall|k: int| 0 <= k < picture.len() implies #[trigger] ops[1 + o + 1 + k]
        == picture[k] by {
        assert(one[1 + k] == ops[1 + o + (1 + k)]);
    }
    let end: int = 1 + picture.len() as int;
    assert(one[end] == ops[1 + o + end]);
    1 + o
}

/// Whether entries of a display list from a place on are marks that are held to
/// a rectangle.
pub open spec fn is_held_to(ops: Seq<Op>, from: int, r: Rect, marks: Seq<Op>) -> bool {
    &&& 0 <= from && from + marks.len() + 1 < ops.len()
    &&& ops[from] matches Op::PushClip(area) && area == r
    &&& forall|k: int| 0 <= k < marks.len() ==> #[trigger] ops[from + 1 + k] == marks[k]
    &&& ops[from + 1 + marks.len()] is Pop
}

/// A plot starts with a background of the whole chart and holds its marks to
/// the plot area: behind them the grid, and in front of them the axes, the
/// title and the legend, so that the legend is never covered.
pub proof fn a_plot_holds_its_marks_to_its_area(
    layout: ChartLayout,
    frameless: bool,
    marks: Seq<Op>,
    scales: ScaleSet,
    furniture: Furniture,
    titled: bool,
    legend: bool,
) -> (from: int)
    ensures
        ({
            let ops = plot_ops(layout, frameless, marks, scales, furniture, titled, legend);
            let has_x = !frameless && scales.at(Channel::X) is Some;
            let has_y = !frameless && scales.at(Channel::Y) is Some;
            let x_grid = if has_x {
                furniture.x_grid@.len() as int
            } else {
                0
            };
            let y_grid = if has_y {
                furniture.y_grid@.len() as int
            } else {
                0
            };
            &&& ops[0] matches Op::Fill(colour, Outline::Rect(r)) && {
                &&& colour == scales.ink.background
                &&& r.x0.magnitude() == 0 && r.y0.magnitude() == 0
                &&& r.x1 == layout.width && r.y1 == layout.height
            }
            &&& from == 1 + x_grid + y_grid
            &&& is_held_to(ops, from, layout.plot_area(), marks)
            &&& has_x ==> forall|k: int|
                0 <= k < x_grid ==> #[trigger] ops[1 + k] == furniture.x_grid@[k]@
            &&& legend && scales.at(Channel::Fill) is Some ==> forall|k: int|
                0 <= k < furniture.legend@.len() ==> #[trigger] ops[ops.len()
                    - furniture.legend@.len() + k] == furniture.legend@[k]@
        }),
{
    let has_x = !frameless && scales.at(Channel::X) is Some;
    let has_y = !frameless && scales.at(Channel::Y) is Some;
    let x_grid: int = if has_x {
        furniture.x_grid@.len() as int
    } else {
        0
    };
    let y_grid: int = if has_y {
        furniture.y_grid@.len() as int
    } else {
        0
    };
    lemma_format();
    1 + x_grid + y_grid
}

/// The share of a group that is selected: there where part of a group is, one
/// where all of it is, and the greater the more is selected.
pub proof fn a_selected_share_grows_with_the_selection(
    counts: Seq<Option<Number>>,
    i: int,
    j: int,
    total: Number,
)
    requires
        0 <= i < counts.len(),
        0 <= j < counts.len(),
        total.is_finite(),
        Number::from_bits(ZERO).lt(total),
        counts[i] matches Some(c) && Number::from_bits(ZERO).lt(c),
        counts[j] matches Some(d) && counts[i]->0.le(d),
    ensures
        selected_fraction(Some(counts), i, total) matches Some(f) && (selected_fraction(
            Some(counts),
            j,
            total,
        ) matches Some(g) && {
            &&& f.le(g) && g.le(Number::from_bits(ONE))
            &&& total.le(counts[i]->0) ==> f.same(Number::from_bits(ONE))
            &&& counts[i]->0 == total ==> f == Number::from_bits(ONE)
        }),
{
    let (c, d) = (counts[i]->0, counts[j]->0);
    lemma_format();
    lemma_over_keeps_order(c, d, total);
    lemma_over_itself(total);
    if total.le(c) {
        lemma_over_keeps_order(total, c, total);
    }
    assert(!c.over(total).is_nan());
}

/// No part of a group is drawn as selected where none is.
pub proof fn nothing_selected_is_no_share(counts: Seq<Option<Number>>, i: int, total: Number)
    requires
        0 <= i < counts.len(),
    ensures
        counts[i] is None ==> selected_fraction(Some(counts), i, total) is None,
        counts[i] matches Some(c) ==> (c.le(Number::from_bits(ZERO)) || total.le(
            Number::from_bits(ZERO),
        ) ==> selected_fraction(Some(counts), i, total) is None),
        selected_fraction(None, i, total) is None,
{
    lemma_format();
}

/// The two ends of a bar along its value axis, and its two sides.
pub open spec fn ends_of(axis: BarAxis, r: Rect) -> ((Number, Number), (Number, Number)) {
    match axis {
        BarAxis::X => ((r.x0, r.x1), (r.y0, r.y1)),
        BarAxis::Y => ((r.y0, r.y1), (r.x0, r.x1)),
    }
}

/// The selected part of a bar is drawn over the bar in the mark's own colour: it
/// is as broad as the bar, and runs from its foot to the edge of the part, the
/// ends in order.
pub proof fn a_selected_part_is_drawn_over_its_bar(
    axis: BarAxis,
    batch: Batch,
    channel_map: ChannelMap,
    scales: ScaleSet,
    highlight: Option<&HighlightState>,
    widths: Seq<Number>,
    row: int,
)
    ensures
        bar_shape(axis, batch, channel_map, scales, row) matches Some(shape) ==> (selected_fraction(
            batch.numbers(SELECTED_COUNT_COLUMN@),
            row,
            shape.value,
        ) matches Some(fraction) ==> {
            let ops = bar_ops(axis, batch, channel_map, scales, highlight, widths, row);
            let edge = tip_of_part(shape.base, shape.tip, fraction);
            &&& ops.len() >= 2
            &&& ops[0] matches Op::Fill(_, Outline::Rect(bar)) && (ops[1] matches Op::Fill(
                colour,
                Outline::Rect(part),
            ) && {
                let (ends, sides) = ends_of(axis, part);
                &&& colour == row_colour(scales, channel_map, batch, row)
                &&& sides == ends_of(axis, bar).1
                &&& !shape.base.is_nan() && !edge.is_nan() ==> ends.0.le(ends.1)
                &&& !shape.base.is_nan() && !edge.is_nan() ==> {
                    ||| ends.0.same(shape.base) && ends.1.same(edge)
                    ||| ends.0.same(edge) && ends.1.same(shape.base)
                }
            })
        }),
{
    lemma_format();
}

/// The selected part of a rectangle is as broad as the rectangle, and runs from
/// the foot of its values to the edge of the part.
pub proof fn a_selected_part_lies_in_its_rectangle(
    kind: RectKind,
    x: ScaleModel,
    y: ScaleModel,
    across: Edges,
    upright: Edges,
    counts: Option<Seq<Option<Number>>>,
    row: int,
)
    ensures
        kind is Xy ==> part_of_box(kind, x, y, across, upright, counts, row) is None,
        part_of_box(kind, x, y, across, upright, counts, row) matches Some(part) ==> {
            let whole = box_of(x, y, across, upright);
            let (scale, along) = if kind is Y {
                (y, upright)
            } else {
                (x, across)
            };
            let axis = if kind is Y {
                BarAxis::Y
            } else {
                BarAxis::X
            };
            let base = scale.map_f64(along.a);
            &&& ends_of(axis, part).1 == ends_of(axis, whole).1
            &&& selected_fraction(counts, row, along.b) matches Some(f) && {
                let edge = tip_of_part(base, scale.map_f64(along.b), f);
                let ends = ends_of(axis, part).0;
                !base.is_nan() && !edge.is_nan() ==> ends.0.le(ends.1) && (ends.0.same(base)
                    && ends.1.same(edge) || ends.0.same(edge) && ends.1.same(base))
            }
        },
{
    lemma_format();
}

} // verus!
