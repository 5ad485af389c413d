//! Where a selection is drawn: between its values, on the axis that it holds.
use vstd::prelude::*;

use crate::accuracy::amount;
use crate::approximation::{is_about, lemma_beside, size_of};
use crate::bands::{a_band_is_one_of_equal_parts, is_middle};
use crate::channel::Channel;
use crate::drawing::{drawn_for, Op, Outline, Point, Rect};
use crate::fits::within;
use crate::folds::lemma_present_comes;
use crate::ink::ChartInk;
use crate::layout::ChartLayout;
use crate::mark_placement::{lemma_ordered_ends, spans};
use crate::number::Number;
use crate::placement::lemma_block;
use crate::scale::ScaleModel;
use crate::scale_set::ScaleSet;
use crate::selection::{
    axis_span, axis_spans, category_span, column_ops, no_room, placed, region_ops, selection_ops,
    whole_x, whole_y, CommittedSelection, Selected, Span,
};
use crate::words::texts;

verus! {

/// Whether a stretch is what is left of an extent behind one margin and before
/// another.
pub open spec fn is_inside(before: Number, extent: Number, after: Number, span: Span) -> bool {
    &&& span.from == before
    &&& within(extent, 200) && within(after, 200) ==> is_about(
        span.to,
        amount(extent) - amount(after),
        2 as real * size_of(extent, after),
    )
}

/// A plot is what its margins leave of a chart. The x axis runs to the right,
/// and the y axis up: from the greatest pixel down to the least.
pub proof fn a_plot_lies_inside_its_margins(layout: ChartLayout)
    ensures
        ({
            let area = layout.plot_area();
            let m = layout.margins;
            &&& is_inside(m.left, layout.width, m.right, (Span { from: area.x0, to: area.x1 }))
            &&& is_inside(m.top, layout.height, m.bottom, (Span { from: area.y0, to: area.y1 }))
            &&& (layout.x_range().start, layout.x_range().end) == (area.x0, area.x1)
            &&& (layout.y_range().start, layout.y_range().end) == (area.y1, area.y0)
        }),
{
    if within(layout.width, 200) && within(layout.margins.right, 200) {
        lemma_beside(layout.width, layout.margins.right);
    }
    if within(layout.height, 200) && within(layout.margins.bottom, 200) {
        lemma_beside(layout.height, layout.margins.bottom);
    }
}

/// Whether a stretch lies between the places of two values, in order.
pub open spec fn is_between(scale: ScaleModel, lo: Number, hi: Number, span: Span) -> bool {
    !scale.map_f64(lo).is_nan() && !scale.map_f64(hi).is_nan() ==> spans(
        scale,
        lo,
        hi,
        span.from,
        span.to,
    ) && span.from.le(span.to)
}

/// Whether a stretch lies about the middle of a category's band, as wide as the
/// band without its padding.
pub open spec fn is_about_band(scale: ScaleModel, category: Seq<char>, span: Span) -> bool {
    exists|centre: Number|
        #[trigger] is_middle(scale, category, centre) && (scale.band_width() matches Some(width)
            && (within(centre, 200) && within(width, 200) ==> {
            &&& is_about(
                span.from,
                amount(centre) - amount(width) / 2 as real,
                2 as real * size_of(centre, width),
            )
            &&& is_about(
                span.to,
                amount(centre) + amount(width) / 2 as real,
                2 as real * size_of(centre, width),
            )
        }))
}

/// Whether a stretch is where one constraint is held on an axis.
pub open spec fn is_held_by(scale: ScaleModel, selected: Selected, span: Span) -> bool {
    match selected {
        Selected::Interval(lo, hi) => (scale is Linear || scale is Time) && is_between(
            scale,
            lo,
            hi,
            span,
        ),
        Selected::Categories(names) => exists|i: int|
            0 <= i < names@.len() && is_about_band(scale, #[trigger] names@[i]@, span),
    }
}

/// A constraint is drawn where its values are: an interval between its ends,
/// and categories each about its own band. An interval has a place on a
/// continuous scale alone.
pub proof fn a_constraint_is_placed_at_its_values(scale: ScaleModel, selected: Selected)
    ensures
        forall|k: int|
            0 <= k < placed(scale, selected).len() ==> is_held_by(
                scale,
                selected,
                #[trigger] placed(scale, selected)[k],
            ),
        selected is Interval ==> placed(scale, selected).len() == (if scale is Linear
            || scale is Time {
            1int
        } else {
            0int
        }),
{
    match selected {
        Selected::Interval(lo, hi) => {
            lemma_ordered_ends(scale, lo, hi);
        },
        Selected::Categories(names) => {
            if let Some(width) = scale.band_width() {
                let all = texts(names@).map_values(|n: Seq<char>| category_span(scale, width, n));
                assert forall|k: int| 0 <= k < placed(scale, selected).len() implies is_held_by(
                    scale,
                    selected,
                    #[trigger] placed(scale, selected)[k],
                ) by {
                    let span = placed(scale, selected)[k];
                    lemma_present_comes(all, span);
                    let i: int = choose|i: int| 0 <= i < all.len() && all[i] == Some(span);
                    let name = names@[i]@;
                    assert(category_span(scale, width, name) == Some(span));
                    a_band_is_one_of_equal_parts(scale, name);
                    let centre = scale.map_category(name)->0;
                    if within(centre, 200) && within(width, 200) {
                        lemma_beside(centre, width);
                    }
                    assert(is_middle(scale, name, centre));
                    assert(is_about_band(scale, name, span));
                }
            }
        },
    }
}

/// Whether a stretch is where one axis of a selection is drawn: where its
/// constraint is held, or over the whole axis without one.
pub open spec fn is_axis_of(
    scale: Option<ScaleModel>,
    selected: Option<Selected>,
    before: Number,
    extent: Number,
    after: Number,
    span: Span,
) -> bool {
    match selected {
        None => is_inside(before, extent, after, span),
        Some(sel) => scale matches Some(s) && is_held_by(s, sel, span),
    }
}

/// Whether a rectangle is where a selection is held: across by its x
/// constraint, and up by its y constraint.
pub open spec fn is_region_of(
    layout: ChartLayout,
    scales: ScaleSet,
    selection: CommittedSelection,
    r: Rect,
) -> bool {
    &&& is_axis_of(
        scales.at(Channel::X),
        selection.x,
        layout.margins.left,
        layout.width,
        layout.margins.right,
        Span { from: r.x0, to: r.x1 },
    )
    &&& is_axis_of(
        scales.at(Channel::Y),
        selection.y,
        layout.margins.top,
        layout.height,
        layout.margins.bottom,
        Span { from: r.y0, to: r.y1 },
    )
}

/// A selection's rectangle lies where the selection is held.
pub proof fn a_selection_has_the_rectangle_of_its_values(
    layout: ChartLayout,
    scales: ScaleSet,
    selection: CommittedSelection,
)
    ensures
        ({
            let x = axis_span(scales.at(Channel::X), selection.x, whole_x(layout));
            let y = axis_span(scales.at(Channel::Y), selection.y, whole_y(layout));
            x matches Some(x) ==> (y matches Some(y) ==> is_region_of(
                layout,
                scales,
                selection,
                (Rect { x0: x.from, y0: y.from, x1: x.to, y1: y.to }),
            ))
        }),
{
    a_plot_lies_inside_its_margins(layout);
    if let (Some(s), Some(Selected::Interval(lo, hi))) = (scales.at(Channel::X), selection.x) {
        lemma_ordered_ends(s, lo, hi);
    }
    if let (Some(s), Some(Selected::Interval(lo, hi))) = (scales.at(Channel::Y), selection.y) {
        lemma_ordered_ends(s, lo, hi);
    }
}

/// The stretches of one axis are where the axis is held.
proof fn lemma_axis(
    scale: Option<ScaleModel>,
    selected: Option<Selected>,
    before: Number,
    extent: Number,
    after: Number,
    whole: Span,
)
    requires
        is_inside(before, extent, after, whole),
    ensures
        axis_spans(scale, selected, whole) matches Some(v) ==> v.len() > 0 && forall|k: int|
            0 <= k < v.len() ==> is_axis_of(
                scale,
                selected,
                before,
                extent,
                after,
                #[trigger] v[k],
            ),
{
    if let (Some(s), Some(sel)) = (scale, selected) {
        a_constraint_is_placed_at_its_values(s, sel);
    }
}

/// Whether a line is a side of a rectangle.
pub open spec fn is_upright_side(r: Rect, x: Number, outline: Outline) -> bool {
    outline == Outline::Line(Point { x, y: r.y0 }, Point { x, y: r.y1 })
}

/// Whether a line is the top or the bottom of a rectangle.
pub open spec fn is_level_side(r: Rect, y: Number, outline: Outline) -> bool {
    outline == Outline::Line(Point { x: r.x0, y }, Point { x: r.x1, y })
}

/// Whether entries of a display list from a place on are one region: its wash,
/// then the sides that a constraint fixes, and no other.
pub open spec fn is_region_at(
    ops: Seq<Op>,
    from: int,
    r: Rect,
    held_x: bool,
    held_y: bool,
) -> bool {
    let next = if held_x {
        from + 3
    } else {
        from + 1
    };
    &&& 0 <= from < ops.len()
    &&& ops[from] matches Op::Fill(_, outline) && outline == Outline::Rect(r)
    &&& held_x ==> {
        &&& from + 2 < ops.len()
        &&& ops[from + 1] matches Op::Stroke(_, _, line) && is_upright_side(r, r.x0, line)
        &&& ops[from + 2] matches Op::Stroke(_, _, line) && is_upright_side(r, r.x1, line)
    }
    &&& held_y ==> {
        &&& next + 1 < ops.len()
        &&& ops[next] matches Op::Stroke(_, _, line) && is_level_side(r, r.y0, line)
        &&& ops[next + 1] matches Op::Stroke(_, _, line) && is_level_side(r, r.y1, line)
    }
}

/// A region stands in one piece in what is drawn for a stretch of x.
proof fn lemma_region(x: Span, ys: Seq<Span>, hx: bool, hy: bool, ink: ChartInk, j: int) -> (o: int)
    requires
        0 <= j < ys.len(),
    ensures
        is_region_at(
            column_ops(x, ys, hx, hy, ink),
            o,
            (Rect { x0: x.from, y0: ys[j].from, x1: x.to, y1: ys[j].to }),
            hx,
            hy,
        ),
{
    let g = |j: int| region_ops(x, ys[j], hx, hy, ink);
    let o = lemma_block(ys.len(), g, j);
    let ops = column_ops(x, ys, hx, hy, ink);
    let one = g(j);
    assert(ops[o + 0] == one[0]);
    if hx {
        assert(ops[o + 1] == one[1] && ops[o + 2] == one[2]);
    }
    if hy {
        let next: int = if hx {
            3
        } else {
            1
        };
        assert(ops[o + next] == one[next] && ops[o + (next + 1)] == one[next + 1]);
    }
    o
}

/// A selection is drawn where it is held: for every stretch of the one axis and
/// every stretch of the other there is a wash with a rule at each side that is
/// held, and its rectangle lies at the selection's values.
pub proof fn a_selection_is_drawn_where_it_is_held(
    layout: ChartLayout,
    scales: ScaleSet,
    selection: CommittedSelection,
    xs: Seq<Span>,
    ys: Seq<Span>,
    i: int,
    j: int,
) -> (o: int)
    requires
        !selection.is_empty(),
        !no_room(layout),
        axis_spans(scales.at(Channel::X), selection.x, whole_x(layout)) == Some(xs),
        axis_spans(scales.at(Channel::Y), selection.y, whole_y(layout)) == Some(ys),
        0 <= i < xs.len(),
        0 <= j < ys.len(),
    ensures
        ({
            let r = Rect { x0: xs[i].from, y0: ys[j].from, x1: xs[i].to, y1: ys[j].to };
            &&& is_region_of(layout, scales, selection, r)
            &&& is_region_at(
                selection_ops(layout, scales, selection),
                o,
                r,
                selection.x is Some,
                selection.y is Some,
            )
        }),
{
    let (hx, hy) = (selection.x is Some, selection.y is Some);
    let ink = scales.ink;
    let m = layout.margins;
    a_plot_lies_inside_its_margins(layout);
    lemma_axis(
        scales.at(Channel::X),
        selection.x,
        m.left,
        layout.width,
        m.right,
        whole_x(layout),
    );
    lemma_axis(
        scales.at(Channel::Y),
        selection.y,
        m.top,
        layout.height,
        m.bottom,
        whole_y(layout),
    );
    let f = |i: int| column_ops(xs[i], ys, hx, hy, ink);
    let o = lemma_block(xs.len(), f, i);
    let p = lemma_region(xs[i], ys, hx, hy, ink, j);
    let ops = selection_ops(layout, scales, selection);
    let all = drawn_for(xs.len(), f);
    let column = f(i);
    let r = Rect { x0: xs[i].from, y0: ys[j].from, x1: xs[i].to, y1: ys[j].to };
    assert forall|k: int| 0 <= k < column.len() implies #[trigger] column[k] == ops[1 + o + k] by {
        assert(all[o + k] == column[k]);
    }
    let here: int = 1 + o + p;
    let next: int = if hx {
        p + 3
    } else {
        p + 1
    };
    assert(ops[here] == column[p]);
    if hx {
        assert(ops[here + 1] == column[p + 1] && ops[here + 2] == column[p + 2]);
    }
    if hy {
        assert(ops[1 + o + next] == column[next] && ops[1 + o + (next + 1)] == column[next + 1]);
    }
    here
}

} // verus!
