//! Where marks are drawn: each at the places of its own values, across on the x
//! axis and up on the y axis.
use vstd::arithmetic::power2::lemma_pow2_pos;
use vstd::prelude::*;

use crate::accuracy::{amount, lemma_amounts_in_order, lemma_distances};
use crate::approximation::{
    is_about, lemma_about, lemma_exactly_stands, lemma_ordinary_sizes, lemma_stands_half,
    lemma_stands_more, lemma_stands_sum, size_of,
};
use crate::bands::{a_band_is_one_of_equal_parts, is_middle};
use crate::bar::{bar_ops, bar_shape, BarAxis};
use crate::batch::{cell_of, value_at, Batch};
use crate::bounds::lemma_difference_keeps_order;
use crate::channel::{Channel, ChannelMap};
use crate::dot::{dot_ops, dot_place, dots, graticule_behind, projected_row, Angles, DotRenderer};
use crate::drawing::{polygon, Op, Outline, Point, Rect};
use crate::fits::within;
use crate::folds::{lemma_present_comes, present};
use crate::highlight::HighlightState;
use crate::line::{area_outline, row_pixel, row_pixels, AreaAxis, AreaRenderer, LineRenderer};
use crate::number::{lemma_format, Number};
use crate::numerals::{EPSILON, TWO, ZERO};
use crate::paint::position_of;
use crate::placement::{drawn_at, lemma_block};
use crate::plot::row_place;
use crate::rect::{box_of, drawable, rect_ops, row_edges, Edges, RectKind};
use crate::rule::{rule_values, RuleAxis, RuleRenderer};
use crate::scale::ScaleModel;
use crate::scale_set::ScaleSet;
use crate::sorting::{along_x, along_y};
use crate::standing::{a_polygon_goes_through_its_corners, is_outline, reached};
use crate::straight::{a_scale_draws_a_straight_line, lies_at};
use crate::text_mark::text_row_ops;

verus! {

/// Whether a pixel is where an axis places a row by a column: at its number on a
/// continuous scale, and in the middle of its category's band on a band scale.
pub open spec fn placed_by(
    batch: Batch,
    column: Seq<char>,
    scale: ScaleModel,
    row: int,
    pixel: Number,
) -> bool {
    match scale {
        ScaleModel::Linear { .. } => cell_of(batch.numbers(column), row) matches Some(v)
            && lies_at(scale, v, pixel),
        ScaleModel::Time { .. } => cell_of(batch.numbers(column), row) matches Some(v) && lies_at(
            scale,
            v,
            pixel,
        ),
        ScaleModel::Band { .. } => cell_of(batch.texts(column), row) matches Some(t) && is_middle(
            scale,
            t,
            pixel,
        ),
        _ => false,
    }
}

/// Whether a row has a value that an axis can place.
pub open spec fn is_placeable(batch: Batch, column: Seq<char>, scale: ScaleModel, row: int) -> bool {
    match scale {
        ScaleModel::Linear { .. } => cell_of(batch.numbers(column), row) is Some,
        ScaleModel::Time { .. } => cell_of(batch.numbers(column), row) is Some,
        ScaleModel::Band { categories, .. } => cell_of(batch.texts(column), row) matches Some(t)
            && categories.contains(t),
        _ => false,
    }
}

/// A value is placed on its axis.
proof fn lemma_placed(batch: Batch, column: Seq<char>, scale: ScaleModel, row: int)
    ensures
        ({
            let at = position_of(
                scale,
                cell_of(batch.numbers(column), row),
                cell_of(batch.texts(column), row),
            );
            &&& at is Some <==> is_placeable(batch, column, scale, row)
            &&& at matches Some(pixel) ==> placed_by(batch, column, scale, row, pixel)
        }),
{
    if let Some(v) = cell_of(batch.numbers(column), row) {
        a_scale_draws_a_straight_line(scale, v);
    }
    if scale is Band {
        if let Some(t) = cell_of(batch.texts(column), row) {
            a_band_is_one_of_equal_parts(scale, t);
        }
    }
}

/// A row is placed by its columns, across by one and up by the other, wherever
/// it has a value that each axis can place.
pub proof fn a_row_is_placed_by_its_columns(
    batch: Batch,
    x: (Seq<char>, ScaleModel),
    y: (Seq<char>, ScaleModel),
    row: int,
)
    ensures
        row_place(batch, x, y, row) is Some <==> is_placeable(batch, x.0, x.1, row)
            && is_placeable(batch, y.0, y.1, row),
        row_place(batch, x, y, row) matches Some(p) ==> placed_by(batch, x.0, x.1, row, p.x)
            && placed_by(batch, y.0, y.1, row, p.y),
{
    lemma_placed(batch, x.0, x.1, row);
    lemma_placed(batch, y.0, y.1, row);
}

/// Whether an entry of a display list is a filled circle where a row is placed.
pub open spec fn is_dot_of(
    op: Op,
    batch: Batch,
    channel_map: ChannelMap,
    scales: ScaleSet,
    row: int,
) -> bool {
    op matches Op::Fill(_, Outline::Circle(c, _)) && placed_by(
        batch,
        channel_map.column(Channel::X)->0,
        scales.at(Channel::X)->0,
        row,
        c.x,
    ) && placed_by(
        batch,
        channel_map.column(Channel::Y)->0,
        scales.at(Channel::Y)->0,
        row,
        c.y,
    )
}

/// A dot mark without a projection draws a dot for every row that both axes can
/// place, at its values.
pub proof fn a_dot_mark_draws_its_rows(
    mark: DotRenderer,
    batch: Batch,
    channel_map: ChannelMap,
    scales: ScaleSet,
    highlight: Option<&HighlightState>,
    angles: Angles,
    row: int,
)
    requires
        channel_map.projection is None,
        channel_map.column(Channel::X) is Some,
        channel_map.column(Channel::Y) is Some,
        scales.at(Channel::X) is Some,
        scales.at(Channel::Y) is Some,
        0 <= row < batch.rows,
        is_placeable(batch, channel_map.column(Channel::X)->0, scales.at(Channel::X)->0, row),
        is_placeable(batch, channel_map.column(Channel::Y)->0, scales.at(Channel::Y)->0, row),
    ensures
        exists|o: int|
            0 <= o < mark.drawn(batch, channel_map, scales, highlight, angles).len()
                && #[trigger] is_dot_of(
                mark.drawn(batch, channel_map, scales, highlight, angles)[o],
                batch,
                channel_map,
                scales,
                row,
            ),
{
    let drawn = mark.drawn(batch, channel_map, scales, highlight, angles);
    let x = (channel_map.column(Channel::X)->0, scales.at(Channel::X)->0);
    let y = (channel_map.column(Channel::Y)->0, scales.at(Channel::Y)->0);
    a_row_is_placed_by_its_columns(batch, x, y, row);
    let f = |r: int| dot_ops(batch, channel_map, scales, angles.rows@, None, highlight, r);
    let o = lemma_block(batch.rows as nat, f, row);
    let behind = graticule_behind(channel_map, scales, angles.lines@);
    let all = dots(batch, channel_map, scales, angles.rows@, None, highlight);
    assert(f(row).len() == 1);
    assert(all[o + 0] == f(row)[0]);
    assert(drawn[behind.len() + o] == all[o]);
    assert(is_dot_of(drawn[behind.len() + o], batch, channel_map, scales, row));
}

/// A projected dot is drawn where the projection puts its longitude and
/// latitude.
pub proof fn a_projected_dot_is_drawn_where_it_lies(
    batch: Batch,
    channel_map: ChannelMap,
    scales: ScaleSet,
    angles: Angles,
    row: int,
)
    ensures
        channel_map.projection matches Some(projection) ==> (dot_place(
            batch,
            channel_map,
            scales,
            angles.rows@,
            row,
        ) matches Some(at) ==> {
            let lon = cell_of(batch.numbers(channel_map.column(Channel::X)->0), row);
            let lat = cell_of(batch.numbers(channel_map.column(Channel::Y)->0), row);
            &&& lon is Some && lat is Some && 0 <= row < angles.rows@.len()
            &&& projection.planar(lon->0, lat->0, angles.rows@[row]) matches Some(p) && drawn_at(
                scales.at(Channel::X)->0,
                scales.at(Channel::Y)->0,
                p,
                at,
            )
        }),
{
    if let Some(projection) = channel_map.projection {
        if let Some(at) = dot_place(batch, channel_map, scales, angles.rows@, row) {
            let lon = cell_of(batch.numbers(channel_map.column(Channel::X)->0), row);
            let lat = cell_of(batch.numbers(channel_map.column(Channel::Y)->0), row);
            let p = projected_row(projection, lon, lat, angles.rows@, row)->0;
            a_scale_draws_a_straight_line(scales.at(Channel::X)->0, p.x);
            a_scale_draws_a_straight_line(scales.at(Channel::Y)->0, p.y);
        }
    }
}

/// Whether a pixel is where the two axes place the numbers of some row.
pub open spec fn is_row_of(
    batch: Batch,
    channel_map: ChannelMap,
    scales: ScaleSet,
    row: int,
    at: Point,
) -> bool {
    &&& 0 <= row < batch.rows
    &&& cell_of(batch.numbers(channel_map.column(Channel::X)->0), row) matches Some(u) && lies_at(
        scales.at(Channel::X)->0,
        u,
        at.x,
    )
    &&& cell_of(batch.numbers(channel_map.column(Channel::Y)->0), row) matches Some(v) && lies_at(
        scales.at(Channel::Y)->0,
        v,
        at.y,
    )
}

/// The points of a line or an area are the pixels of the rows that have both
/// numbers.
pub proof fn a_line_goes_through_its_rows(
    batch: Batch,
    channel_map: ChannelMap,
    scales: ScaleSet,
    k: int,
)
    ensures
        row_pixels(batch, channel_map, scales) matches Some(points) ==> (0 <= k < points.len()
            ==> exists|row: int| #[trigger]
            is_row_of(batch, channel_map, scales, row, points[k])),
{
    if let Some(points) = row_pixels(batch, channel_map, scales) {
        if 0 <= k < points.len() {
            let (x, y) = (scales.at(Channel::X)->0, scales.at(Channel::Y)->0);
            let xs = batch.numbers(channel_map.column(Channel::X)->0)->0;
            let ys = batch.numbers(channel_map.column(Channel::Y)->0)->0;
            let all = Seq::new(batch.rows as nat, |row: int| row_pixel(x, y, xs, ys, row));
            assert(present(all).contains(points[k]));
            lemma_present_comes(all, points[k]);
            let row = choose|i: int| 0 <= i < all.len() && #[trigger] all[i] == Some(points[k]);
            a_scale_draws_a_straight_line(x, value_at(xs, row)->0);
            a_scale_draws_a_straight_line(y, value_at(ys, row)->0);
            assert(is_row_of(batch, channel_map, scales, row, points[k]));
        }
    }
}

/// A line mark joins its points in x order: each piece leads from one point to
/// the next.
pub proof fn a_line_mark_joins_its_points(
    mark: LineRenderer,
    batch: Batch,
    channel_map: ChannelMap,
    scales: ScaleSet,
    k: int,
)
    ensures
        row_pixels(batch, channel_map, scales) matches Some(points) ==> {
            let drawn = mark.drawn(batch, channel_map, scales);
            let line = along_x(points);
            &&& drawn.len() + 1 == line.len() || line.len() == 0 && drawn.len() == 0
            &&& 0 <= k < line.len() - 1 ==> (drawn[k] matches Op::Stroke(
                _,
                _,
                Outline::Line(from, to),
            ) && from == line[k] && to == line[k + 1])
        },
{
}

/// An area stands on the zero of its value axis: its outline starts and ends on
/// the baseline, below the first and the last of its points, and goes through
/// all of them in between, in order.
pub proof fn an_area_stands_on_zero(
    mark: AreaRenderer,
    batch: Batch,
    channel_map: ChannelMap,
    scales: ScaleSet,
)
    requires
        row_pixels(batch, channel_map, scales) matches Some(points) && points.len() >= 2,
    ensures
        ({
            let drawn = mark.drawn(batch, channel_map, scales);
            let points = row_pixels(batch, channel_map, scales)->0;
            let line = match mark.axis {
                AreaAxis::Y => along_x(points),
                AreaAxis::X => along_y(points),
            };
            let n = line.len() as int;
            n > 0 ==> {
                &&& drawn.len() == 1
                &&& drawn[0] matches Op::Fill(_, Outline::Path(steps)) && {
                    let (first, last) = (reached(steps[0]), reached(steps[n + 1]));
                    &&& is_outline(steps, n + 2)
                    &&& forall|k: int| 0 <= k < n ==> reached(#[trigger] steps[k + 1]) == line[k]
                    &&& match mark.axis {
                        AreaAxis::Y => first.x == line[0].x && last.x == line[n - 1].x && lies_at(
                            scales.at(Channel::Y)->0,
                            Number::from_bits(ZERO),
                            first.y,
                        ) && last.y == first.y,
                        AreaAxis::X => first.y == line[0].y && last.y == line[n - 1].y && lies_at(
                            scales.at(Channel::X)->0,
                            Number::from_bits(ZERO),
                            first.x,
                        ) && last.x == first.x,
                    }
                }
            }
        }),
{
    let points = row_pixels(batch, channel_map, scales)->0;
    let line = match mark.axis {
        AreaAxis::Y => along_x(points),
        AreaAxis::X => along_y(points),
    };
    let n = line.len() as int;
    if n > 0 {
        let corners = area_outline(mark.axis, line, mark.baseline(scales));
        let steps = polygon(corners);
        a_polygon_goes_through_its_corners(corners);
        a_scale_draws_a_straight_line(scales.at(Channel::Y)->0, Number::from_bits(ZERO));
        a_scale_draws_a_straight_line(scales.at(Channel::X)->0, Number::from_bits(ZERO));
        assert(reached(steps[0]) == corners[0]);
        assert(reached(steps[n + 1]) == corners[n + 1]);
        assert forall|k: int| 0 <= k < n implies reached(#[trigger] steps[k + 1]) == line[k] by {
            assert(reached(steps[k + 1]) == corners[k + 1]);
        }
    }
}

/// Whether two pixels are the ends of a span, in order, that two values are
/// drawn at.
pub open spec fn spans(
    scale: ScaleModel,
    a: Number,
    b: Number,
    low: Number,
    high: Number,
) -> bool {
    ||| lies_at(scale, a, low) && lies_at(scale, b, high)
    ||| lies_at(scale, b, low) && lies_at(scale, a, high)
}

/// The lesser and the greater of two pixels.
pub proof fn lemma_ordered_ends(scale: ScaleModel, a: Number, b: Number)
    ensures
        ({
            let (p, q) = (scale.map_f64(a), scale.map_f64(b));
            &&& !p.is_nan() && !q.is_nan() ==> spans(scale, a, b, p.min(q), p.max(q)) && p.min(
                q,
            ).le(p.max(q))
            &&& p.is_nan() || q.is_nan() ==> p.min(q) == p.max(q)
        }),
{
    let (p, q) = (scale.map_f64(a), scale.map_f64(b));
    a_scale_draws_a_straight_line(scale, a);
    a_scale_draws_a_straight_line(scale, b);
    lemma_format();
    if p.same(q) && p.is_finite() {
        lemma_amounts_in_order(p, q);
        assert(lies_at(scale, b, p));
    }
}

/// A span between two finite ends that are the same has no extent.
proof fn lemma_no_extent(a: Number)
    requires
        a.is_finite(),
    ensures
        a.minus(a).lt(Number::from_bits(EPSILON)),
{
    lemma_format();
    lemma_difference_keeps_order(a, a, a);
}

/// A bar reaches from the zero of its value axis to its value, its ends in
/// order, and stands about the middle of its category's band.
pub proof fn a_bar_reaches_from_zero_to_its_value(
    axis: BarAxis,
    batch: Batch,
    channel_map: ChannelMap,
    scales: ScaleSet,
    highlight: Option<&HighlightState>,
    widths: Seq<Number>,
    row: int,
)
    ensures
        bar_shape(axis, batch, channel_map, scales, row) matches Some(shape) ==> {
            let ops = bar_ops(axis, batch, channel_map, scales, highlight, widths, row);
            let (b, v) = match axis {
                BarAxis::X => (Channel::Y, Channel::X),
                BarAxis::Y => (Channel::X, Channel::Y),
            };
            let values = scales.at(v)->0;
            let bands = scales.at(b)->0;
            &&& ops.len() >= 1
            &&& cell_of(batch.numbers(channel_map.column(v)->0), row) == Some(shape.value)
            &&& cell_of(batch.texts(channel_map.column(b)->0), row) matches Some(category)
                && is_middle(bands, category, shape.centre)
            &&& bands.band_width() matches Some(width) && (within(shape.centre, 200) && within(
                width,
                200,
            ) ==> is_about(
                shape.low,
                amount(shape.centre) - amount(width) / 2 as real,
                8 as real * size_of(shape.centre, width),
            ) && is_about(
                shape.high,
                amount(shape.centre) + amount(width) / 2 as real,
                8 as real * size_of(shape.centre, width),
            ))
            &&& ops[0] matches Op::Fill(_, Outline::Rect(r)) && {
                let (low, high, near, far) = match axis {
                    BarAxis::X => (r.y0, r.y1, r.x0, r.x1),
                    BarAxis::Y => (r.x0, r.x1, r.y0, r.y1),
                };
                &&& low == shape.low && high == shape.high
                &&& spans(values, Number::from_bits(ZERO), shape.value, near, far)
                &&& !near.is_nan() && !far.is_nan() ==> near.le(far)
            }
        },
{
    if let Some(shape) = bar_shape(axis, batch, channel_map, scales, row) {
        let (b, v) = match axis {
            BarAxis::X => (Channel::Y, Channel::X),
            BarAxis::Y => (Channel::X, Channel::Y),
        };
        let category = cell_of(batch.texts(channel_map.column(b)->0), row)->0;
        a_band_is_one_of_equal_parts(scales.at(b)->0, category);
        a_scale_draws_a_straight_line(scales.at(v)->0, shape.value);
        a_scale_draws_a_straight_line(scales.at(v)->0, Number::from_bits(ZERO));
        let width = scales.at(b)->0.band_width()->0;
        if within(shape.centre, 200) && within(width, 200) {
            lemma_bar_sides(shape.centre, width);
        }
    }
}

/// The two sides of a bar, half its width from its middle.
proof fn lemma_bar_sides(c: Number, w: Number)
    requires
        within(c, 200),
        within(w, 200),
    ensures
        ({
            let low = c.minus(w.over(Number::from_bits(TWO)));
            let size = 8 as real * size_of(c, w);
            &&& is_about(low, amount(c) - amount(w) / 2 as real, size)
            &&& is_about(low.plus(w), amount(c) + amount(w) / 2 as real, size)
        }),
{
    let s = size_of(c, w);
    let half = w.over(Number::from_bits(TWO));
    let low = c.minus(half);
    let (x, y) = (amount(c), amount(w));
    lemma_distances(x, y);
    lemma_distances(y, x);
    lemma_pow2_pos(200);
    lemma_ordinary_sizes(s);
    lemma_exactly_stands(c, s);
    lemma_exactly_stands(w, s);
    lemma_stands_half(w, y, s, 0);
    lemma_stands_more(half, y / 2 as real, s / 2 as real, 12, s, 12);
    lemma_stands_more(c, x, s, 0, s, 12);
    lemma_stands_sum(c, x, s, half, y / 2 as real, s, 12);
    lemma_stands_more(low, x - y / 2 as real, s + s, 20, 4 as real * s, 20);
    lemma_stands_more(w, y, s, 0, 4 as real * s, 20);
    lemma_stands_sum(low, x - y / 2 as real, 4 as real * s, w, y, 4 as real * s, 20);
    lemma_stands_more(low, x - y / 2 as real, 4 as real * s, 20, 8 as real * s, 20);
    lemma_about(low, x - y / 2 as real, 8 as real * s, 20);
    lemma_about(low.plus(w), x - y / 2 as real + y, 8 as real * s, 28);
}

/// What the edges of a ranged row are read from: the two channels of an
/// interval, or zero and one value.
pub open spec fn edges_read(
    batch: Batch,
    channel_map: ChannelMap,
    kind: RectKind,
    upright: bool,
    row: int,
    edges: Edges,
) -> bool {
    let cell = |c: Channel|
        match channel_map.column(c) {
            Some(column) => cell_of(batch.numbers(column), row),
            None => None,
        };
    match (kind, upright) {
        (RectKind::X, false) => edges.a == Number::from_bits(ZERO) && cell(Channel::X) == Some(
            edges.b,
        ),
        (RectKind::Y, true) => edges.a == Number::from_bits(ZERO) && cell(Channel::Y) == Some(
            edges.b,
        ),
        (_, false) => cell(Channel::X1) == Some(edges.a) && cell(Channel::X2) == Some(edges.b),
        (_, true) => cell(Channel::Y1) == Some(edges.a) && cell(Channel::Y2) == Some(edges.b),
    }
}

/// A rectangle is drawn between its edges: across between the pixels of its
/// edges on the x axis, and up between those of its edges on the y axis, in
/// order.
pub proof fn a_rectangle_is_drawn_between_its_edges(
    kind: RectKind,
    batch: Batch,
    channel_map: ChannelMap,
    scales: ScaleSet,
    highlight: Option<&HighlightState>,
    row: int,
)
    ensures
        ({
            let ops = rect_ops(kind, batch, channel_map, scales, highlight, row);
            ops.len() > 0 ==> exists|across: Edges, upright: Edges|
                {
                    &&& #[trigger] edges_read(batch, channel_map, kind, false, row, across)
                    &&& #[trigger] edges_read(batch, channel_map, kind, true, row, upright)
                    &&& ops[0] matches Op::Fill(_, Outline::Rect(r)) && spans(
                        scales.at(Channel::X)->0,
                        across.a,
                        across.b,
                        r.x0,
                        r.x1,
                    ) && spans(scales.at(Channel::Y)->0, upright.a, upright.b, r.y0, r.y1)
                        && r.x0.le(r.x1) && r.y0.le(r.y1)
                }
        }),
{
    let ops = rect_ops(kind, batch, channel_map, scales, highlight, row);
    if ops.len() > 0 {
        let (x, y) = (scales.at(Channel::X)->0, scales.at(Channel::Y)->0);
        let across = row_edges(batch, channel_map, kind.across(), row)->0;
        let upright = row_edges(batch, channel_map, kind.upright(), row)->0;
        lemma_ordered_ends(x, across.a, across.b);
        lemma_ordered_ends(y, upright.a, upright.b);
        let whole = box_of(x, y, across, upright);
        assert(drawable(whole));
        lemma_no_extent(whole.x0);
        lemma_no_extent(whole.y0);
        assert(edges_read(batch, channel_map, kind, false, row, across));
        assert(edges_read(batch, channel_map, kind, true, row, upright));
    }
}

/// A rule is drawn at its value, straight across the whole of the other axis's
/// range.
pub proof fn a_rule_is_drawn_at_its_value(
    mark: RuleRenderer,
    batch: Batch,
    channel_map: ChannelMap,
    scales: ScaleSet,
    k: int,
)
    requires
        scales.at(Channel::X) is Some,
        scales.at(Channel::Y) is Some,
    ensures
        ({
            let drawn = mark.drawn(batch, channel_map, scales);
            let c = match mark.axis {
                RuleAxis::X => Channel::X,
                RuleAxis::Y => Channel::Y,
            };
            let values = rule_values(batch, channel_map, c);
            let (x, y) = (scales.at(Channel::X)->0, scales.at(Channel::Y)->0);
            &&& drawn.len() == values.len()
            &&& 0 <= k < values.len() ==> (drawn[k] matches Op::Stroke(_, _, Outline::Line(a, b))
                && match mark.axis {
                RuleAxis::X => {
                    &&& lies_at(x, values[k], a.x) && b.x == a.x
                    &&& a.y == y.range_start() && b.y == y.range_end()
                },
                RuleAxis::Y => {
                    &&& lies_at(y, values[k], a.y) && b.y == a.y
                    &&& a.x == x.range_start() && b.x == x.range_end()
                },
            })
        }),
{
    let c = match mark.axis {
        RuleAxis::X => Channel::X,
        RuleAxis::Y => Channel::Y,
    };
    let values = rule_values(batch, channel_map, c);
    if 0 <= k < values.len() {
        a_scale_draws_a_straight_line(scales.at(c)->0, values[k]);
    }
}

/// A text mark writes a row's label where the row is placed.
pub proof fn a_label_is_written_where_its_row_is(
    batch: Batch,
    channel_map: ChannelMap,
    scales: ScaleSet,
    highlight: Option<&HighlightState>,
    row: int,
)
    ensures
        ({
            let ops = text_row_ops(batch, channel_map, scales, highlight, row);
            ops.len() > 0 ==> (ops[0] matches Op::Text(label, at, _, _, _) && {
                &&& cell_of(batch.texts(channel_map.column(Channel::Text)->0), row) == Some(label)
                &&& placed_by(
                    batch,
                    channel_map.column(Channel::X)->0,
                    scales.at(Channel::X)->0,
                    row,
                    at.x,
                )
                &&& placed_by(
                    batch,
                    channel_map.column(Channel::Y)->0,
                    scales.at(Channel::Y)->0,
                    row,
                    at.y,
                )
            })
        }),
{
    let ops = text_row_ops(batch, channel_map, scales, highlight, row);
    if ops.len() > 0 {
        let x = (channel_map.column(Channel::X)->0, scales.at(Channel::X)->0);
        let y = (channel_map.column(Channel::Y)->0, scales.at(Channel::Y)->0);
        a_row_is_placed_by_its_columns(batch, x, y, row);
    }
}

} // verus!
