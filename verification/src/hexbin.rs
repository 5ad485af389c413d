//! Hexagonal bins.
use vstd::prelude::*;

use crate::batch::{cell_of, number_at, number_of, value_at, Batch};
use crate::channel::{Channel, ChannelMap};
use crate::colour::Rgba;
use crate::density::{fade, faded};
use crate::drawing::{drawn_for, polygon, polygon_through, Op, Outline, Point, Scene, Shape};
use crate::folds::{column_extremes, highest_from, lowest_from, present};
use crate::highlight::{numbers_view, HighlightState};
use crate::infer::{merge_linear_scale, Range};
use crate::kde::DENSITY_COUNT_COL;
use crate::number::Number;
use crate::numerals::{INFINITY, NEG_INFINITY, ONE, TWO, ZERO};
use crate::plot::{bound, bound_to, pixel};
use crate::ramp::{fill_ramp, place_ramp, placed_ramp, ramp_of};
use crate::raster::{greatest_count, most, position, ramp_position, ramp_top};
use crate::rect::{channel_column, channel_numbers};
use crate::regression::widened_to;
use crate::rule::present_values;
use crate::scale::{Scale, ScaleModel};
use crate::scale_set::ScaleSet;
use crate::scheme::{scheme_stops, SequentialScheme};
use crate::words::same_text;

verus! {

/// The reserved column of the hexagons' half-width in data units.
pub const HEX_DX_COL: &'static str = "__bf_hex_dx";

/// The reserved column of the hexagons' half-height in data units.
pub const HEX_DY_COL: &'static str = "__bf_hex_dy";

/// The reserved columns of the extent that was binned.
pub const HEX_X0_COL: &'static str = "__bf_hex_x0";

pub const HEX_X1_COL: &'static str = "__bf_hex_x1";

pub const HEX_Y0_COL: &'static str = "__bf_hex_y0";

pub const HEX_Y1_COL: &'static str = "__bf_hex_y1";

/// Renders one pointy-top hexagon per row.
#[derive(Debug, Clone, Copy)]
pub struct HexbinRenderer {
    /// The continuous colour scheme.
    pub scheme: SequentialScheme,
}

impl Default for HexbinRenderer {
    fn default() -> (r: HexbinRenderer)
        ensures
            r.scheme == SequentialScheme::Viridis,
    {
        HexbinRenderer { scheme: SequentialScheme::Viridis }
    }
}

/// The six pointy-top vertices of the hexagon around a centre, the top one
/// first.
pub open spec fn hexagon(cx: Number, cy: Number, dx: Number, dy: Number) -> Seq<Point> {
    let half = dy.over(Number::from_bits(TWO));
    seq![
        Point { x: cx, y: cy.plus(dy) },
        Point { x: cx.plus(dx), y: cy.plus(half) },
        Point { x: cx.plus(dx), y: cy.minus(half) },
        Point { x: cx, y: cy.minus(dy) },
        Point { x: cx.minus(dx), y: cy.minus(half) },
        Point { x: cx.minus(dx), y: cy.plus(half) },
    ]
}

/// The six pointy-top vertices of the hexagon centred at (`cx`, `cy`) with
/// half-width `dx` and half-height `dy`, top vertex first.
pub fn hex_vertices(cx: Number, cy: Number, dx: Number, dy: Number) -> (out: Vec<Point>)
    ensures
        out@ == hexagon(cx, cy, dx, dy),
{
    let half = dy.over(Number::from_bits(TWO));
    let mut out: Vec<Point> = Vec::new();
    out.push(Point { x: cx, y: cy.plus(dy) });
    out.push(Point { x: cx.plus(dx), y: cy.plus(half) });
    out.push(Point { x: cx.plus(dx), y: cy.minus(half) });
    out.push(Point { x: cx, y: cy.minus(dy) });
    out.push(Point { x: cx.minus(dx), y: cy.minus(half) });
    out.push(Point { x: cx.minus(dx), y: cy.plus(half) });
    assert(out@ =~= hexagon(cx, cy, dx, dy));
    out
}

/// Points in pixels.
pub open spec fn in_pixels(points: Seq<Point>, x: ScaleModel, y: ScaleModel) -> Seq<Point> {
    points.map_values(|p: Point| pixel(x, y, p.x, p.y))
}

/// Whether points are all finite.
pub open spec fn all_finite(points: Seq<Point>) -> bool {
    forall|i: int|
        0 <= i < points.len() ==> (#[trigger] points[i]).x.is_finite() && points[i].y.is_finite()
}

/// Points in pixels, where they are all finite.
pub(crate) fn finite_outline(points: &Vec<Point>, x: &Scale, y: &Scale) -> (r: Option<Vec<Point>>)
    ensures
        match r {
            Some(v) => v@ == in_pixels(points@, x@, y@) && all_finite(v@),
            None => !all_finite(in_pixels(points@, x@, y@)),
        },
{
    let mut out: Vec<Point> = Vec::new();
    let mut i: usize = 0;
    while i < points.len()
        invariant
            i <= points.len(),
            out@ == in_pixels(points@, x@, y@).take(i as int),
            all_finite(out@),
        decreases points.len() - i,
    {
        let at = Point { x: x.map_f64(points[i].x), y: y.map_f64(points[i].y) };
        if !(at.x.is_finite() && at.y.is_finite()) {
            assert(in_pixels(points@, x@, y@)[i as int] == at);
            return None;
        }
        out.push(at);
        i = i + 1;
        assert(out@ =~= in_pixels(points@, x@, y@).take(i as int));
    }
    assert(out@ =~= in_pixels(points@, x@, y@));
    Some(out)
}

/// Whether a mark's fill is the count of its bins.
pub open spec fn fills_by_count(channel_map: ChannelMap) -> bool {
    channel_map.column(Channel::Fill) == Some(DENSITY_COUNT_COL@)
}

fn count_fill(channel_map: &ChannelMap) -> (r: bool)
    ensures
        r == fills_by_count(*channel_map),
{
    match channel_map.get(Channel::Fill) {
        Some(column) => same_text(column, DENSITY_COUNT_COL),
        None => false,
    }
}

/// The greatest value of a fill, and zero where none is positive.
pub open spec fn greatest_fill(values: Option<Seq<Option<Number>>>) -> Number {
    match values {
        Some(v) => greatest_count(v),
        None => Number::from_bits(ZERO),
    }
}

/// The colour of a hexagon. A count on a ramp never sinks below the least
/// ramp position; a missing value of a numeric fill takes the null ink.
pub open spec fn hex_colour(
    scales: ScaleSet,
    counted: bool,
    values: Option<Seq<Option<Number>>>,
    row: int,
) -> Rgba {
    let zero = Number::from_bits(ZERO);
    let top = greatest_fill(values);
    match (ramp_of(scales), cell_of(values, row)) {
        (Some(ramp), Some(v)) => if counted {
            let whole = ramp_top(ramp, top.max(Number::from_bits(ONE)));
            ramp.map_continuous(ramp_position(v, whole).times(whole))
        } else {
            ramp.map_continuous(v)
        },
        (None, Some(v)) => if zero.lt(top) {
            faded(scales.ink.mark_default, ramp_position(v, top))
        } else {
            scales.ink.mark_default
        },
        (_, None) => if values is Some {
            scales.ink.null
        } else {
            scales.ink.mark_default
        },
    }
}

fn colour_hex(
    scales: &ScaleSet,
    counted: bool,
    values: &Option<Vec<Option<Number>>>,
    top: Number,
    row: usize,
) -> (r: Rgba)
    requires
        top == greatest_fill(numbers_view(*values)),
    ensures
        r == hex_colour(*scales, counted, numbers_view(*values), row as int),
{
    let zero = Number::from_bits(ZERO);
    match (fill_ramp(scales), number_of(values, row)) {
        (Some(ramp), Some(v)) => if counted {
            let whole = match ramp.domain_max() {
                Some(d) => if zero.lt(d) {
                    d
                } else {
                    top.max(Number::from_bits(ONE))
                },
                None => top.max(Number::from_bits(ONE)),
            };
            ramp.map_continuous(position(v, whole).times(whole))
        } else {
            ramp.map_continuous(v)
        },
        (None, Some(v)) => if zero.lt(top) {
            fade(scales.ink.mark_default, position(v, top))
        } else {
            scales.ink.mark_default
        },
        (_, None) => if values.is_some() {
            scales.ink.null
        } else {
            scales.ink.mark_default
        },
    }
}

/// The columns that hexagons are read from.
pub struct HexColumns {
    pub x: Seq<Option<Number>>,
    pub y: Seq<Option<Number>>,
    pub dx: Seq<Option<Number>>,
    pub dy: Seq<Option<Number>>,
}

/// What one row draws: its hexagon, where all six vertices are finite.
pub open spec fn hex_ops(
    scales: ScaleSet,
    x: ScaleModel,
    y: ScaleModel,
    columns: HexColumns,
    counted: bool,
    values: Option<Seq<Option<Number>>>,
    row: int,
) -> Seq<Op> {
    match (
        value_at(columns.x, row),
        value_at(columns.y, row),
        value_at(columns.dx, row),
        value_at(columns.dy, row),
    ) {
        (Some(cx), Some(cy), Some(dx), Some(dy)) => {
            let outline = in_pixels(hexagon(cx, cy, dx, dy), x, y);
            if all_finite(outline) {
                seq![
                    Op::Fill(
                        hex_colour(scales, counted, values, row),
                        Outline::Path(polygon(outline)),
                    ),
                ]
            } else {
                Seq::empty()
            }
        },
        _ => Seq::empty(),
    }
}

/// The first value of a column that is there.
pub open spec fn first_value(batch: Batch, column: Seq<char>) -> Option<Number> {
    match batch.numbers(column) {
        Some(v) => if present(v).len() > 0 {
            Some(present(v)[0])
        } else {
            None
        },
        None => None,
    }
}

fn first_of(batch: &Batch, column: &str) -> (r: Option<Number>)
    ensures
        r == first_value(*batch, column@),
{
    match batch.column_as_f64(column) {
        Some(v) => {
            let there = present_values(&v);
            if there.len() > 0 {
                Some(there[0])
            } else {
                None
            }
        },
        None => None,
    }
}

/// The extent of an axis: the one that was binned, or that of the centres
/// where the batch does not say.
pub open spec fn hex_extent(
    batch: Batch,
    channel_map: ChannelMap,
    c: Channel,
    low_col: Seq<char>,
    high_col: Seq<char>,
) -> Option<Range> {
    match (first_value(batch, low_col), first_value(batch, high_col)) {
        (Some(a), Some(b)) => Some(Range { start: a, end: b }),
        _ => match channel_numbers(batch, channel_map, c) {
            Some(v) => Some(
                Range {
                    start: lowest_from(Number::from_bits(INFINITY), present(v)),
                    end: highest_from(Number::from_bits(NEG_INFINITY), present(v)),
                },
            ),
            None => None,
        },
    }
}

/// The extent of an axis with a half hexagon on each side, where both ends are
/// finite.
pub open spec fn hex_span(half: Option<Number>, extent: Option<Range>) -> Option<Range> {
    match (half, extent) {
        (Some(half), Some(e)) => if e.start.is_finite() && e.end.is_finite() {
            Some(Range { start: e.start.minus(half), end: e.end.plus(half) })
        } else {
            None
        },
        _ => None,
    }
}

fn span_of_hexes(
    batch: &Batch,
    channel_map: &ChannelMap,
    c: Channel,
    half_col: &str,
    low_col: &str,
    high_col: &str,
) -> (r: Option<Range>)
    ensures
        r == hex_span(
            first_value(*batch, half_col@),
            hex_extent(*batch, *channel_map, c, low_col@, high_col@),
        ),
{
    let half = match first_of(batch, half_col) {
        Some(h) => h,
        None => {
            return None;
        },
    };
    let (low, high) = match (first_of(batch, low_col), first_of(batch, high_col)) {
        (Some(a), Some(b)) => (a, b),
        _ => match channel_column(batch, channel_map, c) {
            Some(v) => column_extremes(
                &v,
                Number::from_bits(INFINITY),
                Number::from_bits(NEG_INFINITY),
            ),
            None => {
                return None;
            },
        },
    };
    if low.is_finite() && high.is_finite() {
        Some(Range { start: low.minus(half), end: high.plus(half) })
    } else {
        None
    }
}

/// The domain of a hexbin's fill: from zero for a count and where no value is
/// negative, and from the least value otherwise.
pub open spec fn hex_domain(batch: Batch, channel_map: ChannelMap) -> Option<Range> {
    match channel_numbers(batch, channel_map, Channel::Fill) {
        Some(v) => {
            let low = lowest_from(Number::from_bits(INFINITY), present(v));
            let high = highest_from(Number::from_bits(NEG_INFINITY), present(v));
            let zero = Number::from_bits(ZERO);
            if low.is_finite() && high.is_finite() {
                Some(
                    Range {
                        start: if fills_by_count(channel_map) || zero.le(low) {
                            zero
                        } else {
                            low
                        },
                        end: high,
                    },
                )
            } else {
                None
            }
        },
        None => None,
    }
}

fn domain_of_fill(batch: &Batch, channel_map: &ChannelMap) -> (r: Option<Range>)
    ensures
        r == hex_domain(*batch, *channel_map),
{
    match channel_column(batch, channel_map, Channel::Fill) {
        Some(v) => {
            let (low, high) = column_extremes(
                &v,
                Number::from_bits(INFINITY),
                Number::from_bits(NEG_INFINITY),
            );
            let zero = Number::from_bits(ZERO);
            if low.is_finite() && high.is_finite() {
                let start = if count_fill(channel_map) || zero.le(low) {
                    zero
                } else {
                    low
                };
                Some(Range { start, end: high })
            } else {
                None
            }
        },
        None => None,
    }
}

/// What a hexbin makes of a channel's scale.
pub open spec fn hex_slot(
    scheme: SequentialScheme,
    slots: spec_fn(Channel) -> Option<ScaleModel>,
    batch: Batch,
    channel_map: ChannelMap,
    x_range: Range,
    y_range: Range,
    meridian: Seq<Rgba>,
    c: Channel,
) -> Option<ScaleModel> {
    match c {
        Channel::X => widened_to(
            slots(c),
            hex_span(
                first_value(batch, HEX_DX_COL@),
                hex_extent(batch, channel_map, c, HEX_X0_COL@, HEX_X1_COL@),
            ),
            x_range,
        ),
        Channel::Y => widened_to(
            slots(c),
            hex_span(
                first_value(batch, HEX_DY_COL@),
                hex_extent(batch, channel_map, c, HEX_Y0_COL@, HEX_Y1_COL@),
            ),
            y_range,
        ),
        Channel::Fill => match hex_domain(batch, channel_map) {
            Some(domain) => placed_ramp(slots(c), domain, scheme_stops(scheme, meridian)),
            None => slots(c),
        },
        _ => slots(c),
    }
}

impl HexbinRenderer {
    /// What the mark draws.
    pub open spec fn drawn(self, batch: Batch, channel_map: ChannelMap, scales: ScaleSet) -> Seq<
        Op,
    > {
        match (
            bound_to(channel_map, scales, Channel::X),
            bound_to(channel_map, scales, Channel::Y),
        ) {
            (Some((x_col, x)), Some((y_col, y))) => match (
                batch.numbers(x_col),
                batch.numbers(y_col),
                batch.numbers(HEX_DX_COL@),
                batch.numbers(HEX_DY_COL@),
            ) {
                (Some(xs), Some(ys), Some(dxs), Some(dys)) => drawn_for(
                    batch.rows as nat,
                    |row: int|
                        hex_ops(
                            scales,
                            x,
                            y,
                            HexColumns { x: xs, y: ys, dx: dxs, dy: dys },
                            fills_by_count(channel_map),
                            channel_numbers(batch, channel_map, Channel::Fill),
                            row,
                        ),
                ),
                _ => Seq::empty(),
            },
            _ => Seq::empty(),
        }
    }

    /// Render the mark. A highlight leaves it as it is.
    pub fn render(
        &self,
        scene: &mut Scene,
        batch: &Batch,
        channel_map: &ChannelMap,
        scales: &ScaleSet,
        _highlight: Option<&HighlightState>,
    )
        ensures
            final(scene)@ == old(scene)@ + self.drawn(*batch, *channel_map, *scales),
    {
        let ghost start = scene@;
        assert(start + Seq::<Op>::empty() =~= start);
        let (x, y) = match (
            bound(channel_map, scales, Channel::X),
            bound(channel_map, scales, Channel::Y),
        ) {
            (Some(x), Some(y)) => (x, y),
            _ => {
                return ;
            },
        };
        let (xs, ys, dxs, dys) = match (
            batch.column_as_f64(x.column),
            batch.column_as_f64(y.column),
            batch.column_as_f64(HEX_DX_COL),
            batch.column_as_f64(HEX_DY_COL),
        ) {
            (Some(a), Some(b), Some(c), Some(d)) => (a, b, c, d),
            _ => {
                return ;
            },
        };
        let counted = count_fill(channel_map);
        let values = channel_column(batch, channel_map, Channel::Fill);
        let top = match &values {
            Some(v) => most(v),
            None => Number::from_bits(ZERO),
        };
        let ghost columns = HexColumns { x: xs@, y: ys@, dx: dxs@, dy: dys@ };
        let ghost fills = numbers_view(values);
        let ghost f = |row: int|
            hex_ops(*scales, x.scale@, y.scale@, columns, counted, fills, row);
        assert(start + drawn_for(0, f) =~= start);
        let mut row: usize = 0;
        while row < batch.rows
            invariant
                row <= batch.rows,
                columns == (HexColumns { x: xs@, y: ys@, dx: dxs@, dy: dys@ }),
                fills == numbers_view(values),
                top == greatest_fill(fills),
                f == (|row: int|
                    hex_ops(*scales, x.scale@, y.scale@, columns, counted, fills, row)),
                scene@ == start + drawn_for(row as nat, f),
            decreases batch.rows - row,
        {
            let ghost here = scene@;
            if let (Some(cx), Some(cy), Some(dx), Some(dy)) = (
                number_at(&xs, row),
                number_at(&ys, row),
                number_at(&dxs, row),
                number_at(&dys, row),
            ) {
                let vertices = hex_vertices(cx, cy, dx, dy);
                if let Some(outline) = finite_outline(&vertices, x.scale, y.scale) {
                    let steps = polygon_through(&outline);
                    let colour = colour_hex(scales, counted, &values, top, row);
                    scene.fill(colour, Shape::Path(steps));
                }
            }
            assert(scene@ =~= here + f(row as int));
            assert(here + f(row as int) =~= start + drawn_for((row + 1) as nat, f));
            row = row + 1;
        }
        assert(drawn_for(batch.rows as nat, f) == self.drawn(*batch, *channel_map, *scales));
    }

    /// Widen each axis to the binned extent with half a hexagon on each side,
    /// and give the fill a ramp. A ramp that is there widens and keeps its
    /// colours, a palette stays, and any other fill scale gives way.
    pub fn augment_scales(
        &self,
        scales: &mut ScaleSet,
        batch: &Batch,
        channel_map: &ChannelMap,
        x_range: Range,
        y_range: Range,
        meridian: &Vec<Rgba>,
    )
        ensures
            forall|c: Channel| #[trigger]
                final(scales).at(c) == hex_slot(
                    self.scheme,
                    old(scales).slots(),
                    *batch,
                    *channel_map,
                    x_range,
                    y_range,
                    meridian@,
                    c,
                ),
            final(scales).ink == old(scales).ink,
            final(scales).geo_extent == old(scales).geo_extent,
    {
        let ghost before = *scales;
        if let Some(span) = span_of_hexes(
            batch,
            channel_map,
            Channel::X,
            HEX_DX_COL,
            HEX_X0_COL,
            HEX_X1_COL,
        ) {
            merge_linear_scale(scales, Channel::X, span.start, span.end, x_range);
        }
        let ghost one = *scales;
        if let Some(span) = span_of_hexes(
            batch,
            channel_map,
            Channel::Y,
            HEX_DY_COL,
            HEX_Y0_COL,
            HEX_Y1_COL,
        ) {
            merge_linear_scale(scales, Channel::Y, span.start, span.end, y_range);
        }
        let ghost two = *scales;
        if let Some(domain) = domain_of_fill(batch, channel_map) {
            place_ramp(scales, domain, self.scheme, meridian);
        }
        assert forall|c: Channel| #[trigger] scales.at(c) == hex_slot(
            self.scheme,
            before.slots(),
            *batch,
            *channel_map,
            x_range,
            y_range,
            meridian@,
            c,
        ) by {
            if c != Channel::Fill {
                assert(scales.at(c) == two.at(c));
            }
            if c != Channel::Y {
                assert(two.at(c) == one.at(c));
            }
            if c != Channel::X {
                assert(one.at(c) == before.at(c));
            }
        }
    }
}

} // verus!
