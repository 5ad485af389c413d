//! Dots.
use vstd::prelude::*;

use crate::batch::{cell_of, number_of, Batch};
use crate::bounds::{lemma_plus_nothing, lemma_times_nothing};
use crate::cartography::Trig;
use crate::channel::{Channel, ChannelMap};
use crate::drawing::{
    drawn_for, lemma_few_paths, lemma_nothing_drawn, lemma_paths_drawn, path_count, Op, Outline,
    Point, Rect, Scene, Shape,
};
use crate::geo::{
    aspect_fit_domains, fitted, graticule_lines, graticule_of, graticule_ops, stroke_graticule,
};
use crate::highlight::{apply_highlight, highlighted, numbers_view, HighlightState};
use crate::infer::{merge_linear_scale, merged_linear, Range};
use crate::number::Number;
use crate::numerals::ZERO;
use crate::paint::{resolve_colour, row_colour};
use crate::plot::{bound, bound_to, pixel, place_row, row_place, Bound};
use crate::projection::Projection;
use crate::rect::{channel_column, channel_numbers};
use crate::scale::{Scale, ScaleModel};
use crate::scale_set::ScaleSet;

verus! {

/// Default dot radius in pixels: 4.
pub const DOT_RADIUS: u64 = 0x4010_0000_0000_0000;

/// What the elementary functions are at the coordinates that a projected mark
/// draws. An unprojected mark reads none of it.
#[derive(Debug)]
pub struct Angles {
    /// At the coordinates of each row.
    pub rows: Vec<Trig>,
    /// At the coordinates of each path of the graticule.
    pub lines: Vec<Vec<Trig>>,
}

impl Angles {
    /// Nothing given.
    pub fn nothing() -> (r: Angles)
        ensures
            r.rows@ == Seq::<Trig>::empty(),
            r.lines@ == Seq::<Vec<Trig>>::empty(),
    {
        Angles { rows: Vec::new(), lines: Vec::new() }
    }
}

/// Renders dot/scatter marks as circles at x/y positions.
#[derive(Debug, Clone, Copy)]
pub struct DotRenderer;

/// Where a projection puts a row, in its planar units. None where a coordinate
/// is missing, the projection has no position for it, or nothing is given.
pub open spec fn projected_row(
    projection: Projection,
    lon: Option<Number>,
    lat: Option<Number>,
    angles: Seq<Trig>,
    row: int,
) -> Option<Point> {
    match (lon, lat) {
        (Some(lon), Some(lat)) => if 0 <= row < angles.len() {
            projection.planar(lon, lat, angles[row])
        } else {
            None
        },
        _ => None,
    }
}

/// The pixel position of one dot: through the mark's projection when it has
/// one, and through the scales directly when it does not. A projected dot
/// reads its coordinates as numbers.
pub open spec fn dot_place(
    batch: Batch,
    channel_map: ChannelMap,
    scales: ScaleSet,
    angles: Seq<Trig>,
    row: int,
) -> Option<Point> {
    match (
        bound_to(channel_map, scales, Channel::X),
        bound_to(channel_map, scales, Channel::Y),
    ) {
        (Some((x_col, x)), Some((y_col, y))) => {
            let xf = cell_of(batch.numbers(x_col), row);
            let yf = cell_of(batch.numbers(y_col), row);
            match channel_map.projection {
                Some(projection) => match projected_row(projection, xf, yf, angles, row) {
                    Some(p) => Some(pixel(x, y, p.x, p.y)),
                    None => None,
                },
                None => row_place(batch, (x_col, x), (y_col, y), row),
            }
        },
        _ => None,
    }
}

/// The coordinates of a row, where it has both.
pub open spec fn row_coordinates(batch: Batch, channel_map: ChannelMap, row: int) -> Option<Point> {
    match (
        cell_of(channel_numbers(batch, channel_map, Channel::X), row),
        cell_of(channel_numbers(batch, channel_map, Channel::Y), row),
    ) {
        (Some(x), Some(y)) => Some(Point { x, y }),
        _ => None,
    }
}

/// A place part of the way from a row's previous position, where it has one.
pub open spec fn moved(previous: Option<(Seq<Point>, Number)>, row: int, to: Point) -> Point {
    match previous {
        Some((places, t)) => if 0 <= row < places.len() {
            let from = places[row];
            Point {
                x: from.x.plus(to.x.minus(from.x).times(t)),
                y: from.y.plus(to.y.minus(from.y).times(t)),
            }
        } else {
            to
        },
        None => to,
    }
}

/// What one row draws.
pub open spec fn dot_ops(
    batch: Batch,
    channel_map: ChannelMap,
    scales: ScaleSet,
    angles: Seq<Trig>,
    previous: Option<(Seq<Point>, Number)>,
    highlight: Option<&HighlightState>,
    row: int,
) -> Seq<Op> {
    match dot_place(batch, channel_map, scales, angles, row) {
        Some(p) => seq![
            Op::Fill(
                highlighted(row_colour(scales, channel_map, batch, row), row, highlight),
                Outline::Circle(moved(previous, row, p), Number::from_bits(DOT_RADIUS)),
            ),
        ],
        None => Seq::empty(),
    }
}

/// What all rows draw.
pub open spec fn dots(
    batch: Batch,
    channel_map: ChannelMap,
    scales: ScaleSet,
    angles: Seq<Trig>,
    previous: Option<(Seq<Point>, Number)>,
    highlight: Option<&HighlightState>,
) -> Seq<Op> {
    drawn_for(
        batch.rows as nat,
        |row: int| dot_ops(batch, channel_map, scales, angles, previous, highlight, row),
    )
}

/// What the graticule behind a projected mark draws.
pub open spec fn graticule_behind(
    channel_map: ChannelMap,
    scales: ScaleSet,
    lines: Seq<Vec<Trig>>,
) -> Seq<Op> {
    match (
        bound_to(channel_map, scales, Channel::X),
        bound_to(channel_map, scales, Channel::Y),
        channel_map.projection,
        scales.geo_extent,
    ) {
        (Some((_, x)), Some((_, y)), Some(projection), Some(extent)) => graticule_ops(
            graticule_of(projection, extent, lines),
            x,
            y,
            scales.ink.grid,
        ),
        _ => Seq::empty(),
    }
}

/// The box of two linear domains.
pub open spec fn domain_box(x: Option<ScaleModel>, y: Option<ScaleModel>) -> Option<Rect> {
    match (x, y) {
        (
            Some(ScaleModel::Linear { domain_min: x0, domain_max: x1, .. }),
            Some(ScaleModel::Linear { domain_min: y0, domain_max: y1, .. }),
        ) => Some(Rect { x0, y0, x1, y1 }),
        _ => None,
    }
}

/// A place as a pair of optional coordinates.
fn place(
    batch: &Batch,
    channel_map: &ChannelMap,
    x: &Bound,
    y: &Bound,
    xs: &Option<Vec<Option<Number>>>,
    ys: &Option<Vec<Option<Number>>>,
    angles: &Vec<Trig>,
    row: usize,
) -> (r: Option<Point>)
    requires
        numbers_view(*xs) == batch.numbers(x.column@),
        numbers_view(*ys) == batch.numbers(y.column@),
    ensures
        forall|scales: ScaleSet|
            bound_to(*channel_map, scales, Channel::X) == Some((x.column@, x.scale@)) && bound_to(
                *channel_map,
                scales,
                Channel::Y,
            ) == Some((y.column@, y.scale@)) ==> r == #[trigger] dot_place(
                *batch,
                *channel_map,
                scales,
                angles@,
                row as int,
            ),
{
    let xf = number_of(xs, row);
    let yf = number_of(ys, row);
    match channel_map.projection {
        Some(projection) => {
            let planar = match (xf, yf) {
                (Some(lon), Some(lat)) => if row < angles.len() {
                    projection.project(lon, lat, angles[row])
                } else {
                    None
                },
                _ => None,
            };
            match planar {
                Some(p) => Some(Point { x: x.scale.map_f64(p.x), y: y.scale.map_f64(p.y) }),
                None => None,
            }
        },
        None => place_row(batch, x, y, xs, ys, row),
    }
}

/// Previous positions as mathematical values.
pub open spec fn previous_view(previous: Option<(&Vec<Point>, Number)>) -> Option<
    (Seq<Point>, Number),
> {
    match previous {
        Some((v, t)) => Some((v@, t)),
        None => None,
    }
}

fn draw_dots(
    scene: &mut Scene,
    batch: &Batch,
    channel_map: &ChannelMap,
    scales: &ScaleSet,
    angles: &Vec<Trig>,
    previous: Option<(&Vec<Point>, Number)>,
    highlight: Option<&HighlightState>,
)
    ensures
        final(scene)@ == old(scene)@ + dots(
            *batch,
            *channel_map,
            *scales,
            angles@,
            previous_view(previous),
            highlight,
        ),
{
    let ghost f = |row: int|
        dot_ops(*batch, *channel_map, *scales, angles@, previous_view(previous), highlight, row);
    let ghost start = scene@;
    let (x, y) = match (
        bound(channel_map, scales, Channel::X),
        bound(channel_map, scales, Channel::Y),
    ) {
        (Some(x), Some(y)) => (x, y),
        _ => {
            proof {
                lemma_nothing_drawn(batch.rows as nat, f);
                assert(start + Seq::<Op>::empty() =~= start);
            }
            return ;
        },
    };
    let xs = batch.column_as_f64(x.column);
    let ys = batch.column_as_f64(y.column);
    let radius = Number::from_bits(DOT_RADIUS);
    assert(start + drawn_for(0, f) =~= start);
    let mut row: usize = 0;
    while row < batch.rows
        invariant
            row <= batch.rows,
            radius == Number::from_bits(DOT_RADIUS),
            bound_to(*channel_map, *scales, Channel::X) == Some((x.column@, x.scale@)),
            bound_to(*channel_map, *scales, Channel::Y) == Some((y.column@, y.scale@)),
            numbers_view(xs) == batch.numbers(x.column@),
            numbers_view(ys) == batch.numbers(y.column@),
            f == (|row: int|
                dot_ops(
                    *batch,
                    *channel_map,
                    *scales,
                    angles@,
                    previous_view(previous),
                    highlight,
                    row,
                )),
            scene@ == start + drawn_for(row as nat, f),
        decreases batch.rows - row,
    {
        let ghost here = scene@;
        if let Some(to) = place(batch, channel_map, &x, &y, &xs, &ys, angles, row) {
            let at = match previous {
                Some((places, t)) => if row < places.len() {
                    let from = places[row];
                    Point {
                        x: from.x.plus(to.x.minus(from.x).times(t)),
                        y: from.y.plus(to.y.minus(from.y).times(t)),
                    }
                } else {
                    to
                },
                None => to,
            };
            let colour = resolve_colour(scales, channel_map, batch, row);
            let colour = apply_highlight(colour, row, highlight);
            scene.fill(colour, Shape::Circle(at, radius));
            assert(dot_place(*batch, *channel_map, *scales, angles@, row as int) == Some(to));
        } else {
            assert(dot_place(*batch, *channel_map, *scales, angles@, row as int) is None);
        }
        assert(scene@ =~= here + f(row as int));
        assert(here + f(row as int) =~= start + drawn_for((row + 1) as nat, f));
        row = row + 1;
    }
}

/// What a dot mark makes of a channel's scale: where it asks for equal pixels
/// per unit, or is projected, and both axes are linear, the domains are fitted.
pub open spec fn squared_slot(
    slots: spec_fn(Channel) -> Option<ScaleModel>,
    channel_map: ChannelMap,
    x_range: Range,
    y_range: Range,
    c: Channel,
) -> Option<ScaleModel> {
    if channel_map.equal_aspect() || channel_map.projection is Some {
        match domain_box(slots(Channel::X), slots(Channel::Y)) {
            Some(bbox) => {
                let to = fitted(bbox, x_range, y_range);
                match c {
                    Channel::X => merged_linear(slots(c), to.x0, to.x1, x_range),
                    Channel::Y => merged_linear(slots(c), to.y0, to.y1, y_range),
                    _ => slots(c),
                }
            },
            None => slots(c),
        }
    } else {
        slots(c)
    }
}

impl DotRenderer {
    /// The coordinates of each row, a longitude and a latitude, for the caller
    /// to compute the elementary functions at. None where one is missing.
    pub fn coordinates(&self, batch: &Batch, channel_map: &ChannelMap) -> (out: Vec<Option<Point>>)
        ensures
            out@ == Seq::new(
                batch.rows as nat,
                |row: int| row_coordinates(*batch, *channel_map, row),
            ),
    {
        let ghost all = Seq::new(
            batch.rows as nat,
            |row: int| row_coordinates(*batch, *channel_map, row),
        );
        let xs = channel_column(batch, channel_map, Channel::X);
        let ys = channel_column(batch, channel_map, Channel::Y);
        let mut out: Vec<Option<Point>> = Vec::new();
        let mut row: usize = 0;
        while row < batch.rows
            invariant
                row <= batch.rows,
                numbers_view(xs) == channel_numbers(*batch, *channel_map, Channel::X),
                numbers_view(ys) == channel_numbers(*batch, *channel_map, Channel::Y),
                all == Seq::new(
                    batch.rows as nat,
                    |row: int| row_coordinates(*batch, *channel_map, row),
                ),
                out@ == all.take(row as int),
            decreases batch.rows - row,
        {
            out.push(
                match (number_of(&xs, row), number_of(&ys, row)) {
                    (Some(x), Some(y)) => Some(Point { x, y }),
                    _ => None,
                },
            );
            row = row + 1;
            assert(out@ =~= all.take(row as int));
        }
        assert(out@ =~= all);
        out
    }

    /// What the mark draws.
    pub open spec fn drawn(
        self,
        batch: Batch,
        channel_map: ChannelMap,
        scales: ScaleSet,
        highlight: Option<&HighlightState>,
        angles: Angles,
    ) -> Seq<Op> {
        graticule_behind(channel_map, scales, angles.lines@) + dots(
            batch,
            channel_map,
            scales,
            angles.rows@,
            None,
            highlight,
        )
    }

    /// Render the mark: the graticule first, where it is projected and the
    /// plot's geographic extent is known, and the dots on top of it.
    pub fn render(
        &self,
        scene: &mut Scene,
        batch: &Batch,
        channel_map: &ChannelMap,
        scales: &ScaleSet,
        highlight: Option<&HighlightState>,
        angles: &Angles,
    )
        ensures
            final(scene)@ == old(scene)@ + self.drawn(
                *batch,
                *channel_map,
                *scales,
                highlight,
                *angles,
            ),
    {
        let ghost start = scene@;
        if let (Some(x), Some(y), Some(projection), Some(extent)) = (
            bound(channel_map, scales, Channel::X),
            bound(channel_map, scales, Channel::Y),
            channel_map.projection,
            scales.geo_extent,
        ) {
            let lines = graticule_lines(projection, extent, &angles.lines);
            stroke_graticule(scene, &lines, x.scale, y.scale, scales.ink.grid);
        } else {
            assert(start + Seq::<Op>::empty() =~= start);
        }
        draw_dots(scene, batch, channel_map, scales, &angles.rows, None, highlight);
        assert(scene@ =~= start + self.drawn(*batch, *channel_map, *scales, highlight, *angles));
    }

    /// Render the dots between their previous positions and their own: at 0
    /// each dot is where it was, at 1 where it goes. A dot without a previous
    /// position is where it goes.
    pub fn render_interpolated(
        &self,
        scene: &mut Scene,
        batch: &Batch,
        channel_map: &ChannelMap,
        scales: &ScaleSet,
        prev_positions: &Vec<Point>,
        t: Number,
        highlight: Option<&HighlightState>,
        angles: &Angles,
    )
        ensures
            final(scene)@ == old(scene)@ + dots(
                *batch,
                *channel_map,
                *scales,
                angles.rows@,
                Some((prev_positions@, t)),
                highlight,
            ),
    {
        draw_dots(
            scene,
            batch,
            channel_map,
            scales,
            &angles.rows,
            Some((prev_positions, t)),
            highlight,
        );
    }

    /// Give the axes equal pixels per unit when the mark asks for it, or when
    /// it is projected; leave every scale as it is otherwise.
    pub fn augment_scales(
        &self,
        scales: &mut ScaleSet,
        _batch: &Batch,
        channel_map: &ChannelMap,
        x_range: Range,
        y_range: Range,
    )
        ensures
            forall|c: Channel| #[trigger]
                final(scales).at(c) == squared_slot(
                    old(scales).slots(),
                    *channel_map,
                    x_range,
                    y_range,
                    c,
                ),
            final(scales).ink == old(scales).ink,
            final(scales).geo_extent == old(scales).geo_extent,
    {
        if !(channel_map.equal_aspect() || channel_map.projection.is_some()) {
            return ;
        }
        let bbox = match (scales.get(Channel::X), scales.get(Channel::Y)) {
            (
                Some(Scale::Linear { domain_min: x0, domain_max: x1, .. }),
                Some(Scale::Linear { domain_min: y0, domain_max: y1, .. }),
            ) => Rect { x0: *x0, y0: *y0, x1: *x1, y1: *y1 },
            _ => {
                return ;
            },
        };
        let ghost before = *scales;
        assert(domain_box(before.at(Channel::X), before.at(Channel::Y)) == Some(bbox));
        let to = aspect_fit_domains(bbox, x_range, y_range);
        merge_linear_scale(scales, Channel::X, to.x0, to.x1, x_range);
        let ghost between = *scales;
        merge_linear_scale(scales, Channel::Y, to.y0, to.y1, y_range);
        assert forall|c: Channel| #[trigger] scales.at(c) == squared_slot(
            before.slots(),
            *channel_map,
            x_range,
            y_range,
            c,
        ) by {
            if c != Channel::Y {
                assert(scales.at(c) == between.at(c));
            }
            if c != Channel::X {
                assert(between.at(c) == before.at(c));
            }
        }
    }
}

/// A dot mark that asks for no equal aspect and has no projection leaves every
/// scale as it is.
pub proof fn a_plain_dot_leaves_scales_untouched(
    slots: spec_fn(Channel) -> Option<ScaleModel>,
    channel_map: ChannelMap,
    x_range: Range,
    y_range: Range,
    c: Channel,
)
    requires
        !channel_map.square,
        channel_map.projection is None,
    ensures
        squared_slot(slots, channel_map, x_range, y_range, c) == slots(c),
{
}

/// At the start of an interpolation a dot is where it was.
pub proof fn an_interpolation_starts_where_the_dot_was(places: Seq<Point>, row: int, to: Point)
    requires
        0 <= row < places.len(),
        places[row].x.is_finite(),
        places[row].y.is_finite(),
        to.x.minus(places[row].x).is_finite(),
        to.y.minus(places[row].y).is_finite(),
    ensures
        ({
            let at = moved(Some((places, Number::from_bits(ZERO))), row, to);
            at.x.same(places[row].x) && at.y.same(places[row].y)
        }),
{
    let from = places[row];
    let zero = Number::from_bits(ZERO);
    lemma_times_nothing(to.x.minus(from.x), zero);
    lemma_times_nothing(to.y.minus(from.y), zero);
    lemma_plus_nothing(from.x, to.x.minus(from.x).times(zero));
    lemma_plus_nothing(from.y, to.y.minus(from.y).times(zero));
}

/// A dot mark draws at most one shape for each row.
pub proof fn a_row_draws_at_most_one_dot(
    batch: Batch,
    channel_map: ChannelMap,
    scales: ScaleSet,
    angles: Seq<Trig>,
    previous: Option<(Seq<Point>, Number)>,
    highlight: Option<&HighlightState>,
)
    ensures
        path_count(dots(batch, channel_map, scales, angles, previous, highlight)) <= batch.rows,
{
    let f = |row: int| dot_ops(batch, channel_map, scales, angles, previous, highlight, row);
    assert forall|i: int| 0 <= i < batch.rows implies path_count(#[trigger] f(i)) <= 1 by {
        lemma_few_paths(f(i));
    }
    lemma_paths_drawn(batch.rows as nat, f, 1);
}

} // verus!
