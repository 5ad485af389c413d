//! Maps: projected polygons, filled or outlined.
use vstd::prelude::*;

use crate::batch::{cell_of, Batch};
use crate::cartography::{path_planar, project_path, Trig};
use crate::channel::{Channel, ChannelMap};
use crate::colour::Rgba;
use crate::drawing::{
    drawn_for, polygon, polygon_through, Op, Outline, Point, Rect, Scene, Shape, Step,
};
use crate::folds::{highest_from, lowest_from, present};
use crate::geo::{
    angles_at, aspect_fit_domains, fitted, map_points, point_views, through_scales,
};
use crate::geojson::{geojson_rings, parse_geojson_rings};
use crate::highlight::{numbers_view, HighlightState};
use crate::infer::{merge_linear_scale, merged_linear, Range};
use crate::number::Number;
use crate::numerals::{INFINITY, NEG_INFINITY};
use crate::projection::Projection;
use crate::ramp::{fill_domain, numeric_fill_domain, ramp_colour, ramp_over, resolve_ramp_colour};
use crate::rect::{channel_column, channel_numbers};
use crate::scale::{Scale, ScaleModel};
use crate::scale_set::ScaleSet;
use crate::scheme::{scheme_stops, SequentialScheme};

verus! {

/// The column that holds the GeoJSON geometry.
pub const DEFAULT_GEOMETRY_COLUMN: &'static str = "geom";

/// Outline width of a map without a fill, in pixels: 0.75.
pub const GEO_STROKE_WIDTH: u64 = 0x3fe8_0000_0000_0000;

/// Renders projected polygons: filled where the mark binds a fill, outlined
/// where it does not.
#[derive(Debug, Clone, Copy)]
pub struct GeoRenderer {
    /// Sequential scheme for a numeric fill.
    pub scheme: SequentialScheme,
}

impl Default for GeoRenderer {
    fn default() -> (r: GeoRenderer)
        ensures
            r.scheme == SequentialScheme::Viridis,
    {
        GeoRenderer { scheme: SequentialScheme::Viridis }
    }
}

/// Where the projection puts the vertices of one row: one list of positions
/// for each of the row's rings.
pub type PlanarRow = Vec<Vec<Option<Point>>>;

/// What the elementary functions are at the vertices of one row: one list for
/// each of the row's rings.
pub type AngleRow = Vec<Vec<Trig>>;

/// The rings of a row's geometry.
pub open spec fn row_rings(batch: Batch, row: int) -> Seq<Seq<Point>> {
    match cell_of(batch.texts(DEFAULT_GEOMETRY_COLUMN@), row) {
        Some(text) => geojson_rings(text),
        None => Seq::empty(),
    }
}

/// What is given for the vertices of a row; nothing where nothing is.
pub open spec fn row_angles(angles: Seq<AngleRow>, row: int) -> Seq<Vec<Trig>> {
    if 0 <= row < angles.len() {
        angles[row]@
    } else {
        Seq::empty()
    }
}

/// Where the projection puts the vertices of a row's rings.
pub open spec fn rings_planar(
    projection: Projection,
    rings: Seq<Seq<Point>>,
    angles: Seq<Vec<Trig>>,
) -> Seq<Seq<Option<Point>>> {
    Seq::new(rings.len(), |i: int| path_planar(projection, rings[i], angles_at(angles, i)))
}

/// The projection a map is drawn in: the mark's own, or longitude and latitude
/// as they are.
pub open spec fn map_projection(channel_map: ChannelMap) -> Projection {
    match channel_map.projection {
        Some(p) => p,
        None => Projection::Equirectangular,
    }
}

/// Where the mark's projection puts the vertices of a row's geometry.
pub open spec fn row_planar(
    batch: Batch,
    channel_map: ChannelMap,
    angles: Seq<AngleRow>,
    row: int,
) -> Seq<Seq<Option<Point>>> {
    rings_planar(map_projection(channel_map), row_rings(batch, row), row_angles(angles, row))
}

/// A ring whose vertices all have a position. A ring that misses one is not
/// drawn at all.
pub open spec fn whole_ring(ring: Seq<Option<Point>>) -> Option<Seq<Point>> {
    if forall|k: int| 0 <= k < ring.len() ==> #[trigger] ring[k] is Some {
        Some(ring.map_values(|p: Option<Point>| p->0))
    } else {
        None
    }
}

fn take_ring(ring: &Vec<Option<Point>>) -> (r: Option<Vec<Point>>)
    ensures
        r is Some <==> whole_ring(ring@) is Some,
        r matches Some(v) ==> whole_ring(ring@) == Some(v@),
{
    let mut out: Vec<Point> = Vec::new();
    let mut k: usize = 0;
    while k < ring.len()
        invariant
            k <= ring.len(),
            out.len() == k,
            forall|j: int| 0 <= j < k ==> #[trigger] ring@[j] == Some(out@[j]),
        decreases ring.len() - k,
    {
        match ring[k] {
            Some(p) => {
                out.push(p);
            },
            None => {
                assert(ring@[k as int] is None);
                return None;
            },
        }
        k = k + 1;
    }
    assert(out@ =~= ring@.map_values(|p: Option<Point>| p->0));
    Some(out)
}

/// The path of the first `n` rings of a feature: a closed polygon for each
/// ring that can be drawn whole.
pub open spec fn feature_path(
    planar: Seq<Seq<Option<Point>>>,
    x: ScaleModel,
    y: ScaleModel,
    n: nat,
) -> Seq<Step>
    decreases n,
{
    if n == 0 {
        Seq::empty()
    } else {
        let before = feature_path(planar, x, y, (n - 1) as nat);
        match whole_ring(planar[n - 1]) {
            Some(points) => before + polygon(through_scales(points, x, y)),
            None => before,
        }
    }
}

/// Positions as mathematical values.
pub open spec fn planar_views(v: Seq<Vec<Option<Point>>>) -> Seq<Seq<Option<Point>>> {
    v.map_values(|r: Vec<Option<Point>>| r@)
}

fn append_steps(out: &mut Vec<Step>, more: &Vec<Step>)
    ensures
        final(out)@ == old(out)@ + more@,
{
    let ghost start = out@;
    let mut i: usize = 0;
    assert(start + more@.take(0) =~= start);
    while i < more.len()
        invariant
            i <= more.len(),
            out@ == start + more@.take(i as int),
        decreases more.len() - i,
    {
        out.push(more[i]);
        i = i + 1;
        assert(out@ =~= start + more@.take(i as int));
    }
    assert(more@.take(i as int) =~= more@);
}

fn build_path(planar: &PlanarRow, x: &Scale, y: &Scale) -> (out: Vec<Step>)
    ensures
        out@ == feature_path(planar_views(planar@), x@, y@, planar@.len()),
{
    let ghost views = planar_views(planar@);
    let mut out: Vec<Step> = Vec::new();
    let mut i: usize = 0;
    while i < planar.len()
        invariant
            i <= planar.len(),
            views == planar_views(planar@),
            out@ == feature_path(views, x@, y@, i as nat),
        decreases planar.len() - i,
    {
        assert(views[i as int] == planar@[i as int]@);
        if let Some(points) = take_ring(&planar[i]) {
            let pixels = map_points(&points, x, y);
            let steps = polygon_through(&pixels);
            append_steps(&mut out, &steps);
        }
        i = i + 1;
    }
    out
}

/// What one row draws: its feature, filled or outlined.
pub open spec fn feature_ops(
    batch: Batch,
    channel_map: ChannelMap,
    scales: ScaleSet,
    x: ScaleModel,
    y: ScaleModel,
    angles: Seq<AngleRow>,
    row: int,
) -> Seq<Op> {
    let planar = row_planar(batch, channel_map, angles, row);
    if planar.len() == 0 {
        Seq::empty()
    } else {
        let path = Outline::Path(feature_path(planar, x, y, planar.len()));
        seq![
            if channel_map.column(Channel::Fill) is Some {
                Op::Fill(ramp_colour(scales, channel_map, batch, row), path)
            } else {
                Op::Stroke(Number::from_bits(GEO_STROKE_WIDTH), scales.ink.geo_stroke, path)
            },
        ]
    }
}

/// The positions of the first `n` rings of a row.
pub open spec fn positions_in_row(planar: Seq<Seq<Option<Point>>>, n: nat) -> Seq<Point>
    decreases n,
{
    if n == 0 {
        Seq::empty()
    } else {
        positions_in_row(planar, (n - 1) as nat) + present(planar[n - 1])
    }
}

/// The positions of the first `n` rows of a batch.
pub open spec fn positions(
    batch: Batch,
    channel_map: ChannelMap,
    angles: Seq<AngleRow>,
    n: nat,
) -> Seq<Point>
    decreases n,
{
    if n == 0 {
        Seq::empty()
    } else {
        let planar = row_planar(batch, channel_map, angles, n - 1);
        positions(batch, channel_map, angles, (n - 1) as nat) + positions_in_row(
            planar,
            planar.len(),
        )
    }
}

fn add_ring(out: &mut Vec<Point>, ring: &Vec<Option<Point>>)
    ensures
        final(out)@ == old(out)@ + present(ring@),
{
    let ghost start = out@;
    let mut k: usize = 0;
    assert(ring@.take(0) =~= Seq::<Option<Point>>::empty());
    assert(start + present(ring@.take(0)) =~= start);
    while k < ring.len()
        invariant
            k <= ring.len(),
            out@ == start + present(ring@.take(k as int)),
        decreases ring.len() - k,
    {
        assert(ring@.take(k + 1).drop_last() =~= ring@.take(k as int));
        if let Some(p) = ring[k] {
            out.push(p);
        }
        assert(out@ =~= start + present(ring@.take(k + 1)));
        k = k + 1;
    }
    assert(ring@.take(k as int) =~= ring@);
}

fn add_row(out: &mut Vec<Point>, planar: &PlanarRow)
    ensures
        final(out)@ == old(out)@ + positions_in_row(planar_views(planar@), planar@.len()),
{
    let ghost start = out@;
    let ghost views = planar_views(planar@);
    let mut i: usize = 0;
    assert(start + positions_in_row(views, 0) =~= start);
    while i < planar.len()
        invariant
            i <= planar.len(),
            views == planar_views(planar@),
            out@ == start + positions_in_row(views, i as nat),
        decreases planar.len() - i,
    {
        assert(views[i as int] == planar@[i as int]@);
        add_ring(out, &planar[i]);
        i = i + 1;
        assert(out@ =~= start + positions_in_row(views, i as nat));
    }
}

/// The bounding box of positions, where it is finite.
pub open spec fn box_around(points: Seq<Point>) -> Option<Rect> {
    let up = Number::from_bits(INFINITY);
    let down = Number::from_bits(NEG_INFINITY);
    let xs = points.map_values(|p: Point| p.x);
    let ys = points.map_values(|p: Point| p.y);
    let r = Rect {
        x0: lowest_from(up, xs),
        y0: lowest_from(up, ys),
        x1: highest_from(down, xs),
        y1: highest_from(down, ys),
    };
    if r.x0.is_finite() && r.x1.is_finite() && r.y0.is_finite() && r.y1.is_finite() {
        Some(r)
    } else {
        None
    }
}

fn bound_points(points: &Vec<Point>) -> (r: Option<Rect>)
    ensures
        r == box_around(points@),
{
    let ghost xs = points@.map_values(|p: Point| p.x);
    let ghost ys = points@.map_values(|p: Point| p.y);
    let up = Number::from_bits(INFINITY);
    let down = Number::from_bits(NEG_INFINITY);
    let mut r = Rect { x0: up, y0: up, x1: down, y1: down };
    let mut i: usize = 0;
    while i < points.len()
        invariant
            i <= points.len(),
            up == Number::from_bits(INFINITY),
            down == Number::from_bits(NEG_INFINITY),
            xs == points@.map_values(|p: Point| p.x),
            ys == points@.map_values(|p: Point| p.y),
            r.x0 == lowest_from(up, xs.take(i as int)),
            r.y0 == lowest_from(up, ys.take(i as int)),
            r.x1 == highest_from(down, xs.take(i as int)),
            r.y1 == highest_from(down, ys.take(i as int)),
        decreases points.len() - i,
    {
        let p = points[i];
        assert(xs.take(i + 1).drop_last() =~= xs.take(i as int));
        assert(ys.take(i + 1).drop_last() =~= ys.take(i as int));
        r = Rect {
            x0: if p.x.lt(r.x0) {
                p.x
            } else {
                r.x0
            },
            y0: if p.y.lt(r.y0) {
                p.y
            } else {
                r.y0
            },
            x1: if r.x1.lt(p.x) {
                p.x
            } else {
                r.x1
            },
            y1: if r.y1.lt(p.y) {
                p.y
            } else {
                r.y1
            },
        };
        i = i + 1;
    }
    assert(xs.take(i as int) =~= xs);
    assert(ys.take(i as int) =~= ys);
    if r.x0.is_finite() && r.x1.is_finite() && r.y0.is_finite() && r.y1.is_finite() {
        Some(r)
    } else {
        None
    }
}

/// The bounding box of everything a batch draws.
pub open spec fn batch_box(
    batch: Batch,
    channel_map: ChannelMap,
    angles: Seq<AngleRow>,
) -> Option<Rect> {
    box_around(positions(batch, channel_map, angles, batch.rows as nat))
}

/// What a map makes of a channel's scale: the axes are fitted to the bounding
/// box with equal pixels per unit, and a numeric fill gets a ramp.
pub open spec fn map_slot(
    scheme: SequentialScheme,
    slots: spec_fn(Channel) -> Option<ScaleModel>,
    batch: Batch,
    channel_map: ChannelMap,
    x_range: Range,
    y_range: Range,
    meridian: Seq<Rgba>,
    angles: Seq<AngleRow>,
    c: Channel,
) -> Option<ScaleModel> {
    match (c, batch_box(batch, channel_map, angles), fill_domain(batch, channel_map)) {
        (Channel::X, Some(bbox), _) => {
            let to = fitted(bbox, x_range, y_range);
            merged_linear(slots(c), to.x0, to.x1, x_range)
        },
        (Channel::Y, Some(bbox), _) => {
            let to = fitted(bbox, x_range, y_range);
            merged_linear(slots(c), to.y0, to.y1, y_range)
        },
        (Channel::Fill, _, Some(domain)) => Some(
            ramp_over(domain, scheme_stops(scheme, meridian)),
        ),
        _ => slots(c),
    }
}

/// The rings of all rows as mathematical values.
pub open spec fn ring_views(v: Seq<Vec<Vec<Point>>>) -> Seq<Seq<Seq<Point>>> {
    v.map_values(|r: Vec<Vec<Point>>| point_views(r@))
}

fn rings_of_row(batch: &Batch, row: usize) -> (r: Vec<Vec<Point>>)
    ensures
        point_views(r@) == row_rings(*batch, row as int),
{
    match batch.text_at(DEFAULT_GEOMETRY_COLUMN, row) {
        Some(text) => parse_geojson_rings(text.as_str()),
        None => {
            let none: Vec<Vec<Point>> = Vec::new();
            assert(point_views(none@) =~= Seq::<Seq<Point>>::empty());
            none
        },
    }
}

/// Where the mark's projection puts the vertices of one row.
fn project_row(batch: &Batch, channel_map: &ChannelMap, angles: &Vec<AngleRow>, row: usize) -> (r:
    PlanarRow)
    ensures
        planar_views(r@) == row_planar(*batch, *channel_map, angles@, row as int),
        r@.len() == row_rings(*batch, row as int).len(),
{
    let projection = match channel_map.projection {
        Some(p) => p,
        None => Projection::Equirectangular,
    };
    let rings = rings_of_row(batch, row);
    let ghost views = point_views(rings@);
    let ghost given = row_angles(angles@, row as int);
    let ghost all = rings_planar(projection, views, given);
    let none: Vec<Trig> = Vec::new();
    let mut out: PlanarRow = Vec::new();
    let mut i: usize = 0;
    while i < rings.len()
        invariant
            i <= rings.len(),
            views == point_views(rings@),
            given == row_angles(angles@, row as int),
            all == rings_planar(projection, views, given),
            none@ == Seq::<Trig>::empty(),
            out.len() == i,
            forall|j: int| 0 <= j < i ==> (#[trigger] out@[j])@ == all[j],
        decreases rings.len() - i,
    {
        assert(views[i as int] == rings@[i as int]@);
        let ring = if row < angles.len() && i < angles[row].len() {
            project_path(projection, &rings[i], &angles[row][i])
        } else {
            project_path(projection, &rings[i], &none)
        };
        out.push(ring);
        i = i + 1;
    }
    assert(views.len() == rings@.len());
    assert(planar_views(out@) =~= all);
    out
}

/// Where a mark's projection puts each row, as mathematical values.
pub open spec fn row_views(v: Seq<PlanarRow>) -> Seq<Seq<Seq<Option<Point>>>> {
    v.map_values(|r: PlanarRow| planar_views(r@))
}

impl GeoRenderer {
    /// Where the mark's projection puts each vertex of its
    /// [`GeoRenderer::rings`], given what the elementary functions are there.
    /// A mark without a projection draws longitude and latitude as they are.
    pub fn project_rings(
        &self,
        batch: &Batch,
        channel_map: &ChannelMap,
        angles: &Vec<AngleRow>,
    ) -> (out: Vec<PlanarRow>)
        ensures
            row_views(out@) == Seq::new(
                batch.rows as nat,
                |row: int| row_planar(*batch, *channel_map, angles@, row),
            ),
    {
        let mut out: Vec<PlanarRow> = Vec::new();
        let mut row: usize = 0;
        while row < batch.rows
            invariant
                row <= batch.rows,
                out.len() == row,
                forall|i: int|
                    0 <= i < row ==> planar_views(#[trigger] out@[i]@) == row_planar(
                        *batch,
                        *channel_map,
                        angles@,
                        i,
                    ),
            decreases batch.rows - row,
        {
            out.push(project_row(batch, channel_map, angles, row));
            row = row + 1;
        }
        assert(row_views(out@) =~= Seq::new(
            batch.rows as nat,
            |row: int| row_planar(*batch, *channel_map, angles@, row),
        ));
        out
    }

    /// The rings of each row's geometry, for the caller to compute the
    /// elementary functions at.
    pub fn rings(&self, batch: &Batch) -> (out: Vec<Vec<Vec<Point>>>)
        ensures
            ring_views(out@) == Seq::new(batch.rows as nat, |row: int| row_rings(*batch, row)),
    {
        let mut out: Vec<Vec<Vec<Point>>> = Vec::new();
        let mut row: usize = 0;
        while row < batch.rows
            invariant
                row <= batch.rows,
                out.len() == row,
                forall|i: int|
                    0 <= i < row ==> point_views(#[trigger] out@[i]@) == row_rings(*batch, i),
            decreases batch.rows - row,
        {
            out.push(rings_of_row(batch, row));
            row = row + 1;
        }
        assert(ring_views(out@) =~= Seq::new(
            batch.rows as nat,
            |row: int| row_rings(*batch, row),
        ));
        out
    }

    /// The bounding box of every vertex of every feature that has a position.
    /// None where there is no geometry or the box is not finite.
    pub fn projected_bbox(
        &self,
        batch: &Batch,
        channel_map: &ChannelMap,
        angles: &Vec<AngleRow>,
    ) -> (r: Option<Rect>)
        ensures
            r == batch_box(*batch, *channel_map, angles@),
    {
        let mut all: Vec<Point> = Vec::new();
        let mut row: usize = 0;
        while row < batch.rows
            invariant
                row <= batch.rows,
                all@ == positions(*batch, *channel_map, angles@, row as nat),
            decreases batch.rows - row,
        {
            let planar = project_row(batch, channel_map, angles, row);
            add_row(&mut all, &planar);
            row = row + 1;
        }
        bound_points(&all)
    }

    /// What the mark draws.
    pub open spec fn drawn(
        self,
        batch: Batch,
        channel_map: ChannelMap,
        scales: ScaleSet,
        angles: Seq<AngleRow>,
    ) -> Seq<Op> {
        match (scales.at(Channel::X), scales.at(Channel::Y)) {
            (Some(x), Some(y)) => drawn_for(
                batch.rows as nat,
                |row: int| feature_ops(batch, channel_map, scales, x, y, angles, row),
            ),
            _ => Seq::empty(),
        }
    }

    /// Render the mark in its projection. A highlight leaves it as it is.
    /// `angles` says what the elementary functions are at each vertex of the
    /// mark's [`GeoRenderer::rings`]. A ring is drawn whole or not at all.
    pub fn render(
        &self,
        scene: &mut Scene,
        batch: &Batch,
        channel_map: &ChannelMap,
        scales: &ScaleSet,
        _highlight: Option<&HighlightState>,
        angles: &Vec<AngleRow>,
    )
        ensures
            final(scene)@ == old(scene)@ + self.drawn(*batch, *channel_map, *scales, angles@),
    {
        let ghost start = scene@;
        assert(start + Seq::<Op>::empty() =~= start);
        let (x, y) = match (scales.get(Channel::X), scales.get(Channel::Y)) {
            (Some(x), Some(y)) => (x, y),
            _ => {
                return ;
            },
        };
        let filled = channel_map.get(Channel::Fill).is_some();
        let values = channel_column(batch, channel_map, Channel::Fill);
        let ghost f = |row: int|
            feature_ops(*batch, *channel_map, *scales, x@, y@, angles@, row);
        assert(start + drawn_for(0, f) =~= start);
        let mut row: usize = 0;
        while row < batch.rows
            invariant
                row <= batch.rows,
                filled == channel_map.column(Channel::Fill) is Some,
                numbers_view(values) == channel_numbers(*batch, *channel_map, Channel::Fill),
                f == (|row: int|
                    feature_ops(*batch, *channel_map, *scales, x@, y@, angles@, row)),
                scene@ == start + drawn_for(row as nat, f),
            decreases batch.rows - row,
        {
            let ghost here = scene@;
            let planar = project_row(batch, channel_map, angles, row);
            if planar.len() > 0 {
                let steps = build_path(&planar, x, y);
                if filled {
                    let colour = resolve_ramp_colour(scales, channel_map, batch, &values, row);
                    scene.fill(colour, Shape::Path(steps));
                } else {
                    scene.stroke(
                        Number::from_bits(GEO_STROKE_WIDTH),
                        scales.ink.geo_stroke,
                        Shape::Path(steps),
                    );
                }
            }
            assert(scene@ =~= here + f(row as int));
            assert(here + f(row as int) =~= start + drawn_for((row + 1) as nat, f));
            row = row + 1;
        }
        assert(drawn_for(batch.rows as nat, f) == self.drawn(
            *batch,
            *channel_map,
            *scales,
            angles@,
        ));
    }

    /// Fit the axes to the projected geometry with equal pixels per unit, and
    /// give a numeric fill a ramp.
    pub fn augment_scales(
        &self,
        scales: &mut ScaleSet,
        batch: &Batch,
        channel_map: &ChannelMap,
        x_range: Range,
        y_range: Range,
        meridian: &Vec<Rgba>,
        angles: &Vec<AngleRow>,
    )
        ensures
            forall|c: Channel| #[trigger]
                final(scales).at(c) == map_slot(
                    self.scheme,
                    old(scales).slots(),
                    *batch,
                    *channel_map,
                    x_range,
                    y_range,
                    meridian@,
                    angles@,
                    c,
                ),
            final(scales).ink == old(scales).ink,
            final(scales).geo_extent == old(scales).geo_extent,
    {
        let ghost before = *scales;
        let bbox = self.projected_bbox(batch, channel_map, angles);
        if let Some(bbox) = bbox {
            let to = aspect_fit_domains(bbox, x_range, y_range);
            merge_linear_scale(scales, Channel::X, to.x0, to.x1, x_range);
        }
        let ghost one = *scales;
        if let Some(bbox) = bbox {
            let to = aspect_fit_domains(bbox, x_range, y_range);
            merge_linear_scale(scales, Channel::Y, to.y0, to.y1, y_range);
        }
        let ghost two = *scales;
        if let Some(domain) = numeric_fill_domain(batch, channel_map) {
            scales.insert(
                Channel::Fill,
                Scale::Sequential {
                    domain_min: domain.start,
                    domain_max: domain.end,
                    stops: self.scheme.stops(meridian),
                },
            );
        }
        assert forall|c: Channel| #[trigger] scales.at(c) == map_slot(
            self.scheme,
            before.slots(),
            *batch,
            *channel_map,
            x_range,
            y_range,
            meridian@,
            angles@,
            c,
        ) by {
            if c != Channel::Fill {
                assert(scales.at(c) == two.at(c));
            }
            if c != Channel::Y {
                assert(two.at(c) == one.at(c));
            }
            if c != Channel::X {
                assert(one.at(c) == before.at(c));
            }
        }
    }
}

/// A ring with a vertex that has no position adds nothing to its feature's
/// path.
pub proof fn a_ring_is_drawn_whole_or_not_at_all(
    planar: Seq<Seq<Option<Point>>>,
    x: ScaleModel,
    y: ScaleModel,
    n: nat,
    k: int,
)
    requires
        n < planar.len(),
        0 <= k < planar[n as int].len(),
        planar[n as int][k] is None,
    ensures
        feature_path(planar, x, y, n + 1) == feature_path(planar, x, y, n),
{
}

} // verus!
