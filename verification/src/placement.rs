//! Where lines and maps are drawn: each vertex across by its own x and the x
//! scale, and up by its own y and the y scale.
use vstd::arithmetic::div_mod::lemma_fundamental_div_mod_converse;
use vstd::prelude::*;

use crate::batch::Batch;
use crate::cartography::path_planar;
use crate::channel::{Channel, ChannelMap};
use crate::colour::Rgba;
use crate::contour::{
    contour_ops, finite_pixel, finite_pixels, level_ops, lines_at, ContourRenderer,
};
use crate::density::dot_of_cell;
use crate::drawing::{drawn_for, polygon, polyline, Op, Outline, Point, Step};
use crate::fits::within;
use crate::folds::{lemma_present_comes, present};
use crate::geo::{angles_at, through_scales};
use crate::geo_mark::{
    feature_ops, feature_path, map_projection, row_angles, row_planar, row_rings, whole_ring,
    AngleRow, GeoRenderer,
};
use crate::geojson::position_in;
use crate::json::JsonTree;
use crate::kde::{GridModel, Smoothing};
use crate::number::Number;
use crate::paint::single_ink;
use crate::projection::Projection;
use crate::raster::mark_grid;
use crate::scale::ScaleModel;
use crate::scale_set::ScaleSet;
use crate::standing::reached;
use crate::straight::{a_scale_draws_a_straight_line, lies_at};

verus! {

/// Whether a pixel is where two scales draw a point of the data.
pub open spec fn drawn_at(x: ScaleModel, y: ScaleModel, data: Point, pixel: Point) -> bool {
    lies_at(x, data.x, pixel.x) && lies_at(y, data.y, pixel.y)
}

/// Whether two scales and a point are such that its pixel is finite.
pub open spec fn is_drawable(x: ScaleModel, y: ScaleModel, data: Point) -> bool {
    &&& x.regular() && x.moderate()
    &&& y.regular() && y.moderate()
    &&& within(data.x, 200) && within(data.y, 200)
}

/// Whether steps, from `from` on, go through pixels of all the points of a line,
/// in order: a move to the first and lines to the rest.
pub open spec fn goes_through(
    steps: Seq<Step>,
    from: int,
    line: Seq<Point>,
    x: ScaleModel,
    y: ScaleModel,
) -> bool {
    &&& 0 <= from && from + line.len() <= steps.len()
    &&& forall|k: int|
        0 <= k < line.len() ==> {
            &&& drawn_at(x, y, line[k], reached(#[trigger] steps[from + k]))
            &&& if k == 0 {
                steps[from + k] is MoveTo
            } else {
                steps[from + k] is LineTo
            }
        }
}

/// What is drawn for one item stands in what is drawn for all, in one piece.
pub proof fn lemma_block(n: nat, f: spec_fn(int) -> Seq<Op>, i: int) -> (o: int)
    requires
        0 <= i < n,
    ensures
        0 <= o,
        o + f(i).len() <= drawn_for(n, f).len(),
        forall|k: int| 0 <= k < f(i).len() ==> #[trigger] drawn_for(n, f)[o + k] == f(i)[k],
    decreases n,
{
    let before = drawn_for((n - 1) as nat, f);
    if i == n - 1 {
        before.len() as int
    } else {
        let o = lemma_block((n - 1) as nat, f, i);
        assert forall|k: int| 0 <= k < f(i).len() implies #[trigger] drawn_for(n, f)[o + k] == f(
            i,
        )[k] by {
            assert(before[o + k] == f(i)[k]);
        }
        o
    }
}

/// Points are drawn at their coordinates: the place across follows from the x
/// scale and the point's x alone, and the place up from the y scale and its y.
pub proof fn points_are_drawn_at_their_coordinates(
    points: Seq<Point>,
    others: Seq<Point>,
    x: ScaleModel,
    y: ScaleModel,
    other: ScaleModel,
    i: int,
    j: int,
)
    requires
        0 <= i < points.len(),
        0 <= j < others.len(),
    ensures
        through_scales(points, x, y).len() == points.len(),
        drawn_at(x, y, points[i], through_scales(points, x, y)[i]),
        points[i].x == others[j].x ==> through_scales(points, x, y)[i].x == through_scales(
            others,
            x,
            other,
        )[j].x,
        points[i].y == others[j].y ==> through_scales(points, x, y)[i].y == through_scales(
            others,
            other,
            y,
        )[j].y,
{
    a_scale_draws_a_straight_line(x, points[i].x);
    a_scale_draws_a_straight_line(y, points[i].y);
}

/// A pixel of a contour is where the two scales draw its data point.
pub proof fn a_contour_point_is_drawn_at_its_data(x: ScaleModel, y: ScaleModel, p: Point)
    ensures
        finite_pixel(x, y, p) matches Some(at) ==> drawn_at(x, y, p, at),
        is_drawable(x, y, p) ==> finite_pixel(x, y, p) is Some,
{
    a_scale_draws_a_straight_line(x, p.x);
    a_scale_draws_a_straight_line(y, p.y);
}

/// Where every value is there, each stands at its own place among those that
/// are there.
proof fn lemma_all_present<T>(v: Seq<Option<T>>)
    requires
        forall|i: int| 0 <= i < v.len() ==> (#[trigger] v[i]) is Some,
    ensures
        present(v).len() == v.len(),
        forall|i: int| 0 <= i < v.len() ==> Some(#[trigger] present(v)[i]) == v[i],
    decreases v.len(),
{
    if v.len() > 0 {
        let rest = v.drop_last();
        assert forall|i: int| 0 <= i < rest.len() implies (#[trigger] rest[i]) is Some by {
            assert(rest[i] == v[i]);
        }
        lemma_all_present(rest);
        assert(v[v.len() - 1] is Some);
        assert forall|i: int| 0 <= i < v.len() implies Some(#[trigger] present(v)[i]) == v[i] by {
            if i < rest.len() {
                assert(Some(present(rest)[i]) == rest[i]);
            }
        }
    }
}

/// A contour whose points can all be drawn is one stroked line through the
/// pixels of all of them, in order.
pub proof fn a_contour_is_drawn_through_its_data(
    x: ScaleModel,
    y: ScaleModel,
    ink: Rgba,
    line: Seq<Point>,
)
    requires
        line.len() > 0,
        forall|k: int| 0 <= k < line.len() ==> is_drawable(x, y, #[trigger] line[k]),
    ensures
        contour_ops(x, y, ink, line).len() == 1,
        contour_ops(x, y, ink, line)[0] matches Op::Stroke(_, colour, Outline::Path(steps))
            && colour == ink && steps.len() == line.len() && goes_through(steps, 0, line, x, y),
{
    let all = line.map_values(|p: Point| finite_pixel(x, y, p));
    assert forall|k: int| 0 <= k < all.len() implies (#[trigger] all[k]) is Some by {
        assert(is_drawable(x, y, line[k]));
        a_contour_point_is_drawn_at_its_data(x, y, line[k]);
    }
    lemma_all_present(all);
    let points = finite_pixels(x, y, line);
    let steps = polyline(points);
    assert forall|k: int| 0 <= k < line.len() implies {
        &&& drawn_at(x, y, line[k], reached(#[trigger] steps[0 + k]))
        &&& if k == 0 {
            steps[0 + k] is MoveTo
        } else {
            steps[0 + k] is LineTo
        }
    } by {
        assert(Some(points[k]) == all[k]);
        a_contour_point_is_drawn_at_its_data(x, y, line[k]);
    }
}

/// Every point that a contour is drawn through is the pixel of one of its data
/// points.
pub proof fn a_contour_invents_no_point(x: ScaleModel, y: ScaleModel, line: Seq<Point>, k: int)
    requires
        0 <= k < finite_pixels(x, y, line).len(),
    ensures
        exists|i: int|
            0 <= i < line.len() && drawn_at(
                x,
                y,
                #[trigger] line[i],
                finite_pixels(x, y, line)[k],
            ),
{
    let all = line.map_values(|p: Point| finite_pixel(x, y, p));
    let at = present(all)[k];
    assert(present(all).contains(at));
    lemma_present_comes(all, at);
    let i = choose|i: int| 0 <= i < all.len() && #[trigger] all[i] == Some(at);
    a_contour_point_is_drawn_at_its_data(x, y, line[i]);
    assert(drawn_at(x, y, line[i], at));
}

/// Whether an entry of a display list strokes a line: one path through the
/// pixels of its points, and nothing more.
pub open spec fn is_stroked(op: Op, line: Seq<Point>, x: ScaleModel, y: ScaleModel) -> bool {
    op matches Op::Stroke(_, _, Outline::Path(steps)) && steps.len() == line.len() && goes_through(
        steps,
        0,
        line,
        x,
        y,
    )
}

/// A contour mark draws the lines of each of its levels: every line of a level
/// that it asks for is stroked through the pixels of its points.
pub proof fn a_contour_mark_draws_its_levels(
    mark: ContourRenderer,
    batch: Batch,
    channel_map: ChannelMap,
    scales: ScaleSet,
    smoothing: Smoothing,
    levels: Seq<Vec<Vec<Point>>>,
    level: int,
    i: int,
)
    requires
        scales.at(Channel::X) is Some,
        scales.at(Channel::Y) is Some,
        mark_grid(batch, channel_map, mark.bandwidth, smoothing) is Some,
        0 <= level < mark.level_count(),
        level < levels.len(),
        0 <= i < levels[level]@.len(),
        levels[level]@[i]@.len() > 0,
        forall|k: int|
            0 <= k < levels[level]@[i]@.len() ==> is_drawable(
                scales.at(Channel::X)->0,
                scales.at(Channel::Y)->0,
                #[trigger] levels[level]@[i]@[k],
            ),
    ensures
        exists|o: int|
            0 <= o < mark.drawn(batch, channel_map, scales, smoothing, levels).len()
                && #[trigger] is_stroked(
                mark.drawn(batch, channel_map, scales, smoothing, levels)[o],
                levels[level]@[i]@,
                scales.at(Channel::X)->0,
                scales.at(Channel::Y)->0,
            ),
{
    let (x, y) = (scales.at(Channel::X)->0, scales.at(Channel::Y)->0);
    let ink = single_ink(channel_map, scales.ink);
    let drawn = mark.drawn(batch, channel_map, scales, smoothing, levels);
    let lines = levels[level]@;
    let line = lines[i]@;
    let f = |k: int| level_ops(x, y, ink, lines_at(levels, k));
    let g = |k: int| contour_ops(x, y, ink, lines[k]@);
    let o = lemma_block(mark.level_count() as nat, f, level);
    assert(f(level) == drawn_for(lines.len(), g));
    let p = lemma_block(lines.len(), g, i);
    a_contour_is_drawn_through_its_data(x, y, ink, line);
    assert(g(i).len() == 1);
    assert(f(level)[p + 0] == g(i)[0]);
    assert(drawn[o + p] == f(level)[p]);
    assert(is_stroked(drawn[o + p], line, x, y));
}

/// A contour and the dots of the same grid are drawn in one place: a contour's
/// vertex at the centre of a cell is drawn where that cell's dot is centred.
pub proof fn a_contour_meets_the_dots_of_its_grid(
    grid: GridModel,
    x: ScaleModel,
    y: ScaleModel,
    ink: Rgba,
    row: int,
    col: int,
)
    requires
        0 <= row < grid.y_centres.len(),
        0 <= col < grid.x_centres.len(),
    ensures
        ({
            let k = row * grid.x_centres.len() + col;
            let dots = dot_of_cell(grid, x, y, ink, k);
            let centre = Point { x: grid.x_centres[col], y: grid.y_centres[row] };
            dots.len() == 1 ==> (finite_pixel(x, y, centre) matches Some(at) ==> dots[0] matches
                Op::Fill(_, Outline::Circle(c, _)) && c == at)
        }),
{
    let cols = grid.x_centres.len() as int;
    lemma_fundamental_div_mod_converse(row * cols + col, cols, row, col);
}

/// A position in GeoJSON is a longitude and then a latitude.
pub proof fn a_position_is_longitude_then_latitude(items: Seq<JsonTree>, lon: Number, lat: Number)
    requires
        items.len() >= 2,
        items[0] == JsonTree::Number(Some(lon)),
        items[1] == JsonTree::Number(Some(lat)),
    ensures
        position_in(JsonTree::List(items)) matches Some(p) && p.x == lon && p.y == lat,
{
}

/// The rings of a feature stand in its path, each in one piece.
proof fn lemma_ring_in_path(
    planar: Seq<Seq<Option<Point>>>,
    x: ScaleModel,
    y: ScaleModel,
    n: nat,
    i: int,
) -> (from: int)
    requires
        0 <= i < n <= planar.len(),
        whole_ring(planar[i]) is Some,
    ensures
        0 <= from,
        from + planar[i].len() < feature_path(planar, x, y, n).len(),
        forall|k: int|
            0 <= k <= planar[i].len() ==> #[trigger] feature_path(planar, x, y, n)[from + k]
                == polygon(through_scales(whole_ring(planar[i])->0, x, y))[k],
    decreases n,
{
    let before = feature_path(planar, x, y, (n - 1) as nat);
    let path = feature_path(planar, x, y, n);
    let own = polygon(through_scales(whole_ring(planar[i])->0, x, y));
    if i == n - 1 {
        before.len() as int
    } else {
        let from = lemma_ring_in_path(planar, x, y, (n - 1) as nat, i);
        assert forall|k: int| 0 <= k <= planar[i].len() implies #[trigger] path[from + k]
            == own[k] by {
            assert(before[from + k] == own[k]);
        }
        from
    }
}

/// Whether steps trace a ring from `from` on: through the pixels of all its
/// positions, in order, and back.
pub open spec fn traces(
    steps: Seq<Step>,
    from: int,
    ring: Seq<Point>,
    x: ScaleModel,
    y: ScaleModel,
) -> bool {
    &&& goes_through(steps, from, ring, x, y)
    &&& from + ring.len() < steps.len()
    &&& steps[from + ring.len()] is Close
}

/// A feature is traced at its positions: each ring whose vertices all have one
/// is a closed path through their pixels.
pub proof fn a_feature_is_traced_at_its_positions(
    planar: Seq<Seq<Option<Point>>>,
    x: ScaleModel,
    y: ScaleModel,
    i: int,
    ring: Seq<Point>,
)
    requires
        0 <= i < planar.len(),
        ring.len() == planar[i].len(),
        forall|k: int| 0 <= k < ring.len() ==> planar[i][k] == Some(#[trigger] ring[k]),
    ensures
        exists|from: int| #[trigger]
            traces(feature_path(planar, x, y, planar.len()), from, ring, x, y),
{
    assert forall|k: int| 0 <= k < planar[i].len() implies #[trigger] planar[i][k] is Some by {
        assert(planar[i][k] == Some(ring[k]));
    }
    let points = whole_ring(planar[i])->0;
    assert(points =~= ring);
    let path = feature_path(planar, x, y, planar.len());
    let from = lemma_ring_in_path(planar, x, y, planar.len(), i);
    let own = polygon(through_scales(points, x, y));
    assert forall|k: int| 0 <= k < ring.len() implies {
        &&& drawn_at(x, y, ring[k], reached(#[trigger] path[from + k]))
        &&& if k == 0 {
            path[from + k] is MoveTo
        } else {
            path[from + k] is LineTo
        }
    } by {
        assert(path[from + k] == own[k]);
        points_are_drawn_at_their_coordinates(points, points, x, y, y, k, k);
    }
    assert(path[from + ring.len()] == own[ring.len() as int]);
    assert(traces(path, from, ring, x, y));
}

/// Whether what the elementary functions are is given for every vertex of a ring
/// of a row.
pub open spec fn is_given(angles: Seq<AngleRow>, row: int, i: int, vertices: nat) -> bool {
    angles_at(row_angles(angles, row), i).len() >= vertices
}

/// A map is drawn where its projection puts it: each ring of a row's geometry
/// whose vertices all have a position is a closed path through the pixels of
/// those positions, in the one shape that the row draws.
pub proof fn a_map_is_drawn_where_its_projection_puts_it(
    mark: GeoRenderer,
    batch: Batch,
    channel_map: ChannelMap,
    scales: ScaleSet,
    angles: Seq<AngleRow>,
    row: int,
    i: int,
    ring: Seq<Point>,
)
    requires
        scales.at(Channel::X) is Some,
        scales.at(Channel::Y) is Some,
        0 <= row < batch.rows,
        0 <= i < row_rings(batch, row).len(),
        is_given(angles, row, i, row_rings(batch, row)[i].len()),
        ring.len() == row_rings(batch, row)[i].len(),
        forall|k: int|
            0 <= k < ring.len() ==> map_projection(channel_map).planar(
                row_rings(batch, row)[i][k].x,
                row_rings(batch, row)[i][k].y,
                angles_at(row_angles(angles, row), i)[k],
            ) == Some(#[trigger] ring[k]),
    ensures
        exists|o: int, from: int|
            0 <= o < mark.drawn(batch, channel_map, scales, angles).len() && #[trigger] shows(
                mark.drawn(batch, channel_map, scales, angles)[o],
                from,
                ring,
                scales.at(Channel::X)->0,
                scales.at(Channel::Y)->0,
            ),
{
    let (x, y) = (scales.at(Channel::X)->0, scales.at(Channel::Y)->0);
    let drawn = mark.drawn(batch, channel_map, scales, angles);
    let planar = row_planar(batch, channel_map, angles, row);
    let rings = row_rings(batch, row);
    let given = row_angles(angles, row);
    assert(planar[i] == path_planar(
        map_projection(channel_map),
        rings[i],
        angles_at(given, i),
    ));
    a_feature_is_traced_at_its_positions(planar, x, y, i, ring);
    let path = feature_path(planar, x, y, planar.len());
    let from = choose|from: int| #[trigger] traces(path, from, ring, x, y);
    let f = |r: int| feature_ops(batch, channel_map, scales, x, y, angles, r);
    let o = lemma_block(batch.rows as nat, f, row);
    assert(f(row).len() == 1);
    assert(drawn[o + 0] == f(row)[0]);
    assert(shows(drawn[o], from, ring, x, y));
}

/// Whether an entry of a display list fills or strokes a path that traces a
/// ring.
pub open spec fn shows(op: Op, from: int, ring: Seq<Point>, x: ScaleModel, y: ScaleModel) -> bool {
    match op {
        Op::Fill(_, Outline::Path(steps)) => traces(steps, from, ring, x, y),
        Op::Stroke(_, _, Outline::Path(steps)) => traces(steps, from, ring, x, y),
        _ => false,
    }
}

/// A map without a projection, and one in degrees, is drawn at its longitudes
/// and latitudes: the longitude of a vertex across, on the x scale, and its
/// latitude up, on the y scale.
pub proof fn a_flat_map_is_drawn_at_its_longitudes_and_latitudes(
    mark: GeoRenderer,
    batch: Batch,
    channel_map: ChannelMap,
    scales: ScaleSet,
    angles: Seq<AngleRow>,
    row: int,
    i: int,
)
    requires
        channel_map.projection is None || channel_map.projection == Some(
            Projection::Equirectangular,
        ) || channel_map.projection == Some(Projection::Identity),
        scales.at(Channel::X) is Some,
        scales.at(Channel::Y) is Some,
        0 <= row < batch.rows,
        0 <= i < row_rings(batch, row).len(),
        is_given(angles, row, i, row_rings(batch, row)[i].len()),
    ensures
        exists|o: int, from: int|
            0 <= o < mark.drawn(batch, channel_map, scales, angles).len() && #[trigger] shows(
                mark.drawn(batch, channel_map, scales, angles)[o],
                from,
                row_rings(batch, row)[i],
                scales.at(Channel::X)->0,
                scales.at(Channel::Y)->0,
            ),
{
    a_map_is_drawn_where_its_projection_puts_it(
        mark,
        batch,
        channel_map,
        scales,
        angles,
        row,
        i,
        row_rings(batch, row)[i],
    );
}

} // verus!
