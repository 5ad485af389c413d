//! Hexagonal meshes.
use vstd::prelude::*;

use crate::batch::Batch;
use crate::channel::{Channel, ChannelMap};
use crate::colour::Rgba;
use crate::drawing::{drawn_for, polygon, polygon_through, Op, Outline, Point, Scene, Shape};
use crate::hexbin::{all_finite, finite_outline, hex_vertices, hexagon, in_pixels};
use crate::highlight::HighlightState;
use crate::infer::Range;
use crate::number::Number;
use crate::numerals::{ONE, TWO, ZERO};
use crate::scale::{Scale, ScaleModel};
use crate::scale_set::ScaleSet;

verus! {

/// Default spacing of the mesh in pixels: 20.
pub const DEFAULT_HEX_BIN_WIDTH: u64 = 0x4034_0000_0000_0000;

/// Mesh stroke width in pixels: 0.75.
pub const HEXGRID_STROKE_WIDTH: u64 = 0x3fe8_0000_0000_0000;

/// The square root of three.
pub const ROOT_THREE: u64 = 0x3ffb_b67a_e858_4caa;

/// The number 1.5.
pub const THREE_HALVES: u64 = 0x3ff8_0000_0000_0000;

/// Renders a pointy-top hexagonal mesh across the plot. Beside a hexbin the
/// mesh is the hexbin's own lattice, recovered from the widened scales and
/// drawn through them; alone it is a lattice in pixels.
#[derive(Debug, Clone, Copy)]
pub struct HexgridRenderer {
    /// Horizontal spacing of the centres in pixels.
    pub bin_width: Number,
}

impl Default for HexgridRenderer {
    fn default() -> (r: HexgridRenderer)
        ensures
            r.bin_width == Number::from_bits(DEFAULT_HEX_BIN_WIDTH),
    {
        HexgridRenderer { bin_width: Number::from_bits(DEFAULT_HEX_BIN_WIDTH) }
    }
}

/// The pixel range a positional scale maps onto.
pub open spec fn pixel_range(scale: ScaleModel) -> Option<Range> {
    match scale {
        ScaleModel::Linear { range_start, range_end, .. } => Some(
            Range { start: range_start, end: range_end },
        ),
        ScaleModel::Time { range_start, range_end, .. } => Some(
            Range { start: range_start, end: range_end },
        ),
        ScaleModel::Band { range_start, range_end, .. } => Some(
            Range { start: range_start, end: range_end },
        ),
        _ => None,
    }
}

/// The pixel range a positional scale maps onto. None for a colour scale.
pub fn scale_pixel_range(scale: &Scale) -> (r: Option<Range>)
    ensures
        r == pixel_range(scale@),
{
    match scale {
        Scale::Linear { range_start, range_end, .. } => Some(
            Range { start: *range_start, end: *range_end },
        ),
        Scale::Time { range_start, range_end, .. } => Some(
            Range { start: *range_start, end: *range_end },
        ),
        Scale::Band { range_start, range_end, .. } => Some(
            Range { start: *range_start, end: *range_end },
        ),
        _ => None,
    }
}

/// The domain and the range of a linear scale.
pub open spec fn parts_of(scale: ScaleModel) -> Option<(Range, Range)> {
    match scale {
        ScaleModel::Linear { domain_min, domain_max, range_start, range_end } => Some(
            (
                Range { start: domain_min, end: domain_max },
                Range { start: range_start, end: range_end },
            ),
        ),
        _ => None,
    }
}

/// The domain and the range of a linear scale. None for any other scale.
pub fn linear_parts(scale: &Scale) -> (r: Option<(Range, Range)>)
    ensures
        r == parts_of(scale@),
{
    match scale {
        Scale::Linear { domain_min, domain_max, range_start, range_end } => Some(
            (
                Range { start: *domain_min, end: *domain_max },
                Range { start: *range_start, end: *range_end },
            ),
        ),
        _ => None,
    }
}

/// How many centres a lattice has along a side: as many steps as cover it, and
/// one more at each end. A side that takes more steps than can be counted has
/// none.
pub open spec fn side_count(low: Number, high: Number, step: Number) -> nat {
    let n = high.minus(low).over(step).ceil().to_i64();
    if n >= i64::MAX - 1 || n < -2 {
        0
    } else {
        (n + 3) as nat
    }
}

/// The centre in row `j` and column `i` of a lattice, both counted from the
/// row and column before the first; every row that stands an odd number of
/// steps from the first is shifted by half a step.
pub open spec fn centre_at(
    low_x: Number,
    low_y: Number,
    dx: Number,
    dy: Number,
    j: int,
    i: int,
) -> Point {
    let offset = if (j - 1) % 2 == 1 {
        dx.over(Number::from_bits(TWO))
    } else {
        Number::from_bits(ZERO)
    };
    Point {
        x: low_x.plus(offset).plus(Number::spec_from_int(i - 1).times(dx)),
        y: low_y.plus(Number::spec_from_int(j - 1).times(dy)),
    }
}

/// The centres of the first `n` rows.
pub open spec fn centre_rows(
    low_x: Number,
    low_y: Number,
    dx: Number,
    dy: Number,
    cols: nat,
    n: nat,
) -> Seq<Point>
    decreases n,
{
    if n == 0 {
        Seq::empty()
    } else {
        centre_rows(low_x, low_y, dx, dy, cols, (n - 1) as nat) + Seq::new(
            cols,
            |i: int| centre_at(low_x, low_y, dx, dy, n - 1, i),
        )
    }
}

/// The centres of a pointy-top lattice that covers a rectangle with one cell
/// to spare on each side: rows stand one and a half hexagon sizes apart.
pub open spec fn lattice(x: Range, y: Range, bin_width: Number) -> Seq<Point> {
    let zero = Number::from_bits(ZERO);
    let dx = bin_width;
    let dy = Number::from_bits(THREE_HALVES).times(
        bin_width.over(Number::from_bits(ROOT_THREE)),
    );
    let low_x = x.start.min(x.end);
    let high_x = x.start.max(x.end);
    let low_y = y.start.min(y.end);
    let high_y = y.start.max(y.end);
    if zero.lt(dx) && zero.lt(dy) {
        centre_rows(
            low_x,
            low_y,
            dx,
            dy,
            side_count(low_x, high_x, dx),
            side_count(low_y, high_y, dy),
        )
    } else {
        Seq::empty()
    }
}

/// The last step of a side: one past those that cover it. None where there are
/// too many to count.
fn last_step(low: Number, high: Number, step: Number) -> (r: Option<i64>)
    ensures
        match r {
            Some(n) => side_count(low, high, step) == n + 2 && -1 <= n < i64::MAX,
            None => side_count(low, high, step) == 0,
        },
{
    let n: i64 = high.minus(low).over(step).ceil().to_i64();
    if n >= i64::MAX - 1 || n <= -3 {
        None
    } else {
        Some(n + 1)
    }
}

/// Pointy-top hexagon centres covering the rectangle of two ranges, with one
/// cell to spare on each side.
pub fn lattice_centres(x: Range, y: Range, bin_width: Number) -> (out: Vec<Point>)
    ensures
        out@ == lattice(x, y, bin_width),
{
    let zero = Number::from_bits(ZERO);
    let dx = bin_width;
    let dy = Number::from_bits(THREE_HALVES).times(
        bin_width.over(Number::from_bits(ROOT_THREE)),
    );
    let mut out: Vec<Point> = Vec::new();
    if !(zero.lt(dx) && zero.lt(dy)) {
        return out;
    }
    let low_x = x.start.min(x.end);
    let high_x = x.start.max(x.end);
    let low_y = y.start.min(y.end);
    let high_y = y.start.max(y.end);
    let ghost cols = side_count(low_x, high_x, dx);
    let ghost rows = side_count(low_y, high_y, dy);
    let last_row = match last_step(low_y, high_y, dy) {
        Some(n) => n,
        None => {
            return out;
        },
    };
    let last_col = last_step(low_x, high_x, dx);
    let mut j: i64 = -1;
    let mut odd = true;
    let ghost mut done: nat = 0;
    while j <= last_row
        invariant
            -1 <= j <= last_row + 1,
            last_row < i64::MAX,
            rows == last_row + 2,
            done == j + 1,
            odd == (j as int % 2 == 1),
            zero == Number::from_bits(ZERO),
            match last_col {
                Some(n) => cols == n + 2 && n >= -1,
                None => cols == 0,
            },
            out@ == centre_rows(low_x, low_y, dx, dy, cols, done),
        decreases last_row + 1 - j,
    {
        let ghost before = out@;
        let ghost row = Seq::new(cols, |i: int| centre_at(low_x, low_y, dx, dy, done as int, i));
        let cy = low_y.plus(Number::from_i64(j).times(dy));
        let offset = if odd {
            dx.over(Number::from_bits(TWO))
        } else {
            zero
        };
        if let Some(last) = last_col {
            let mut i: i64 = -1;
            assert(out@ =~= before + row.take(i + 1));
            while i < last
                invariant
                    -1 <= i <= last,
                    cols == last + 2,
                    done == j + 1,
                    cy == low_y.plus(Number::spec_from_int(j as int).times(dy)),
                    offset == if j as int % 2 == 1 {
                        dx.over(Number::from_bits(TWO))
                    } else {
                        Number::from_bits(ZERO)
                    },
                    row == Seq::new(
                        cols,
                        |i: int| centre_at(low_x, low_y, dx, dy, done as int, i),
                    ),
                    out@ == before + row.take(i + 1),
                decreases last - i,
            {
                let cx = low_x.plus(offset).plus(Number::from_i64(i).times(dx));
                out.push(Point { x: cx, y: cy });
                assert(out@ =~= before + row.take(i + 2));
                i = i + 1;
            }
            out.push(Point { x: low_x.plus(offset).plus(Number::from_i64(i).times(dx)), y: cy });
            assert(out@ =~= before + row);
        } else {
            assert(out@ =~= before + row);
        }
        proof {
            done = done + 1;
        }
        j = j + 1;
        odd = !odd;
        assert(out@ =~= centre_rows(low_x, low_y, dx, dy, cols, done));
    }
    out
}

/// A hexbin's lattice in data units.
#[derive(Debug, Clone, Copy, PartialEq, Eq, Structural)]
pub struct SiblingLattice {
    pub bin_width: Number,
    /// The extent that was binned.
    pub xmin_raw: Number,
    pub xspan_raw: Number,
    pub ymin_raw: Number,
    pub yspan_raw: Number,
    /// The plot's extent in pixels.
    pub w: Number,
    pub h: Number,
    /// Half a hexagon.
    pub dx_data: Number,
    pub dy_data: Number,
}

/// A point of the pixel lattice in data units.
pub open spec fn data_point(lat: SiblingLattice, p: Point) -> Point {
    Point {
        x: lat.xmin_raw.plus(p.x.times(lat.xspan_raw).over(lat.w)),
        y: lat.ymin_raw.plus(p.y.times(lat.yspan_raw).over(lat.h)),
    }
}

/// The rectangle from nothing to a size.
pub open spec fn up_to(size: Number) -> Range {
    Range { start: Number::from_bits(ZERO), end: size }
}

impl SiblingLattice {
    /// The centres of the lattice in data units.
    pub open spec fn centres(self) -> Seq<Point> {
        lattice(up_to(self.w), up_to(self.h), self.bin_width).map_values(
            |p: Point| data_point(self, p),
        )
    }

    /// Hexagon centres in data units over the plot, with one cell to spare.
    pub fn data_centres(&self) -> (out: Vec<Point>)
        ensures
            out@ == self.centres(),
    {
        let zero = Number::from_bits(ZERO);
        let pixels = lattice_centres(
            Range { start: zero, end: self.w },
            Range { start: zero, end: self.h },
            self.bin_width,
        );
        let ghost all = self.centres();
        let mut out: Vec<Point> = Vec::new();
        let mut i: usize = 0;
        while i < pixels.len()
            invariant
                i <= pixels.len(),
                pixels@ == lattice(up_to(self.w), up_to(self.h), self.bin_width),
                all == self.centres(),
                out@ == all.take(i as int),
            decreases pixels.len() - i,
        {
            let p = pixels[i];
            out.push(
                Point {
                    x: self.xmin_raw.plus(p.x.times(self.xspan_raw).over(self.w)),
                    y: self.ymin_raw.plus(p.y.times(self.yspan_raw).over(self.h)),
                },
            );
            i = i + 1;
            assert(out@ =~= all.take(i as int));
        }
        assert(out@ =~= all);
        out
    }
}

/// Whether a domain is the one an axis without data gets.
pub open spec fn is_unit(d: Range) -> bool {
    d.start.same(Number::from_bits(ZERO)) && d.end.same(Number::from_bits(ONE))
}

/// The lattice of a hexbin beside a mesh, recovered from scales that were
/// widened by half a hexagon on each side. None where an axis is not linear,
/// where both have the domains of axes without data, or where a side or a span
/// is not positive.
pub open spec fn sibling(bin_width: Number, x: ScaleModel, y: ScaleModel) -> Option<SiblingLattice> {
    let zero = Number::from_bits(ZERO);
    let two = Number::from_bits(TWO);
    match (parts_of(x), parts_of(y)) {
        (Some((xd, xr)), Some((yd, yr))) => {
            let size = bin_width.over(Number::from_bits(ROOT_THREE));
            let w = xr.end.minus(xr.start).abs();
            let h = yr.end.minus(yr.start).abs();
            let span_x = xd.end.minus(xd.start);
            let span_y = yd.end.minus(yd.start);
            if (is_unit(xd) && is_unit(yd)) || !zero.lt(bin_width) || !(zero.lt(w) && zero.lt(h)
                && zero.lt(span_x) && zero.lt(span_y)) {
                None
            } else {
                let dx_data = bin_width.over(two).times(span_x).over(w.plus(bin_width));
                let dy_data = size.times(span_y).over(h.plus(two.times(size)));
                Some(
                    SiblingLattice {
                        bin_width,
                        xmin_raw: xd.start.plus(dx_data),
                        xspan_raw: span_x.minus(two.times(dx_data)),
                        ymin_raw: yd.start.plus(dy_data),
                        yspan_raw: span_y.minus(two.times(dy_data)),
                        w,
                        h,
                        dx_data,
                        dy_data,
                    },
                )
            }
        },
        _ => None,
    }
}

fn unit(d: Range) -> (r: bool)
    ensures
        r == is_unit(d),
{
    d.start.same(Number::from_bits(ZERO)) && d.end.same(Number::from_bits(ONE))
}

/// What one hexagon of a mesh draws, its vertices taken in data units.
pub open spec fn sibling_hex_ops(
    lat: SiblingLattice,
    x: ScaleModel,
    y: ScaleModel,
    ink: Rgba,
    i: int,
) -> Seq<Op> {
    let at = lat.centres()[i];
    let outline = in_pixels(hexagon(at.x, at.y, lat.dx_data, lat.dy_data), x, y);
    if all_finite(outline) {
        seq![
            Op::Stroke(
                Number::from_bits(HEXGRID_STROKE_WIDTH),
                ink,
                Outline::Path(polygon(outline)),
            ),
        ]
    } else {
        Seq::empty()
    }
}

/// What one hexagon of a mesh draws, its vertices taken in pixels.
pub open spec fn plain_hex_op(bin_width: Number, ink: Rgba, at: Point) -> Op {
    let size = bin_width.over(Number::from_bits(ROOT_THREE));
    Op::Stroke(
        Number::from_bits(HEXGRID_STROKE_WIDTH),
        ink,
        Outline::Path(
            polygon(hexagon(at.x, at.y, bin_width.over(Number::from_bits(TWO)), size)),
        ),
    )
}

/// A linear scale from nothing to one.
pub open spec fn unit_scale(range: Range) -> ScaleModel {
    ScaleModel::Linear {
        domain_min: Number::from_bits(ZERO),
        domain_max: Number::from_bits(ONE),
        range_start: range.start,
        range_end: range.end,
    }
}

/// What a mesh makes of a channel's scale: an axis without one gets one from
/// nothing to one.
pub open spec fn mesh_slot(
    slots: spec_fn(Channel) -> Option<ScaleModel>,
    x_range: Range,
    y_range: Range,
    c: Channel,
) -> Option<ScaleModel> {
    match (c, slots(c)) {
        (Channel::X, None) => Some(unit_scale(x_range)),
        (Channel::Y, None) => Some(unit_scale(y_range)),
        (_, slot) => slot,
    }
}

impl HexgridRenderer {
    /// The lattice of a hexbin beside the mesh, recovered from the widened
    /// scales, so that the mesh rides the hexbin's own hexagons.
    pub fn sibling_lattice(&self, x_scale: &Scale, y_scale: &Scale) -> (r: Option<SiblingLattice>)
        ensures
            r == sibling(self.bin_width, x_scale@, y_scale@),
    {
        let ((xd, xr), (yd, yr)) = match (linear_parts(x_scale), linear_parts(y_scale)) {
            (Some(x), Some(y)) => (x, y),
            _ => {
                return None;
            },
        };
        let zero = Number::from_bits(ZERO);
        let two = Number::from_bits(TWO);
        let b = self.bin_width;
        if unit(xd) && unit(yd) {
            return None;
        }
        if !zero.lt(b) {
            return None;
        }
        let size = b.over(Number::from_bits(ROOT_THREE));
        let w = xr.end.minus(xr.start).abs();
        let h = yr.end.minus(yr.start).abs();
        let span_x = xd.end.minus(xd.start);
        let span_y = yd.end.minus(yd.start);
        if !(zero.lt(w) && zero.lt(h) && zero.lt(span_x) && zero.lt(span_y)) {
            return None;
        }
        let dx_data = b.over(two).times(span_x).over(w.plus(b));
        let dy_data = size.times(span_y).over(h.plus(two.times(size)));
        Some(
            SiblingLattice {
                bin_width: b,
                xmin_raw: xd.start.plus(dx_data),
                xspan_raw: span_x.minus(two.times(dx_data)),
                ymin_raw: yd.start.plus(dy_data),
                yspan_raw: span_y.minus(two.times(dy_data)),
                w,
                h,
                dx_data,
                dy_data,
            },
        )
    }

    /// What the mark draws.
    pub open spec fn drawn(self, scales: ScaleSet) -> Seq<Op> {
        let ink = scales.ink.hexgrid_stroke;
        match (scales.at(Channel::X), scales.at(Channel::Y)) {
            (Some(x), Some(y)) => match sibling(self.bin_width, x, y) {
                Some(lat) => drawn_for(
                    lat.centres().len(),
                    |i: int| sibling_hex_ops(lat, x, y, ink, i),
                ),
                None => match (pixel_range(x), pixel_range(y)) {
                    (Some(xr), Some(yr)) => lattice(xr, yr, self.bin_width).map_values(
                        |at: Point| plain_hex_op(self.bin_width, ink, at),
                    ),
                    _ => Seq::empty(),
                },
            },
            _ => Seq::empty(),
        }
    }

    fn draw_sibling(
        &self,
        scene: &mut Scene,
        lat: SiblingLattice,
        x: &Scale,
        y: &Scale,
        ink: Rgba,
    )
        ensures
            final(scene)@ == old(scene)@ + drawn_for(
                lat.centres().len(),
                |i: int| sibling_hex_ops(lat, x@, y@, ink, i),
            ),
    {
        let width = Number::from_bits(HEXGRID_STROKE_WIDTH);
        let centres = lat.data_centres();
        let ghost f = |i: int| sibling_hex_ops(lat, x@, y@, ink, i);
        let ghost start = scene@;
        assert(start + drawn_for(0, f) =~= start);
        let mut i: usize = 0;
        while i < centres.len()
            invariant
                i <= centres.len(),
                width == Number::from_bits(HEXGRID_STROKE_WIDTH),
                centres@ == lat.centres(),
                f == (|i: int| sibling_hex_ops(lat, x@, y@, ink, i)),
                scene@ == start + drawn_for(i as nat, f),
            decreases centres.len() - i,
        {
            let ghost here = scene@;
            let vertices = hex_vertices(centres[i].x, centres[i].y, lat.dx_data, lat.dy_data);
            if let Some(outline) = finite_outline(&vertices, x, y) {
                let steps = polygon_through(&outline);
                scene.stroke(width, ink, Shape::Path(steps));
            }
            assert(scene@ =~= here + f(i as int));
            assert(here + f(i as int) =~= start + drawn_for((i + 1) as nat, f));
            i = i + 1;
        }
    }

    /// Render the mesh. The batch, the channels and a highlight leave it as it
    /// is.
    pub fn render(
        &self,
        scene: &mut Scene,
        _batch: &Batch,
        _channel_map: &ChannelMap,
        scales: &ScaleSet,
        _highlight: Option<&HighlightState>,
    )
        ensures
            final(scene)@ == old(scene)@ + self.drawn(*scales),
    {
        let ghost start = scene@;
        assert(start + Seq::<Op>::empty() =~= start);
        let (x, y) = match (scales.get(Channel::X), scales.get(Channel::Y)) {
            (Some(x), Some(y)) => (x, y),
            _ => {
                return ;
            },
        };
        let ink = scales.ink.hexgrid_stroke;
        if let Some(lat) = self.sibling_lattice(x, y) {
            self.draw_sibling(scene, lat, x, y, ink);
            return ;
        }
        let (xr, yr) = match (scale_pixel_range(x), scale_pixel_range(y)) {
            (Some(a), Some(b)) => (a, b),
            _ => {
                return ;
            },
        };
        let width = Number::from_bits(HEXGRID_STROKE_WIDTH);
        let size = self.bin_width.over(Number::from_bits(ROOT_THREE));
        let half = self.bin_width.over(Number::from_bits(TWO));
        let centres = lattice_centres(xr, yr, self.bin_width);
        let ghost all = centres@.map_values(|at: Point| plain_hex_op(self.bin_width, ink, at));
        let mut i: usize = 0;
        assert(start + all.take(0) =~= start);
        while i < centres.len()
            invariant
                i <= centres.len(),
                width == Number::from_bits(HEXGRID_STROKE_WIDTH),
                size == self.bin_width.over(Number::from_bits(ROOT_THREE)),
                half == self.bin_width.over(Number::from_bits(TWO)),
                all == centres@.map_values(|at: Point| plain_hex_op(self.bin_width, ink, at)),
                scene@ == start + all.take(i as int),
            decreases centres.len() - i,
        {
            let outline = hex_vertices(centres[i].x, centres[i].y, half, size);
            let steps = polygon_through(&outline);
            scene.stroke(width, ink, Shape::Path(steps));
            i = i + 1;
            assert(scene@ =~= start + all.take(i as int));
        }
        assert(all.take(i as int) =~= all);
        assert(all == self.drawn(*scales));
    }

    /// Give each axis without a scale one from nothing to one, so that a mesh
    /// without data has a rectangle to draw in.
    pub fn augment_scales(
        &self,
        scales: &mut ScaleSet,
        _batch: &Batch,
        _channel_map: &ChannelMap,
        x_range: Range,
        y_range: Range,
    )
        ensures
            forall|c: Channel| #[trigger]
                final(scales).at(c) == mesh_slot(old(scales).slots(), x_range, y_range, c),
            final(scales).ink == old(scales).ink,
            final(scales).geo_extent == old(scales).geo_extent,
    {
        let ghost before = *scales;
        let zero = Number::from_bits(ZERO);
        let one = Number::from_bits(ONE);
        if scales.get(Channel::X).is_none() {
            scales.insert(
                Channel::X,
                Scale::Linear {
                    domain_min: zero,
                    domain_max: one,
                    range_start: x_range.start,
                    range_end: x_range.end,
                },
            );
        }
        let ghost between = *scales;
        if scales.get(Channel::Y).is_none() {
            scales.insert(
                Channel::Y,
                Scale::Linear {
                    domain_min: zero,
                    domain_max: one,
                    range_start: y_range.start,
                    range_end: y_range.end,
                },
            );
        }
        assert forall|c: Channel| #[trigger] scales.at(c) == mesh_slot(
            before.slots(),
            x_range,
            y_range,
            c,
        ) by {
            if c != Channel::Y {
                assert(scales.at(c) == between.at(c));
            }
            if c != Channel::X {
                assert(between.at(c) == before.at(c));
            }
        }
    }
}

/// A mesh without data stands on its own: the scales it gives itself recover
/// no lattice.
pub proof fn a_mesh_alone_has_no_sibling(bin_width: Number, x_range: Range, y_range: Range)
    ensures
        sibling(bin_width, unit_scale(x_range), unit_scale(y_range)) is None,
{
}

} // verus!
