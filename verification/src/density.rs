//! Density curves and density grids.
use vstd::prelude::*;

use crate::batch::{cell_of, number_of, Batch};
use crate::channel::{Channel, ChannelMap};
use crate::colour::Rgba;
use crate::dot::DOT_RADIUS;
use crate::drawing::{
    drawn_for, polygon, polygon_through, Op, Outline, Point, Scene, Shape,
};
use crate::folds::{highest_from, present};
use crate::highlight::{numbers_view, HighlightState};
use crate::infer::{merge_linear_scale, merged_linear, Range};
use crate::kde::{
    build_kde_grid, kde_grid_of, lemma_cell_of, GridModel, Smoothing, DENSITY_COUNT_COL,
};
use crate::number::Number;
use crate::numerals::{ONE, ZERO};
use crate::paint::{constant_ink, single_ink};
use crate::plot::{bound, bound_to};
use crate::scale::{Scale, ScaleModel};
use crate::scale_set::ScaleSet;
use crate::single::Single;
use crate::sorting::{along_x, sort_along_x};

verus! {

/// How many bandwidths the curve runs past the data on each side: 3.
pub const DENSITY_TAIL_SIGMAS: u64 = 0x4008_0000_0000_0000;

/// How many points the curve has.
pub const GRID: u64 = 192;

/// The least density, in parts of the greatest, that a cell is drawn at: 0.01.
pub const FAINTEST: u64 = 0x3f84_7ae1_47ae_147b;

/// Which axis carries the bins of a density curve.
#[derive(Debug, Clone, Copy, PartialEq, Eq, Structural)]
pub enum DensityAxis {
    /// Bins along x, peak height in y.
    X,
    /// Bins along y, peak height in x.
    Y,
}

impl DensityAxis {
    pub open spec fn spec_bins(self) -> Channel {
        match self {
            DensityAxis::X => Channel::X,
            DensityAxis::Y => Channel::Y,
        }
    }

    /// The channel of the bins.
    #[verifier::when_used_as_spec(spec_bins)]
    pub fn bins(self) -> (r: Channel)
        ensures
            r == self.spec_bins(),
    {
        match self {
            DensityAxis::X => Channel::X,
            DensityAxis::Y => Channel::Y,
        }
    }

    pub open spec fn spec_heights(self) -> Channel {
        match self {
            DensityAxis::X => Channel::Y,
            DensityAxis::Y => Channel::X,
        }
    }

    /// The channel of the heights.
    #[verifier::when_used_as_spec(spec_heights)]
    pub fn heights(self) -> (r: Channel)
        ensures
            r == self.spec_heights(),
    {
        match self {
            DensityAxis::X => Channel::Y,
            DensityAxis::Y => Channel::X,
        }
    }
}

/// Renders a density curve from a batch of bin centres and counts.
#[derive(Debug, Clone, Copy)]
pub struct Density1DRenderer {
    pub axis: DensityAxis,
}

/// The kernel estimate of a curve, as computed from its weighted pairs: the
/// bandwidth, and the density at each place of its grid.
#[derive(Debug)]
pub struct Kernel {
    pub bandwidth: Number,
    pub density: Vec<Number>,
}

/// A bin's centre and its weight, which is never negative.
pub open spec fn weighted(batch: Batch, bin_col: Seq<char>, row: int) -> Option<Point> {
    match (
        cell_of(batch.numbers(bin_col), row),
        cell_of(batch.numbers(DENSITY_COUNT_COL@), row),
    ) {
        (Some(b), Some(c)) => Some(Point { x: b, y: c.max(Number::from_bits(ZERO)) }),
        _ => None,
    }
}

/// The weighted centres of a batch in ascending order. None where fewer than
/// two are distinct.
pub open spec fn weighted_pairs(batch: Batch, bin_col: Seq<char>) -> Option<Seq<Point>> {
    let pairs = along_x(
        present(Seq::new(batch.rows as nat, |row: int| weighted(batch, bin_col, row))),
    );
    if batch.numbers(bin_col) is Some && batch.numbers(DENSITY_COUNT_COL@) is Some && pairs.len()
        >= 2 && !pairs[0].x.same(pairs.last().x) {
        Some(pairs)
    } else {
        None
    }
}

/// A density mark's occupied bins as weighted pairs, centre and count, in
/// ascending order of centre. None where fewer than two distinct bins survive.
pub fn density_1d_weighted_pairs(batch: &Batch, bin_col: &str) -> (r: Option<Vec<Point>>)
    ensures
        r is Some <==> weighted_pairs(*batch, bin_col@) is Some,
        r matches Some(v) ==> weighted_pairs(*batch, bin_col@) == Some(v@) && v.len() >= 2,
{
    let bins = batch.column_as_f64(bin_col);
    let counts = batch.column_as_f64(DENSITY_COUNT_COL);
    if bins.is_none() || counts.is_none() {
        return None;
    }
    let ghost all = Seq::new(batch.rows as nat, |row: int| weighted(*batch, bin_col@, row));
    let mut pairs: Vec<Point> = Vec::new();
    let mut row: usize = 0;
    assert(all.take(0) =~= Seq::<Option<Point>>::empty());
    while row < batch.rows
        invariant
            row <= batch.rows,
            numbers_view(bins) == batch.numbers(bin_col@),
            numbers_view(counts) == batch.numbers(DENSITY_COUNT_COL@),
            all == Seq::new(batch.rows as nat, |row: int| weighted(*batch, bin_col@, row)),
            pairs@ == present(all.take(row as int)),
        decreases batch.rows - row,
    {
        assert(all.take(row + 1).drop_last() =~= all.take(row as int));
        if let (Some(b), Some(c)) = (number_of(&bins, row), number_of(&counts, row)) {
            pairs.push(Point { x: b, y: c.max(Number::from_bits(ZERO)) });
        }
        row = row + 1;
    }
    assert(all.take(row as int) =~= all);
    let sorted = sort_along_x(&pairs);
    if sorted.len() < 2 || sorted[0].x.same(sorted[sorted.len() - 1].x) {
        None
    } else {
        Some(sorted)
    }
}

/// The span of a curve: from the first centre to the last, with the tails.
pub open spec fn padded(pairs: Seq<Point>, bandwidth: Number) -> Range {
    let pad = Number::from_bits(DENSITY_TAIL_SIGMAS).times(bandwidth);
    Range { start: pairs[0].x.minus(pad), end: pairs.last().x.plus(pad) }
}

fn pad_span(pairs: &Vec<Point>, bandwidth: Number) -> (r: Range)
    requires
        pairs.len() > 0,
    ensures
        r == padded(pairs@, bandwidth),
{
    let pad = Number::from_bits(DENSITY_TAIL_SIGMAS).times(bandwidth);
    Range { start: pairs[0].x.minus(pad), end: pairs[pairs.len() - 1].x.plus(pad) }
}

/// The places that a curve over a span is evaluated at.
pub open spec fn places(span: Range) -> Seq<Number> {
    Seq::new(
        GRID as nat,
        |i: int|
            span.start.plus(
                span.end.minus(span.start).times(Number::spec_from_int(i)).over(
                    Number::spec_from_int(GRID - 1),
                ),
            ),
    )
}

/// The places that the density of weighted pairs is evaluated at.
pub fn density_grid(pairs: &Vec<Point>, bandwidth: Number) -> (out: Vec<Number>)
    requires
        pairs.len() > 0,
    ensures
        out@ == places(padded(pairs@, bandwidth)),
{
    grid_over(pad_span(pairs, bandwidth))
}

fn grid_over(span: Range) -> (out: Vec<Number>)
    ensures
        out@ == places(span),
{
    let last = Number::from_u64(GRID - 1);
    let mut out: Vec<Number> = Vec::new();
    let mut i: u64 = 0;
    while i < GRID
        invariant
            i <= GRID,
            last == Number::spec_from_int(GRID - 1),
            out@ == places(span).take(i as int),
        decreases GRID - i,
    {
        out.push(
            span.start.plus(span.end.minus(span.start).times(Number::from_u64(i)).over(last)),
        );
        i = i + 1;
        assert(out@ =~= places(span).take(i as int));
    }
    assert(out@ =~= places(span));
    out
}

/// The density at each place; zero where none is given.
pub open spec fn levels(density: Seq<Number>) -> Seq<Number> {
    Seq::new(
        GRID as nat,
        |i: int|
            if i < density.len() {
                density[i]
            } else {
                Number::from_bits(ZERO)
            },
    )
}

fn given_levels(density: &Vec<Number>) -> (r: (Vec<Number>, Number))
    ensures
        r.0@ == levels(density@),
        r.1 == highest_from(Number::from_bits(ZERO), levels(density@)),
{
    let ghost all = levels(density@);
    let mut out: Vec<Number> = Vec::new();
    let mut max = Number::from_bits(ZERO);
    let mut i: usize = 0;
    while i < 192
        invariant
            i <= 192,
            all == levels(density@),
            out@ == all.take(i as int),
            max == highest_from(Number::from_bits(ZERO), all.take(i as int)),
        decreases 192 - i,
    {
        assert(all.take(i + 1).drop_last() =~= all.take(i as int));
        let v = if i < density.len() {
            density[i]
        } else {
            Number::from_bits(ZERO)
        };
        out.push(v);
        if max.lt(v) {
            max = v;
        }
        i = i + 1;
        assert(out@ =~= all.take(i as int));
    }
    assert(all.take(192) =~= all);
    (out, max)
}

/// A point of a curve, by its place along the bins and its height.
pub open spec fn upright_point(axis: DensityAxis, along: Number, height: Number) -> Point {
    match axis {
        DensityAxis::X => Point { x: along, y: height },
        DensityAxis::Y => Point { x: height, y: along },
    }
}

fn stand(axis: DensityAxis, along: Number, height: Number) -> (r: Point)
    ensures
        r == upright_point(axis, along, height),
{
    match axis {
        DensityAxis::X => Point { x: along, y: height },
        DensityAxis::Y => Point { x: height, y: along },
    }
}

/// The outline of a curve: along its heights, which reach from the start of
/// the height axis for no density to its end for the greatest, and back along
/// the baseline.
pub open spec fn curve(
    axis: DensityAxis,
    bins: ScaleModel,
    heights: ScaleModel,
    span: Range,
    density: Seq<Number>,
) -> Seq<Point> {
    let base = heights.range_start();
    let reach = heights.range_end().minus(base);
    let max = highest_from(Number::from_bits(ZERO), levels(density));
    Seq::new(
        GRID as nat,
        |i: int|
            upright_point(
                axis,
                bins.map_f64(places(span)[i]),
                base.plus(levels(density)[i].over(max).times(reach)),
            ),
    ) + seq![
        upright_point(axis, bins.map_f64(span.end), base),
        upright_point(axis, bins.map_f64(span.start), base),
    ]
}

/// The span of a curve that can be drawn: it needs two distinct centres and a
/// bandwidth.
pub open spec fn curve_span(batch: Batch, bin_col: Seq<char>, bandwidth: Number) -> Option<Range> {
    match weighted_pairs(batch, bin_col) {
        Some(pairs) => if bandwidth.le(Number::from_bits(ZERO)) || pairs.last().x.le(pairs[0].x) {
            None
        } else {
            Some(padded(pairs, bandwidth))
        },
        None => None,
    }
}

/// The span that a curve widens its axis to.
pub open spec fn axis_span(batch: Batch, bin_col: Seq<char>, bandwidth: Number) -> Option<Range> {
    match weighted_pairs(batch, bin_col) {
        Some(pairs) => if Number::from_bits(ZERO).lt(bandwidth) && pairs[0].x.lt(pairs.last().x) {
            Some(padded(pairs, bandwidth))
        } else {
            None
        },
        None => None,
    }
}

/// What a density curve makes of a channel's scale: the axis of its bins is
/// widened to hold the tails, and an axis of heights that has no scale gets
/// one from nothing to one.
pub open spec fn curve_slot(
    axis: DensityAxis,
    slots: spec_fn(Channel) -> Option<ScaleModel>,
    batch: Batch,
    channel_map: ChannelMap,
    x_range: Range,
    y_range: Range,
    bandwidth: Number,
    c: Channel,
) -> Option<ScaleModel> {
    let (bin_range, height_range) = match axis {
        DensityAxis::X => (x_range, y_range),
        DensityAxis::Y => (y_range, x_range),
    };
    if c == axis.bins() {
        match channel_map.column(c) {
            Some(column) => match axis_span(batch, column, bandwidth) {
                Some(span) => merged_linear(slots(c), span.start, span.end, bin_range),
                None => slots(c),
            },
            None => slots(c),
        }
    } else if c == axis.heights() && slots(c) is None {
        Some(
            ScaleModel::Linear {
                domain_min: Number::from_bits(ZERO),
                domain_max: Number::from_bits(ONE),
                range_start: height_range.start,
                range_end: height_range.end,
            },
        )
    } else {
        slots(c)
    }
}

impl Density1DRenderer {
    /// What the mark draws: one filled curve.
    pub open spec fn drawn(
        self,
        batch: Batch,
        channel_map: ChannelMap,
        scales: ScaleSet,
        kernel: Kernel,
    ) -> Seq<Op> {
        let zero = Number::from_bits(ZERO);
        match (
            bound_to(channel_map, scales, self.axis.bins()),
            scales.at(self.axis.heights()),
        ) {
            (Some((column, bins)), Some(heights)) => match curve_span(
                batch,
                column,
                kernel.bandwidth,
            ) {
                Some(span) => if highest_from(zero, levels(kernel.density@)).le(zero) {
                    Seq::empty()
                } else {
                    seq![
                        Op::Fill(
                            single_ink(channel_map, scales.ink),
                            Outline::Path(
                                polygon(
                                    curve(self.axis, bins, heights, span, kernel.density@),
                                ),
                            ),
                        ),
                    ]
                },
                None => Seq::empty(),
            },
            _ => Seq::empty(),
        }
    }

    /// Render the mark. A highlight leaves it as it is. `kernel` holds the
    /// bandwidth of the mark's [`density_1d_weighted_pairs`] and the density at
    /// each place of their [`density_grid`].
    pub fn render(
        &self,
        scene: &mut Scene,
        batch: &Batch,
        channel_map: &ChannelMap,
        scales: &ScaleSet,
        _highlight: Option<&HighlightState>,
        kernel: &Kernel,
    )
        ensures
            final(scene)@ == old(scene)@ + self.drawn(*batch, *channel_map, *scales, *kernel),
    {
        let ghost start = scene@;
        let zero = Number::from_bits(ZERO);
        let axis = self.axis;
        assert(start + Seq::<Op>::empty() =~= start);
        let (bins, heights) = match (
            bound(channel_map, scales, axis.bins()),
            scales.get(axis.heights()),
        ) {
            (Some(b), Some(h)) => (b, h),
            _ => {
                return ;
            },
        };
        let pairs = match density_1d_weighted_pairs(batch, bins.column) {
            Some(p) => p,
            None => {
                return ;
            },
        };
        if kernel.bandwidth.le(zero) || pairs[pairs.len() - 1].x.le(pairs[0].x) {
            return ;
        }
        let span = pad_span(&pairs, kernel.bandwidth);
        let (density, max) = given_levels(&kernel.density);
        if max.le(zero) {
            return ;
        }
        let base = heights.range_start();
        let reach = heights.range_end().minus(base);
        let grid = grid_over(span);
        let ghost all = curve(axis, bins.scale@, heights@, span, kernel.density@);
        let mut points: Vec<Point> = Vec::new();
        let mut i: usize = 0;
        while i < grid.len()
            invariant
                i <= grid.len(),
                grid@ == places(span),
                density@ == levels(kernel.density@),
                max == highest_from(Number::from_bits(ZERO), levels(kernel.density@)),
                base == heights@.range_start(),
                reach == heights@.range_end().minus(base),
                all == curve(axis, bins.scale@, heights@, span, kernel.density@),
                points@ == all.take(i as int),
            decreases grid.len() - i,
        {
            let along = bins.scale.map_f64(grid[i]);
            let height = base.plus(density[i].over(max).times(reach));
            points.push(stand(axis, along, height));
            i = i + 1;
            assert(points@ =~= all.take(i as int));
        }
        points.push(stand(axis, bins.scale.map_f64(span.end), base));
        points.push(stand(axis, bins.scale.map_f64(span.start), base));
        assert(points@ =~= all);
        let steps = polygon_through(&points);
        scene.fill(constant_ink(channel_map, scales.ink), Shape::Path(steps));
        assert(scene@ =~= start + self.drawn(*batch, *channel_map, *scales, *kernel));
    }

    /// Widen the axis of the bins to hold the curve's tails, and give an axis
    /// of heights without a scale one from nothing to one.
    pub fn augment_scales(
        &self,
        scales: &mut ScaleSet,
        batch: &Batch,
        channel_map: &ChannelMap,
        x_range: Range,
        y_range: Range,
        bandwidth: Number,
    )
        ensures
            forall|c: Channel| #[trigger]
                final(scales).at(c) == curve_slot(
                    self.axis,
                    old(scales).slots(),
                    *batch,
                    *channel_map,
                    x_range,
                    y_range,
                    bandwidth,
                    c,
                ),
            final(scales).ink == old(scales).ink,
            final(scales).geo_extent == old(scales).geo_extent,
    {
        let ghost before = *scales;
        let (bin_range, height_range) = match self.axis {
            DensityAxis::X => (x_range, y_range),
            DensityAxis::Y => (y_range, x_range),
        };
        if let Some(column) = channel_map.get(self.axis.bins()) {
            if let Some(pairs) = density_1d_weighted_pairs(batch, column) {
                if Number::from_bits(ZERO).lt(bandwidth) && pairs[0].x.lt(
                    pairs[pairs.len() - 1].x,
                ) {
                    let span = pad_span(&pairs, bandwidth);
                    merge_linear_scale(
                        scales,
                        self.axis.bins(),
                        span.start,
                        span.end,
                        bin_range,
                    );
                }
            }
        }
        let ghost between = *scales;
        if scales.get(self.axis.heights()).is_none() {
            scales.insert(
                self.axis.heights(),
                Scale::Linear {
                    domain_min: Number::from_bits(ZERO),
                    domain_max: Number::from_bits(ONE),
                    range_start: height_range.start,
                    range_end: height_range.end,
                },
            );
        }
        assert forall|c: Channel| #[trigger] scales.at(c) == curve_slot(
            self.axis,
            before.slots(),
            *batch,
            *channel_map,
            x_range,
            y_range,
            bandwidth,
            c,
        ) by {
            if c != self.axis.heights() {
                assert(scales.at(c) == between.at(c));
            }
            if c != self.axis.bins() {
                assert(between.at(c) == before.at(c));
            }
        }
    }
}

/// Renders a density grid as circles whose alpha is the density.
#[derive(Debug, Clone, Copy)]
pub struct Density2DRenderer;

/// The default mark ink at an alpha.
pub open spec fn faded(ink: Rgba, t: Number) -> Rgba {
    Rgba { r: ink.r, g: ink.g, b: ink.b, a: Single::nearest(t) }
}

/// The default mark ink at an alpha.
pub fn fade(ink: Rgba, t: Number) -> (r: Rgba)
    ensures
        r == faded(ink, t),
{
    Rgba { r: ink.r, g: ink.g, b: ink.b, a: Single::nearest(t) }
}

/// What one cell of a density grid draws: a circle at its centre, unless its
/// density is too faint.
pub open spec fn dot_of_cell(
    grid: GridModel,
    x: ScaleModel,
    y: ScaleModel,
    ink: Rgba,
    k: int,
) -> Seq<Op> {
    let cols = grid.x_centres.len() as int;
    let t = grid.at(k).over(grid.max_density);
    if t.le(Number::from_bits(FAINTEST)) {
        Seq::empty()
    } else {
        seq![
            Op::Fill(
                faded(ink, t),
                Outline::Circle(
                    Point {
                        x: x.map_f64(grid.x_centres[k % cols]),
                        y: y.map_f64(grid.y_centres[k / cols]),
                    },
                    Number::from_bits(DOT_RADIUS),
                ),
            ),
        ]
    }
}

/// How many cells a grid has.
pub open spec fn cell_count(grid: GridModel) -> nat {
    (grid.y_centres.len() * grid.x_centres.len()) as nat
}

impl Density2DRenderer {
    /// What the mark draws, cell by cell.
    pub open spec fn drawn(
        self,
        batch: Batch,
        channel_map: ChannelMap,
        scales: ScaleSet,
        smoothing: Smoothing,
    ) -> Seq<Op> {
        match (
            bound_to(channel_map, scales, Channel::X),
            bound_to(channel_map, scales, Channel::Y),
        ) {
            (Some((x_col, x)), Some((y_col, y))) => match kde_grid_of(
                batch,
                x_col,
                y_col,
                None,
                smoothing,
            ) {
                Some(grid) => drawn_for(
                    cell_count(grid),
                    |k: int| dot_of_cell(grid, x, y, scales.ink.mark_default, k),
                ),
                None => Seq::empty(),
            },
            _ => Seq::empty(),
        }
    }

    /// Render the mark. A highlight leaves it as it is.
    pub fn render(
        &self,
        scene: &mut Scene,
        batch: &Batch,
        channel_map: &ChannelMap,
        scales: &ScaleSet,
        _highlight: Option<&HighlightState>,
        smoothing: &Smoothing,
    )
        ensures
            final(scene)@ == old(scene)@ + self.drawn(*batch, *channel_map, *scales, *smoothing),
    {
        let ghost start = scene@;
        assert(start + Seq::<Op>::empty() =~= start);
        let (x, y) = match (
            bound(channel_map, scales, Channel::X),
            bound(channel_map, scales, Channel::Y),
        ) {
            (Some(x), Some(y)) => (x, y),
            _ => {
                return ;
            },
        };
        let grid = match build_kde_grid(batch, x.column, y.column, None, smoothing) {
            Some(g) => g,
            None => {
                return ;
            },
        };
        let ink = scales.ink.mark_default;
        let cols = grid.cols();
        let cells = grid.cells();
        let ghost f = |k: int| dot_of_cell(grid@, x.scale@, y.scale@, ink, k);
        assert(start + drawn_for(0, f) =~= start);
        let mut k: usize = 0;
        while k < cells
            invariant
                k <= cells,
                cells == cell_count(grid@),
                cols == grid@.x_centres.len(),
                f == (|k: int| dot_of_cell(grid@, x.scale@, y.scale@, ink, k)),
                scene@ == start + drawn_for(k as nat, f),
            decreases cells - k,
        {
            let ghost here = scene@;
            proof {
                lemma_cell_of(k as int, cols as int, grid@.y_centres.len() as int);
            }
            let t = grid.at(k).over(grid.max_density);
            if !t.le(Number::from_bits(FAINTEST)) {
                let at = Point {
                    x: x.scale.map_f64(grid.x_centres[k % cols]),
                    y: y.scale.map_f64(grid.y_centres[k / cols]),
                };
                scene.fill(fade(ink, t), Shape::Circle(at, Number::from_bits(DOT_RADIUS)));
            }
            assert(scene@ =~= here + f(k as int));
            assert(here + f(k as int) =~= start + drawn_for((k + 1) as nat, f));
            k = k + 1;
        }
        assert(drawn_for(cells as nat, f) == self.drawn(
            *batch,
            *channel_map,
            *scales,
            *smoothing,
        ));
    }
}

} // verus!
