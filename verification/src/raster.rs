//! Rasters and heatmaps: binned counts and smoothed densities as colours.
use vstd::prelude::*;

use crate::batch::{number_at, value_at, Batch};
use crate::channel::{Channel, ChannelMap};
use crate::colour::Rgba;
use crate::density::{cell_count, fade, faded};
use crate::drawing::{drawn_for, Op, Outline, Scene, Shape};
use crate::folds::{column_extremes, highest_from, present};
use crate::highlight::{numbers_view, HighlightState};
use crate::infer::{merge_linear_scale, Range};
use crate::kde::{
    build_kde_grid, grid_view, kde_grid_of, lemma_cell_of, GridModel, KdeGrid, Smoothing,
    DENSITY_COUNT_COL,
};
use crate::lattice::{bin_step, centres_of, pitch, sorted_unique};
use crate::number::{lemma_format, Number};
use crate::numerals::{ONE, TWO, ZERO};
use crate::plot::{bound, bound_to};
use crate::ramp::{bin_box, fill_ramp, join_ramp, joined_ramp, lay_bin, ramp_of};
use crate::rect::{channel_column, channel_numbers};
use crate::regression::widened_to;
use crate::scale::ScaleModel;
use crate::scale_set::ScaleSet;
use crate::scheme::{scheme_stops, SequentialScheme};

verus! {

/// The least ramp position of an occupied bin: 0.15.
pub const RASTER_MIN_T: u64 = 0x3fc3_3333_3333_3333;

/// Renders one filled cell per occupied bin, coloured by its count.
#[derive(Debug, Clone, Copy)]
pub struct RasterRenderer {
    /// The continuous colour scheme.
    pub scheme: SequentialScheme,
}

impl Default for RasterRenderer {
    fn default() -> (r: RasterRenderer)
        ensures
            r.scheme == SequentialScheme::Viridis,
    {
        RasterRenderer { scheme: SequentialScheme::Viridis }
    }
}

/// The greatest count, and zero where none is positive.
pub open spec fn greatest_count(counts: Seq<Option<Number>>) -> Number {
    highest_from(Number::from_bits(ZERO), present(counts))
}

pub(crate) fn most(counts: &Vec<Option<Number>>) -> (r: Number)
    ensures
        r == greatest_count(counts@),
{
    let zero = Number::from_bits(ZERO);
    let (_, high) = column_extremes(counts, zero, zero);
    high
}

/// A count as a part of a whole, between the least ramp position and one.
pub open spec fn ramp_position(count: Number, whole: Number) -> Number {
    count.over(whole).clamp(Number::from_bits(ZERO), Number::from_bits(ONE)).max(
        Number::from_bits(RASTER_MIN_T),
    )
}

pub(crate) fn position(count: Number, whole: Number) -> (r: Number)
    ensures
        r == ramp_position(count, whole),
{
    count.over(whole).clamp(Number::from_bits(ZERO), Number::from_bits(ONE)).max(
        Number::from_bits(RASTER_MIN_T),
    )
}

/// The count that a ramp's far end stands for.
pub open spec fn ramp_top(ramp: ScaleModel, most: Number) -> Number {
    match ramp.domain_max() {
        Some(d) => if Number::from_bits(ZERO).lt(d) {
            d
        } else {
            most
        },
        None => most,
    }
}

/// The colour of an occupied bin: its place on the ramp, in the ramp's own
/// domain, or the default ink at its part of the greatest count.
pub open spec fn count_colour(scales: ScaleSet, count: Number, most: Number) -> Rgba {
    match ramp_of(scales) {
        Some(ramp) => {
            let top = ramp_top(ramp, most);
            ramp.map_continuous(ramp_position(count, top).times(top))
        },
        None => faded(scales.ink.mark_default, ramp_position(count, most)),
    }
}

fn colour_count(scales: &ScaleSet, count: Number, most: Number) -> (r: Rgba)
    ensures
        r == count_colour(*scales, count, most),
{
    match fill_ramp(scales) {
        Some(ramp) => {
            let top = match ramp.domain_max() {
                Some(d) => if Number::from_bits(ZERO).lt(d) {
                    d
                } else {
                    most
                },
                None => most,
            };
            ramp.map_continuous(position(count, top).times(top))
        },
        None => fade(scales.ink.mark_default, position(count, most)),
    }
}

/// What one row draws.
pub open spec fn raster_ops(
    scales: ScaleSet,
    x: ScaleModel,
    y: ScaleModel,
    xs: Seq<Option<Number>>,
    ys: Seq<Option<Number>>,
    counts: Seq<Option<Number>>,
    dx: Number,
    dy: Number,
    row: int,
) -> Seq<Op> {
    match (value_at(xs, row), value_at(ys, row), value_at(counts, row)) {
        (Some(cx), Some(cy), Some(count)) => if count.le(Number::from_bits(ZERO)) {
            Seq::empty()
        } else {
            match bin_box(x, y, cx, cy, dx, dy) {
                Some(r) => seq![
                    Op::Fill(
                        count_colour(scales, count, greatest_count(counts)),
                        Outline::Rect(r),
                    ),
                ],
                None => Seq::empty(),
            }
        },
        _ => Seq::empty(),
    }
}

/// The span of a column of bin centres, with half a bin on each side.
pub open spec fn bin_span(values: Option<Seq<Option<Number>>>) -> Option<Range> {
    match values {
        Some(v) => {
            let centres = centres_of(present(v));
            match pitch(centres) {
                Some(step) => if centres.len() > 0 {
                    let half = step.over(Number::from_bits(TWO));
                    Some(
                        Range {
                            start: centres[0].minus(half),
                            end: centres.last().plus(half),
                        },
                    )
                } else {
                    None
                },
                None => None,
            }
        },
        None => None,
    }
}

fn span_of_bins(values: &Option<Vec<Option<Number>>>) -> (r: Option<Range>)
    ensures
        r == bin_span(numbers_view(*values)),
{
    match values {
        Some(v) => {
            let centres = sorted_unique(v);
            match bin_step(&centres) {
                Some(step) => if centres.len() > 0 {
                    let half = step.over(Number::from_bits(TWO));
                    Some(
                        Range {
                            start: centres[0].minus(half),
                            end: centres[centres.len() - 1].plus(half),
                        },
                    )
                } else {
                    None
                },
                None => None,
            }
        },
        None => None,
    }
}

/// What a raster makes of a channel's scale: the axes are widened by half a
/// bin, and the counts get a ramp from zero to the greatest.
pub open spec fn raster_slot(
    scheme: SequentialScheme,
    slots: spec_fn(Channel) -> Option<ScaleModel>,
    batch: Batch,
    channel_map: ChannelMap,
    x_range: Range,
    y_range: Range,
    meridian: Seq<Rgba>,
    c: Channel,
) -> Option<ScaleModel> {
    match c {
        Channel::X => widened_to(
            slots(c),
            bin_span(channel_numbers(batch, channel_map, c)),
            x_range,
        ),
        Channel::Y => widened_to(
            slots(c),
            bin_span(channel_numbers(batch, channel_map, c)),
            y_range,
        ),
        Channel::Fill => match batch.numbers(DENSITY_COUNT_COL@) {
            Some(counts) => if Number::from_bits(ZERO).lt(greatest_count(counts)) {
                joined_ramp(
                    slots(c),
                    Range { start: Number::from_bits(ZERO), end: greatest_count(counts) },
                    scheme_stops(scheme, meridian),
                )
            } else {
                slots(c)
            },
            None => slots(c),
        },
        _ => slots(c),
    }
}

impl RasterRenderer {
    /// What the mark draws.
    pub open spec fn drawn(self, batch: Batch, channel_map: ChannelMap, scales: ScaleSet) -> Seq<
        Op,
    > {
        match (
            bound_to(channel_map, scales, Channel::X),
            bound_to(channel_map, scales, Channel::Y),
        ) {
            (Some((x_col, x)), Some((y_col, y))) => match (
                batch.numbers(x_col),
                batch.numbers(y_col),
                batch.numbers(DENSITY_COUNT_COL@),
            ) {
                (Some(xs), Some(ys), Some(counts)) => match (
                    pitch(centres_of(present(xs))),
                    pitch(centres_of(present(ys))),
                ) {
                    (Some(dx), Some(dy)) => if greatest_count(counts).le(
                        Number::from_bits(ZERO),
                    ) {
                        Seq::empty()
                    } else {
                        drawn_for(
                            batch.rows as nat,
                            |row: int| raster_ops(scales, x, y, xs, ys, counts, dx, dy, row),
                        )
                    },
                    _ => Seq::empty(),
                },
                _ => Seq::empty(),
            },
            _ => Seq::empty(),
        }
    }

    /// Render the mark. A highlight leaves it as it is.
    pub fn render(
        &self,
        scene: &mut Scene,
        batch: &Batch,
        channel_map: &ChannelMap,
        scales: &ScaleSet,
        _highlight: Option<&HighlightState>,
    )
        ensures
            final(scene)@ == old(scene)@ + self.drawn(*batch, *channel_map, *scales),
    {
        let ghost start = scene@;
        assert(start + Seq::<Op>::empty() =~= start);
        let (x, y) = match (
            bound(channel_map, scales, Channel::X),
            bound(channel_map, scales, Channel::Y),
        ) {
            (Some(x), Some(y)) => (x, y),
            _ => {
                return ;
            },
        };
        let (xs, ys, counts) = match (
            batch.column_as_f64(x.column),
            batch.column_as_f64(y.column),
            batch.column_as_f64(DENSITY_COUNT_COL),
        ) {
            (Some(a), Some(b), Some(c)) => (a, b, c),
            _ => {
                return ;
            },
        };
        let (dx, dy) = match (bin_step(&sorted_unique(&xs)), bin_step(&sorted_unique(&ys))) {
            (Some(a), Some(b)) => (a, b),
            _ => {
                return ;
            },
        };
        let most = most(&counts);
        if most.le(Number::from_bits(ZERO)) {
            return ;
        }
        let ghost f = |row: int|
            raster_ops(*scales, x.scale@, y.scale@, xs@, ys@, counts@, dx, dy, row);
        assert(start + drawn_for(0, f) =~= start);
        let mut row: usize = 0;
        while row < batch.rows
            invariant
                row <= batch.rows,
                most == greatest_count(counts@),
                f == (|row: int|
                    raster_ops(*scales, x.scale@, y.scale@, xs@, ys@, counts@, dx, dy, row)),
                scene@ == start + drawn_for(row as nat, f),
            decreases batch.rows - row,
        {
            let ghost here = scene@;
            if let (Some(cx), Some(cy), Some(count)) = (
                number_at(&xs, row),
                number_at(&ys, row),
                number_at(&counts, row),
            ) {
                if !count.le(Number::from_bits(ZERO)) {
                    if let Some(r) = lay_bin(x.scale, y.scale, cx, cy, dx, dy) {
                        scene.fill(colour_count(scales, count, most), Shape::Rect(r));
                    }
                }
            }
            assert(scene@ =~= here + f(row as int));
            assert(here + f(row as int) =~= start + drawn_for((row + 1) as nat, f));
            row = row + 1;
        }
        assert(drawn_for(batch.rows as nat, f) == self.drawn(*batch, *channel_map, *scales));
    }

    /// Widen the axes by half a bin, so that the outermost cells fit, and give
    /// the counts a ramp. A sibling's ramp widens and keeps its colours; a
    /// sibling's palette stays.
    pub fn augment_scales(
        &self,
        scales: &mut ScaleSet,
        batch: &Batch,
        channel_map: &ChannelMap,
        x_range: Range,
        y_range: Range,
        meridian: &Vec<Rgba>,
    )
        ensures
            forall|c: Channel| #[trigger]
                final(scales).at(c) == raster_slot(
                    self.scheme,
                    old(scales).slots(),
                    *batch,
                    *channel_map,
                    x_range,
                    y_range,
                    meridian@,
                    c,
                ),
            final(scales).ink == old(scales).ink,
            final(scales).geo_extent == old(scales).geo_extent,
    {
        let ghost before = *scales;
        let xs = channel_column(batch, channel_map, Channel::X);
        if let Some(span) = span_of_bins(&xs) {
            merge_linear_scale(scales, Channel::X, span.start, span.end, x_range);
        }
        let ghost one = *scales;
        let ys = channel_column(batch, channel_map, Channel::Y);
        if let Some(span) = span_of_bins(&ys) {
            merge_linear_scale(scales, Channel::Y, span.start, span.end, y_range);
        }
        let ghost two = *scales;
        if let Some(counts) = batch.column_as_f64(DENSITY_COUNT_COL) {
            let most = most(&counts);
            let zero = Number::from_bits(ZERO);
            if zero.lt(most) {
                join_ramp(scales, Range { start: zero, end: most }, self.scheme, meridian);
            }
        }
        assert forall|c: Channel| #[trigger] scales.at(c) == raster_slot(
            self.scheme,
            before.slots(),
            *batch,
            *channel_map,
            x_range,
            y_range,
            meridian@,
            c,
        ) by {
            if c != Channel::Fill {
                assert(scales.at(c) == two.at(c));
            }
            if c != Channel::Y {
                assert(two.at(c) == one.at(c));
            }
            if c != Channel::X {
                assert(one.at(c) == before.at(c));
            }
        }
    }
}

/// Renders a smoothed density as filled grid cells, every cell of the grid.
#[derive(Debug, Clone, Copy)]
pub struct HeatmapRenderer {
    /// The continuous colour scheme.
    pub scheme: SequentialScheme,
    /// Explicit bandwidth in data units on both axes.
    pub bandwidth: Option<Number>,
}

impl Default for HeatmapRenderer {
    fn default() -> (r: HeatmapRenderer)
        ensures
            r.scheme == SequentialScheme::Viridis,
            r.bandwidth is None,
    {
        HeatmapRenderer { scheme: SequentialScheme::Viridis, bandwidth: None }
    }
}

/// The pitch that cells are drawn at: that of their centres, or the grid's own.
pub open spec fn draw_pitch(centres: Seq<Number>, step: Number) -> Number {
    match pitch(centres) {
        Some(w) => w,
        None => step,
    }
}

fn drawn_pitch(centres: &Vec<Number>, step: Number) -> (r: Number)
    ensures
        r == draw_pitch(centres@, step),
{
    match bin_step(centres) {
        Some(w) => w,
        None => step,
    }
}

/// The colour of a density.
pub open spec fn density_colour(scales: ScaleSet, value: Number, max: Number) -> Rgba {
    match ramp_of(scales) {
        Some(ramp) => ramp.map_continuous(value),
        None => faded(
            scales.ink.mark_default,
            value.over(max).clamp(Number::from_bits(ZERO), Number::from_bits(ONE)),
        ),
    }
}

fn colour_density(scales: &ScaleSet, value: Number, max: Number) -> (r: Rgba)
    ensures
        r == density_colour(*scales, value, max),
{
    match fill_ramp(scales) {
        Some(ramp) => ramp.map_continuous(value),
        None => fade(
            scales.ink.mark_default,
            value.over(max).clamp(Number::from_bits(ZERO), Number::from_bits(ONE)),
        ),
    }
}

/// What one cell of a heatmap draws.
pub open spec fn heat_ops(
    grid: GridModel,
    scales: ScaleSet,
    x: ScaleModel,
    y: ScaleModel,
    k: int,
) -> Seq<Op> {
    let cols = grid.x_centres.len() as int;
    match bin_box(
        x,
        y,
        grid.x_centres[k % cols],
        grid.y_centres[k / cols],
        draw_pitch(grid.x_centres, grid.dx),
        draw_pitch(grid.y_centres, grid.dy),
    ) {
        Some(r) => seq![
            Op::Fill(density_colour(scales, grid.at(k), grid.max_density), Outline::Rect(r)),
        ],
        None => Seq::empty(),
    }
}

/// The span of a lattice, with half a cell on each side.
pub open spec fn lattice_span(centres: Seq<Number>, step: Number) -> Option<Range> {
    if centres.len() > 0 {
        let half = draw_pitch(centres, step).over(Number::from_bits(TWO));
        Some(Range { start: centres[0].minus(half), end: centres.last().plus(half) })
    } else {
        None
    }
}

fn span_of_lattice(centres: &Vec<Number>, step: Number) -> (r: Option<Range>)
    ensures
        r == lattice_span(centres@, step),
{
    if centres.len() > 0 {
        let half = drawn_pitch(centres, step).over(Number::from_bits(TWO));
        Some(
            Range {
                start: centres[0].minus(half),
                end: centres[centres.len() - 1].plus(half),
            },
        )
    } else {
        None
    }
}

/// The smoothed grid of a mark's two columns.
pub open spec fn mark_grid(
    batch: Batch,
    channel_map: ChannelMap,
    bandwidth: Option<Number>,
    smoothing: Smoothing,
) -> Option<GridModel> {
    match (channel_map.column(Channel::X), channel_map.column(Channel::Y)) {
        (Some(x_col), Some(y_col)) => kde_grid_of(batch, x_col, y_col, bandwidth, smoothing),
        _ => None,
    }
}

/// The smoothed grid of a mark's two columns.
pub fn build_mark_grid(
    batch: &Batch,
    channel_map: &ChannelMap,
    bandwidth: Option<Number>,
    smoothing: &Smoothing,
) -> (r: Option<KdeGrid>)
    ensures
        grid_view(r) == mark_grid(*batch, *channel_map, bandwidth, *smoothing),
        r matches Some(g) ==> g@.y_centres.len() * g@.x_centres.len() <= usize::MAX,
{
    match (channel_map.get(Channel::X), channel_map.get(Channel::Y)) {
        (Some(x_col), Some(y_col)) => build_kde_grid(batch, x_col, y_col, bandwidth, smoothing),
        _ => None,
    }
}

/// What a heatmap makes of a channel's scale.
pub open spec fn heat_slot(
    heatmap: HeatmapRenderer,
    slots: spec_fn(Channel) -> Option<ScaleModel>,
    batch: Batch,
    channel_map: ChannelMap,
    x_range: Range,
    y_range: Range,
    meridian: Seq<Rgba>,
    smoothing: Smoothing,
    c: Channel,
) -> Option<ScaleModel> {
    match mark_grid(batch, channel_map, heatmap.bandwidth, smoothing) {
        Some(grid) => match c {
            Channel::X => widened_to(
                slots(c),
                lattice_span(grid.x_centres, grid.dx),
                x_range,
            ),
            Channel::Y => widened_to(
                slots(c),
                lattice_span(grid.y_centres, grid.dy),
                y_range,
            ),
            Channel::Fill => joined_ramp(
                slots(c),
                Range { start: Number::from_bits(ZERO), end: grid.max_density },
                scheme_stops(heatmap.scheme, meridian),
            ),
            _ => slots(c),
        },
        None => slots(c),
    }
}

impl HeatmapRenderer {
    /// What the mark draws.
    pub open spec fn drawn(
        self,
        batch: Batch,
        channel_map: ChannelMap,
        scales: ScaleSet,
        smoothing: Smoothing,
    ) -> Seq<Op> {
        match (
            scales.at(Channel::X),
            scales.at(Channel::Y),
            mark_grid(batch, channel_map, self.bandwidth, smoothing),
        ) {
            (Some(x), Some(y), Some(grid)) => drawn_for(
                cell_count(grid),
                |k: int| heat_ops(grid, scales, x, y, k),
            ),
            _ => Seq::empty(),
        }
    }

    /// Render the mark. A highlight leaves it as it is.
    pub fn render(
        &self,
        scene: &mut Scene,
        batch: &Batch,
        channel_map: &ChannelMap,
        scales: &ScaleSet,
        _highlight: Option<&HighlightState>,
        smoothing: &Smoothing,
    )
        ensures
            final(scene)@ == old(scene)@ + self.drawn(*batch, *channel_map, *scales, *smoothing),
    {
        let ghost start = scene@;
        assert(start + Seq::<Op>::empty() =~= start);
        let (x, y) = match (scales.get(Channel::X), scales.get(Channel::Y)) {
            (Some(x), Some(y)) => (x, y),
            _ => {
                return ;
            },
        };
        let grid = match build_mark_grid(batch, channel_map, self.bandwidth, smoothing) {
            Some(g) => g,
            None => {
                return ;
            },
        };
        let dx = drawn_pitch(&grid.x_centres, grid.dx);
        let dy = drawn_pitch(&grid.y_centres, grid.dy);
        let cols = grid.cols();
        let cells = grid.cells();
        let ghost f = |k: int| heat_ops(grid@, *scales, x@, y@, k);
        assert(start + drawn_for(0, f) =~= start);
        let mut k: usize = 0;
        while k < cells
            invariant
                k <= cells,
                cells == cell_count(grid@),
                cols == grid@.x_centres.len(),
                dx == draw_pitch(grid@.x_centres, grid@.dx),
                dy == draw_pitch(grid@.y_centres, grid@.dy),
                f == (|k: int| heat_ops(grid@, *scales, x@, y@, k)),
                scene@ == start + drawn_for(k as nat, f),
            decreases cells - k,
        {
            let ghost here = scene@;
            proof {
                lemma_cell_of(k as int, cols as int, grid@.y_centres.len() as int);
            }
            if let Some(r) = lay_bin(
                x,
                y,
                grid.x_centres[k % cols],
                grid.y_centres[k / cols],
                dx,
                dy,
            ) {
                scene.fill(colour_density(scales, grid.at(k), grid.max_density), Shape::Rect(r));
            }
            assert(scene@ =~= here + f(k as int));
            assert(here + f(k as int) =~= start + drawn_for((k + 1) as nat, f));
            k = k + 1;
        }
        assert(drawn_for(cells as nat, f) == self.drawn(
            *batch,
            *channel_map,
            *scales,
            *smoothing,
        ));
    }

    /// Widen the axes by half a cell and give the density a ramp, as a raster
    /// does for its counts.
    pub fn augment_scales(
        &self,
        scales: &mut ScaleSet,
        batch: &Batch,
        channel_map: &ChannelMap,
        x_range: Range,
        y_range: Range,
        meridian: &Vec<Rgba>,
        smoothing: &Smoothing,
    )
        ensures
            forall|c: Channel| #[trigger]
                final(scales).at(c) == heat_slot(
                    *self,
                    old(scales).slots(),
                    *batch,
                    *channel_map,
                    x_range,
                    y_range,
                    meridian@,
                    *smoothing,
                    c,
                ),
            final(scales).ink == old(scales).ink,
            final(scales).geo_extent == old(scales).geo_extent,
    {
        let ghost before = *scales;
        let grid = match build_mark_grid(batch, channel_map, self.bandwidth, smoothing) {
            Some(g) => g,
            None => {
                return ;
            },
        };
        if let Some(span) = span_of_lattice(&grid.x_centres, grid.dx) {
            merge_linear_scale(scales, Channel::X, span.start, span.end, x_range);
        }
        let ghost one = *scales;
        if let Some(span) = span_of_lattice(&grid.y_centres, grid.dy) {
            merge_linear_scale(scales, Channel::Y, span.start, span.end, y_range);
        }
        let ghost two = *scales;
        let domain = Range { start: Number::from_bits(ZERO), end: grid.max_density };
        join_ramp(scales, domain, self.scheme, meridian);
        assert forall|c: Channel| #[trigger] scales.at(c) == heat_slot(
            *self,
            before.slots(),
            *batch,
            *channel_map,
            x_range,
            y_range,
            meridian@,
            *smoothing,
            c,
        ) by {
            if c != Channel::Fill {
                assert(scales.at(c) == two.at(c));
            }
            if c != Channel::Y {
                assert(two.at(c) == one.at(c));
            }
            if c != Channel::X {
                assert(one.at(c) == before.at(c));
            }
        }
    }
}

/// An occupied bin is visible: its place on the ramp is never below the least,
/// nor past the end.
pub proof fn an_occupied_bin_is_visible(count: Number, whole: Number)
    ensures
        Number::from_bits(RASTER_MIN_T).le(ramp_position(count, whole)),
        ramp_position(count, whole).le(Number::from_bits(ONE)),
{
    lemma_format();
}

} // verus!
