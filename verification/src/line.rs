//! Lines and areas.
use vstd::prelude::*;

use crate::batch::{number_at, value_at, Batch};
use crate::channel::{Channel, ChannelMap};
use crate::colour::Rgba;
use crate::dash::{line_pieces, pieces, segment_ops, stroke_segments};
use crate::drawing::{polygon, polygon_through, Op, Outline, Point, Scene, Shape};
use crate::folds::present;
use crate::highlight::HighlightState;
use crate::number::Number;
use crate::numerals::ZERO;
use crate::paint::{constant_ink, resolve_colour, row_colour, single_ink};
use crate::plot::{bound, bound_to, pixel};
use crate::regression::LINE_STROKE_WIDTH;
use crate::scale::ScaleModel;
use crate::scale_set::ScaleSet;
use crate::single::Single;
use crate::sorting::{along_x, along_y, sort_along_x, sort_along_y};

verus! {

/// Fill alpha for area marks: 0.75.
pub const AREA_FILL_ALPHA: u32 = 0x3f40_0000;

/// The pixel of a row that has a number on both axes.
pub open spec fn row_pixel(
    x: ScaleModel,
    y: ScaleModel,
    xs: Seq<Option<Number>>,
    ys: Seq<Option<Number>>,
    row: int,
) -> Option<Point> {
    match (value_at(xs, row), value_at(ys, row)) {
        (Some(u), Some(v)) => Some(pixel(x, y, u, v)),
        _ => None,
    }
}

/// The pixels of the rows that have a number on both axes, in row order. None
/// where an axis lacks a column of numbers or a scale.
pub open spec fn row_pixels(batch: Batch, channel_map: ChannelMap, scales: ScaleSet) -> Option<
    Seq<Point>,
> {
    match (
        bound_to(channel_map, scales, Channel::X),
        bound_to(channel_map, scales, Channel::Y),
    ) {
        (Some((x_col, x)), Some((y_col, y))) => match (
            batch.numbers(x_col),
            batch.numbers(y_col),
        ) {
            (Some(xs), Some(ys)) => Some(
                present(Seq::new(batch.rows as nat, |row: int| row_pixel(x, y, xs, ys, row))),
            ),
            _ => None,
        },
        _ => None,
    }
}

fn pixels(batch: &Batch, channel_map: &ChannelMap, scales: &ScaleSet) -> (r: Option<Vec<Point>>)
    ensures
        r is Some <==> row_pixels(*batch, *channel_map, *scales) is Some,
        r matches Some(v) ==> row_pixels(*batch, *channel_map, *scales) == Some(v@),
{
    let (x, y) = match (
        bound(channel_map, scales, Channel::X),
        bound(channel_map, scales, Channel::Y),
    ) {
        (Some(x), Some(y)) => (x, y),
        _ => {
            return None;
        },
    };
    let (xs, ys) = match (batch.column_as_f64(x.column), batch.column_as_f64(y.column)) {
        (Some(xs), Some(ys)) => (xs, ys),
        _ => {
            return None;
        },
    };
    let ghost all = Seq::new(
        batch.rows as nat,
        |row: int| row_pixel(x.scale@, y.scale@, xs@, ys@, row),
    );
    let mut out: Vec<Point> = Vec::new();
    let mut row: usize = 0;
    assert(all.take(0) =~= Seq::<Option<Point>>::empty());
    while row < batch.rows
        invariant
            row <= batch.rows,
            all == Seq::new(
                batch.rows as nat,
                |row: int| row_pixel(x.scale@, y.scale@, xs@, ys@, row),
            ),
            out@ == present(all.take(row as int)),
        decreases batch.rows - row,
    {
        assert(all.take(row + 1).drop_last() =~= all.take(row as int));
        if let (Some(u), Some(v)) = (number_at(&xs, row), number_at(&ys, row)) {
            out.push(Point { x: x.scale.map_f64(u), y: y.scale.map_f64(v) });
        }
        row = row + 1;
    }
    assert(all.take(row as int) =~= all);
    Some(out)
}

/// Renders line marks as a connected path in x-order.
#[derive(Debug, Clone, Copy)]
pub struct LineRenderer;

impl LineRenderer {
    /// What the mark draws: the straight pieces between neighbouring points in
    /// x-order, all in one ink.
    pub open spec fn drawn(self, batch: Batch, channel_map: ChannelMap, scales: ScaleSet) -> Seq<
        Op,
    > {
        match row_pixels(batch, channel_map, scales) {
            Some(points) => segment_ops(
                pieces(along_x(points)),
                Number::from_bits(LINE_STROKE_WIDTH),
                single_ink(channel_map, scales.ink),
            ),
            None => Seq::empty(),
        }
    }

    /// Render the mark. A highlight leaves it as it is.
    pub fn render(
        &self,
        scene: &mut Scene,
        batch: &Batch,
        channel_map: &ChannelMap,
        scales: &ScaleSet,
        _highlight: Option<&HighlightState>,
    )
        ensures
            final(scene)@ == old(scene)@ + self.drawn(*batch, *channel_map, *scales),
    {
        let ghost start = scene@;
        let points = match pixels(batch, channel_map, scales) {
            Some(p) => p,
            None => {
                assert(start + Seq::<Op>::empty() =~= start);
                return ;
            },
        };
        let points = sort_along_x(&points);
        let segments = line_pieces(&points);
        let colour = constant_ink(channel_map, scales.ink);
        stroke_segments(scene, &segments, Number::from_bits(LINE_STROKE_WIDTH), colour);
    }
}

/// Which axis an area mark is oriented along.
#[derive(Debug, Clone, Copy, PartialEq, Eq, Structural)]
pub enum AreaAxis {
    /// Filled vertically between the `y = 0` baseline and the value line, its
    /// points ordered along x.
    Y,
    /// Filled horizontally between the `x = 0` baseline and the value line,
    /// its points ordered along y.
    X,
}

/// Renders an area mark: the band between a zero baseline and the value line,
/// filled.
#[derive(Debug, Clone, Copy)]
pub struct AreaRenderer {
    /// Orientation.
    pub axis: AreaAxis,
}

/// The outline of an area: up from the baseline, along the value line, and
/// back down to the baseline.
pub open spec fn area_outline(axis: AreaAxis, points: Seq<Point>, baseline: Number) -> Seq<Point> {
    let first = points[0];
    let last = points.last();
    match axis {
        AreaAxis::Y => seq![Point { x: first.x, y: baseline }] + points + seq![
            Point { x: last.x, y: baseline },
        ],
        AreaAxis::X => seq![Point { x: baseline, y: first.y }] + points + seq![
            Point { x: baseline, y: last.y },
        ],
    }
}

fn outline(axis: AreaAxis, points: &Vec<Point>, baseline: Number) -> (out: Vec<Point>)
    requires
        points.len() > 0,
    ensures
        out@ == area_outline(axis, points@, baseline),
{
    let first = points[0];
    let last = points[points.len() - 1];
    let mut out: Vec<Point> = Vec::new();
    out.push(
        match axis {
            AreaAxis::Y => Point { x: first.x, y: baseline },
            AreaAxis::X => Point { x: baseline, y: first.y },
        },
    );
    let ghost all = area_outline(axis, points@, baseline);
    let mut i: usize = 0;
    assert(out@ =~= all.take(1));
    while i < points.len()
        invariant
            i <= points.len(),
            points.len() > 0,
            all == area_outline(axis, points@, baseline),
            out@ == all.take(i + 1),
        decreases points.len() - i,
    {
        out.push(points[i]);
        i = i + 1;
        assert(out@ =~= all.take(i + 1));
    }
    out.push(
        match axis {
            AreaAxis::Y => Point { x: last.x, y: baseline },
            AreaAxis::X => Point { x: baseline, y: last.y },
        },
    );
    assert(out@ =~= all);
    out
}

/// A colour at the softened alpha of an area.
pub open spec fn softened(colour: Rgba) -> Rgba {
    Rgba {
        r: colour.r,
        g: colour.g,
        b: colour.b,
        a: colour.a.times(Single::from_bits(AREA_FILL_ALPHA)),
    }
}

/// A colour at the softened alpha of an area.
pub fn soften(colour: Rgba) -> (r: Rgba)
    ensures
        r == softened(colour),
{
    Rgba {
        r: colour.r,
        g: colour.g,
        b: colour.b,
        a: colour.a.times(Single::from_bits(AREA_FILL_ALPHA)),
    }
}

impl AreaRenderer {
    /// Where the zero of the value axis lies.
    pub open spec fn baseline(self, scales: ScaleSet) -> Number {
        let zero = Number::from_bits(ZERO);
        match self.axis {
            AreaAxis::Y => scales.at(Channel::Y)->0.map_f64(zero),
            AreaAxis::X => scales.at(Channel::X)->0.map_f64(zero),
        }
    }

    /// What the mark draws: one filled outline, of at least two points.
    pub open spec fn drawn(self, batch: Batch, channel_map: ChannelMap, scales: ScaleSet) -> Seq<
        Op,
    > {
        match row_pixels(batch, channel_map, scales) {
            Some(points) => if points.len() < 2 {
                Seq::empty()
            } else {
                let line = match self.axis {
                    AreaAxis::Y => along_x(points),
                    AreaAxis::X => along_y(points),
                };
                seq![
                    Op::Fill(
                        softened(row_colour(scales, channel_map, batch, 0)),
                        Outline::Path(
                            polygon(area_outline(self.axis, line, self.baseline(scales))),
                        ),
                    ),
                ]
            },
            None => Seq::empty(),
        }
    }

    /// Render the mark. A highlight leaves it as it is.
    pub fn render(
        &self,
        scene: &mut Scene,
        batch: &Batch,
        channel_map: &ChannelMap,
        scales: &ScaleSet,
        _highlight: Option<&HighlightState>,
    )
        ensures
            final(scene)@ == old(scene)@ + self.drawn(*batch, *channel_map, *scales),
    {
        let ghost start = scene@;
        let points = match pixels(batch, channel_map, scales) {
            Some(p) => p,
            None => {
                assert(start + Seq::<Op>::empty() =~= start);
                return ;
            },
        };
        if points.len() < 2 {
            assert(start + Seq::<Op>::empty() =~= start);
            return ;
        }
        let value = match self.axis {
            AreaAxis::Y => scales.get(Channel::Y),
            AreaAxis::X => scales.get(Channel::X),
        };
        if let Some(value) = value {
            let baseline = value.map_f64(Number::from_bits(ZERO));
            let line = match self.axis {
                AreaAxis::Y => sort_along_x(&points),
                AreaAxis::X => sort_along_y(&points),
            };
            let edge = outline(self.axis, &line, baseline);
            let steps = polygon_through(&edge);
            let colour = soften(resolve_colour(scales, channel_map, batch, 0));
            scene.fill(colour, Shape::Path(steps));
            assert(scene@ =~= start + self.drawn(*batch, *channel_map, *scales));
        }
    }

    pub open spec fn spec_zero_baseline_channel(&self) -> Option<Channel> {
        match self.axis {
            AreaAxis::Y => Some(Channel::Y),
            AreaAxis::X => Some(Channel::X),
        }
    }

    /// The channel whose domain must hold zero: the value axis.
    #[verifier::when_used_as_spec(spec_zero_baseline_channel)]
    pub fn zero_baseline_channel(&self) -> (r: Option<Channel>)
        ensures
            r == self.spec_zero_baseline_channel(),
    {
        match self.axis {
            AreaAxis::Y => Some(Channel::Y),
            AreaAxis::X => Some(Channel::X),
        }
    }
}

} // verus!
