//! Contours: lines of equal density.
use vstd::prelude::*;

use crate::batch::Batch;
use crate::channel::{Channel, ChannelMap};
use crate::colour::Rgba;
use crate::drawing::{drawn_for, line_through, polyline, Op, Outline, Point, Scene, Shape};
use crate::folds::present;
use crate::highlight::HighlightState;
use crate::kde::Smoothing;
use crate::number::Number;
use crate::paint::{constant_ink, single_ink};
use crate::plot::pixel;
use crate::raster::{build_mark_grid, mark_grid};
use crate::regression::LINE_STROKE_WIDTH;
use crate::scale::{Scale, ScaleModel};
use crate::scale_set::ScaleSet;

verus! {

/// How many levels are drawn where a mark names no number.
pub const DEFAULT_CONTOUR_LEVELS: usize = 10;

/// Renders lines of equal density over the grid that a heatmap shades.
#[derive(Debug, Clone, Copy)]
pub struct ContourRenderer {
    /// Number of levels.
    pub thresholds: Option<usize>,
    /// Explicit bandwidth in data units on both axes.
    pub bandwidth: Option<Number>,
}

impl Default for ContourRenderer {
    fn default() -> (r: ContourRenderer)
        ensures
            r.thresholds is None,
            r.bandwidth is None,
    {
        ContourRenderer { thresholds: None, bandwidth: None }
    }
}

/// The pixel of a point of a contour, where it is finite.
pub open spec fn finite_pixel(x: ScaleModel, y: ScaleModel, p: Point) -> Option<Point> {
    let at = pixel(x, y, p.x, p.y);
    if at.x.is_finite() && at.y.is_finite() {
        Some(at)
    } else {
        None
    }
}

/// The pixels of a contour that are finite.
pub open spec fn finite_pixels(x: ScaleModel, y: ScaleModel, line: Seq<Point>) -> Seq<Point> {
    present(line.map_values(|p: Point| finite_pixel(x, y, p)))
}

fn pixels(x: &Scale, y: &Scale, line: &Vec<Point>) -> (out: Vec<Point>)
    ensures
        out@ == finite_pixels(x@, y@, line@),
{
    let ghost all = line@.map_values(|p: Point| finite_pixel(x@, y@, p));
    let mut out: Vec<Point> = Vec::new();
    let mut i: usize = 0;
    assert(all.take(0) =~= Seq::<Option<Point>>::empty());
    while i < line.len()
        invariant
            i <= line.len(),
            all == line@.map_values(|p: Point| finite_pixel(x@, y@, p)),
            out@ == present(all.take(i as int)),
        decreases line.len() - i,
    {
        assert(all.take(i + 1).drop_last() =~= all.take(i as int));
        let at = Point { x: x.map_f64(line[i].x), y: y.map_f64(line[i].y) };
        if at.x.is_finite() && at.y.is_finite() {
            out.push(at);
        }
        i = i + 1;
    }
    assert(all.take(i as int) =~= all);
    out
}

/// What one contour draws: the line through its finite pixels, if there are
/// any.
pub open spec fn contour_ops(x: ScaleModel, y: ScaleModel, ink: Rgba, line: Seq<Point>) -> Seq<Op> {
    let points = finite_pixels(x, y, line);
    if points.len() == 0 {
        Seq::empty()
    } else {
        seq![
            Op::Stroke(
                Number::from_bits(LINE_STROKE_WIDTH),
                ink,
                Outline::Path(polyline(points)),
            ),
        ]
    }
}

/// The contours of a level among those given; none where none are.
pub open spec fn lines_at(levels: Seq<Vec<Vec<Point>>>, i: int) -> Seq<Vec<Point>> {
    if 0 <= i < levels.len() {
        levels[i]@
    } else {
        Seq::empty()
    }
}

/// What the contours of one level draw.
pub open spec fn level_ops(
    x: ScaleModel,
    y: ScaleModel,
    ink: Rgba,
    lines: Seq<Vec<Point>>,
) -> Seq<Op> {
    drawn_for(lines.len(), |i: int| contour_ops(x, y, ink, lines[i]@))
}

fn draw_level(scene: &mut Scene, x: &Scale, y: &Scale, ink: Rgba, lines: &Vec<Vec<Point>>)
    ensures
        final(scene)@ == old(scene)@ + level_ops(x@, y@, ink, lines@),
{
    let ghost start = scene@;
    let ghost f = |i: int| contour_ops(x@, y@, ink, lines@[i]@);
    assert(start + drawn_for(0, f) =~= start);
    let mut i: usize = 0;
    while i < lines.len()
        invariant
            i <= lines.len(),
            f == (|i: int| contour_ops(x@, y@, ink, lines@[i]@)),
            scene@ == start + drawn_for(i as nat, f),
        decreases lines.len() - i,
    {
        let ghost here = scene@;
        let points = pixels(x, y, &lines[i]);
        if points.len() > 0 {
            let steps = line_through(&points);
            scene.stroke(Number::from_bits(LINE_STROKE_WIDTH), ink, Shape::Path(steps));
        }
        assert(scene@ =~= here + f(i as int));
        assert(here + f(i as int) =~= start + drawn_for((i + 1) as nat, f));
        i = i + 1;
    }
}

impl ContourRenderer {
    pub open spec fn spec_level_count(&self) -> usize {
        match self.thresholds {
            Some(n) => n,
            None => DEFAULT_CONTOUR_LEVELS,
        }
    }

    /// How many evenly spaced levels the mark asks for.
    #[verifier::when_used_as_spec(spec_level_count)]
    pub fn level_count(&self) -> (r: usize)
        ensures
            r == self.spec_level_count(),
    {
        match self.thresholds {
            Some(n) => n,
            None => DEFAULT_CONTOUR_LEVELS,
        }
    }

    /// What the mark draws.
    pub open spec fn drawn(
        self,
        batch: Batch,
        channel_map: ChannelMap,
        scales: ScaleSet,
        smoothing: Smoothing,
        levels: Seq<Vec<Vec<Point>>>,
    ) -> Seq<Op> {
        match (
            scales.at(Channel::X),
            scales.at(Channel::Y),
            mark_grid(batch, channel_map, self.bandwidth, smoothing),
        ) {
            (Some(x), Some(y), Some(_)) => drawn_for(
                self.level_count() as nat,
                |i: int|
                    level_ops(x, y, single_ink(channel_map, scales.ink), lines_at(levels, i)),
            ),
            _ => Seq::empty(),
        }
    }

    /// Render the mark. A highlight leaves it as it is. `levels` holds the
    /// contours of the mark's grid in data units, a list for each of its
    /// [`ContourRenderer::level_count`] levels; they are traced elsewhere.
    /// Lists beyond that number are not drawn.
    pub fn render(
        &self,
        scene: &mut Scene,
        batch: &Batch,
        channel_map: &ChannelMap,
        scales: &ScaleSet,
        _highlight: Option<&HighlightState>,
        smoothing: &Smoothing,
        levels: &Vec<Vec<Vec<Point>>>,
    )
        ensures
            final(scene)@ == old(scene)@ + self.drawn(
                *batch,
                *channel_map,
                *scales,
                *smoothing,
                levels@,
            ),
    {
        let ghost start = scene@;
        assert(start + Seq::<Op>::empty() =~= start);
        let (x, y) = match (scales.get(Channel::X), scales.get(Channel::Y)) {
            (Some(x), Some(y)) => (x, y),
            _ => {
                return ;
            },
        };
        if build_mark_grid(batch, channel_map, self.bandwidth, smoothing).is_none() {
            return ;
        }
        let ink = constant_ink(channel_map, scales.ink);
        let n = if self.level_count() < levels.len() {
            self.level_count()
        } else {
            levels.len()
        };
        let ghost f = |i: int| level_ops(x@, y@, ink, lines_at(levels@, i));
        assert(start + drawn_for(0, f) =~= start);
        let mut i: usize = 0;
        while i < n
            invariant
                i <= n <= levels.len(),
                f == (|i: int| level_ops(x@, y@, ink, lines_at(levels@, i))),
                scene@ == start + drawn_for(i as nat, f),
            decreases n - i,
        {
            let ghost here = scene@;
            draw_level(scene, x, y, ink, &levels[i]);
            assert(scene@ =~= here + f(i as int));
            assert(here + f(i as int) =~= start + drawn_for((i + 1) as nat, f));
            i = i + 1;
        }
        proof {
            lemma_rest_is_empty(f, n as nat, self.level_count() as nat);
        }
        assert(drawn_for(self.level_count() as nat, f) == self.drawn(
            *batch,
            *channel_map,
            *scales,
            *smoothing,
            levels@,
        ));
    }
}

/// Where the rest draw nothing, the first draw it all.
proof fn lemma_rest_is_empty(f: spec_fn(int) -> Seq<Op>, i: nat, n: nat)
    requires
        i <= n,
        forall|k: int| i <= k < n ==> #[trigger] f(k) == Seq::<Op>::empty(),
    ensures
        drawn_for(n, f) == drawn_for(i, f),
    decreases n - i,
{
    if i < n {
        lemma_rest_is_empty(f, i, (n - 1) as nat);
        assert(f(n - 1) == Seq::<Op>::empty());
        assert(drawn_for(n, f) =~= drawn_for((n - 1) as nat, f));
    }
}

} // verus!
