//! Geography: the rectangle a projected plot shows, the meridians and
//! parallels it draws behind its marks, and the fit of a map into a plot.
use vstd::prelude::*;

use crate::bounds::{
    lemma_difference_keeps_order, lemma_half_keeps_order, lemma_integers_keep_order,
    lemma_middle_stays_between, lemma_next_integer, lemma_sum_keeps_order, lemma_times_keeps_order,
};
use crate::cartography::{path_planar, project_path, Trig};
use crate::drawing::{drawn_for, line_through, polyline, Op, Outline, Point, Rect, Scene, Shape};
use crate::colour::Rgba;
use crate::infer::Range;
use crate::number::{lemma_format, lemma_rank_is_value_order, Number, FRACTIONS, INFINITE};
use crate::numerals::{BILLIONTH, ONE, TWO, ZERO};
use crate::projection::Projection;
use crate::scale::{Scale, ScaleModel};

verus! {

/// The narrowest span a [`GeoExtent`] will represent, in degrees: 0.0001.
pub const MIN_EXTENT_DEGREES: u64 = 0x3f1a_36e2_eb1c_432d;

/// The latitude beyond which the Mercator projection has no position, in
/// degrees: 85.0511287798066.
pub const MERCATOR_CLIP_LAT: u64 = 0x4055_4345_b1a5_49d7;

/// 180.
pub const HALF_TURN: u64 = 0x4066_8000_0000_0000;

/// 90.
pub const QUARTER_TURN: u64 = 0x4056_8000_0000_0000;

/// How many intervals a span must be divided into before a step is fine
/// enough: 6.
pub const GRATICULE_MIN_INTERVALS: u64 = 0x4018_0000_0000_0000;

/// How many intervals each graticule line is sampled over.
pub const GRATICULE_INTERVALS: u64 = 32;

/// Graticule hairline width in pixels: 0.5.
pub const GRATICULE_STROKE_WIDTH: u64 = 0x3fe0_0000_0000_0000;

/// The geographic rectangle a projected mark is showing, in degrees.
#[derive(Debug, Clone, Copy, PartialEq, Eq, Structural)]
pub struct GeoExtent {
    /// West edge, degrees.
    pub lon_min: Number,
    /// East edge, degrees.
    pub lon_max: Number,
    /// South edge, degrees.
    pub lat_min: Number,
    /// North edge, degrees.
    pub lat_max: Number,
}

/// Two bounds held to a range and, where they are closer than the narrowest
/// span, moved apart to it about their middle, or about the nearest place that
/// leaves room for it.
pub open spec fn widened(lo: Number, hi: Number, floor: Number, ceil: Number) -> (Number, Number) {
    let a = lo.clamp(floor, ceil);
    let b = hi.clamp(floor, ceil);
    let narrowest = Number::from_bits(MIN_EXTENT_DEGREES);
    if narrowest.le(b.minus(a)) {
        (a, b)
    } else {
        let two = Number::from_bits(TWO);
        let half = narrowest.over(two);
        let mid = a.plus(b).over(two).clamp(floor.plus(half), ceil.minus(half));
        (mid.minus(half).max(floor), mid.plus(half).min(ceil))
    }
}

fn widen(lo: Number, hi: Number, floor: Number, ceil: Number) -> (r: (Number, Number))
    ensures
        r == widened(lo, hi, floor, ceil),
{
    let a = lo.clamp(floor, ceil);
    let b = hi.clamp(floor, ceil);
    let narrowest = Number::from_bits(MIN_EXTENT_DEGREES);
    if narrowest.le(b.minus(a)) {
        return (a, b);
    }
    let two = Number::from_bits(TWO);
    let half = narrowest.over(two);
    let mid = a.plus(b).over(two).clamp(floor.plus(half), ceil.minus(half));
    (mid.minus(half).max(floor), mid.plus(half).min(ceil))
}

impl GeoExtent {
    /// Order the bounds and clamp them to the sphere. A degenerate span is
    /// widened to the narrowest.
    #[must_use]
    pub fn new(lon_a: Number, lon_b: Number, lat_a: Number, lat_b: Number) -> (r: GeoExtent)
        ensures
            ({
                let half = Number::from_bits(HALF_TURN);
                let quarter = Number::from_bits(QUARTER_TURN);
                &&& (r.lon_min, r.lon_max) == widened(
                    lon_a.min(lon_b),
                    lon_a.max(lon_b),
                    half.negated(),
                    half,
                )
                &&& (r.lat_min, r.lat_max) == widened(
                    lat_a.min(lat_b),
                    lat_a.max(lat_b),
                    quarter.negated(),
                    quarter,
                )
            }),
    {
        let half = Number::from_bits(HALF_TURN);
        let quarter = Number::from_bits(QUARTER_TURN);
        let (lon_min, lon_max) = widen(
            lon_a.min(lon_b),
            lon_a.max(lon_b),
            half.negated(),
            half,
        );
        let (lat_min, lat_max) = widen(
            lat_a.min(lat_b),
            lat_a.max(lat_b),
            quarter.negated(),
            quarter,
        );
        GeoExtent { lon_min, lon_max, lat_min, lat_max }
    }

    pub open spec fn spec_lon_span(&self) -> Number {
        self.lon_max.minus(self.lon_min)
    }

    /// East-west span in degrees.
    #[must_use]
    #[verifier::when_used_as_spec(spec_lon_span)]
    pub fn lon_span(&self) -> (r: Number)
        ensures
            r == self.spec_lon_span(),
    {
        self.lon_max.minus(self.lon_min)
    }

    pub open spec fn spec_lat_span(&self) -> Number {
        self.lat_max.minus(self.lat_min)
    }

    /// North-south span in degrees.
    #[must_use]
    #[verifier::when_used_as_spec(spec_lat_span)]
    pub fn lat_span(&self) -> (r: Number)
        ensures
            r == self.spec_lat_span(),
    {
        self.lat_max.minus(self.lat_min)
    }
}

/// Whether a graticule line holds a constant longitude or a constant latitude.
#[derive(Debug, Clone, Copy, PartialEq, Eq, Structural)]
pub enum GraticuleKind {
    /// Constant longitude, running north-south.
    Meridian,
    /// Constant latitude, running east-west.
    Parallel,
}

/// The spacings a graticule may take, coarsest first: whole degrees from 90 to
/// 1, then fractions down to 0.01.
pub open spec fn ladder() -> Seq<u64> {
    seq![
        0x4056_8000_0000_0000,
        0x4046_8000_0000_0000,
        0x403e_0000_0000_0000,
        0x4034_0000_0000_0000,
        0x402e_0000_0000_0000,
        0x4024_0000_0000_0000,
        0x4014_0000_0000_0000,
        0x4000_0000_0000_0000,
        0x3ff0_0000_0000_0000,
        0x3fe0_0000_0000_0000,
        0x3fc9_9999_9999_999a,
        0x3fb9_9999_9999_999a,
        0x3fa9_9999_9999_999a,
        0x3f94_7ae1_47ae_147b,
        0x3f84_7ae1_47ae_147b,
    ]
}

fn rungs() -> (r: Vec<u64>)
    ensures
        r@ == ladder(),
{
    let mut v: Vec<u64> = Vec::new();
    v.push(0x4056_8000_0000_0000);
    v.push(0x4046_8000_0000_0000);
    v.push(0x403e_0000_0000_0000);
    v.push(0x4034_0000_0000_0000);
    v.push(0x402e_0000_0000_0000);
    v.push(0x4024_0000_0000_0000);
    v.push(0x4014_0000_0000_0000);
    v.push(0x4000_0000_0000_0000);
    v.push(0x3ff0_0000_0000_0000);
    v.push(0x3fe0_0000_0000_0000);
    v.push(0x3fc9_9999_9999_999a);
    v.push(0x3fb9_9999_9999_999a);
    v.push(0x3fa9_9999_9999_999a);
    v.push(0x3f94_7ae1_47ae_147b);
    v.push(0x3f84_7ae1_47ae_147b);
    assert(v@ =~= ladder());
    v
}

/// Whether a rung of the ladder divides a span finely enough.
pub open spec fn fine_enough(span: Number, rung: u64) -> bool {
    Number::from_bits(GRATICULE_MIN_INTERVALS).le(span.abs().over(Number::from_bits(rung)))
}

/// The coarsest spacing that divides `span` into at least six intervals, or
/// the finest the ladder offers when none does.
#[must_use]
pub fn graticule_step(span: Number) -> (r: Number)
    ensures
        exists|i: int|
            {
                &&& 0 <= i < ladder().len()
                &&& r == Number::from_bits(#[trigger] ladder()[i])
                &&& fine_enough(span, ladder()[i]) || i == ladder().len() - 1
                &&& forall|j: int| 0 <= j < i ==> !fine_enough(span, #[trigger] ladder()[j])
            },
{
    let rungs = rungs();
    let size = span.abs();
    let mut i: usize = 0;
    while i < rungs.len()
        invariant
            i <= rungs.len(),
            rungs@ == ladder(),
            size == span.abs(),
            forall|j: int| 0 <= j < i ==> !fine_enough(span, #[trigger] ladder()[j]),
        decreases rungs.len() - i,
    {
        let step = Number::from_bits(rungs[i]);
        if Number::from_bits(GRATICULE_MIN_INTERVALS).le(size.over(step)) {
            assert(step == Number::from_bits(ladder()[i as int]));
            return step;
        }
        i = i + 1;
    }
    let last: usize = rungs.len() - 1;
    assert(Number::from_bits(rungs@[last as int]) == Number::from_bits(ladder()[last as int]));
    Number::from_bits(rungs[last])
}

/// The spacing a graticule takes over a span.
pub open spec fn spacing(span: Number) -> Number {
    Number::from_bits(ladder()[rung_of(span, 0)])
}

/// The first rung from `i` on that is fine enough, or the last.
pub open spec fn rung_of(span: Number, i: int) -> int
    decreases ladder().len() - i,
{
    if i >= ladder().len() - 1 || fine_enough(span, ladder()[i]) {
        i
    } else {
        rung_of(span, i + 1)
    }
}

proof fn lemma_rung(span: Number, from: int, i: int)
    requires
        0 <= from <= i < ladder().len(),
        fine_enough(span, ladder()[i]) || i == ladder().len() - 1,
        forall|j: int| 0 <= j < i ==> !fine_enough(span, #[trigger] ladder()[j]),
    ensures
        rung_of(span, from) == i,
    decreases i - from,
{
    if from < i {
        assert(!fine_enough(span, ladder()[from]));
        lemma_rung(span, from + 1, i);
    }
}

/// The multiples of `step` inside `lo` to `hi`, ascending.
pub open spec fn multiples(lo: Number, hi: Number, step: Number) -> Seq<Number> {
    let first = lo.over(step).ceil();
    let last = hi.over(step).floor();
    let n = last.to_i64() - first.to_i64() + 1;
    if first.le(last) && n > 0 {
        Seq::new(
            n as nat,
            |k: int|
                if k == 0 {
                    first.times(step)
                } else {
                    Number::spec_from_int(first.to_i64() + k).times(step)
                },
        )
    } else {
        Seq::empty()
    }
}

/// The multiples of `step` inside `lo` to `hi`, ascending, so that the lines a
/// reader sees stand at whole numbers of steps.
fn ticks(lo: Number, hi: Number, step: Number) -> (out: Vec<Number>)
    ensures
        out@ == multiples(lo, hi, step),
{
    let first = lo.over(step).ceil();
    let last = hi.over(step).floor();
    let mut out: Vec<Number> = Vec::new();
    if !first.le(last) {
        return out;
    }
    let from = first.to_i64();
    let to = last.to_i64();
    if from > to {
        return out;
    }
    out.push(first.times(step));
    let mut i: i64 = from;
    let ghost all = multiples(lo, hi, step);
    assert(out@ =~= all.take(1));
    while i < to
        invariant
            from <= i <= to,
            all == multiples(lo, hi, step),
            first == lo.over(step).ceil(),
            last == hi.over(step).floor(),
            first.le(last),
            from == first.to_i64(),
            to == last.to_i64(),
            out@ == all.take(i - from + 1),
        decreases to - i,
    {
        i = i + 1;
        out.push(Number::from_i64(i).times(step));
        assert(out@ =~= all.take(i - from + 1));
    }
    assert(all.take(to - from + 1) =~= all);
    out
}

/// Evenly spaced values from `lo` to `hi`, both included.
pub open spec fn evenly(lo: Number, hi: Number) -> Seq<Number> {
    Seq::new(
        33,
        |i: int|
            lo.plus(
                hi.minus(lo).times(
                    Number::spec_from_int(i).over(
                        Number::spec_from_int(GRATICULE_INTERVALS as int),
                    ),
                ),
            ),
    )
}

fn samples(lo: Number, hi: Number) -> (out: Vec<Number>)
    ensures
        out@ == evenly(lo, hi),
{
    let mut out: Vec<Number> = Vec::new();
    let last = Number::from_u64(GRATICULE_INTERVALS);
    let mut i: u64 = 0;
    while i < 33
        invariant
            i <= 33,
            last == Number::spec_from_int(GRATICULE_INTERVALS as int),
            out@ == evenly(lo, hi).take(i as int),
        decreases 33 - i,
    {
        let t = Number::from_u64(i).over(last);
        out.push(lo.plus(hi.minus(lo).times(t)));
        i = i + 1;
        assert(out@ =~= evenly(lo, hi).take(i as int));
    }
    assert(evenly(lo, hi).take(33) =~= evenly(lo, hi));
    out
}

/// One graticule line before it is projected: the degree it stands at, and the
/// coordinates it runs through, each a longitude and a latitude.
#[derive(Debug)]
pub struct GraticulePath {
    pub kind: GraticuleKind,
    pub degrees: Number,
    pub coordinates: Vec<Point>,
}

/// A graticule line as a mathematical value.
pub struct PathModel {
    pub kind: GraticuleKind,
    pub degrees: Number,
    pub coordinates: Seq<Point>,
}

impl View for GraticulePath {
    type V = PathModel;

    open spec fn view(&self) -> PathModel {
        PathModel {
            kind: self.kind,
            degrees: self.degrees,
            coordinates: self.coordinates@,
        }
    }
}

/// The meridian at a longitude, sampled over the latitudes of an extent.
pub open spec fn meridian(extent: GeoExtent, lon: Number) -> PathModel {
    PathModel {
        kind: GraticuleKind::Meridian,
        degrees: lon,
        coordinates: evenly(extent.lat_min, extent.lat_max).map_values(
            |lat: Number| Point { x: lon, y: lat },
        ),
    }
}

/// The parallel at a latitude, sampled over the longitudes of an extent.
pub open spec fn parallel(extent: GeoExtent, lat: Number) -> PathModel {
    PathModel {
        kind: GraticuleKind::Parallel,
        degrees: lat,
        coordinates: evenly(extent.lon_min, extent.lon_max).map_values(
            |lon: Number| Point { x: lon, y: lat },
        ),
    }
}

/// The meridians and parallels visible in an extent: meridians first, then
/// parallels, each in ascending degree order.
pub open spec fn graticule_model(extent: GeoExtent) -> Seq<PathModel> {
    multiples(extent.lon_min, extent.lon_max, spacing(extent.lon_span())).map_values(
        |lon: Number| meridian(extent, lon),
    ) + multiples(extent.lat_min, extent.lat_max, spacing(extent.lat_span())).map_values(
        |lat: Number| parallel(extent, lat),
    )
}

/// Graticule lines as mathematical values.
pub open spec fn path_views(v: Seq<GraticulePath>) -> Seq<PathModel> {
    v.map_values(|p: GraticulePath| p@)
}

fn spaced(span: Number) -> (r: Number)
    ensures
        r == spacing(span),
{
    let r = graticule_step(span);
    proof {
        let i = choose|i: int|
            {
                &&& 0 <= i < ladder().len()
                &&& r == Number::from_bits(#[trigger] ladder()[i])
                &&& fine_enough(span, ladder()[i]) || i == ladder().len() - 1
                &&& forall|j: int| 0 <= j < i ==> !fine_enough(span, #[trigger] ladder()[j])
            };
        lemma_rung(span, 0, i);
    }
    r
}

fn along(values: &Vec<Number>, fixed: Number, upright: bool) -> (out: Vec<Point>)
    ensures
        upright ==> out@ == values@.map_values(|v: Number| Point { x: fixed, y: v }),
        !upright ==> out@ == values@.map_values(|v: Number| Point { x: v, y: fixed }),
{
    let mut out: Vec<Point> = Vec::new();
    let mut i: usize = 0;
    while i < values.len()
        invariant
            i <= values.len(),
            out.len() == i,
            forall|k: int|
                0 <= k < i ==> #[trigger] out@[k] == if upright {
                    Point { x: fixed, y: values@[k] }
                } else {
                    Point { x: values@[k], y: fixed }
                },
        decreases values.len() - i,
    {
        if upright {
            out.push(Point { x: fixed, y: values[i] });
        } else {
            out.push(Point { x: values[i], y: fixed });
        }
        i = i + 1;
    }
    if upright {
        assert(out@ =~= values@.map_values(|v: Number| Point { x: fixed, y: v }));
    } else {
        assert(out@ =~= values@.map_values(|v: Number| Point { x: v, y: fixed }));
    }
    out
}

/// The meridians and parallels visible in `extent`, before projection. The
/// extent alone decides which lines exist and how far apart they are.
#[must_use]
pub fn graticule(extent: GeoExtent) -> (out: Vec<GraticulePath>)
    ensures
        path_views(out@) == graticule_model(extent),
{
    let mut out: Vec<GraticulePath> = Vec::new();
    let lats = samples(extent.lat_min, extent.lat_max);
    let lons = samples(extent.lon_min, extent.lon_max);
    let meridians = ticks(extent.lon_min, extent.lon_max, spaced(extent.lon_span()));
    let parallels = ticks(extent.lat_min, extent.lat_max, spaced(extent.lat_span()));
    let ghost first = meridians@.map_values(|lon: Number| meridian(extent, lon));
    let ghost second = parallels@.map_values(|lat: Number| parallel(extent, lat));
    let mut i: usize = 0;
    while i < meridians.len()
        invariant
            i <= meridians.len(),
            lats@ == evenly(extent.lat_min, extent.lat_max),
            first == meridians@.map_values(|lon: Number| meridian(extent, lon)),
            out.len() == i,
            forall|k: int| 0 <= k < i ==> (#[trigger] out@[k])@ == first[k],
        decreases meridians.len() - i,
    {
        let lon = meridians[i];
        let coordinates = along(&lats, lon, true);
        out.push(
            GraticulePath { kind: GraticuleKind::Meridian, degrees: lon, coordinates },
        );
        i = i + 1;
    }
    let mut j: usize = 0;
    while j < parallels.len()
        invariant
            j <= parallels.len(),
            lons@ == evenly(extent.lon_min, extent.lon_max),
            second == parallels@.map_values(|lat: Number| parallel(extent, lat)),
            out.len() == first.len() + j,
            forall|k: int| 0 <= k < first.len() ==> (#[trigger] out@[k])@ == first[k],
            forall|k: int|
                first.len() <= k < first.len() + j ==> (#[trigger] out@[k])@ == second[k
                    - first.len()],
        decreases parallels.len() - j,
    {
        let lat = parallels[j];
        let coordinates = along(&lons, lat, false);
        out.push(
            GraticulePath { kind: GraticuleKind::Parallel, degrees: lat, coordinates },
        );
        j = j + 1;
    }
    assert(path_views(out@) =~= first + second);
    out
}

/// One graticule line: the degree it stands at, and its projected polyline of
/// at least two points.
#[derive(Debug)]
pub struct GraticuleLine {
    pub kind: GraticuleKind,
    pub degrees: Number,
    pub points: Vec<Point>,
}

impl View for GraticuleLine {
    type V = PathModel;

    open spec fn view(&self) -> PathModel {
        PathModel { kind: self.kind, degrees: self.degrees, coordinates: self.points@ }
    }
}

/// Projected lines as mathematical values.
pub open spec fn line_views(v: Seq<GraticuleLine>) -> Seq<PathModel> {
    v.map_values(|l: GraticuleLine| l@)
}

/// Runs of at least two that are done, and the run that is open.
pub struct Runs {
    pub done: Seq<Seq<Point>>,
    pub open: Seq<Point>,
}

/// The runs with the open one ended: kept where it has at least two points.
pub open spec fn flushed(r: Runs) -> Seq<Seq<Point>> {
    if r.open.len() >= 2 {
        r.done.push(r.open)
    } else {
        r.done
    }
}

/// The runs after the first `n` points, a point without a position ending the
/// run it stands in.
pub open spec fn runs_after(planar: Seq<Option<Point>>, n: nat) -> Runs
    decreases n,
{
    if n == 0 {
        Runs { done: Seq::empty(), open: Seq::empty() }
    } else {
        let before = runs_after(planar, (n - 1) as nat);
        match planar[n - 1] {
            Some(p) => Runs { done: before.done, open: before.open.push(p) },
            None => Runs { done: flushed(before), open: Seq::empty() },
        }
    }
}

/// The contiguous runs of at least two points that have a position.
pub open spec fn runs_of(planar: Seq<Option<Point>>) -> Seq<Seq<Point>> {
    flushed(runs_after(planar, planar.len()))
}

/// Lists of points as mathematical values.
pub open spec fn point_views(v: Seq<Vec<Point>>) -> Seq<Seq<Point>> {
    v.map_values(|p: Vec<Point>| p@)
}

/// The contiguous runs of at least two points that have a position. A line
/// that its projection cannot represent along its whole length comes back in
/// pieces rather than with a chord across the gap.
pub fn split_runs(planar: &Vec<Option<Point>>) -> (out: Vec<Vec<Point>>)
    ensures
        point_views(out@) == runs_of(planar@),
{
    let mut done: Vec<Vec<Point>> = Vec::new();
    let mut open: Vec<Point> = Vec::new();
    let mut i: usize = 0;
    assert(point_views(done@) =~= Seq::<Seq<Point>>::empty());
    while i < planar.len()
        invariant
            i <= planar.len(),
            point_views(done@) == runs_after(planar@, i as nat).done,
            open@ == runs_after(planar@, i as nat).open,
        decreases planar.len() - i,
    {
        match planar[i] {
            Some(p) => {
                open.push(p);
            },
            None => {
                let ghost before = done@;
                let ghost was = open@;
                if open.len() >= 2 {
                    done.push(open);
                    assert(point_views(done@) =~= point_views(before).push(was));
                }
                open = Vec::new();
            },
        }
        i = i + 1;
    }
    let ghost before = done@;
    let ghost was = open@;
    if open.len() >= 2 {
        done.push(open);
        assert(point_views(done@) =~= point_views(before).push(was));
    }
    done
}

/// What is given for the coordinates of a line; nothing where nothing is.
pub open spec fn angles_at(angles: Seq<Vec<Trig>>, i: int) -> Seq<Trig> {
    if 0 <= i < angles.len() {
        angles[i]@
    } else {
        Seq::empty()
    }
}

/// The projected lines of the first `n` paths: one for each run of a path,
/// standing at the path's degree.
pub open spec fn projected_lines(
    projection: Projection,
    paths: Seq<PathModel>,
    angles: Seq<Vec<Trig>>,
    n: nat,
) -> Seq<PathModel>
    decreases n,
{
    if n == 0 {
        Seq::empty()
    } else {
        let path = paths[n - 1];
        let planar = path_planar(projection, path.coordinates, angles_at(angles, n - 1));
        projected_lines(projection, paths, angles, (n - 1) as nat) + runs_of(planar).map_values(
            |run: Seq<Point>|
                PathModel { kind: path.kind, degrees: path.degrees, coordinates: run },
        )
    }
}

/// The projected lines of an extent's graticule.
pub open spec fn graticule_of(
    projection: Projection,
    extent: GeoExtent,
    angles: Seq<Vec<Trig>>,
) -> Seq<PathModel> {
    let paths = graticule_model(extent);
    projected_lines(projection, paths, angles, paths.len())
}

/// The projected lines of an extent's graticule, given what the elementary
/// functions are at the coordinates of each of its [`graticule`] paths. A path
/// comes back as one line per contiguous run.
pub fn graticule_lines(projection: Projection, extent: GeoExtent, angles: &Vec<Vec<Trig>>) -> (out:
    Vec<GraticuleLine>)
    ensures
        line_views(out@) == graticule_of(projection, extent, angles@),
{
    let paths = graticule(extent);
    let ghost models = path_views(paths@);
    let none: Vec<Trig> = Vec::new();
    let mut out: Vec<GraticuleLine> = Vec::new();
    let mut i: usize = 0;
    assert(line_views(out@) =~= Seq::<PathModel>::empty());
    while i < paths.len()
        invariant
            i <= paths.len(),
            models == path_views(paths@),
            none@ == Seq::<Trig>::empty(),
            line_views(out@) == projected_lines(projection, models, angles@, i as nat),
        decreases paths.len() - i,
    {
        let planar = if i < angles.len() {
            project_path(projection, &paths[i].coordinates, &angles[i])
        } else {
            project_path(projection, &paths[i].coordinates, &none)
        };
        let runs = split_runs(&planar);
        let kind = paths[i].kind;
        let degrees = paths[i].degrees;
        let ghost before = out@;
        let ghost added = point_views(runs@).map_values(
            |run: Seq<Point>| PathModel { kind, degrees, coordinates: run },
        );
        let mut j: usize = 0;
        assert(line_views(out@) =~= line_views(before) + added.take(0));
        while j < runs.len()
            invariant
                j <= runs.len(),
                added == point_views(runs@).map_values(
                    |run: Seq<Point>| PathModel { kind, degrees, coordinates: run },
                ),
                line_views(out@) == line_views(before) + added.take(j as int),
            decreases runs.len() - j,
        {
            let ghost was = out@;
            let points = copied_points(&runs[j]);
            let line = GraticuleLine { kind, degrees, points };
            out.push(line);
            assert(line_views(out@) =~= line_views(was).push(line@));
            j = j + 1;
            assert(line_views(out@) =~= line_views(before) + added.take(j as int));
        }
        assert(added.take(j as int) =~= added);
        assert(models[i as int] == paths@[i as int]@);
        i = i + 1;
        assert(line_views(out@) =~= projected_lines(projection, models, angles@, i as nat));
    }
    out
}

fn copied_points(v: &Vec<Point>) -> (out: Vec<Point>)
    ensures
        out@ == v@,
{
    let mut out: Vec<Point> = Vec::new();
    let mut i: usize = 0;
    while i < v.len()
        invariant
            i <= v.len(),
            out@ == v@.take(i as int),
        decreases v.len() - i,
    {
        out.push(v[i]);
        i = i + 1;
        assert(out@ =~= v@.take(i as int));
    }
    assert(v@.take(i as int) =~= v@);
    out
}

/// Whether two pixels are the same to within a billionth.
pub open spec fn close_to(a: Point, b: Point) -> bool {
    let tiny = Number::from_bits(BILLIONTH);
    a.x.minus(b.x).abs().lt(tiny) && a.y.minus(b.y).abs().lt(tiny)
}

fn same_point(a: Point, b: Point) -> (r: bool)
    ensures
        r == close_to(a, b),
{
    let tiny = Number::from_bits(BILLIONTH);
    a.x.minus(b.x).abs().lt(tiny) && a.y.minus(b.y).abs().lt(tiny)
}

/// The part of a segment, between two fractions of its length.
#[derive(Debug, Clone, Copy, PartialEq, Eq, Structural)]
pub struct Portion {
    pub from: Number,
    pub to: Number,
}

/// What one edge leaves of a portion: the segment runs against the edge at
/// speed `p` and starts `q` inside it.
pub open spec fn cut(t: Option<Portion>, p: Number, q: Number) -> Option<Portion> {
    let zero = Number::from_bits(ZERO);
    match t {
        None => None,
        Some(t) => {
            if p.same(zero) {
                if q.lt(zero) {
                    None
                } else {
                    Some(t)
                }
            } else {
                let r = q.over(p);
                if p.lt(zero) {
                    if t.to.lt(r) {
                        None
                    } else {
                        Some(Portion { from: t.from.max(r), to: t.to })
                    }
                } else if r.lt(t.from) {
                    None
                } else {
                    Some(Portion { from: t.from, to: t.to.min(r) })
                }
            }
        },
    }
}

fn cut_portion(t: Option<Portion>, p: Number, q: Number) -> (r: Option<Portion>)
    ensures
        r == cut(t, p, q),
{
    let zero = Number::from_bits(ZERO);
    match t {
        None => None,
        Some(t) => {
            if p.same(zero) {
                if q.lt(zero) {
                    None
                } else {
                    Some(t)
                }
            } else {
                let r = q.over(p);
                if p.lt(zero) {
                    if t.to.lt(r) {
                        None
                    } else {
                        Some(Portion { from: t.from.max(r), to: t.to })
                    }
                } else if r.lt(t.from) {
                    None
                } else {
                    Some(Portion { from: t.from, to: t.to.min(r) })
                }
            }
        },
    }
}

/// The portion of a segment that lies inside a rectangle, edge after edge.
pub open spec fn portion_inside(a: Point, b: Point, rect: Rect) -> Option<Portion> {
    let dx = b.x.minus(a.x);
    let dy = b.y.minus(a.y);
    let whole = Some(Portion { from: Number::from_bits(ZERO), to: Number::from_bits(ONE) });
    let t = cut(
        cut(
            cut(
                cut(whole, dx.negated(), a.x.minus(rect.x0)),
                dx,
                rect.x1.minus(a.x),
            ),
            dy.negated(),
            a.y.minus(rect.y0),
        ),
        dy,
        rect.y1.minus(a.y),
    );
    match t {
        Some(t) => if t.to.lt(t.from) {
            None
        } else {
            Some(t)
        },
        None => None,
    }
}

/// The two ends of a clipped segment.
pub open spec fn clipped(a: Point, b: Point, rect: Rect) -> Option<(Point, Point)> {
    let dx = b.x.minus(a.x);
    let dy = b.y.minus(a.y);
    match portion_inside(a, b, rect) {
        Some(t) => Some(
            (
                Point { x: a.x.plus(t.from.times(dx)), y: a.y.plus(t.from.times(dy)) },
                Point { x: a.x.plus(t.to.times(dx)), y: a.y.plus(t.to.times(dy)) },
            ),
        ),
        None => None,
    }
}

/// The portion of segment `a` to `b` inside `rect`, or `None`.
pub fn clip_segment(a: Point, b: Point, rect: Rect) -> (r: Option<(Point, Point)>)
    ensures
        r == clipped(a, b, rect),
{
    let dx = b.x.minus(a.x);
    let dy = b.y.minus(a.y);
    let whole = Some(Portion { from: Number::from_bits(ZERO), to: Number::from_bits(ONE) });
    let left = cut_portion(whole, dx.negated(), a.x.minus(rect.x0));
    let right = cut_portion(left, dx, rect.x1.minus(a.x));
    let top = cut_portion(right, dy.negated(), a.y.minus(rect.y0));
    match cut_portion(top, dy, rect.y1.minus(a.y)) {
        Some(t) => {
            if t.to.lt(t.from) {
                return None;
            }
            Some(
                (
                    Point { x: a.x.plus(t.from.times(dx)), y: a.y.plus(t.from.times(dy)) },
                    Point { x: a.x.plus(t.to.times(dx)), y: a.y.plus(t.to.times(dy)) },
                ),
            )
        },
        None => None,
    }
}

/// The runs of a polyline inside a rectangle after its first `n` segments: a
/// segment outside ends the run, one that continues the last point extends it,
/// and any other starts a new one.
pub open spec fn clip_runs(points: Seq<Point>, rect: Rect, n: nat) -> Runs
    decreases n,
{
    if n == 0 {
        Runs { done: Seq::empty(), open: Seq::empty() }
    } else {
        let before = clip_runs(points, rect, (n - 1) as nat);
        match clipped(points[n - 1], points[n as int], rect) {
            None => Runs { done: flushed(before), open: Seq::empty() },
            Some((a, b)) => {
                if before.open.len() > 0 && close_to(before.open.last(), a) {
                    Runs { done: before.done, open: before.open.push(b) }
                } else {
                    Runs { done: flushed(before), open: seq![a, b] }
                }
            },
        }
    }
}

/// The runs of a polyline that lie inside a rectangle.
pub open spec fn clipped_runs(points: Seq<Point>, rect: Rect) -> Seq<Seq<Point>> {
    flushed(
        clip_runs(
            points,
            rect,
            if points.len() == 0 {
                0
            } else {
                (points.len() - 1) as nat
            },
        ),
    )
}

/// Split a pixel polyline into the runs that lie inside `rect`, taking a
/// crossing segment to the boundary.
pub fn clip_polyline(points: &Vec<Point>, rect: Rect) -> (out: Vec<Vec<Point>>)
    ensures
        point_views(out@) == clipped_runs(points@, rect),
{
    let mut done: Vec<Vec<Point>> = Vec::new();
    let mut open: Vec<Point> = Vec::new();
    let mut i: usize = 0;
    assert(point_views(done@) =~= Seq::<Seq<Point>>::empty());
    let n: usize = if points.len() == 0 {
        0
    } else {
        points.len() - 1
    };
    while i < n
        invariant
            i <= n,
            n == if points.len() == 0 {
                0
            } else {
                points.len() - 1
            },
            point_views(done@) == clip_runs(points@, rect, i as nat).done,
            open@ == clip_runs(points@, rect, i as nat).open,
        decreases n - i,
    {
        let ghost before = done@;
        let ghost was = open@;
        match clip_segment(points[i], points[i + 1], rect) {
            None => {
                if open.len() >= 2 {
                    done.push(open);
                    assert(point_views(done@) =~= point_views(before).push(was));
                }
                open = Vec::new();
            },
            Some((a, b)) => {
                if open.len() > 0 && same_point(open[open.len() - 1], a) {
                    open.push(b);
                } else {
                    if open.len() >= 2 {
                        done.push(open);
                        assert(point_views(done@) =~= point_views(before).push(was));
                    }
                    open = Vec::new();
                    open.push(a);
                    open.push(b);
                    assert(open@ =~= seq![a, b]);
                }
            },
        }
        i = i + 1;
    }
    let ghost before = done@;
    let ghost was = open@;
    if open.len() >= 2 {
        done.push(open);
        assert(point_views(done@) =~= point_views(before).push(was));
    }
    done
}

/// The pixel rectangle two linear scales map onto, its corners in order.
pub open spec fn rect_of_scales(x: ScaleModel, y: ScaleModel) -> Option<Rect> {
    match (x, y) {
        (
            ScaleModel::Linear { range_start: xs, range_end: xe, .. },
            ScaleModel::Linear { range_start: ys, range_end: ye, .. },
        ) => Some(Rect { x0: xs.min(xe), y0: ys.min(ye), x1: xs.max(xe), y1: ys.max(ye) }),
        _ => None,
    }
}

/// The pixel rectangle two linear scales map onto. `None` for an axis that is
/// not linear.
pub fn scale_rect(x_scale: &Scale, y_scale: &Scale) -> (r: Option<Rect>)
    ensures
        r == rect_of_scales(x_scale@, y_scale@),
{
    match (x_scale, y_scale) {
        (
            Scale::Linear { range_start: xs, range_end: xe, .. },
            Scale::Linear { range_start: ys, range_end: ye, .. },
        ) => Some(Rect { x0: xs.min(*xe), y0: ys.min(*ye), x1: xs.max(*xe), y1: ys.max(*ye) }),
        _ => None,
    }
}

/// Points mapped through two scales.
pub open spec fn through_scales(points: Seq<Point>, x: ScaleModel, y: ScaleModel) -> Seq<Point> {
    points.map_values(|p: Point| Point { x: x.map_f64(p.x), y: y.map_f64(p.y) })
}

/// Points mapped through two scales.
pub fn map_points(points: &Vec<Point>, x_scale: &Scale, y_scale: &Scale) -> (out: Vec<Point>)
    ensures
        out@ == through_scales(points@, x_scale@, y_scale@),
{
    let mut out: Vec<Point> = Vec::new();
    let mut i: usize = 0;
    while i < points.len()
        invariant
            i <= points.len(),
            out@ == through_scales(points@, x_scale@, y_scale@).take(i as int),
        decreases points.len() - i,
    {
        let p = points[i];
        out.push(Point { x: x_scale.map_f64(p.x), y: y_scale.map_f64(p.y) });
        i = i + 1;
        assert(out@ =~= through_scales(points@, x_scale@, y_scale@).take(i as int));
    }
    assert(through_scales(points@, x_scale@, y_scale@).take(i as int) =~= through_scales(
        points@,
        x_scale@,
        y_scale@,
    ));
    out
}

/// What the runs of one line draw.
pub open spec fn run_ops(runs: Seq<Seq<Point>>, ink: Rgba) -> Seq<Op> {
    runs.map_values(
        |r: Seq<Point>|
            Op::Stroke(
                Number::from_bits(GRATICULE_STROKE_WIDTH),
                ink,
                Outline::Path(polyline(r)),
            ),
    )
}

/// What graticule lines draw through two scales: each line's runs inside the
/// rectangle of the scales.
pub open spec fn graticule_ops(
    lines: Seq<PathModel>,
    x: ScaleModel,
    y: ScaleModel,
    ink: Rgba,
) -> Seq<Op> {
    match rect_of_scales(x, y) {
        Some(rect) => drawn_for(
            lines.len(),
            |i: int| run_ops(clipped_runs(through_scales(lines[i].coordinates, x, y), rect), ink),
        ),
        None => Seq::empty(),
    }
}

/// Stroke `lines` through the plot's two scales, clipped to the pixel rect
/// those scales map onto.
pub fn stroke_graticule(
    scene: &mut Scene,
    lines: &Vec<GraticuleLine>,
    x_scale: &Scale,
    y_scale: &Scale,
    ink: Rgba,
)
    ensures
        final(scene)@ == old(scene)@ + graticule_ops(line_views(lines@), x_scale@, y_scale@, ink),
{
    let ghost start = scene@;
    assert(start + Seq::<Op>::empty() =~= start);
    let rect = match scale_rect(x_scale, y_scale) {
        Some(r) => r,
        None => {
            return ;
        },
    };
    let width = Number::from_bits(GRATICULE_STROKE_WIDTH);
    let ghost f = |i: int|
        run_ops(
            clipped_runs(through_scales(line_views(lines@)[i].coordinates, x_scale@, y_scale@), rect),
            ink,
        );
    let mut i: usize = 0;
    while i < lines.len()
        invariant
            i <= lines.len(),
            width == Number::from_bits(GRATICULE_STROKE_WIDTH),
            f == (|i: int|
                run_ops(
                    clipped_runs(through_scales(line_views(lines@)[i].coordinates, x_scale@, y_scale@), rect),
                    ink,
                )),
            scene@ == start + drawn_for(i as nat, f),
        decreases lines.len() - i,
    {
        let ghost here = scene@;
        assert(line_views(lines@)[i as int] == lines@[i as int]@);
        let pixels = map_points(&lines[i].points, x_scale, y_scale);
        let runs = clip_polyline(&pixels, rect);
        let ghost all = run_ops(point_views(runs@), ink);
        let mut j: usize = 0;
        assert(here + all.take(0) =~= here);
        while j < runs.len()
            invariant
                j <= runs.len(),
                width == Number::from_bits(GRATICULE_STROKE_WIDTH),
                all == run_ops(point_views(runs@), ink),
                scene@ == here + all.take(j as int),
            decreases runs.len() - j,
        {
            assert(point_views(runs@)[j as int] == runs@[j as int]@);
            let steps = line_through(&runs[j]);
            scene.stroke(width, ink, Shape::Path(steps));
            j = j + 1;
            assert(scene@ =~= here + all.take(j as int));
        }
        assert(all.take(j as int) =~= all);
        assert(all == f(i as int));
        assert(here + all =~= start + drawn_for((i + 1) as nat, f));
        i = i + 1;
    }
}

/// The domains that fit a box into two pixel ranges with equal pixels per unit
/// on both axes and the box in the middle.
pub open spec fn fitted(bbox: Rect, x_range: Range, y_range: Range) -> Rect {
    let tiny = Number::from_bits(BILLIONTH);
    let two = Number::from_bits(TWO);
    let du = bbox.x1.minus(bbox.x0).max(tiny);
    let dv = bbox.y1.minus(bbox.y0).max(tiny);
    let wp = x_range.end.minus(x_range.start).abs().max(tiny);
    let hp = y_range.start.minus(y_range.end).abs().max(tiny);
    let k = wp.over(du).min(hp.over(dv));
    let half_x = wp.over(k).over(two);
    let half_y = hp.over(k).over(two);
    let u = bbox.x0.plus(bbox.x1).over(two);
    let v = bbox.y0.plus(bbox.y1).over(two);
    Rect { x0: u.minus(half_x), y0: v.minus(half_y), x1: u.plus(half_x), y1: v.plus(half_y) }
}

/// Aspect-fit a box into the plot's pixel ranges. The smaller of the two axis
/// fits decides the pixels per unit; degenerate spans are floored.
pub fn aspect_fit_domains(bbox: Rect, x_range: Range, y_range: Range) -> (r: Rect)
    ensures
        r == fitted(bbox, x_range, y_range),
{
    let tiny = Number::from_bits(BILLIONTH);
    let two = Number::from_bits(TWO);
    let du = bbox.x1.minus(bbox.x0).max(tiny);
    let dv = bbox.y1.minus(bbox.y0).max(tiny);
    let wp = x_range.end.minus(x_range.start).abs().max(tiny);
    let hp = y_range.start.minus(y_range.end).abs().max(tiny);
    let k = wp.over(du).min(hp.over(dv));
    let half_x = wp.over(k).over(two);
    let half_y = hp.over(k).over(two);
    let u = bbox.x0.plus(bbox.x1).over(two);
    let v = bbox.y0.plus(bbox.y1).over(two);
    Rect { x0: u.minus(half_x), y0: v.minus(half_y), x1: u.plus(half_x), y1: v.plus(half_y) }
}

/// Whether every run has at least two points.
pub open spec fn all_drawable(runs: Seq<Seq<Point>>) -> bool {
    forall|i: int| 0 <= i < runs.len() ==> (#[trigger] runs[i]).len() >= 2
}

/// Every projected line has at least two points.
pub proof fn a_projected_line_has_two_points(planar: Seq<Option<Point>>)
    ensures
        all_drawable(runs_of(planar)),
{
    lemma_runs_are_drawable(planar, planar.len());
}

proof fn lemma_runs_are_drawable(planar: Seq<Option<Point>>, n: nat)
    ensures
        all_drawable(runs_after(planar, n).done),
    decreases n,
{
    if n > 0 {
        lemma_runs_are_drawable(planar, (n - 1) as nat);
    }
}

/// Every clipped line has at least two points.
pub proof fn a_clipped_line_has_two_points(points: Seq<Point>, rect: Rect)
    ensures
        all_drawable(clipped_runs(points, rect)),
{
    lemma_clips_are_drawable(
        points,
        rect,
        if points.len() == 0 {
            0
        } else {
            (points.len() - 1) as nat
        },
    );
}

proof fn lemma_clips_are_drawable(points: Seq<Point>, rect: Rect, n: nat)
    ensures
        all_drawable(clip_runs(points, rect, n).done),
    decreases n,
{
    if n > 0 {
        lemma_clips_are_drawable(points, rect, (n - 1) as nat);
    }
}

/// A line that keeps its position all along comes back in one piece.
pub proof fn an_unbroken_line_stays_whole(points: Seq<Point>)
    requires
        points.len() >= 2,
    ensures
        runs_of(points.map_values(|p: Point| Some(p))) == seq![points],
{
    let planar = points.map_values(|p: Point| Some(p));
    lemma_unbroken(points, points.len());
    assert(points.take(points.len() as int) =~= points);
    assert(runs_of(planar) =~= seq![points]);
}

proof fn lemma_unbroken(points: Seq<Point>, n: nat)
    requires
        n <= points.len(),
    ensures
        ({
            let r = runs_after(points.map_values(|p: Point| Some(p)), n);
            r.done == Seq::<Seq<Point>>::empty() && r.open == points.take(n as int)
        }),
    decreases n,
{
    if n > 0 {
        lemma_unbroken(points, (n - 1) as nat);
        assert(points.take(n as int) =~= points.take(n - 1).push(points[n - 1]));
    } else {
        assert(points.take(0) =~= Seq::<Point>::empty());
    }
}

/// Bounds that are ordered and not extreme stay ordered and inside their range
/// when they are widened.
proof fn lemma_widened_stays_inside(lo: Number, hi: Number, floor: Number, ceil: Number)
    requires
        lo.le(hi),
        floor.is_finite(),
        ceil.is_finite(),
        floor == ceil.negated(),
        !ceil.negative(),
        Number::from_bits(ONE).le(ceil),
        FRACTIONS <= floor.magnitude() < INFINITE - FRACTIONS,
        FRACTIONS <= ceil.magnitude() < INFINITE - FRACTIONS,
    ensures
        ({
            let (a, b) = widened(lo, hi, floor, ceil);
            floor.le(a) && a.le(b) && b.le(ceil)
        }),
{
    let a = lo.clamp(floor, ceil);
    let b = hi.clamp(floor, ceil);
    let two = Number::from_bits(TWO);
    let narrowest = Number::from_bits(MIN_EXTENT_DEGREES);
    let half = narrowest.over(two);
    let zero = Number::from_bits(ZERO);
    let middle = a.plus(b).over(two);
    lemma_format();
    lemma_half_keeps_order(narrowest, zero);
    lemma_half_keeps_order(narrowest, Number::from_bits(ONE));
    lemma_rank_is_value_order(zero, narrowest);
    lemma_rank_is_value_order(half, zero);
    lemma_rank_is_value_order(zero, half);
    lemma_rank_is_value_order(half, Number::from_bits(ONE));
    lemma_rank_is_value_order(Number::from_bits(ONE), half);
    lemma_rank_is_value_order(Number::from_bits(ONE), ceil);
    lemma_rank_is_value_order(ceil, Number::from_bits(ONE));
    lemma_rank_is_value_order(narrowest, Number::from_bits(ONE));
    lemma_middle_stays_between(a, b, floor, ceil);
    lemma_sum_keeps_order(floor, half, floor);
    lemma_sum_keeps_order(floor, half, ceil);
    lemma_difference_keeps_order(ceil, half, floor);
    lemma_difference_keeps_order(ceil, half, ceil);
    let mid = middle.clamp(floor.plus(half), ceil.minus(half));
    assert(floor.le(mid) && mid.le(ceil));
    lemma_difference_keeps_order(mid, half, mid);
    lemma_sum_keeps_order(mid, half, mid);
}

/// An extent made of numbers is ordered and stays on the sphere.
pub proof fn an_extent_stays_on_the_sphere(
    lon_a: Number,
    lon_b: Number,
    lat_a: Number,
    lat_b: Number,
)
    requires
        !lon_a.is_nan() && !lon_b.is_nan() && !lat_a.is_nan() && !lat_b.is_nan(),
    ensures
        ({
            let half = Number::from_bits(HALF_TURN);
            let quarter = Number::from_bits(QUARTER_TURN);
            let (west, east) = widened(
                lon_a.min(lon_b),
                lon_a.max(lon_b),
                half.negated(),
                half,
            );
            let (south, north) = widened(
                lat_a.min(lat_b),
                lat_a.max(lat_b),
                quarter.negated(),
                quarter,
            );
            &&& half.negated().le(west) && west.le(east) && east.le(half)
            &&& quarter.negated().le(south) && south.le(north) && north.le(quarter)
        }),
{
    let half = Number::from_bits(HALF_TURN);
    let quarter = Number::from_bits(QUARTER_TURN);
    lemma_widened_stays_inside(lon_a.min(lon_b), lon_a.max(lon_b), half.negated(), half);
    lemma_widened_stays_inside(lat_a.min(lat_b), lat_a.max(lat_b), quarter.negated(), quarter);
}

/// Multiples of a positive step ascend.
proof fn lemma_multiples_ascend(lo: Number, hi: Number, step: Number, i: int, j: int)
    requires
        step.is_finite(),
        step.magnitude() != 0,
        !step.negative(),
        0 <= i <= j < multiples(lo, hi, step).len(),
    ensures
        multiples(lo, hi, step)[i].le(multiples(lo, hi, step)[j]),
{
    let first = lo.over(step).ceil();
    if i == j {
        let k = if i == 0 {
            first
        } else {
            Number::spec_from_int(first.to_i64() + i)
        };
        lemma_integers_keep_order(first.to_i64() + i, first.to_i64() + i);
        lemma_times_keeps_order(k, k, step);
    } else if i > 0 {
        lemma_integers_keep_order(first.to_i64() + i, first.to_i64() + j);
        lemma_times_keeps_order(
            Number::spec_from_int(first.to_i64() + i),
            Number::spec_from_int(first.to_i64() + j),
            step,
        );
    } else {
        lemma_next_integer(first);
        lemma_integers_keep_order(first.to_i64() + 1, first.to_i64() + j);
        lemma_times_keeps_order(first, Number::spec_from_int(first.to_i64() + j), step);
    }
}

/// Every rung of the ladder is a positive step.
proof fn lemma_spacing_is_positive(span: Number, i: int)
    requires
        0 <= i < ladder().len(),
    ensures
        0 <= rung_of(span, i) < ladder().len(),
        ({
            let step = Number::from_bits(ladder()[rung_of(span, i)]);
            step.is_finite() && step.magnitude() != 0 && !step.negative()
        }),
    decreases ladder().len() - i,
{
    lemma_format();
    if !(i >= ladder().len() - 1 || fine_enough(span, ladder()[i])) {
        lemma_spacing_is_positive(span, i + 1);
    }
}

/// A graticule lists its meridians first, then its parallels, each in ascending
/// order of degrees.
pub proof fn a_graticule_is_in_order(extent: GeoExtent, i: int, j: int)
    requires
        0 <= i <= j < graticule_model(extent).len(),
    ensures
        graticule_model(extent)[i].kind == graticule_model(extent)[j].kind
            ==> graticule_model(extent)[i].degrees.le(graticule_model(extent)[j].degrees),
        graticule_model(extent)[j].kind is Meridian ==> graticule_model(extent)[i].kind is Meridian,
{
    let lon = spacing(extent.lon_span());
    let lat = spacing(extent.lat_span());
    lemma_spacing_is_positive(extent.lon_span(), 0);
    lemma_spacing_is_positive(extent.lat_span(), 0);
    let m = multiples(extent.lon_min, extent.lon_max, lon).len();
    if j < m {
        lemma_multiples_ascend(extent.lon_min, extent.lon_max, lon, i, j);
    } else if i >= m {
        lemma_multiples_ascend(extent.lat_min, extent.lat_max, lat, i - m, j - m);
    }
}

} // verus!
