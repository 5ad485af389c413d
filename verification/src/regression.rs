//! Fitted lines with their confidence bands.
use vstd::prelude::*;

use crate::batch::{cell_of, number_of, Batch};
use crate::channel::{Channel, ChannelMap};
use crate::colour::Rgba;
use crate::dash::{
    dash_polyline, dashed, line_pieces, pieces, segment_ops, stroke_segments, Rhythm,
    BEYOND_FRAME_DASH, BEYOND_FRAME_GAP,
};
use crate::drawing::{drawn_for, polygon, polygon_through, Op, Outline, Point, Scene, Shape};
use crate::folds::{column_extremes, highest_from, lowest_from, present};
use crate::highlight::HighlightState;
use crate::infer::{merge_linear_scale, merged_linear, Range};
use crate::number::Number;
use crate::numerals::{INFINITY, NEG_INFINITY, ONE, THREE, TWO, ZERO};
use crate::paint::{resolve_stroke_colour, row_stroke};
use crate::plot::pixel;
use crate::scale::{Scale, ScaleModel};
use crate::scale_set::ScaleSet;
use crate::single::Single;
use crate::student::{critical, t_critical, LEVEL_95};

verus! {

/// Default line stroke width in pixels: 2.
pub const LINE_STROKE_WIDTH: u64 = 0x4000_0000_0000_0000;

/// The alpha a confidence band is drawn at: 0.2.
pub const BAND_ALPHA: u32 = 0x3e4c_cccd;

/// How many points a fitted line is sampled at.
pub const SAMPLES: u64 = 32;

/// The dash pattern of a line that speaks for rows outside the frame.
pub open spec fn beyond_frame_rhythm() -> Rhythm {
    Rhythm {
        on: Number::from_bits(BEYOND_FRAME_DASH),
        off: Number::from_bits(BEYOND_FRAME_GAP),
    }
}

/// Renders a linear fit and its confidence band, one per row of coefficients.
#[derive(Debug, Clone, Copy)]
pub struct RegressionRenderer {
    /// Confidence level, such as 0.95.
    pub ci: Number,
}

impl Default for RegressionRenderer {
    fn default() -> (r: RegressionRenderer)
        ensures
            r.ci == Number::from_bits(LEVEL_95),
    {
        RegressionRenderer { ci: Number::from_bits(LEVEL_95) }
    }
}

/// What a row says of its fit.
#[derive(Debug, Clone, Copy, PartialEq, Eq, Structural)]
pub struct Coefficients {
    pub slope: Number,
    pub intercept: Number,
    /// How many points were fitted.
    pub n: Number,
    pub x_bar: Number,
    pub sxx: Number,
    pub sxy: Number,
    pub syy: Number,
}

/// A number, or zero where there is none.
pub open spec fn or_zero(v: Option<Number>) -> Number {
    match v {
        Some(x) => x,
        None => Number::from_bits(ZERO),
    }
}

fn value_or_zero(v: Option<Number>) -> (r: Number)
    ensures
        r == or_zero(v),
{
    match v {
        Some(x) => x,
        None => Number::from_bits(ZERO),
    }
}

/// Whether a batch holds all the columns that a fit is read from.
pub open spec fn holds_fits(batch: Batch) -> bool {
    &&& batch.numbers("slope"@) is Some
    &&& batch.numbers("intercept"@) is Some
    &&& batch.numbers("n"@) is Some
    &&& batch.numbers("x_bar"@) is Some
    &&& batch.numbers("sxx"@) is Some
    &&& batch.numbers("sxy"@) is Some
    &&& batch.numbers("syy"@) is Some
}

/// The fit of a row: it needs a slope, an intercept and at least two points.
pub open spec fn coefficients(batch: Batch, row: int) -> Option<Coefficients> {
    match (
        cell_of(batch.numbers("slope"@), row),
        cell_of(batch.numbers("intercept"@), row),
        cell_of(batch.numbers("n"@), row),
    ) {
        (Some(slope), Some(intercept), Some(n)) => if Number::from_bits(TWO).le(n) {
            Some(
                Coefficients {
                    slope,
                    intercept,
                    n,
                    x_bar: or_zero(cell_of(batch.numbers("x_bar"@), row)),
                    sxx: or_zero(cell_of(batch.numbers("sxx"@), row)),
                    sxy: or_zero(cell_of(batch.numbers("sxy"@), row)),
                    syy: or_zero(cell_of(batch.numbers("syy"@), row)),
                },
            )
        } else {
            None
        },
        _ => None,
    }
}

impl Coefficients {
    /// Whether a fit has enough points for a confidence band: three.
    pub open spec fn spec_has_band(self) -> bool {
        Number::from_bits(THREE).le(self.n)
    }

    /// Whether a fit has enough points for a confidence band.
    #[verifier::when_used_as_spec(spec_has_band)]
    pub fn has_band(self) -> (r: bool)
        ensures
            r == self.spec_has_band(),
    {
        Number::from_bits(THREE).le(self.n)
    }

    /// The residual standard deviation; zero where it is not defined.
    pub open spec fn spec_spread(self) -> Number {
        let zero = Number::from_bits(ZERO);
        let square = if self.has_band() && zero.lt(self.sxx) {
            self.syy.minus(self.sxy.times(self.sxy).over(self.sxx)).over(
                self.n.minus(Number::from_bits(TWO)),
            )
        } else {
            zero
        };
        square.max(zero).sqrt()
    }

    /// The residual standard deviation; zero where it is not defined.
    #[verifier::when_used_as_spec(spec_spread)]
    pub fn spread(self) -> (r: Number)
        ensures
            r == self.spec_spread(),
    {
        let zero = Number::from_bits(ZERO);
        let square = if self.has_band() && zero.lt(self.sxx) {
            self.syy.minus(self.sxy.times(self.sxy).over(self.sxx)).over(
                self.n.minus(Number::from_bits(TWO)),
            )
        } else {
            zero
        };
        square.max(zero).sqrt()
    }

    /// The fitted value at `x`.
    pub open spec fn spec_at(self, x: Number) -> Number {
        self.slope.times(x).plus(self.intercept)
    }

    /// The fitted value at `x`.
    #[verifier::when_used_as_spec(spec_at)]
    pub fn at(self, x: Number) -> (r: Number)
        ensures
            r == self.spec_at(x),
    {
        self.slope.times(x).plus(self.intercept)
    }

    /// Half the height of the confidence band at `x`.
    pub open spec fn spec_reach(self, ci: Number, x: Number) -> Number {
        let zero = Number::from_bits(ZERO);
        let away = x.minus(self.x_bar);
        let error = if zero.lt(self.sxx) {
            self.spread().times(
                Number::from_bits(ONE).over(self.n).plus(away.times(away).over(self.sxx)).sqrt(),
            )
        } else {
            zero
        };
        critical(ci, self.n).times(error)
    }

    /// Half the height of the confidence band at `x`.
    #[verifier::when_used_as_spec(spec_reach)]
    pub fn reach(self, ci: Number, x: Number) -> (r: Number)
        ensures
            r == self.spec_reach(ci, x),
    {
        let zero = Number::from_bits(ZERO);
        let away = x.minus(self.x_bar);
        let error = if zero.lt(self.sxx) {
            self.spread().times(
                Number::from_bits(ONE).over(self.n).plus(away.times(away).over(self.sxx)).sqrt(),
            )
        } else {
            zero
        };
        t_critical(ci, self.n).times(error)
    }
}

/// The `i`th of the sampled places between two bounds.
pub open spec fn sample_place(x_min: Number, x_max: Number, i: int) -> Number {
    x_min.plus(
        x_max.minus(x_min).times(Number::spec_from_int(i).over(Number::spec_from_int(SAMPLES - 1))),
    )
}

/// A fit in pixels.
#[derive(Debug)]
pub struct Fit {
    pub colour: Rgba,
    /// Whether the band is drawn.
    pub band: bool,
    /// The upper edge of the band.
    pub upper: Vec<Point>,
    /// The lower edge of the band.
    pub lower: Vec<Point>,
    /// The fitted line.
    pub line: Vec<Point>,
}

/// A fit in pixels as a mathematical value.
#[verifier::ext_equal]
pub struct FitModel {
    pub colour: Rgba,
    pub band: bool,
    pub upper: Seq<Point>,
    pub lower: Seq<Point>,
    pub line: Seq<Point>,
}

impl View for Fit {
    type V = FitModel;

    open spec fn view(&self) -> FitModel {
        FitModel {
            colour: self.colour,
            band: self.band,
            upper: self.upper@,
            lower: self.lower@,
            line: self.line@,
        }
    }
}

/// The fit of coefficients through two scales, sampled between two bounds.
pub open spec fn fit_of(
    ci: Number,
    c: Coefficients,
    colour: Rgba,
    x: ScaleModel,
    y: ScaleModel,
    x_min: Number,
    x_max: Number,
) -> FitModel {
    FitModel {
        colour,
        band: c.has_band(),
        upper: Seq::new(
            SAMPLES as nat,
            |i: int|
                {
                    let v = sample_place(x_min, x_max, i);
                    pixel(x, y, v, c.at(v).plus(c.reach(ci, v)))
                },
        ),
        lower: Seq::new(
            SAMPLES as nat,
            |i: int|
                {
                    let v = sample_place(x_min, x_max, i);
                    pixel(x, y, v, c.at(v).minus(c.reach(ci, v)))
                },
        ),
        line: Seq::new(
            SAMPLES as nat,
            |i: int|
                {
                    let v = sample_place(x_min, x_max, i);
                    pixel(x, y, v, c.at(v))
                },
        ),
    }
}

/// The bounds that fits are sampled between: the domain of the x scale, where
/// there are two scales and all the columns.
pub open spec fn sampled_between(batch: Batch, scales: ScaleSet) -> Option<(Number, Number)> {
    match (scales.at(Channel::X), scales.at(Channel::Y)) {
        (Some(x), Some(_)) => if holds_fits(batch) {
            match (x.domain_min(), x.domain_max()) {
                (Some(low), Some(high)) => Some((low, high)),
                _ => None,
            }
        } else {
            None
        },
        _ => None,
    }
}

/// The fit that a row draws, if any.
pub open spec fn row_fit(
    ci: Number,
    batch: Batch,
    channel_map: ChannelMap,
    scales: ScaleSet,
    row: int,
) -> Option<FitModel> {
    match (sampled_between(batch, scales), coefficients(batch, row)) {
        (Some((low, high)), Some(c)) => Some(
            fit_of(
                ci,
                c,
                row_stroke(scales, channel_map, batch, row),
                scales.at(Channel::X)->0,
                scales.at(Channel::Y)->0,
                low,
                high,
            ),
        ),
        _ => None,
    }
}

/// The outline of a confidence band: along its upper edge and back along its
/// lower.
pub open spec fn band_outline(upper: Seq<Point>, lower: Seq<Point>) -> Seq<Point> {
    upper + lower.reverse()
}

/// The ink of a confidence band.
pub open spec fn band_ink(colour: Rgba) -> Rgba {
    Rgba { r: colour.r, g: colour.g, b: colour.b, a: Single::from_bits(BAND_ALPHA) }
}

/// What the band of a fit draws.
pub open spec fn band_ops(fit: FitModel) -> Seq<Op> {
    if fit.band {
        seq![
            Op::Fill(
                band_ink(fit.colour),
                Outline::Path(polygon(band_outline(fit.upper, fit.lower))),
            ),
        ]
    } else {
        Seq::empty()
    }
}

/// What a fit draws that describes what is on screen.
pub open spec fn solid_ops(fit: FitModel) -> Seq<Op> {
    band_ops(fit) + segment_ops(
        pieces(fit.line),
        Number::from_bits(LINE_STROKE_WIDTH),
        fit.colour,
    )
}

/// The lengths of the segments of a fit's three lines.
#[derive(Debug)]
pub struct FitLengths {
    pub upper: Vec<Number>,
    pub lower: Vec<Number>,
    pub line: Vec<Number>,
}

/// What a fit draws that still summarises rows outside the frame: the same
/// band and line, with the line and the edges of the band dashed.
pub open spec fn broken_ops(
    fit: FitModel,
    upper: Seq<Number>,
    lower: Seq<Number>,
    line: Seq<Number>,
) -> Seq<Op> {
    let width = Number::from_bits(LINE_STROKE_WIDTH);
    let rhythm = beyond_frame_rhythm();
    let edges = if fit.band {
        segment_ops(dashed(fit.upper, upper, rhythm), width, band_ink(fit.colour)) + segment_ops(
            dashed(fit.lower, lower, rhythm),
            width,
            band_ink(fit.colour),
        )
    } else {
        Seq::empty()
    };
    band_ops(fit) + edges + segment_ops(dashed(fit.line, line, rhythm), width, fit.colour)
}

/// What one row draws. Without lengths its line is solid; with them it is
/// dashed, and a row past the end of the lengths has none.
pub open spec fn fit_ops(
    fit: Option<FitModel>,
    lengths: Option<Seq<FitLengths>>,
    row: int,
) -> Seq<Op> {
    match fit {
        Some(fit) => match lengths {
            None => solid_ops(fit),
            Some(all) => if 0 <= row < all.len() {
                broken_ops(fit, all[row].upper@, all[row].lower@, all[row].line@)
            } else {
                broken_ops(fit, Seq::empty(), Seq::empty(), Seq::empty())
            },
        },
        None => Seq::empty(),
    }
}

fn sampled(
    ci: Number,
    c: Coefficients,
    colour: Rgba,
    x_scale: &Scale,
    y_scale: &Scale,
    x_min: Number,
    x_max: Number,
) -> (r: Fit)
    ensures
        r@ == fit_of(ci, c, colour, x_scale@, y_scale@, x_min, x_max),
{
    let ghost all = fit_of(ci, c, colour, x_scale@, y_scale@, x_min, x_max);
    let mut upper: Vec<Point> = Vec::new();
    let mut lower: Vec<Point> = Vec::new();
    let mut line: Vec<Point> = Vec::new();
    let steps = Number::from_u64(SAMPLES - 1);
    let mut i: u64 = 0;
    while i < SAMPLES
        invariant
            i <= SAMPLES,
            steps == Number::spec_from_int(SAMPLES - 1),
            all == fit_of(ci, c, colour, x_scale@, y_scale@, x_min, x_max),
            upper@ == all.upper.take(i as int),
            lower@ == all.lower.take(i as int),
            line@ == all.line.take(i as int),
        decreases SAMPLES - i,
    {
        let t = Number::from_u64(i).over(steps);
        let v = x_min.plus(x_max.minus(x_min).times(t));
        let fitted = c.at(v);
        let half = c.reach(ci, v);
        let x = x_scale.map_f64(v);
        line.push(Point { x, y: y_scale.map_f64(fitted) });
        upper.push(Point { x, y: y_scale.map_f64(fitted.plus(half)) });
        lower.push(Point { x, y: y_scale.map_f64(fitted.minus(half)) });
        i = i + 1;
        assert(upper@ =~= all.upper.take(i as int));
        assert(lower@ =~= all.lower.take(i as int));
        assert(line@ =~= all.line.take(i as int));
    }
    let r = Fit { colour, band: c.has_band(), upper, lower, line };
    assert(r@ =~= all);
    r
}

fn outline(upper: &Vec<Point>, lower: &Vec<Point>) -> (out: Vec<Point>)
    ensures
        out@ == band_outline(upper@, lower@),
{
    let ghost all = band_outline(upper@, lower@);
    let mut out: Vec<Point> = Vec::new();
    let mut i: usize = 0;
    while i < upper.len()
        invariant
            i <= upper.len(),
            out@ == upper@.take(i as int),
        decreases upper.len() - i,
    {
        out.push(upper[i]);
        i = i + 1;
        assert(out@ =~= upper@.take(i as int));
    }
    let mut j: usize = lower.len();
    assert(out@ =~= all.take(upper@.len() + lower@.len() - j));
    while j > 0
        invariant
            j <= lower.len(),
            all == band_outline(upper@, lower@),
            out@ == all.take(upper@.len() + lower@.len() - j),
        decreases j,
    {
        j = j - 1;
        out.push(lower[j]);
        assert(out@ =~= all.take(upper@.len() + lower@.len() - j));
    }
    assert(out@ =~= all);
    out
}

fn draw_fit(scene: &mut Scene, fit: &Fit, lengths: Option<&FitLengths>)
    ensures
        lengths is None ==> final(scene)@ == old(scene)@ + solid_ops(fit@),
        lengths matches Some(l) ==> final(scene)@ == old(scene)@ + broken_ops(
            fit@,
            l.upper@,
            l.lower@,
            l.line@,
        ),
{
    let ghost start = scene@;
    let width = Number::from_bits(LINE_STROKE_WIDTH);
    let rhythm = Rhythm {
        on: Number::from_bits(BEYOND_FRAME_DASH),
        off: Number::from_bits(BEYOND_FRAME_GAP),
    };
    let ink = Rgba {
        r: fit.colour.r,
        g: fit.colour.g,
        b: fit.colour.b,
        a: Single::from_bits(BAND_ALPHA),
    };
    if fit.band {
        let points = outline(&fit.upper, &fit.lower);
        let steps = polygon_through(&points);
        scene.fill(ink, Shape::Path(steps));
    }
    assert(scene@ =~= start + band_ops(fit@));
    match lengths {
        None => {
            let segments = line_pieces(&fit.line);
            stroke_segments(scene, &segments, width, fit.colour);
            assert(scene@ =~= start + solid_ops(fit@));
        },
        Some(l) => {
            if fit.band {
                let above = dash_polyline(&fit.upper, &l.upper, rhythm);
                stroke_segments(scene, &above, width, ink);
                let below = dash_polyline(&fit.lower, &l.lower, rhythm);
                stroke_segments(scene, &below, width, ink);
            }
            let segments = dash_polyline(&fit.line, &l.line, rhythm);
            stroke_segments(scene, &segments, width, fit.colour);
            assert(scene@ =~= start + broken_ops(fit@, l.upper@, l.lower@, l.line@));
        },
    }
}

/// Optional fits as mathematical values.
pub open spec fn fit_view(fit: Option<Fit>) -> Option<FitModel> {
    match fit {
        Some(f) => Some(f@),
        None => None,
    }
}

impl RegressionRenderer {
    /// The fit that each row draws, in pixels.
    pub fn fits(&self, batch: &Batch, channel_map: &ChannelMap, scales: &ScaleSet) -> (r: Vec<
        Option<Fit>,
    >)
        ensures
            r.len() == batch.rows,
            forall|i: int|
                0 <= i < batch.rows ==> fit_view(#[trigger] r@[i]) == row_fit(
                    self.ci,
                    *batch,
                    *channel_map,
                    *scales,
                    i,
                ),
    {
        let mut out: Vec<Option<Fit>> = Vec::new();
        let mut row: usize = 0;
        while row < batch.rows
            invariant
                row <= batch.rows,
                out.len() == row,
                forall|i: int|
                    0 <= i < row ==> fit_view(#[trigger] out@[i]) == row_fit(
                        self.ci,
                        *batch,
                        *channel_map,
                        *scales,
                        i,
                    ),
            decreases batch.rows - row,
        {
            let fit = self.fit(batch, channel_map, scales, row);
            out.push(fit);
            row = row + 1;
        }
        out
    }

    fn fit(&self, batch: &Batch, channel_map: &ChannelMap, scales: &ScaleSet, row: usize) -> (r:
        Option<Fit>)
        ensures
            fit_view(r) == row_fit(self.ci, *batch, *channel_map, *scales, row as int),
    {
        let (x_scale, y_scale) = match (scales.get(Channel::X), scales.get(Channel::Y)) {
            (Some(x), Some(y)) => (x, y),
            _ => {
                return None;
            },
        };
        let slope = batch.column_as_f64("slope");
        let intercept = batch.column_as_f64("intercept");
        let n = batch.column_as_f64("n");
        let x_bar = batch.column_as_f64("x_bar");
        let sxx = batch.column_as_f64("sxx");
        let sxy = batch.column_as_f64("sxy");
        let syy = batch.column_as_f64("syy");
        if slope.is_none() || intercept.is_none() || n.is_none() || x_bar.is_none() || sxx.is_none()
            || sxy.is_none() || syy.is_none() {
            return None;
        }
        let (x_min, x_max) = match (x_scale.domain_min(), x_scale.domain_max()) {
            (Some(low), Some(high)) => (low, high),
            _ => {
                return None;
            },
        };
        match (number_of(&slope, row), number_of(&intercept, row), number_of(&n, row)) {
            (Some(slope), Some(intercept), Some(n)) => {
                if !Number::from_bits(TWO).le(n) {
                    return None;
                }
                let c = Coefficients {
                    slope,
                    intercept,
                    n,
                    x_bar: value_or_zero(number_of(&x_bar, row)),
                    sxx: value_or_zero(number_of(&sxx, row)),
                    sxy: value_or_zero(number_of(&sxy, row)),
                    syy: value_or_zero(number_of(&syy, row)),
                };
                let colour = resolve_stroke_colour(scales, channel_map, batch, row);
                Some(sampled(self.ci, c, colour, x_scale, y_scale, x_min, x_max))
            },
            _ => None,
        }
    }

    fn draw(
        &self,
        scene: &mut Scene,
        batch: &Batch,
        channel_map: &ChannelMap,
        scales: &ScaleSet,
        beyond_frame: Option<&Vec<FitLengths>>,
    )
        ensures
            beyond_frame is None ==> final(scene)@ == old(scene)@ + drawn_for(
                batch.rows as nat,
                |row: int|
                    fit_ops(row_fit(self.ci, *batch, *channel_map, *scales, row), None, row),
            ),
            beyond_frame matches Some(lengths) ==> final(scene)@ == old(scene)@ + drawn_for(
                batch.rows as nat,
                |row: int|
                    fit_ops(
                        row_fit(self.ci, *batch, *channel_map, *scales, row),
                        Some(lengths@),
                        row,
                    ),
            ),
    {
        let fits = self.fits(batch, channel_map, scales);
        let ghost given = match beyond_frame {
            Some(l) => Some(l@),
            None => None,
        };
        let ghost f = |row: int|
            fit_ops(row_fit(self.ci, *batch, *channel_map, *scales, row), given, row);
        let ghost start = scene@;
        assert(start + drawn_for(0, f) =~= start);
        let none = FitLengths { upper: Vec::new(), lower: Vec::new(), line: Vec::new() };
        let mut row: usize = 0;
        while row < fits.len()
            invariant
                row <= fits.len(),
                fits.len() == batch.rows,
                none.upper@ == Seq::<Number>::empty(),
                none.lower@ == Seq::<Number>::empty(),
                none.line@ == Seq::<Number>::empty(),
                given == match beyond_frame {
                    Some(l) => Some(l@),
                    None => None,
                },
                forall|i: int|
                    0 <= i < batch.rows ==> fit_view(#[trigger] fits@[i]) == row_fit(
                        self.ci,
                        *batch,
                        *channel_map,
                        *scales,
                        i,
                    ),
                f == (|row: int|
                    fit_ops(row_fit(self.ci, *batch, *channel_map, *scales, row), given, row)),
                scene@ == start + drawn_for(row as nat, f),
            decreases fits.len() - row,
        {
            let ghost here = scene@;
            assert(fit_view(fits@[row as int]) == row_fit(
                self.ci,
                *batch,
                *channel_map,
                *scales,
                row as int,
            ));
            if let Some(fit) = &fits[row] {
                let lengths = match beyond_frame {
                    None => None,
                    Some(all) => if row < all.len() {
                        Some(&all[row])
                    } else {
                        Some(&none)
                    },
                };
                draw_fit(scene, fit, lengths);
            }
            assert(scene@ =~= here + f(row as int));
            assert(here + f(row as int) =~= start + drawn_for((row + 1) as nat, f));
            row = row + 1;
        }
        match beyond_frame {
            None => {
                assert(f =~= |row: int|
                    fit_ops(row_fit(self.ci, *batch, *channel_map, *scales, row), None, row));
            },
            Some(lengths) => {
                assert(f =~= |row: int|
                    fit_ops(
                        row_fit(self.ci, *batch, *channel_map, *scales, row),
                        Some(lengths@),
                        row,
                    ));
            },
        }
    }

    /// What the mark draws.
    pub open spec fn drawn(self, batch: Batch, channel_map: ChannelMap, scales: ScaleSet) -> Seq<
        Op,
    > {
        drawn_for(
            batch.rows as nat,
            |row: int| fit_ops(row_fit(self.ci, batch, channel_map, scales, row), None, row),
        )
    }

    /// What the mark draws where it speaks for rows outside the frame.
    pub open spec fn drawn_beyond_frame(
        self,
        batch: Batch,
        channel_map: ChannelMap,
        scales: ScaleSet,
        lengths: Seq<FitLengths>,
    ) -> Seq<Op> {
        drawn_for(
            batch.rows as nat,
            |row: int|
                fit_ops(row_fit(self.ci, batch, channel_map, scales, row), Some(lengths), row),
        )
    }

    /// Render the mark. A highlight leaves it as it is.
    pub fn render(
        &self,
        scene: &mut Scene,
        batch: &Batch,
        channel_map: &ChannelMap,
        scales: &ScaleSet,
        _highlight: Option<&HighlightState>,
    )
        ensures
            final(scene)@ == old(scene)@ + self.drawn(*batch, *channel_map, *scales),
    {
        self.draw(scene, batch, channel_map, scales, None);
    }

    /// Render the mark knowing that it speaks for rows outside the frame: the
    /// fit is dashed, and so are the two edges of its band. The lengths of the
    /// segments of each row's [`RegressionRenderer::fits`] are the caller's to
    /// measure.
    pub fn render_beyond_frame(
        &self,
        scene: &mut Scene,
        batch: &Batch,
        channel_map: &ChannelMap,
        scales: &ScaleSet,
        _highlight: Option<&HighlightState>,
        lengths: &Vec<FitLengths>,
    )
        ensures
            final(scene)@ == old(scene)@ + self.drawn_beyond_frame(
                *batch,
                *channel_map,
                *scales,
                lengths@,
            ),
    {
        self.draw(scene, batch, channel_map, scales, Some(lengths));
    }

    /// Build the scales that the fits are sampled over from the extents that
    /// the batch gives for them.
    pub fn augment_scales(
        &self,
        scales: &mut ScaleSet,
        batch: &Batch,
        _channel_map: &ChannelMap,
        x_range: Range,
        y_range: Range,
    )
        ensures
            forall|c: Channel| #[trigger]
                final(scales).at(c) == fitted_slot(
                    old(scales).slots(),
                    *batch,
                    x_range,
                    y_range,
                    c,
                ),
            final(scales).ink == old(scales).ink,
            final(scales).geo_extent == old(scales).geo_extent,
    {
        if let Some(span) = column_extent(batch, "x_min", "x_max") {
            merge_linear_scale(scales, Channel::X, span.start, span.end, x_range);
        }
        let ghost between = *scales;
        assert forall|c: Channel| c != Channel::X implies #[trigger] scales.at(c) == old(scales).at(
            c,
        ) by {}
        if let Some(span) = column_extent(batch, "y_min", "y_max") {
            merge_linear_scale(scales, Channel::Y, span.start, span.end, y_range);
        }
        assert forall|c: Channel| #[trigger] scales.at(c) == fitted_slot(
            old(scales).slots(),
            *batch,
            x_range,
            y_range,
            c,
        ) by {
            if c != Channel::Y {
                assert(scales.at(c) == between.at(c));
            }
        }
    }
}

/// A slot widened to a span, where there is one.
pub open spec fn widened_to(
    slot: Option<ScaleModel>,
    span: Option<Range>,
    range: Range,
) -> Option<ScaleModel> {
    match span {
        Some(s) => merged_linear(slot, s.start, s.end, range),
        None => slot,
    }
}

/// What the extents of a batch make of a channel's scale.
pub open spec fn fitted_slot(
    slots: spec_fn(Channel) -> Option<ScaleModel>,
    batch: Batch,
    x_range: Range,
    y_range: Range,
    c: Channel,
) -> Option<ScaleModel> {
    match c {
        Channel::X => widened_to(slots(c), extent_of(batch, "x_min"@, "x_max"@), x_range),
        Channel::Y => widened_to(slots(c), extent_of(batch, "y_min"@, "y_max"@), y_range),
        _ => slots(c),
    }
}

/// The least of one column to the greatest of another. None where a column is
/// absent or holds no bound.
pub open spec fn extent_of(batch: Batch, min_col: Seq<char>, max_col: Seq<char>) -> Option<Range> {
    match (batch.numbers(min_col), batch.numbers(max_col)) {
        (Some(mins), Some(maxs)) => {
            let low = lowest_from(Number::from_bits(INFINITY), present(mins));
            let high = highest_from(Number::from_bits(NEG_INFINITY), present(maxs));
            if low.is_finite() && high.is_finite() {
                Some(Range { start: low, end: high })
            } else {
                None
            }
        },
        _ => None,
    }
}

/// The least of `min_col` to the greatest of `max_col`, over all rows.
pub fn column_extent(batch: &Batch, min_col: &str, max_col: &str) -> (r: Option<Range>)
    ensures
        r == extent_of(*batch, min_col@, max_col@),
{
    match (batch.column_as_f64(min_col), batch.column_as_f64(max_col)) {
        (Some(mins), Some(maxs)) => {
            let up = Number::from_bits(INFINITY);
            let down = Number::from_bits(NEG_INFINITY);
            let (low, _) = column_extremes(&mins, up, down);
            let (_, high) = column_extremes(&maxs, up, down);
            if low.is_finite() && high.is_finite() {
                Some(Range { start: low, end: high })
            } else {
                None
            }
        },
        _ => None,
    }
}

/// Whether an entry is a stroke of the line width in one of a fit's two inks.
pub open spec fn is_fit_stroke(op: Op, fit: FitModel) -> bool {
    op matches Op::Stroke(width, colour, _) && width == Number::from_bits(LINE_STROKE_WIDTH) && (
    colour == fit.colour || colour == band_ink(fit.colour))
}

/// Dashing a fit moves its texture and nothing else: the band is filled as
/// before, and every stroke keeps the width and the inks that the fit has.
pub proof fn only_the_texture_moves(
    fit: FitModel,
    upper: Seq<Number>,
    lower: Seq<Number>,
    line: Seq<Number>,
)
    ensures
        ({
            let solid = solid_ops(fit);
            let broken = broken_ops(fit, upper, lower, line);
            let n = band_ops(fit).len() as int;
            &&& n == if fit.band {
                1int
            } else {
                0int
            }
            &&& n <= solid.len() && n <= broken.len()
            &&& solid.take(n) == band_ops(fit)
            &&& broken.take(n) == band_ops(fit)
            &&& forall|i: int| n <= i < solid.len() ==> is_fit_stroke(#[trigger] solid[i], fit)
            &&& forall|i: int| n <= i < broken.len() ==> is_fit_stroke(#[trigger] broken[i], fit)
        }),
{
    let solid = solid_ops(fit);
    let broken = broken_ops(fit, upper, lower, line);
    let n = band_ops(fit).len() as int;
    assert(solid.take(n) =~= band_ops(fit));
    assert(broken.take(n) =~= band_ops(fit));
}

/// A fit of two points has no band and still has its line.
pub proof fn two_points_leave_a_line_and_no_band(fit: FitModel)
    requires
        !fit.band,
        fit.line.len() == SAMPLES,
    ensures
        solid_ops(fit) == segment_ops(
            pieces(fit.line),
            Number::from_bits(LINE_STROKE_WIDTH),
            fit.colour,
        ),
        solid_ops(fit).len() == SAMPLES - 1,
{
    assert(solid_ops(fit) =~= segment_ops(
        pieces(fit.line),
        Number::from_bits(LINE_STROKE_WIDTH),
        fit.colour,
    ));
}

} // verus!
