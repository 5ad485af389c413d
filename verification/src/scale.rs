//! Scales: mapping data domains to pixel ranges and colours.
use vstd::prelude::*;

use crate::accuracy::{
    amount, distance, lemma_amount_of_epsilon, lemma_finite_parts, lemma_minus_accuracy,
    lemma_over_accuracy, lemma_plus_accuracy, lemma_times_accuracy, lemma_trip, trip_roundoff, Trip,
};
use crate::bounds::{
    lemma_difference_keeps_order, lemma_integers_keep_order, lemma_nothing_over,
    lemma_one_is_whole, lemma_over_itself, lemma_over_keeps_order, lemma_plus_keeps_order,
    lemma_plus_nothing, lemma_times_keeps_order, lemma_times_nothing,
};
use crate::categories::{copied_strings, index_in, position};
use crate::colour::{Rgba, OPAQUE};
use crate::number::{lemma_format, lemma_from_int_is_finite, Number};
use crate::numerals::{EPSILON, ONE, TWO, ZERO};
use crate::single::Single;
use crate::words::texts;

verus! {

/// A single scale mapping a data domain to a pixel range.
#[derive(Debug)]
pub enum Scale {
    /// Numeric linear scale.
    Linear { domain_min: Number, domain_max: Number, range_start: Number, range_end: Number },
    /// Categorical band scale: discrete categories to equal-width bands.
    Band { categories: Vec<String>, range_start: Number, range_end: Number, padding: Number },
    /// Time scale: microsecond timestamps to a pixel range.
    Time { domain_min_us: i64, domain_max_us: i64, range_start: Number, range_end: Number },
    /// Colour scale: categories to colours from a palette.
    Colour { categories: Vec<String>, palette: Vec<Rgba> },
    /// Sequential colour scale: a magnitude to a colour ramp. `stops` are
    /// evenly spaced control points, low to high.
    Sequential { domain_min: Number, domain_max: Number, stops: Vec<Rgba> },
}

/// A scale as a mathematical value.
pub enum ScaleModel {
    Linear { domain_min: Number, domain_max: Number, range_start: Number, range_end: Number },
    Band { categories: Seq<Seq<char>>, range_start: Number, range_end: Number, padding: Number },
    Time { domain_min_us: i64, domain_max_us: i64, range_start: Number, range_end: Number },
    Colour { categories: Seq<Seq<char>>, palette: Seq<Rgba> },
    Sequential { domain_min: Number, domain_max: Number, stops: Seq<Rgba> },
}

impl View for Scale {
    type V = ScaleModel;

    open spec fn view(&self) -> ScaleModel {
        match *self {
            Scale::Linear { domain_min, domain_max, range_start, range_end } => ScaleModel::Linear {
                domain_min,
                domain_max,
                range_start,
                range_end,
            },
            Scale::Band { categories, range_start, range_end, padding } => ScaleModel::Band {
                categories: texts(categories@),
                range_start,
                range_end,
                padding,
            },
            Scale::Time { domain_min_us, domain_max_us, range_start, range_end } => {
                ScaleModel::Time { domain_min_us, domain_max_us, range_start, range_end }
            },
            Scale::Colour { categories, palette } => ScaleModel::Colour {
                categories: texts(categories@),
                palette: palette@,
            },
            Scale::Sequential { domain_min, domain_max, stops } => ScaleModel::Sequential {
                domain_min,
                domain_max,
                stops: stops@,
            },
        }
    }
}

/// Whether a span is too small to divide by.
pub open spec fn degenerate(span: Number) -> bool {
    span.abs().lt(Number::from_bits(EPSILON))
}

/// The middle between two numbers.
pub open spec fn midpoint(a: Number, b: Number) -> Number {
    a.plus(b).over(Number::from_bits(TWO))
}

/// The point a part `t` of the way from `a` to `b`.
pub open spec fn part_way(a: Number, b: Number, t: Number) -> Number {
    a.plus(t.times(b.minus(a)))
}

/// Opaque black.
pub open spec fn black() -> Rgba {
    Rgba {
        r: Single::from_bits(0),
        g: Single::from_bits(0),
        b: Single::from_bits(0),
        a: Single::from_bits(OPAQUE),
    }
}

/// A channel a part `t` of the way between two.
pub open spec fn blended_channel(a: Single, b: Single, t: Single) -> Single {
    a.plus(b.minus(a).times(t))
}

/// A colour a part `t` of the way between two, channel by channel.
pub open spec fn blended(a: Rgba, b: Rgba, t: Single) -> Rgba {
    Rgba {
        r: blended_channel(a.r, b.r, t),
        g: blended_channel(a.g, b.g, t),
        b: blended_channel(a.b, b.b, t),
        a: blended_channel(a.a, b.a, t),
    }
}

/// The colour a part `t` of the way along a ramp of at least two stops.
pub open spec fn along_ramp(stops: Seq<Rgba>, t: Number) -> Rgba {
    let scaled = t.times(Number::spec_from_int(stops.len() - 1));
    let below = scaled.floor().to_usize();
    let i = if below < stops.len() - 2 {
        below as int
    } else {
        stops.len() - 2
    };
    blended(stops[i], stops[i + 1], Single::nearest(scaled.minus(Number::spec_from_int(i))))
}

impl ScaleModel {
    /// Where a number lies in pixels. Band and colour scales pass it through.
    pub open spec fn map_f64(self, value: Number) -> Number {
        match self {
            ScaleModel::Linear { domain_min, domain_max, range_start, range_end } => {
                if degenerate(domain_max.minus(domain_min)) {
                    midpoint(range_start, range_end)
                } else {
                    part_way(
                        range_start,
                        range_end,
                        value.minus(domain_min).over(domain_max.minus(domain_min)),
                    )
                }
            },
            ScaleModel::Time { domain_min_us, domain_max_us, range_start, range_end } => {
                let span = Number::spec_from_int(domain_max_us - domain_min_us);
                if degenerate(span) {
                    midpoint(range_start, range_end)
                } else {
                    part_way(
                        range_start,
                        range_end,
                        value.minus(Number::spec_from_int(domain_min_us as int)).over(span),
                    )
                }
            },
            _ => value,
        }
    }

    /// The ramp colour of a magnitude: held to the domain, the first stop at
    /// its low end, the last at its high end and where the domain has no
    /// extent. Black where the scale is no ramp.
    pub open spec fn map_continuous(self, value: Number) -> Rgba {
        match self {
            ScaleModel::Sequential { domain_min, domain_max, stops } => {
                let span = domain_max.minus(domain_min);
                let t = value.minus(domain_min).over(span).clamp(
                    Number::from_bits(ZERO),
                    Number::from_bits(ONE),
                );
                if stops.len() == 0 {
                    black()
                } else if degenerate(span) {
                    stops.last()
                } else if stops.len() == 1 || t.same(Number::from_bits(ZERO)) {
                    stops[0]
                } else if t.same(Number::from_bits(ONE)) {
                    stops.last()
                } else {
                    along_ramp(stops, t)
                }
            },
            _ => black(),
        }
    }

    /// The number a pixel stands for, on a continuous positional scale.
    pub open spec fn inverse_f64(self, pixel: Number) -> Option<Number> {
        match self {
            ScaleModel::Linear { domain_min, domain_max, range_start, range_end } => {
                let span = range_end.minus(range_start);
                if degenerate(span) {
                    Some(midpoint(domain_min, domain_max))
                } else {
                    Some(part_way(domain_min, domain_max, pixel.minus(range_start).over(span)))
                }
            },
            ScaleModel::Time { domain_min_us, domain_max_us, range_start, range_end } => {
                let span = range_end.minus(range_start);
                if degenerate(span) {
                    Some(
                        Number::spec_from_int(domain_min_us + domain_max_us).over(
                            Number::from_bits(TWO),
                        ),
                    )
                } else {
                    Some(
                        Number::spec_from_int(domain_min_us as int).plus(
                            pixel.minus(range_start).over(span).times(
                                Number::spec_from_int(domain_max_us - domain_min_us),
                            ),
                        ),
                    )
                }
            },
            _ => None,
        }
    }

    /// The centre of a category's band.
    pub open spec fn map_category(self, category: Seq<char>) -> Option<Number> {
        match self {
            ScaleModel::Band { categories, range_start, range_end, padding } => {
                let band = range_end.minus(range_start).over(
                    Number::spec_from_int(categories.len() as int),
                );
                let two = Number::from_bits(TWO);
                match index_in(categories, category) {
                    Some(i) => Some(
                        range_start.plus(band.times(padding).over(two)).plus(
                            band.times(Number::spec_from_int(i as int)),
                        ).plus(band.times(Number::from_bits(ONE).minus(padding)).over(two)),
                    ),
                    None => None,
                }
            },
            _ => None,
        }
    }

    /// The width of a band without its padding.
    pub open spec fn band_width(self) -> Option<Number> {
        match self {
            ScaleModel::Band { categories, range_start, range_end, padding } => {
                if categories.len() == 0 {
                    None
                } else {
                    Some(
                        range_end.minus(range_start).over(
                            Number::spec_from_int(categories.len() as int),
                        ).times(Number::from_bits(ONE).minus(padding)),
                    )
                }
            },
            _ => None,
        }
    }

    /// The palette colour of a category, the palette taken round and round.
    pub open spec fn map_colour(self, category: Seq<char>) -> Option<Rgba> {
        match self {
            ScaleModel::Colour { categories, palette } => {
                match index_in(categories, category) {
                    Some(i) => if palette.len() == 0 {
                        None
                    } else {
                        Some(palette[(i % palette.len()) as int])
                    },
                    None => None,
                }
            },
            _ => None,
        }
    }

    /// The low end of a continuous domain.
    pub open spec fn domain_min(self) -> Option<Number> {
        match self {
            ScaleModel::Linear { domain_min, .. } => Some(domain_min),
            ScaleModel::Time { domain_min_us, .. } => Some(
                Number::spec_from_int(domain_min_us as int),
            ),
            ScaleModel::Sequential { domain_min, .. } => Some(domain_min),
            _ => None,
        }
    }

    /// The high end of a continuous domain.
    pub open spec fn domain_max(self) -> Option<Number> {
        match self {
            ScaleModel::Linear { domain_max, .. } => Some(domain_max),
            ScaleModel::Time { domain_max_us, .. } => Some(
                Number::spec_from_int(domain_max_us as int),
            ),
            ScaleModel::Sequential { domain_max, .. } => Some(domain_max),
            _ => None,
        }
    }

    /// The pixel a positional scale's range starts at, and zero for the
    /// others, which have none.
    pub open spec fn range_start(self) -> Number {
        match self {
            ScaleModel::Linear { range_start, .. } => range_start,
            ScaleModel::Band { range_start, .. } => range_start,
            ScaleModel::Time { range_start, .. } => range_start,
            _ => Number::from_bits(ZERO),
        }
    }

    /// The pixel a positional scale's range ends at, and zero for the others.
    pub open spec fn range_end(self) -> Number {
        match self {
            ScaleModel::Linear { range_end, .. } => range_end,
            ScaleModel::Band { range_end, .. } => range_end,
            ScaleModel::Time { range_end, .. } => range_end,
            _ => Number::from_bits(ZERO),
        }
    }
}

fn is_degenerate(span: Number) -> (r: bool)
    ensures
        r == degenerate(span),
{
    span.abs().lt(Number::from_bits(EPSILON))
}

fn middle(a: Number, b: Number) -> (r: Number)
    ensures
        r == midpoint(a, b),
{
    a.plus(b).over(Number::from_bits(TWO))
}

fn part_of_way(a: Number, b: Number, t: Number) -> (r: Number)
    ensures
        r == part_way(a, b, t),
{
    a.plus(t.times(b.minus(a)))
}

fn blend_channel(a: Single, b: Single, t: Single) -> (r: Single)
    ensures
        r == blended_channel(a, b, t),
{
    a.plus(b.minus(a).times(t))
}

fn opaque_black() -> (r: Rgba)
    ensures
        r == black(),
{
    Rgba {
        r: Single::from_bits(0),
        g: Single::from_bits(0),
        b: Single::from_bits(0),
        a: Single::from_bits(OPAQUE),
    }
}

impl Clone for Scale {
    fn clone(&self) -> (r: Self)
        ensures
            r@ == self@,
    {
        match self {
            Scale::Linear { domain_min, domain_max, range_start, range_end } => Scale::Linear {
                domain_min: *domain_min,
                domain_max: *domain_max,
                range_start: *range_start,
                range_end: *range_end,
            },
            Scale::Band { categories, range_start, range_end, padding } => Scale::Band {
                categories: copied_strings(categories),
                range_start: *range_start,
                range_end: *range_end,
                padding: *padding,
            },
            Scale::Time { domain_min_us, domain_max_us, range_start, range_end } => Scale::Time {
                domain_min_us: *domain_min_us,
                domain_max_us: *domain_max_us,
                range_start: *range_start,
                range_end: *range_end,
            },
            Scale::Colour { categories, palette } => Scale::Colour {
                categories: copied_strings(categories),
                palette: copied_colours(palette),
            },
            Scale::Sequential { domain_min, domain_max, stops } => Scale::Sequential {
                domain_min: *domain_min,
                domain_max: *domain_max,
                stops: copied_colours(stops),
            },
        }
    }
}

/// Copies a list of colours.
pub(crate) fn copied_colours(v: &Vec<Rgba>) -> (r: Vec<Rgba>)
    ensures
        r@ == v@,
{
    let copy = v.clone();
    assert(copy@ =~= v@);
    copy
}

impl Scale {
    /// Map a numeric value to a pixel position, on linear and time scales. A
    /// time span is taken exactly before it is rounded.
    pub fn map_f64(&self, value: Number) -> (r: Number)
        ensures
            r == self@.map_f64(value),
    {
        match self {
            Scale::Linear { domain_min, domain_max, range_start, range_end } => {
                let span = domain_max.minus(*domain_min);
                if is_degenerate(span) {
                    return middle(*range_start, *range_end);
                }
                let t = value.minus(*domain_min).over(span);
                part_of_way(*range_start, *range_end, t)
            },
            Scale::Time { domain_min_us, domain_max_us, range_start, range_end } => {
                let span = Number::from_difference(*domain_max_us, *domain_min_us);
                if is_degenerate(span) {
                    return middle(*range_start, *range_end);
                }
                let t = value.minus(Number::from_i64(*domain_min_us)).over(span);
                part_of_way(*range_start, *range_end, t)
            },
            _ => value,
        }
    }

    /// Map a numeric value to an interpolated ramp colour, on sequential
    /// scales.
    pub fn map_continuous(&self, value: Number) -> (r: Rgba)
        ensures
            r == self@.map_continuous(value),
    {
        match self {
            Scale::Sequential { domain_min, domain_max, stops } => {
                let n: usize = stops.len();
                if n == 0 {
                    return opaque_black();
                }
                let span = domain_max.minus(*domain_min);
                if is_degenerate(span) {
                    return stops[n - 1];
                }
                let t = value.minus(*domain_min).over(span).clamp(
                    Number::from_bits(ZERO),
                    Number::from_bits(ONE),
                );
                if n == 1 || t.same(Number::from_bits(ZERO)) {
                    return stops[0];
                }
                if t.same(Number::from_bits(ONE)) {
                    return stops[n - 1];
                }
                let scaled = t.times(Number::from_usize(n - 1));
                let below = scaled.floor().to_usize();
                let i: usize = if below < n - 2 {
                    below
                } else {
                    n - 2
                };
                let part = Single::nearest(scaled.minus(Number::from_usize(i)));
                let a = stops[i];
                let b = stops[i + 1];
                Rgba {
                    r: blend_channel(a.r, b.r, part),
                    g: blend_channel(a.g, b.g, part),
                    b: blend_channel(a.b, b.b, part),
                    a: blend_channel(a.a, b.a, part),
                }
            },
            _ => opaque_black(),
        }
    }

    /// Map a pixel position back to a data value. `None` for discrete scales,
    /// where there is no such inverse. A time scale answers in microseconds.
    pub fn inverse_f64(&self, pixel: Number) -> (r: Option<Number>)
        ensures
            r == self@.inverse_f64(pixel),
    {
        match self {
            Scale::Linear { domain_min, domain_max, range_start, range_end } => {
                let span = range_end.minus(*range_start);
                if is_degenerate(span) {
                    return Some(middle(*domain_min, *domain_max));
                }
                let t = pixel.minus(*range_start).over(span);
                Some(part_of_way(*domain_min, *domain_max, t))
            },
            Scale::Time { domain_min_us, domain_max_us, range_start, range_end } => {
                let span = range_end.minus(*range_start);
                if is_degenerate(span) {
                    let sum = Number::from_sum(*domain_min_us, *domain_max_us);
                    return Some(sum.over(Number::from_bits(TWO)));
                }
                let t = pixel.minus(*range_start).over(span);
                let domain_span = Number::from_difference(*domain_max_us, *domain_min_us);
                Some(Number::from_i64(*domain_min_us).plus(t.times(domain_span)))
            },
            _ => None,
        }
    }

    /// Map a category to a band centre position.
    pub fn map_category(&self, category: &str) -> (r: Option<Number>)
        ensures
            r == self@.map_category(category@),
    {
        match self {
            Scale::Band { categories, range_start, range_end, padding } => {
                let i = match position(categories, category) {
                    Some(i) => i,
                    None => {
                        return None;
                    },
                };
                let two = Number::from_bits(TWO);
                let band = range_end.minus(*range_start).over(
                    Number::from_usize(categories.len()),
                );
                let padded_start = range_start.plus(band.times(*padding).over(two));
                Some(
                    padded_start.plus(band.times(Number::from_usize(i))).plus(
                        band.times(Number::from_bits(ONE).minus(*padding)).over(two),
                    ),
                )
            },
            _ => None,
        }
    }

    /// Get the band width for bar rendering.
    pub fn band_width(&self) -> (r: Option<Number>)
        ensures
            r == self@.band_width(),
    {
        match self {
            Scale::Band { categories, range_start, range_end, padding } => {
                if categories.len() == 0 {
                    return None;
                }
                let band = range_end.minus(*range_start).over(
                    Number::from_usize(categories.len()),
                );
                Some(band.times(Number::from_bits(ONE).minus(*padding)))
            },
            _ => None,
        }
    }

    /// Look up the colour for a category. A palette without colours has none
    /// for any.
    pub fn map_colour(&self, category: &str) -> (r: Option<Rgba>)
        ensures
            r == self@.map_colour(category@),
    {
        match self {
            Scale::Colour { categories, palette } => {
                match position(categories, category) {
                    Some(i) => {
                        if palette.len() == 0 {
                            None
                        } else {
                            Some(palette[i % palette.len()])
                        }
                    },
                    None => None,
                }
            },
            _ => None,
        }
    }

    /// Domain min for linear, time and sequential scales.
    pub fn domain_min(&self) -> (r: Option<Number>)
        ensures
            r == self@.domain_min(),
    {
        match self {
            Scale::Linear { domain_min, .. } => Some(*domain_min),
            Scale::Time { domain_min_us, .. } => Some(Number::from_i64(*domain_min_us)),
            Scale::Sequential { domain_min, .. } => Some(*domain_min),
            _ => None,
        }
    }

    /// Domain max for linear, time and sequential scales.
    pub fn domain_max(&self) -> (r: Option<Number>)
        ensures
            r == self@.domain_max(),
    {
        match self {
            Scale::Linear { domain_max, .. } => Some(*domain_max),
            Scale::Time { domain_max_us, .. } => Some(Number::from_i64(*domain_max_us)),
            Scale::Sequential { domain_max, .. } => Some(*domain_max),
            _ => None,
        }
    }

    /// Range start.
    pub fn range_start(&self) -> (r: Number)
        ensures
            r == self@.range_start(),
    {
        match self {
            Scale::Linear { range_start, .. } => *range_start,
            Scale::Band { range_start, .. } => *range_start,
            Scale::Time { range_start, .. } => *range_start,
            _ => Number::from_bits(ZERO),
        }
    }

    /// Range end.
    pub fn range_end(&self) -> (r: Number)
        ensures
            r == self@.range_end(),
    {
        match self {
            Scale::Linear { range_end, .. } => *range_end,
            Scale::Band { range_end, .. } => *range_end,
            Scale::Time { range_end, .. } => *range_end,
            _ => Number::from_bits(ZERO),
        }
    }
}

/// A linear scale puts the start of its domain at the start of its range, and
/// reads it back from there.
pub proof fn a_domain_starts_where_its_range_does(scale: ScaleModel)
    requires
        scale is Linear,
        scale->Linear_domain_min.is_finite(),
        scale->Linear_range_start.is_finite(),
        scale->Linear_domain_max.minus(scale->Linear_domain_min).is_finite(),
        scale->Linear_range_end.minus(scale->Linear_range_start).is_finite(),
        !degenerate(scale->Linear_domain_max.minus(scale->Linear_domain_min)),
        !degenerate(scale->Linear_range_end.minus(scale->Linear_range_start)),
    ensures
        scale.map_f64(scale->Linear_domain_min).same(scale->Linear_range_start),
        scale.inverse_f64(scale->Linear_range_start)->0.same(scale->Linear_domain_min),
{
    let min = scale->Linear_domain_min;
    let start = scale->Linear_range_start;
    let domain = scale->Linear_domain_max.minus(min);
    let range = scale->Linear_range_end.minus(start);
    lemma_part_way_starts(start, scale->Linear_range_end, min, domain);
    lemma_part_way_starts(min, scale->Linear_domain_max, start, range);
}

proof fn lemma_part_way_starts(a: Number, b: Number, origin: Number, span: Number)
    requires
        a.is_finite(),
        b.minus(a).is_finite(),
        origin.is_finite(),
        span.is_finite(),
        !degenerate(span),
    ensures
        part_way(a, b, origin.minus(origin).over(span)).same(a),
{
    let zero = origin.minus(origin);
    lemma_difference_keeps_order(origin, origin, origin);
    lemma_nothing_over(zero, span);
    lemma_times_nothing(b.minus(a), zero.over(span));
    lemma_plus_nothing(a, zero.over(span).times(b.minus(a)));
}

/// How far a value is along a span keeps the order of the values.
proof fn lemma_parts_keep_order(a: Number, b: Number, origin: Number, span: Number)
    requires
        a.le(b),
        origin.is_finite(),
        span.is_finite(),
        !span.negative(),
        !degenerate(span),
    ensures
        a.minus(origin).over(span).le(b.minus(origin).over(span)),
{
    lemma_plus_keeps_order(a, b, origin.negated());
    lemma_over_keeps_order(a.minus(origin), b.minus(origin), span);
}

/// The way from a start keeps the order of the parts, or turns it round where
/// the way leads down.
proof fn lemma_part_way_keeps_order(s: Number, t: Number, start: Number, end: Number)
    requires
        s.le(t),
        start.is_finite(),
        end.minus(start).is_finite(),
        end.minus(start).magnitude() != 0,
    ensures
        !end.minus(start).negative() ==> part_way(start, end, s).le(part_way(start, end, t)),
        end.minus(start).negative() ==> part_way(start, end, t).le(part_way(start, end, s)),
{
    let way = end.minus(start);
    lemma_times_keeps_order(s, t, way);
    if !way.negative() {
        lemma_plus_keeps_order(s.times(way), t.times(way), start);
    } else {
        lemma_plus_keeps_order(t.times(way), s.times(way), start);
    }
}

/// A linear scale keeps order: of two values the greater is drawn no nearer to
/// the start of the range, whichever way the range leads.
pub proof fn a_linear_scale_keeps_order(scale: ScaleModel, a: Number, b: Number)
    requires
        scale is Linear,
        scale->Linear_domain_min.is_finite(),
        scale->Linear_range_start.is_finite(),
        scale->Linear_domain_max.minus(scale->Linear_domain_min).is_finite(),
        !scale->Linear_domain_max.minus(scale->Linear_domain_min).negative(),
        !degenerate(scale->Linear_domain_max.minus(scale->Linear_domain_min)),
        scale->Linear_range_end.minus(scale->Linear_range_start).is_finite(),
        scale->Linear_range_end.minus(scale->Linear_range_start).magnitude() != 0,
        a.le(b),
    ensures
        if scale->Linear_range_end.minus(scale->Linear_range_start).negative() {
            scale.map_f64(b).le(scale.map_f64(a))
        } else {
            scale.map_f64(a).le(scale.map_f64(b))
        },
{
    let origin = scale->Linear_domain_min;
    let span = scale->Linear_domain_max.minus(origin);
    lemma_parts_keep_order(a, b, origin, span);
    lemma_part_way_keeps_order(
        a.minus(origin).over(span),
        b.minus(origin).over(span),
        scale->Linear_range_start,
        scale->Linear_range_end,
    );
}

/// A time scale keeps order in the same way.
pub proof fn a_time_scale_keeps_order(scale: ScaleModel, a: Number, b: Number)
    requires
        scale is Time,
        scale->Time_domain_min_us < scale->Time_domain_max_us,
        scale->Time_range_start.is_finite(),
        scale->Time_range_end.minus(scale->Time_range_start).is_finite(),
        scale->Time_range_end.minus(scale->Time_range_start).magnitude() != 0,
        a.le(b),
    ensures
        if scale->Time_range_end.minus(scale->Time_range_start).negative() {
            scale.map_f64(b).le(scale.map_f64(a))
        } else {
            scale.map_f64(a).le(scale.map_f64(b))
        },
{
    let origin = Number::spec_from_int(scale->Time_domain_min_us as int);
    let length = scale->Time_domain_max_us - scale->Time_domain_min_us;
    let span = Number::spec_from_int(length);
    lemma_from_int_is_finite(scale->Time_domain_min_us as int);
    lemma_from_int_is_finite(length);
    lemma_integers_keep_order(1, length);
    lemma_one_is_whole();
    lemma_parts_keep_order(a, b, origin, span);
    lemma_part_way_keeps_order(
        a.minus(origin).over(span),
        b.minus(origin).over(span),
        scale->Time_range_start,
        scale->Time_range_end,
    );
}

/// A ramp starts at its first stop and ends at its last, exactly, and values
/// beyond its domain take the colour of the nearer end.
pub proof fn a_ramp_ends_at_its_stops(scale: ScaleModel, value: Number)
    requires
        scale is Sequential,
        scale->Sequential_stops.len() > 0,
        scale->Sequential_domain_min.is_finite(),
        scale->Sequential_domain_max.is_finite(),
        scale->Sequential_domain_max.minus(scale->Sequential_domain_min).is_finite(),
        !scale->Sequential_domain_max.minus(scale->Sequential_domain_min).negative(),
        !degenerate(scale->Sequential_domain_max.minus(scale->Sequential_domain_min)),
    ensures
        value.le(scale->Sequential_domain_min) ==> scale.map_continuous(value)
            == scale->Sequential_stops[0],
        scale->Sequential_domain_max.le(value) ==> scale.map_continuous(value)
            == scale->Sequential_stops.last(),
{
    let min = scale->Sequential_domain_min;
    let max = scale->Sequential_domain_max;
    let span = max.minus(min);
    lemma_format();
    if value.le(min) {
        lemma_parts_keep_order(value, min, min, span);
        lemma_difference_keeps_order(min, min, min);
        lemma_nothing_over(min.minus(min), span);
    }
    if max.le(value) {
        lemma_parts_keep_order(max, value, min, span);
        lemma_over_itself(span);
    }
}

impl ScaleModel {
    /// Where the domain of a continuous positional scale starts.
    pub open spec fn origin(self) -> Number {
        match self {
            ScaleModel::Linear { domain_min, .. } => domain_min,
            ScaleModel::Time { domain_min_us, .. } => Number::spec_from_int(domain_min_us as int),
            _ => Number::from_bits(ZERO),
        }
    }

    /// How far the domain of a continuous positional scale reaches.
    pub open spec fn span(self) -> Number {
        match self {
            ScaleModel::Linear { domain_min, domain_max, .. } => domain_max.minus(domain_min),
            ScaleModel::Time { domain_min_us, domain_max_us, .. } => Number::spec_from_int(
                domain_max_us - domain_min_us,
            ),
            _ => Number::from_bits(ZERO),
        }
    }

    /// How far the range of a scale reaches.
    pub open spec fn way(self) -> Number {
        self.range_end().minus(self.range_start())
    }

    /// Whether a continuous positional scale has finite ends, and neither a
    /// domain nor a range that is too small to divide by.
    pub open spec fn regular(self) -> bool {
        &&& self is Linear || self is Time
        &&& self.origin().is_finite()
        &&& self.span().is_finite() && !degenerate(self.span())
        &&& self.range_start().is_finite()
        &&& self.way().is_finite() && !degenerate(self.way())
    }

    /// How far from a value its pixel's own value may lie: a tiny part of the
    /// value, of the domain's start and span, and of what a pixel is worth as
    /// often as the range's start counts pixels.
    pub open spec fn tolerance(self, value: Number) -> real {
        trip_roundoff() * (distance(amount(value)) + distance(amount(self.origin())) + distance(
            amount(self.span()),
        ) + distance(amount(self.range_start()) * (amount(self.span()) / amount(self.way()))))
    }
}

/// A value comes back from its pixel up to rounding, as long as no step leaves
/// the range of numbers.
pub proof fn a_value_comes_back_from_its_pixel(scale: ScaleModel, value: Number)
    requires
        scale.regular(),
        value.is_finite(),
        scale.map_f64(value).is_finite(),
        scale.inverse_f64(scale.map_f64(value)) matches Some(w) && w.is_finite(),
    ensures
        scale.inverse_f64(scale.map_f64(value)) matches Some(w) && distance(
            amount(w) - amount(value),
        ) <= scale.tolerance(value),
{
    let (a, d, s, r) = (scale.origin(), scale.span(), scale.range_start(), scale.way());
    let x = value.minus(a);
    let t = x.over(d);
    let q = t.times(r);
    let p = scale.map_f64(value);
    let e = p.minus(s);
    let back = e.over(r);
    let near = back.times(d);
    let w = scale.inverse_f64(p)->0;
    assert(p == s.plus(q));
    assert(w == a.plus(near));
    lemma_amount_of_epsilon(d);
    lemma_amount_of_epsilon(r);
    lemma_finite_parts(q, s);
    lemma_finite_parts(t, r);
    lemma_finite_parts(x, d);
    lemma_finite_parts(near, a);
    lemma_finite_parts(back, d);
    lemma_finite_parts(e, r);
    lemma_minus_accuracy(value, a);
    lemma_over_accuracy(x, d);
    lemma_times_accuracy(t, r);
    lemma_plus_accuracy(s, q);
    lemma_minus_accuracy(p, s);
    lemma_over_accuracy(e, r);
    lemma_times_accuracy(back, d);
    lemma_plus_accuracy(a, near);
    lemma_trip(
        Trip {
            v: amount(value),
            a: amount(a),
            x: amount(x),
            d: amount(d),
            t: amount(t),
            r: amount(r),
            q: amount(q),
            s: amount(s),
            p: amount(p),
            e: amount(e),
            back: amount(back),
            near: amount(near),
            w: amount(w),
        },
    );
}

/// Only continuous positional scales give values back for pixels.
pub proof fn only_continuous_scales_invert(scale: ScaleModel, pixel: Number)
    ensures
        scale.inverse_f64(pixel) is Some <==> scale is Linear || scale is Time,
{
}

} // verus!
