//! Continuous colour ramps on the fill channel.
use vstd::prelude::*;

use crate::batch::{cell_of, number_of, Batch};
use crate::channel::{Channel, ChannelMap};
use crate::colour::Rgba;
use crate::drawing::Rect;
use crate::folds::{column_extremes, highest_from, lowest_from, present};
use crate::highlight::numbers_view;
use crate::infer::Range;
use crate::number::Number;
use crate::numerals::{INFINITY, NEG_INFINITY, TWO, ZERO};
use crate::paint::{resolve_colour, row_colour};
use crate::rect::{channel_column, channel_numbers};
use crate::scale::{copied_colours, Scale, ScaleModel};
use crate::scale_set::ScaleSet;
use crate::scheme::{scheme_stops, SequentialScheme};

verus! {

/// The ramp of a scale set: its fill scale, where that is a continuous one.
pub open spec fn ramp_of(scales: ScaleSet) -> Option<ScaleModel> {
    match scales.at(Channel::Fill) {
        Some(ScaleModel::Sequential { domain_min, domain_max, stops }) => Some(
            ScaleModel::Sequential { domain_min, domain_max, stops },
        ),
        _ => None,
    }
}

/// The ramp of a scale set: its fill scale, where that is a continuous one.
pub fn fill_ramp(scales: &ScaleSet) -> (r: Option<&Scale>)
    ensures
        r is Some <==> ramp_of(*scales) is Some,
        r matches Some(s) ==> ramp_of(*scales) == Some(s@),
{
    match scales.get(Channel::Fill) {
        Some(scale) => match scale {
            Scale::Sequential { .. } => Some(scale),
            _ => None,
        },
        None => None,
    }
}

/// A continuous scale over a domain.
pub open spec fn ramp_over(domain: Range, stops: Seq<Rgba>) -> ScaleModel {
    ScaleModel::Sequential { domain_min: domain.start, domain_max: domain.end, stops }
}

/// A fill scale with a ramp joined to it: a ramp that is there widens and
/// keeps its colours, and a fill scale of another kind stays.
pub open spec fn joined_ramp(slot: Option<ScaleModel>, domain: Range, stops: Seq<Rgba>) -> Option<
    ScaleModel,
> {
    match slot {
        Some(ScaleModel::Sequential { domain_min, domain_max, stops: kept }) => Some(
            ScaleModel::Sequential {
                domain_min: domain_min.min(domain.start),
                domain_max: domain_max.max(domain.end),
                stops: kept,
            },
        ),
        Some(other) => Some(other),
        None => Some(ramp_over(domain, stops)),
    }
}

/// A fill scale with a ramp put in its place: a ramp that is there widens and
/// keeps its colours, a palette stays, and any other scale gives way.
pub open spec fn placed_ramp(slot: Option<ScaleModel>, domain: Range, stops: Seq<Rgba>) -> Option<
    ScaleModel,
> {
    match slot {
        Some(ScaleModel::Sequential { .. }) => joined_ramp(slot, domain, stops),
        Some(ScaleModel::Colour { .. }) => slot,
        _ => Some(ramp_over(domain, stops)),
    }
}

fn widened_ramp(domain_min: Number, domain_max: Number, stops: &Vec<Rgba>, domain: Range) -> (r:
    Scale)
    ensures
        r@ == (ScaleModel::Sequential {
            domain_min: domain_min.min(domain.start),
            domain_max: domain_max.max(domain.end),
            stops: stops@,
        }),
{
    Scale::Sequential {
        domain_min: domain_min.min(domain.start),
        domain_max: domain_max.max(domain.end),
        stops: copied_colours(stops),
    }
}

/// Joins a ramp to the fill scale without displacing a sibling's.
pub fn join_ramp(scales: &mut ScaleSet, domain: Range, scheme: SequentialScheme, meridian: &Vec<Rgba>)
    ensures
        final(scales).at(Channel::Fill) == joined_ramp(
            old(scales).at(Channel::Fill),
            domain,
            scheme_stops(scheme, meridian@),
        ),
        forall|c: Channel| c != Channel::Fill ==> #[trigger] final(scales).at(c) == old(scales).at(c),
        final(scales).ink == old(scales).ink,
        final(scales).geo_extent == old(scales).geo_extent,
{
    let scale = match scales.get(Channel::Fill) {
        Some(Scale::Sequential { domain_min, domain_max, stops }) => widened_ramp(
            *domain_min,
            *domain_max,
            stops,
            domain,
        ),
        Some(_) => {
            return ;
        },
        None => Scale::Sequential {
            domain_min: domain.start,
            domain_max: domain.end,
            stops: scheme.stops(meridian),
        },
    };
    scales.insert(Channel::Fill, scale);
}

/// Puts a ramp in place of the fill scale, unless that is a palette.
pub fn place_ramp(
    scales: &mut ScaleSet,
    domain: Range,
    scheme: SequentialScheme,
    meridian: &Vec<Rgba>,
)
    ensures
        final(scales).at(Channel::Fill) == placed_ramp(
            old(scales).at(Channel::Fill),
            domain,
            scheme_stops(scheme, meridian@),
        ),
        forall|c: Channel| c != Channel::Fill ==> #[trigger] final(scales).at(c) == old(scales).at(c),
        final(scales).ink == old(scales).ink,
        final(scales).geo_extent == old(scales).geo_extent,
{
    let scale = match scales.get(Channel::Fill) {
        Some(Scale::Sequential { domain_min, domain_max, stops }) => widened_ramp(
            *domain_min,
            *domain_max,
            stops,
            domain,
        ),
        Some(Scale::Colour { .. }) => {
            return ;
        },
        _ => Scale::Sequential {
            domain_min: domain.start,
            domain_max: domain.end,
            stops: scheme.stops(meridian),
        },
    };
    scales.insert(Channel::Fill, scale);
}

/// The domain of a numeric fill: from its least value to its greatest, and
/// from zero where none is negative. None without a column of numbers.
pub open spec fn fill_domain(batch: Batch, channel_map: ChannelMap) -> Option<Range> {
    match channel_numbers(batch, channel_map, Channel::Fill) {
        Some(v) => {
            let low = lowest_from(Number::from_bits(INFINITY), present(v));
            let high = highest_from(Number::from_bits(NEG_INFINITY), present(v));
            let zero = Number::from_bits(ZERO);
            if low.is_finite() && high.is_finite() {
                Some(
                    Range {
                        start: if zero.le(low) {
                            zero
                        } else {
                            low
                        },
                        end: high,
                    },
                )
            } else {
                None
            }
        },
        None => None,
    }
}

/// The domain of a numeric fill.
pub fn numeric_fill_domain(batch: &Batch, channel_map: &ChannelMap) -> (r: Option<Range>)
    ensures
        r == fill_domain(*batch, *channel_map),
{
    match channel_column(batch, channel_map, Channel::Fill) {
        Some(v) => {
            let (low, high) = column_extremes(
                &v,
                Number::from_bits(INFINITY),
                Number::from_bits(NEG_INFINITY),
            );
            let zero = Number::from_bits(ZERO);
            if low.is_finite() && high.is_finite() {
                let start = if zero.le(low) {
                    zero
                } else {
                    low
                };
                Some(Range { start, end: high })
            } else {
                None
            }
        },
        None => None,
    }
}

/// The colour of a row whose fill may be a number on a ramp: the ramp's colour
/// of its value, the null ink where a numeric fill has no value, and the
/// palette's colour where the fill is not a number on a ramp.
pub open spec fn ramp_colour(
    scales: ScaleSet,
    channel_map: ChannelMap,
    batch: Batch,
    row: int,
) -> Rgba {
    let values = channel_numbers(batch, channel_map, Channel::Fill);
    match (ramp_of(scales), cell_of(values, row)) {
        (Some(ramp), Some(v)) => ramp.map_continuous(v),
        (Some(_), None) => if values is Some {
            scales.ink.null
        } else {
            row_colour(scales, channel_map, batch, row)
        },
        _ => row_colour(scales, channel_map, batch, row),
    }
}

/// The colour of a row whose fill may be a number on a ramp.
pub fn resolve_ramp_colour(
    scales: &ScaleSet,
    channel_map: &ChannelMap,
    batch: &Batch,
    values: &Option<Vec<Option<Number>>>,
    row: usize,
) -> (r: Rgba)
    requires
        numbers_view(*values) == channel_numbers(*batch, *channel_map, Channel::Fill),
    ensures
        r == ramp_colour(*scales, *channel_map, *batch, row as int),
{
    match (fill_ramp(scales), number_of(values, row)) {
        (Some(ramp), Some(v)) => ramp.map_continuous(v),
        (Some(_), None) => if values.is_some() {
            scales.ink.null
        } else {
            resolve_colour(scales, channel_map, batch, row)
        },
        _ => resolve_colour(scales, channel_map, batch, row),
    }
}

/// The pixel rectangle of a bin around a centre, its corners in order. None
/// where a corner is not finite.
pub open spec fn bin_box(
    x: ScaleModel,
    y: ScaleModel,
    cx: Number,
    cy: Number,
    dx: Number,
    dy: Number,
) -> Option<Rect> {
    let two = Number::from_bits(TWO);
    let xa = x.map_f64(cx.minus(dx.over(two)));
    let xb = x.map_f64(cx.plus(dx.over(two)));
    let ya = y.map_f64(cy.minus(dy.over(two)));
    let yb = y.map_f64(cy.plus(dy.over(two)));
    let r = Rect { x0: xa.min(xb), y0: ya.min(yb), x1: xa.max(xb), y1: ya.max(yb) };
    if r.x0.is_finite() && r.x1.is_finite() && r.y0.is_finite() && r.y1.is_finite() {
        Some(r)
    } else {
        None
    }
}

/// The pixel rectangle of a bin around a centre.
pub fn lay_bin(x: &Scale, y: &Scale, cx: Number, cy: Number, dx: Number, dy: Number) -> (r: Option<
    Rect,
>)
    ensures
        r == bin_box(x@, y@, cx, cy, dx, dy),
{
    let two = Number::from_bits(TWO);
    let xa = x.map_f64(cx.minus(dx.over(two)));
    let xb = x.map_f64(cx.plus(dx.over(two)));
    let ya = y.map_f64(cy.minus(dy.over(two)));
    let yb = y.map_f64(cy.plus(dy.over(two)));
    let r = Rect { x0: xa.min(xb), y0: ya.min(yb), x1: xa.max(xb), y1: ya.max(yb) };
    if r.x0.is_finite() && r.x1.is_finite() && r.y0.is_finite() && r.y1.is_finite() {
        Some(r)
    } else {
        None
    }
}

/// A missing value on a ramp takes the null ink, whatever the ramp holds.
pub proof fn a_missing_value_takes_the_null_ink(
    scales: ScaleSet,
    channel_map: ChannelMap,
    batch: Batch,
    row: int,
)
    requires
        ramp_of(scales) is Some,
        channel_numbers(batch, channel_map, Channel::Fill) is Some,
        cell_of(channel_numbers(batch, channel_map, Channel::Fill), row) is None,
    ensures
        ramp_colour(scales, channel_map, batch, row) == scales.ink.null,
{
}

/// A ramp never displaces a sibling mark's palette.
pub proof fn a_palette_survives_a_ramp(
    slot: ScaleModel,
    domain: Range,
    stops: Seq<Rgba>,
)
    requires
        slot is Colour,
    ensures
        joined_ramp(Some(slot), domain, stops) == Some(slot),
        placed_ramp(Some(slot), domain, stops) == Some(slot),
{
}

} // verus!
