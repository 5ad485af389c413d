//! Which position and which ink a row of a mark takes.
use vstd::prelude::*;

use crate::batch::{cell_is_missing, cell_of, Batch};
use crate::channel::{Channel, ChannelMap};
use crate::colour::Rgba;
use crate::ink::ChartInk;
use crate::number::Number;
use crate::scale::{Scale, ScaleModel};
use crate::scale_set::ScaleSet;

verus! {

/// Where a value lies on an axis: numbers on a continuous one, texts on a
/// band, and nothing on a colour scale.
pub open spec fn position_of(
    scale: ScaleModel,
    number: Option<Number>,
    text: Option<Seq<char>>,
) -> Option<Number> {
    match scale {
        ScaleModel::Linear { .. } => match number {
            Some(v) => Some(scale.map_f64(v)),
            None => None,
        },
        ScaleModel::Time { .. } => match number {
            Some(v) => Some(scale.map_f64(v)),
            None => None,
        },
        ScaleModel::Band { .. } => match text {
            Some(t) => scale.map_category(t),
            None => None,
        },
        _ => None,
    }
}

/// Resolve the pixel position for a value given a channel's scale.
pub fn resolve_position(scale: &Scale, number: Option<Number>, text: Option<&str>) -> (r: Option<
    Number,
>)
    ensures
        r == position_of(
            scale@,
            number,
            match text {
                Some(t) => Some(t@),
                None => None,
            },
        ),
{
    match scale {
        Scale::Linear { .. } => match number {
            Some(v) => Some(scale.map_f64(v)),
            None => None,
        },
        Scale::Time { .. } => match number {
            Some(v) => Some(scale.map_f64(v)),
            None => None,
        },
        Scale::Band { .. } => match text {
            Some(t) => scale.map_category(t),
            None => None,
        },
        _ => None,
    }
}

/// Whether a mark's bound colour value is missing in a row. A column that is
/// not there is a binding problem and misses nothing.
pub open spec fn value_is_missing(batch: Batch, column: Seq<char>, row: int) -> bool {
    match batch.cells(column) {
        Some(c) => cell_is_missing(c, row),
        None => false,
    }
}

/// The palette colour that a column bound to a channel gives a row, where it
/// gives one.
pub open spec fn palette_colour(
    scales: ScaleSet,
    channel_map: ChannelMap,
    batch: Batch,
    c: Channel,
    row: int,
) -> Option<Rgba> {
    match (channel_map.column(c), scales.at(c)) {
        (Some(column), Some(scale)) => match cell_of(batch.texts(column), row) {
            Some(category) => scale.map_colour(category),
            None => None,
        },
        _ => None,
    }
}

fn column_colour(
    scales: &ScaleSet,
    channel_map: &ChannelMap,
    batch: &Batch,
    c: Channel,
    row: usize,
) -> (r: Option<Rgba>)
    ensures
        r == palette_colour(*scales, *channel_map, *batch, c, row as int),
{
    match (channel_map.get(c), scales.get(c)) {
        (Some(column), Some(scale)) => match batch.text_at(column, row) {
            Some(category) => scale.map_colour(category.as_str()),
            None => None,
        },
        _ => None,
    }
}

/// The ink of a row: a constant fill, the palette colour of its fill column,
/// the missing-value ink where that column's value is missing, and the default
/// ink otherwise.
pub open spec fn row_colour(
    scales: ScaleSet,
    channel_map: ChannelMap,
    batch: Batch,
    row: int,
) -> Rgba {
    match channel_map.colours.at(Channel::Fill) {
        Some(constant) => constant,
        None => match channel_map.column(Channel::Fill) {
            Some(column) => match palette_colour(scales, channel_map, batch, Channel::Fill, row) {
                Some(c) => c,
                None => if value_is_missing(batch, column, row) {
                    scales.ink.null
                } else {
                    scales.ink.mark_default
                },
            },
            None => scales.ink.mark_default,
        },
    }
}

/// Resolve the colour for a data point.
pub fn resolve_colour(
    scales: &ScaleSet,
    channel_map: &ChannelMap,
    batch: &Batch,
    row: usize,
) -> (r: Rgba)
    ensures
        r == row_colour(*scales, *channel_map, *batch, row as int),
{
    if let Some(constant) = channel_map.colour(Channel::Fill) {
        return constant;
    }
    if let Some(column) = channel_map.get(Channel::Fill) {
        if let Some(c) = column_colour(scales, channel_map, batch, Channel::Fill, row) {
            return c;
        }
        if batch.is_missing(column, row) {
            return scales.ink.null;
        }
    }
    scales.ink.mark_default
}

/// The ink of a row drawn with a stroke: a constant stroke, the palette colour
/// of its stroke column, and otherwise what its fill says.
pub open spec fn row_stroke(
    scales: ScaleSet,
    channel_map: ChannelMap,
    batch: Batch,
    row: int,
) -> Rgba {
    match channel_map.colours.at(Channel::Stroke) {
        Some(constant) => constant,
        None => match palette_colour(scales, channel_map, batch, Channel::Stroke, row) {
            Some(c) => c,
            None => row_colour(scales, channel_map, batch, row),
        },
    }
}

/// Resolve the stroke colour for a row.
pub fn resolve_stroke_colour(
    scales: &ScaleSet,
    channel_map: &ChannelMap,
    batch: &Batch,
    row: usize,
) -> (r: Rgba)
    ensures
        r == row_stroke(*scales, *channel_map, *batch, row as int),
{
    if let Some(constant) = channel_map.colour(Channel::Stroke) {
        return constant;
    }
    if let Some(c) = column_colour(scales, channel_map, batch, Channel::Stroke, row) {
        return c;
    }
    resolve_colour(scales, channel_map, batch, row)
}

/// The one ink of a mark that draws one shape: the constant stroke, then the
/// constant fill, then the default.
pub open spec fn single_ink(channel_map: ChannelMap, ink: ChartInk) -> Rgba {
    match channel_map.colours.at(Channel::Stroke) {
        Some(c) => c,
        None => match channel_map.colours.at(Channel::Fill) {
            Some(c) => c,
            None => ink.mark_default,
        },
    }
}

/// The constant ink a mark's specification named, if it named one.
pub fn constant_ink(channel_map: &ChannelMap, ink: ChartInk) -> (r: Rgba)
    ensures
        r == single_ink(*channel_map, ink),
{
    match channel_map.colour(Channel::Stroke) {
        Some(c) => c,
        None => match channel_map.colour(Channel::Fill) {
            Some(c) => c,
            None => ink.mark_default,
        },
    }
}

/// A missing colour value never reads as data: it takes the missing-value ink
/// unless a constant fill is named.
pub proof fn a_missing_colour_takes_the_null_ink(
    scales: ScaleSet,
    channel_map: ChannelMap,
    batch: Batch,
    row: int,
    column: Seq<char>,
)
    requires
        channel_map.colours.at(Channel::Fill) is None,
        channel_map.column(Channel::Fill) == Some(column),
        value_is_missing(batch, column, row),
    ensures
        row_colour(scales, channel_map, batch, row) == scales.ink.null,
{
}

} // verus!
