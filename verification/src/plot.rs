//! What a channel of a mark is bound to.
use vstd::prelude::*;

use crate::batch::{cell_of, number_of, Batch};
use crate::channel::{Channel, ChannelMap};
use crate::drawing::Point;
use crate::highlight::numbers_view;
use crate::number::Number;
use crate::paint::{position_of, resolve_position};
use crate::scale::{Scale, ScaleModel};
use crate::scale_set::ScaleSet;

verus! {

/// A channel's column and scale.
pub struct Bound<'a> {
    pub column: &'a str,
    pub scale: &'a Scale,
}

/// The column and the scale of a channel, where it has both.
pub open spec fn bound_to(channel_map: ChannelMap, scales: ScaleSet, c: Channel) -> Option<
    (Seq<char>, ScaleModel),
> {
    match (channel_map.column(c), scales.at(c)) {
        (Some(column), Some(scale)) => Some((column, scale)),
        _ => None,
    }
}

/// The column and the scale of a channel, where it has both.
pub fn bound<'a>(channel_map: &'a ChannelMap, scales: &'a ScaleSet, c: Channel) -> (r: Option<
    Bound<'a>,
>)
    ensures
        r is Some <==> bound_to(*channel_map, *scales, c) is Some,
        r matches Some(b) ==> bound_to(*channel_map, *scales, c) == Some((b.column@, b.scale@)),
{
    match (channel_map.get(c), scales.get(c)) {
        (Some(column), Some(scale)) => Some(Bound { column, scale }),
        _ => None,
    }
}

/// A point of a scaled plot.
pub open spec fn pixel(x: ScaleModel, y: ScaleModel, u: Number, v: Number) -> Point {
    Point { x: x.map_f64(u), y: y.map_f64(v) }
}

/// The place of a row on two axes, where it has one on both.
pub open spec fn row_place(
    batch: Batch,
    x: (Seq<char>, ScaleModel),
    y: (Seq<char>, ScaleModel),
    row: int,
) -> Option<Point> {
    match (
        position_of(
            x.1,
            cell_of(batch.numbers(x.0), row),
            cell_of(batch.texts(x.0), row),
        ),
        position_of(
            y.1,
            cell_of(batch.numbers(y.0), row),
            cell_of(batch.texts(y.0), row),
        ),
    ) {
        (Some(px), Some(py)) => Some(Point { x: px, y: py }),
        _ => None,
    }
}

/// The place of a row on two axes, given the numbers of their columns.
pub fn place_row(
    batch: &Batch,
    x: &Bound,
    y: &Bound,
    xs: &Option<Vec<Option<Number>>>,
    ys: &Option<Vec<Option<Number>>>,
    row: usize,
) -> (r: Option<Point>)
    requires
        numbers_view(*xs) == batch.numbers(x.column@),
        numbers_view(*ys) == batch.numbers(y.column@),
    ensures
        r == row_place(*batch, (x.column@, x.scale@), (y.column@, y.scale@), row as int),
{
    let xf = number_of(xs, row);
    let yf = number_of(ys, row);
    let xt = batch.text_at(x.column, row);
    let yt = batch.text_at(y.column, row);
    let px = match &xt {
        Some(t) => resolve_position(x.scale, xf, Some(t.as_str())),
        None => resolve_position(x.scale, xf, None),
    };
    let py = match &yt {
        Some(t) => resolve_position(y.scale, yf, Some(t.as_str())),
        None => resolve_position(y.scale, yf, None),
    };
    match (px, py) {
        (Some(px), Some(py)) => Some(Point { x: px, y: py }),
        _ => None,
    }
}

} // verus!
