//! Cells: one rectangle per pair of categories.
use vstd::prelude::*;

use crate::batch::{cell_of, Batch};
use crate::channel::{Channel, ChannelMap};
use crate::colour::Rgba;
use crate::drawing::{drawn_for, Op, Outline, Rect, Scene, Shape};
use crate::highlight::{numbers_view, HighlightState};
use crate::infer::Range;
use crate::number::Number;
use crate::numerals::TWO;
use crate::plot::{bound, bound_to};
use crate::ramp::{
    fill_domain, numeric_fill_domain, place_ramp, placed_ramp, ramp_colour, resolve_ramp_colour,
};
use crate::rect::{channel_column, channel_numbers};
use crate::scale::ScaleModel;
use crate::scale_set::ScaleSet;
use crate::scheme::{scheme_stops, SequentialScheme};

verus! {

/// Renders one filled rectangle per pair of an x and a y category. A numeric
/// fill is a place on a ramp; a text fill takes its palette colour.
#[derive(Debug, Clone, Copy)]
pub struct CellRenderer {
    /// The continuous colour scheme for numeric fills.
    pub scheme: SequentialScheme,
}

impl Default for CellRenderer {
    fn default() -> (r: CellRenderer)
        ensures
            r.scheme == SequentialScheme::Viridis,
    {
        CellRenderer { scheme: SequentialScheme::Viridis }
    }
}

/// A rectangle of a width and a height around a centre.
pub open spec fn around(cx: Number, cy: Number, w: Number, h: Number) -> Rect {
    let two = Number::from_bits(TWO);
    Rect {
        x0: cx.minus(w.over(two)),
        y0: cy.minus(h.over(two)),
        x1: cx.plus(w.over(two)),
        y1: cy.plus(h.over(two)),
    }
}

fn lay_around(cx: Number, cy: Number, w: Number, h: Number) -> (r: Rect)
    ensures
        r == around(cx, cy, w, h),
{
    let two = Number::from_bits(TWO);
    Rect {
        x0: cx.minus(w.over(two)),
        y0: cy.minus(h.over(two)),
        x1: cx.plus(w.over(two)),
        y1: cy.plus(h.over(two)),
    }
}

/// The rectangle of a row whose categories stand on two band scales.
pub open spec fn cell_box(
    batch: Batch,
    x: (Seq<char>, ScaleModel),
    y: (Seq<char>, ScaleModel),
    row: int,
) -> Option<Rect> {
    match (
        x.1.band_width(),
        y.1.band_width(),
        cell_of(batch.texts(x.0), row),
        cell_of(batch.texts(y.0), row),
    ) {
        (Some(w), Some(h), Some(a), Some(b)) => match (
            x.1.map_category(a),
            y.1.map_category(b),
        ) {
            (Some(cx), Some(cy)) => Some(around(cx, cy, w, h)),
            _ => None,
        },
        _ => None,
    }
}

/// What one row draws.
pub open spec fn cell_ops(
    batch: Batch,
    channel_map: ChannelMap,
    scales: ScaleSet,
    x: (Seq<char>, ScaleModel),
    y: (Seq<char>, ScaleModel),
    row: int,
) -> Seq<Op> {
    match cell_box(batch, x, y, row) {
        Some(r) => seq![
            Op::Fill(ramp_colour(scales, channel_map, batch, row), Outline::Rect(r)),
        ],
        None => Seq::empty(),
    }
}

/// What a cell mark makes of a channel's scale: a numeric fill gets a ramp.
pub open spec fn cell_slot(
    scheme: SequentialScheme,
    slots: spec_fn(Channel) -> Option<ScaleModel>,
    batch: Batch,
    channel_map: ChannelMap,
    meridian: Seq<Rgba>,
    c: Channel,
) -> Option<ScaleModel> {
    match (c, fill_domain(batch, channel_map)) {
        (Channel::Fill, Some(domain)) => placed_ramp(
            slots(c),
            domain,
            scheme_stops(scheme, meridian),
        ),
        _ => slots(c),
    }
}

impl CellRenderer {
    /// What the mark draws.
    pub open spec fn drawn(self, batch: Batch, channel_map: ChannelMap, scales: ScaleSet) -> Seq<
        Op,
    > {
        match (
            bound_to(channel_map, scales, Channel::X),
            bound_to(channel_map, scales, Channel::Y),
        ) {
            (Some(x), Some(y)) => drawn_for(
                batch.rows as nat,
                |row: int| cell_ops(batch, channel_map, scales, x, y, row),
            ),
            _ => Seq::empty(),
        }
    }

    /// Render the mark. A highlight leaves it as it is.
    pub fn render(
        &self,
        scene: &mut Scene,
        batch: &Batch,
        channel_map: &ChannelMap,
        scales: &ScaleSet,
        _highlight: Option<&HighlightState>,
    )
        ensures
            final(scene)@ == old(scene)@ + self.drawn(*batch, *channel_map, *scales),
    {
        let ghost start = scene@;
        assert(start + Seq::<Op>::empty() =~= start);
        let (x, y) = match (
            bound(channel_map, scales, Channel::X),
            bound(channel_map, scales, Channel::Y),
        ) {
            (Some(x), Some(y)) => (x, y),
            _ => {
                return ;
            },
        };
        let ghost xb = (x.column@, x.scale@);
        let ghost yb = (y.column@, y.scale@);
        let values = channel_column(batch, channel_map, Channel::Fill);
        let ghost f = |row: int| cell_ops(*batch, *channel_map, *scales, xb, yb, row);
        assert(start + drawn_for(0, f) =~= start);
        let mut row: usize = 0;
        while row < batch.rows
            invariant
                row <= batch.rows,
                xb == (x.column@, x.scale@),
                yb == (y.column@, y.scale@),
                numbers_view(values) == channel_numbers(*batch, *channel_map, Channel::Fill),
                f == (|row: int| cell_ops(*batch, *channel_map, *scales, xb, yb, row)),
                scene@ == start + drawn_for(row as nat, f),
            decreases batch.rows - row,
        {
            let ghost here = scene@;
            let a = batch.text_at(x.column, row);
            let b = batch.text_at(y.column, row);
            if let (Some(w), Some(h), Some(a), Some(b)) = (
                x.scale.band_width(),
                y.scale.band_width(),
                a,
                b,
            ) {
                if let (Some(cx), Some(cy)) = (
                    x.scale.map_category(a.as_str()),
                    y.scale.map_category(b.as_str()),
                ) {
                    let colour = resolve_ramp_colour(scales, channel_map, batch, &values, row);
                    scene.fill(colour, Shape::Rect(lay_around(cx, cy, w, h)));
                }
            }
            assert(scene@ =~= here + f(row as int));
            assert(here + f(row as int) =~= start + drawn_for((row + 1) as nat, f));
            row = row + 1;
        }
        assert(drawn_for(batch.rows as nat, f) == self.drawn(*batch, *channel_map, *scales));
    }

    /// Give a numeric fill a ramp. A ramp that is there widens and keeps its
    /// colours, a palette stays, and any other fill scale gives way.
    pub fn augment_scales(
        &self,
        scales: &mut ScaleSet,
        batch: &Batch,
        channel_map: &ChannelMap,
        _x_range: Range,
        _y_range: Range,
        meridian: &Vec<Rgba>,
    )
        ensures
            forall|c: Channel| #[trigger]
                final(scales).at(c) == cell_slot(
                    self.scheme,
                    old(scales).slots(),
                    *batch,
                    *channel_map,
                    meridian@,
                    c,
                ),
            final(scales).ink == old(scales).ink,
            final(scales).geo_extent == old(scales).geo_extent,
    {
        if let Some(domain) = numeric_fill_domain(batch, channel_map) {
            place_ramp(scales, domain, self.scheme, meridian);
        }
    }
}

} // verus!
