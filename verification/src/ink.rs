//! The paints a chart is drawn with.
use vstd::prelude::*;

use crate::colour::Rgba;

verus! {

/// The named paints of one colour mode.
#[derive(Clone, Copy, Debug, PartialEq, Eq, Structural)]
pub struct ChartInk {
    /// The surface a chart is drawn on.
    pub background: Rgba,
    /// A mark whose specification names no colour.
    pub mark_default: Rgba,
    /// A mark whose colour value is missing. No scheme produces it.
    pub null: Rgba,
    /// Grid and graticule lines.
    pub grid: Rgba,
    /// The lines of a decorative hexagon mesh.
    pub hexgrid_stroke: Rgba,
    /// The outline of a base map.
    pub geo_stroke: Rgba,
    /// The wash over a committed selection.
    pub selection_wash: Rgba,
    /// The rules at a committed selection's bounds.
    pub selection_bound: Rgba,
    /// A label knocked out of a filled shape.
    pub knockout: Rgba,
    /// The fill of the band that carries the sampling notice.
    pub notice_fill: Rgba,
    /// The words in that band.
    pub notice_text: Rgba,
    /// The track of a slider and the border of a widget.
    pub widget_border: Rgba,
    /// The fill of a widget.
    pub widget_fill: Rgba,
    /// The label of a widget.
    pub widget_label: Rgba,
    /// The chevron and the ring outline of a widget.
    pub widget_affordance: Rgba,
    /// The thumb, dot or check of a widget.
    pub widget_active: Rgba,
}

/// The colours that come from the design system.
#[derive(Debug)]
pub struct Theme {
    /// The paints.
    pub ink: ChartInk,
    /// The categorical palette, in the order that fixes each slot.
    pub categorical: Vec<Rgba>,
    /// The control points of the design system's own sequential ramp.
    pub meridian: Vec<Rgba>,
}

} // verus!
