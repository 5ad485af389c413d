//! Renderers by mark family, and the registry that maps mark kinds to them.
use vstd::prelude::*;

use crate::bar::{BarAxis, BarRenderer};
use crate::batch::Batch;
use crate::cell::{cell_slot, CellRenderer};
use crate::channel::{Channel, ChannelMap};
use crate::colour::Rgba;
use crate::colour_override::{apply_colour_override, ColourOverride};
use crate::contour::ContourRenderer;
use crate::density::{curve_slot, Density1DRenderer, Density2DRenderer, DensityAxis, Kernel};
use crate::dot::{dots, squared_slot, Angles, DotRenderer};
use crate::drawing::{Op, Point, Scene};
use crate::geo_mark::{map_slot, AngleRow, GeoRenderer};
use crate::hexbin::{hex_slot, HexbinRenderer};
use crate::hexgrid::{mesh_slot, HexgridRenderer, DEFAULT_HEX_BIN_WIDTH};
use crate::highlight::HighlightState;
use crate::infer::Range;
use crate::kde::Smoothing;
use crate::line::{AreaAxis, AreaRenderer, LineRenderer};
use crate::number::Number;
use crate::numerals::ZERO;
use crate::raster::{heat_slot, raster_slot, HeatmapRenderer, RasterRenderer};
use crate::rect::{ranged_slot, RectKind, RectRenderer};
use crate::regression::{fitted_slot, FitLengths, RegressionRenderer};
use crate::rule::{RuleAxis, RuleRenderer};
use crate::scale::ScaleModel;
use crate::scale_set::ScaleSet;
use crate::scheme::SequentialScheme;
use crate::student::LEVEL_95;
use crate::text_mark::TextRenderer;

verus! {

/// What a mark needs that is computed elsewhere: elementary functions, text
/// widths, kernel estimates, contours and lengths. A mark reads only its own part.
#[derive(Debug)]
pub struct Given {
    /// What the elementary functions are at a projected dot mark's coordinates.
    pub angles: Angles,
    /// The width of each label of a bar mark.
    pub widths: Vec<Number>,
    /// The kernel estimate of a density curve.
    pub kernel: Kernel,
    /// The smoothing of a density grid.
    pub smoothing: Smoothing,
    /// The contours of a density grid, level by level.
    pub contours: Vec<Vec<Vec<Point>>>,
    /// What the elementary functions are at a map's vertices.
    pub vertex_angles: Vec<AngleRow>,
    /// The lengths of a fit's segments.
    pub lengths: Vec<FitLengths>,
}

impl Given {
    /// Nothing given.
    pub fn nothing() -> (r: Given)
        ensures
            r.angles.rows@.len() == 0,
            r.angles.lines@.len() == 0,
            r.widths@.len() == 0,
            r.contours@.len() == 0,
            r.vertex_angles@.len() == 0,
            r.lengths@.len() == 0,
            r.kernel.density@.len() == 0,
            r.smoothing.density@.len() == 0,
            r.kernel.bandwidth == Number::from_bits(ZERO),
            r.smoothing.h_x == Number::from_bits(ZERO),
            r.smoothing.h_y == Number::from_bits(ZERO),
    {
        let zero = Number::from_bits(ZERO);
        Given {
            angles: Angles::nothing(),
            widths: Vec::new(),
            kernel: Kernel { bandwidth: zero, density: Vec::new() },
            smoothing: Smoothing { h_x: zero, h_y: zero, density: Vec::new() },
            contours: Vec::new(),
            vertex_angles: Vec::new(),
            lengths: Vec::new(),
        }
    }
}

/// What a mark is to a plot: what it draws, and what it asks of the scales and
/// the frame. A plot takes any mark that keeps these contracts; [`AnyMark`] is
/// this library's own.
pub trait MarkRenderer {
    /// What the mark draws.
    spec fn drawn(
        &self,
        batch: Batch,
        channel_map: ChannelMap,
        scales: ScaleSet,
        highlight: Option<&HighlightState>,
        given: Given,
    ) -> Seq<Op>;

    /// What the mark draws where its query could not be narrowed to the frame.
    /// A mark that speaks for rows off screen should not look as it does within
    /// the frame; any other draws the same.
    spec fn drawn_beyond_frame(
        &self,
        batch: Batch,
        channel_map: ChannelMap,
        scales: ScaleSet,
        highlight: Option<&HighlightState>,
        given: Given,
    ) -> Seq<Op>;

    /// What the mark draws between its previous positions and its own; a mark
    /// that does not move draws the same.
    spec fn drawn_between(
        &self,
        batch: Batch,
        channel_map: ChannelMap,
        scales: ScaleSet,
        previous: Seq<Point>,
        t: Number,
        highlight: Option<&HighlightState>,
        given: Given,
    ) -> Seq<Op>;

    /// What the mark makes of a channel's scale.
    spec fn augmented(
        &self,
        slots: spec_fn(Channel) -> Option<ScaleModel>,
        batch: Batch,
        channel_map: ChannelMap,
        x_range: Range,
        y_range: Range,
        meridian: Seq<Rgba>,
        given: Given,
        c: Channel,
    ) -> Option<ScaleModel>;

    /// The channel whose domain must hold zero for the mark.
    spec fn baseline(&self) -> Option<Channel>;

    /// Whether the mark drops the plot's frame.
    spec fn frameless(&self) -> bool;

    /// Render the mark. Rows that a highlight does not keep are deemphasised.
    fn render(
        &self,
        scene: &mut Scene,
        batch: &Batch,
        channel_map: &ChannelMap,
        scales: &ScaleSet,
        highlight: Option<&HighlightState>,
        given: &Given,
    )
        ensures
            final(scene)@ == old(scene)@ + self.drawn(
                *batch,
                *channel_map,
                *scales,
                highlight,
                *given,
            ),
    ;

    /// Render the mark knowing that its query could not be narrowed to the
    /// plot's frame, so that it speaks for rows that are off screen.
    fn render_beyond_frame(
        &self,
        scene: &mut Scene,
        batch: &Batch,
        channel_map: &ChannelMap,
        scales: &ScaleSet,
        highlight: Option<&HighlightState>,
        given: &Given,
    )
        ensures
            final(scene)@ == old(scene)@ + self.drawn_beyond_frame(
                *batch,
                *channel_map,
                *scales,
                highlight,
                *given,
            ),
    ;

    /// Render with interpolation between previous and current positions: 0 is
    /// previous, 1 is current.
    fn render_interpolated(
        &self,
        scene: &mut Scene,
        batch: &Batch,
        channel_map: &ChannelMap,
        scales: &ScaleSet,
        prev_positions: &Vec<Point>,
        t: Number,
        highlight: Option<&HighlightState>,
        given: &Given,
    )
        ensures
            final(scene)@ == old(scene)@ + self.drawn_between(
                *batch,
                *channel_map,
                *scales,
                prev_positions@,
                t,
                highlight,
                *given,
            ),
    ;

    /// The channel whose domain must hold zero for the mark to render
    /// correctly.
    fn zero_baseline_channel(&self) -> (r: Option<Channel>)
        ensures
            r == self.baseline(),
    ;

    /// Contribute the scales that the mark needs and that its columns alone do
    /// not give.
    fn augment_scales(
        &self,
        scales: &mut ScaleSet,
        batch: &Batch,
        channel_map: &ChannelMap,
        x_range: Range,
        y_range: Range,
        meridian: &Vec<Rgba>,
        given: &Given,
    )
        ensures
            forall|c: Channel| #[trigger]
                final(scales).at(c) == self.augmented(
                    old(scales).slots(),
                    *batch,
                    *channel_map,
                    x_range,
                    y_range,
                    meridian@,
                    *given,
                    c,
                ),
            final(scales).ink == old(scales).ink,
            final(scales).geo_extent == old(scales).geo_extent,
    ;

    /// Whether the mark drops the plot's frame: the grid, the axes and their
    /// labels.
    fn suppresses_frame(&self) -> (r: bool)
        ensures
            r == self.frameless(),
    ;
}

/// A mark of some family.
#[derive(Debug)]
pub enum AnyMark {
    Dot(DotRenderer),
    Bar(BarRenderer),
    Line(LineRenderer),
    Area(AreaRenderer),
    Rect(RectRenderer),
    Rule(RuleRenderer),
    Text(TextRenderer),
    Density1D(Density1DRenderer),
    Density2D(Density2DRenderer),
    Raster(RasterRenderer),
    Heatmap(HeatmapRenderer),
    Cell(CellRenderer),
    Contour(ContourRenderer),
    Hexbin(HexbinRenderer),
    Hexgrid(HexgridRenderer),
    Regression(RegressionRenderer),
    Geo(GeoRenderer),
    /// A renderer under a plot's explicit colours.
    Overridden(Box<ColourOverrideRenderer>),
}

/// A mark's renderer under a plot-level explicit colour domain and range. It
/// draws as the renderer it wraps does; the override is applied after that
/// renderer has built its scales, so that the author's own colours win.
#[derive(Debug)]
pub struct ColourOverrideRenderer {
    /// The wrapped renderer.
    pub inner: AnyMark,
    /// The plot's explicit colours.
    pub override_: ColourOverride,
}

/// A colour channel's scale under an override; any other channel's scale.
pub open spec fn recoloured(over: ColourOverride, c: Channel, slot: Option<ScaleModel>) -> Option<
    ScaleModel,
> {
    match slot {
        Some(s) => if c == Channel::Fill || c == Channel::Stroke {
            Some(over.overridden(s))
        } else {
            Some(s)
        },
        None => None,
    }
}

/// Only a fit is drawn otherwise beyond the frame, where it is dashed; only
/// dots move; only a map drops the frame.
impl MarkRenderer for AnyMark {
    open spec fn drawn(
        &self,
        batch: Batch,
        channel_map: ChannelMap,
        scales: ScaleSet,
        highlight: Option<&HighlightState>,
        given: Given,
    ) -> Seq<Op>
        decreases self,
    {
        match self {
            AnyMark::Dot(r) => r.drawn(batch, channel_map, scales, highlight, given.angles),
            AnyMark::Bar(r) => r.drawn(batch, channel_map, scales, highlight, given.widths@),
            AnyMark::Line(r) => r.drawn(batch, channel_map, scales),
            AnyMark::Area(r) => r.drawn(batch, channel_map, scales),
            AnyMark::Rect(r) => r.drawn(batch, channel_map, scales, highlight),
            AnyMark::Rule(r) => r.drawn(batch, channel_map, scales),
            AnyMark::Text(r) => r.drawn(batch, channel_map, scales, highlight),
            AnyMark::Density1D(r) => r.drawn(batch, channel_map, scales, given.kernel),
            AnyMark::Density2D(r) => r.drawn(batch, channel_map, scales, given.smoothing),
            AnyMark::Raster(r) => r.drawn(batch, channel_map, scales),
            AnyMark::Heatmap(r) => r.drawn(batch, channel_map, scales, given.smoothing),
            AnyMark::Cell(r) => r.drawn(batch, channel_map, scales),
            AnyMark::Contour(r) => r.drawn(
                batch,
                channel_map,
                scales,
                given.smoothing,
                given.contours@,
            ),
            AnyMark::Hexbin(r) => r.drawn(batch, channel_map, scales),
            AnyMark::Hexgrid(r) => r.drawn(scales),
            AnyMark::Regression(r) => r.drawn(batch, channel_map, scales),
            AnyMark::Geo(r) => r.drawn(batch, channel_map, scales, given.vertex_angles@),
            AnyMark::Overridden(o) => o.inner.drawn(
                batch,
                channel_map,
                scales,
                highlight,
                given,
            ),
        }
    }

    open spec fn drawn_beyond_frame(
        &self,
        batch: Batch,
        channel_map: ChannelMap,
        scales: ScaleSet,
        highlight: Option<&HighlightState>,
        given: Given,
    ) -> Seq<Op>
        decreases self,
    {
        match self {
            AnyMark::Regression(r) => r.drawn_beyond_frame(
                batch,
                channel_map,
                scales,
                given.lengths@,
            ),
            AnyMark::Overridden(o) => o.inner.drawn_beyond_frame(
                batch,
                channel_map,
                scales,
                highlight,
                given,
            ),
            _ => self.drawn(batch, channel_map, scales, highlight, given),
        }
    }

    open spec fn drawn_between(
        &self,
        batch: Batch,
        channel_map: ChannelMap,
        scales: ScaleSet,
        previous: Seq<Point>,
        t: Number,
        highlight: Option<&HighlightState>,
        given: Given,
    ) -> Seq<Op>
        decreases self,
    {
        match self {
            AnyMark::Dot(r) => dots(
                batch,
                channel_map,
                scales,
                given.angles.rows@,
                Some((previous, t)),
                highlight,
            ),
            AnyMark::Overridden(o) => o.inner.drawn_between(
                batch,
                channel_map,
                scales,
                previous,
                t,
                highlight,
                given,
            ),
            _ => self.drawn(batch, channel_map, scales, highlight, given),
        }
    }

    open spec fn augmented(
        &self,
        slots: spec_fn(Channel) -> Option<ScaleModel>,
        batch: Batch,
        channel_map: ChannelMap,
        x_range: Range,
        y_range: Range,
        meridian: Seq<Rgba>,
        given: Given,
        c: Channel,
    ) -> Option<ScaleModel>
        decreases self,
    {
        match self {
            AnyMark::Dot(r) => squared_slot(slots, channel_map, x_range, y_range, c),
            AnyMark::Rect(r) => ranged_slot(slots, batch, channel_map, x_range, y_range, c),
            AnyMark::Density1D(r) => curve_slot(
                r.axis,
                slots,
                batch,
                channel_map,
                x_range,
                y_range,
                given.kernel.bandwidth,
                c,
            ),
            AnyMark::Raster(r) => raster_slot(
                r.scheme,
                slots,
                batch,
                channel_map,
                x_range,
                y_range,
                meridian,
                c,
            ),
            AnyMark::Heatmap(r) => heat_slot(
                *r,
                slots,
                batch,
                channel_map,
                x_range,
                y_range,
                meridian,
                given.smoothing,
                c,
            ),
            AnyMark::Cell(r) => cell_slot(r.scheme, slots, batch, channel_map, meridian, c),
            AnyMark::Hexbin(r) => hex_slot(
                r.scheme,
                slots,
                batch,
                channel_map,
                x_range,
                y_range,
                meridian,
                c,
            ),
            AnyMark::Hexgrid(r) => mesh_slot(slots, x_range, y_range, c),
            AnyMark::Regression(r) => fitted_slot(slots, batch, x_range, y_range, c),
            AnyMark::Geo(r) => map_slot(
                r.scheme,
                slots,
                batch,
                channel_map,
                x_range,
                y_range,
                meridian,
                given.vertex_angles@,
                c,
            ),
            AnyMark::Overridden(o) => recoloured(
                o.override_,
                c,
                o.inner.augmented(
                    slots,
                    batch,
                    channel_map,
                    x_range,
                    y_range,
                    meridian,
                    given,
                    c,
                ),
            ),
            _ => slots(c),
        }
    }

    open spec fn baseline(&self) -> Option<Channel>
        decreases self,
    {
        match self {
            AnyMark::Bar(r) => r.zero_baseline_channel(),
            AnyMark::Area(r) => r.zero_baseline_channel(),
            AnyMark::Rect(r) => r.zero_baseline_channel(),
            AnyMark::Overridden(o) => o.inner.baseline(),
            _ => None,
        }
    }

    open spec fn frameless(&self) -> bool
        decreases self,
    {
        match self {
            AnyMark::Geo(_) => true,
            AnyMark::Overridden(o) => o.inner.frameless(),
            _ => false,
        }
    }

    fn render(
        &self,
        scene: &mut Scene,
        batch: &Batch,
        channel_map: &ChannelMap,
        scales: &ScaleSet,
        highlight: Option<&HighlightState>,
        given: &Given,
    )
        decreases self,
    {
        match self {
            AnyMark::Dot(r) => r.render(
                scene,
                batch,
                channel_map,
                scales,
                highlight,
                &given.angles,
            ),
            AnyMark::Bar(r) => r.render(
                scene,
                batch,
                channel_map,
                scales,
                highlight,
                &given.widths,
            ),
            AnyMark::Line(r) => r.render(scene, batch, channel_map, scales, highlight),
            AnyMark::Area(r) => r.render(scene, batch, channel_map, scales, highlight),
            AnyMark::Rect(r) => r.render(scene, batch, channel_map, scales, highlight),
            AnyMark::Rule(r) => r.render(scene, batch, channel_map, scales, highlight),
            AnyMark::Text(r) => r.render(scene, batch, channel_map, scales, highlight),
            AnyMark::Density1D(r) => r.render(
                scene,
                batch,
                channel_map,
                scales,
                highlight,
                &given.kernel,
            ),
            AnyMark::Density2D(r) => r.render(
                scene,
                batch,
                channel_map,
                scales,
                highlight,
                &given.smoothing,
            ),
            AnyMark::Raster(r) => r.render(scene, batch, channel_map, scales, highlight),
            AnyMark::Heatmap(r) => r.render(
                scene,
                batch,
                channel_map,
                scales,
                highlight,
                &given.smoothing,
            ),
            AnyMark::Cell(r) => r.render(scene, batch, channel_map, scales, highlight),
            AnyMark::Contour(r) => r.render(
                scene,
                batch,
                channel_map,
                scales,
                highlight,
                &given.smoothing,
                &given.contours,
            ),
            AnyMark::Hexbin(r) => r.render(scene, batch, channel_map, scales, highlight),
            AnyMark::Hexgrid(r) => r.render(scene, batch, channel_map, scales, highlight),
            AnyMark::Regression(r) => r.render(scene, batch, channel_map, scales, highlight),
            AnyMark::Geo(r) => r.render(
                scene,
                batch,
                channel_map,
                scales,
                highlight,
                &given.vertex_angles,
            ),
            AnyMark::Overridden(o) => o.inner.render(
                scene,
                batch,
                channel_map,
                scales,
                highlight,
                given,
            ),
        }
    }

    fn render_beyond_frame(
        &self,
        scene: &mut Scene,
        batch: &Batch,
        channel_map: &ChannelMap,
        scales: &ScaleSet,
        highlight: Option<&HighlightState>,
        given: &Given,
    )
        decreases self,
    {
        match self {
            AnyMark::Regression(r) => r.render_beyond_frame(
                scene,
                batch,
                channel_map,
                scales,
                highlight,
                &given.lengths,
            ),
            AnyMark::Overridden(o) => o.inner.render_beyond_frame(
                scene,
                batch,
                channel_map,
                scales,
                highlight,
                given,
            ),
            _ => self.render(scene, batch, channel_map, scales, highlight, given),
        }
    }

    fn render_interpolated(
        &self,
        scene: &mut Scene,
        batch: &Batch,
        channel_map: &ChannelMap,
        scales: &ScaleSet,
        prev_positions: &Vec<Point>,
        t: Number,
        highlight: Option<&HighlightState>,
        given: &Given,
    )
        decreases self,
    {
        match self {
            AnyMark::Dot(r) => r.render_interpolated(
                scene,
                batch,
                channel_map,
                scales,
                prev_positions,
                t,
                highlight,
                &given.angles,
            ),
            AnyMark::Overridden(o) => o.inner.render_interpolated(
                scene,
                batch,
                channel_map,
                scales,
                prev_positions,
                t,
                highlight,
                given,
            ),
            _ => self.render(scene, batch, channel_map, scales, highlight, given),
        }
    }

    fn zero_baseline_channel(&self) -> (r: Option<Channel>)
        decreases self,
    {
        match self {
            AnyMark::Bar(r) => r.zero_baseline_channel(),
            AnyMark::Area(r) => r.zero_baseline_channel(),
            AnyMark::Rect(r) => r.zero_baseline_channel(),
            AnyMark::Overridden(o) => o.inner.zero_baseline_channel(),
            _ => None,
        }
    }

    fn augment_scales(
        &self,
        scales: &mut ScaleSet,
        batch: &Batch,
        channel_map: &ChannelMap,
        x_range: Range,
        y_range: Range,
        meridian: &Vec<Rgba>,
        given: &Given,
    )
        decreases self,
    {
        match self {
            AnyMark::Dot(r) => r.augment_scales(scales, batch, channel_map, x_range, y_range),
            AnyMark::Rect(r) => r.augment_scales(scales, batch, channel_map, x_range, y_range),
            AnyMark::Density1D(r) => r.augment_scales(
                scales,
                batch,
                channel_map,
                x_range,
                y_range,
                given.kernel.bandwidth,
            ),
            AnyMark::Raster(r) => r.augment_scales(
                scales,
                batch,
                channel_map,
                x_range,
                y_range,
                meridian,
            ),
            AnyMark::Heatmap(r) => r.augment_scales(
                scales,
                batch,
                channel_map,
                x_range,
                y_range,
                meridian,
                &given.smoothing,
            ),
            AnyMark::Cell(r) => r.augment_scales(
                scales,
                batch,
                channel_map,
                x_range,
                y_range,
                meridian,
            ),
            AnyMark::Hexbin(r) => r.augment_scales(
                scales,
                batch,
                channel_map,
                x_range,
                y_range,
                meridian,
            ),
            AnyMark::Hexgrid(r) => r.augment_scales(
                scales,
                batch,
                channel_map,
                x_range,
                y_range,
            ),
            AnyMark::Regression(r) => r.augment_scales(
                scales,
                batch,
                channel_map,
                x_range,
                y_range,
            ),
            AnyMark::Geo(r) => r.augment_scales(
                scales,
                batch,
                channel_map,
                x_range,
                y_range,
                meridian,
                &given.vertex_angles,
            ),
            AnyMark::Overridden(o) => {
                o.inner.augment_scales(
                    scales,
                    batch,
                    channel_map,
                    x_range,
                    y_range,
                    meridian,
                    given,
                );
                apply_colour_override(scales, &o.override_);
            },
            _ => {},
        }
    }

    fn suppresses_frame(&self) -> (r: bool)
        decreases self,
    {
        match self {
            AnyMark::Geo(_) => true,
            AnyMark::Overridden(o) => o.inner.suppresses_frame(),
            _ => false,
        }
    }
}

/// The kinds of mark that a specification can name.
#[derive(Debug, Clone, Copy, PartialEq, Eq, Structural)]
pub enum MarkKind {
    Dot,
    DotX,
    DotY,
    Circle,
    BarX,
    BarY,
    Line,
    LineX,
    LineY,
    AreaY,
    AreaX,
    RuleX,
    RuleY,
    Rect,
    RectX,
    RectY,
    Text,
    DensityX,
    DensityY,
    Density,
    Raster,
    Heatmap,
    Cell,
    Contour,
    Hexbin,
    Hexgrid,
    RegressionY,
    RegressionX,
    Geo,
    /// A kind that no renderer is registered for.
    Voronoi,
}

/// The renderer that the registry gives a kind.
pub open spec fn registered(kind: MarkKind) -> Option<AnyMark> {
    match kind {
        MarkKind::Dot => Some(AnyMark::Dot(DotRenderer)),
        MarkKind::DotX => Some(AnyMark::Dot(DotRenderer)),
        MarkKind::DotY => Some(AnyMark::Dot(DotRenderer)),
        MarkKind::Circle => Some(AnyMark::Dot(DotRenderer)),
        MarkKind::BarX => Some(AnyMark::Bar(BarRenderer { axis: BarAxis::X })),
        MarkKind::BarY => Some(AnyMark::Bar(BarRenderer { axis: BarAxis::Y })),
        MarkKind::Line => Some(AnyMark::Line(LineRenderer)),
        MarkKind::LineX => Some(AnyMark::Line(LineRenderer)),
        MarkKind::LineY => Some(AnyMark::Line(LineRenderer)),
        MarkKind::AreaY => Some(AnyMark::Area(AreaRenderer { axis: AreaAxis::Y })),
        MarkKind::AreaX => Some(AnyMark::Area(AreaRenderer { axis: AreaAxis::X })),
        MarkKind::RuleX => Some(AnyMark::Rule(RuleRenderer { axis: RuleAxis::X })),
        MarkKind::RuleY => Some(AnyMark::Rule(RuleRenderer { axis: RuleAxis::Y })),
        MarkKind::Rect => Some(AnyMark::Rect(RectRenderer { kind: RectKind::Xy })),
        MarkKind::RectX => Some(AnyMark::Rect(RectRenderer { kind: RectKind::X })),
        MarkKind::RectY => Some(AnyMark::Rect(RectRenderer { kind: RectKind::Y })),
        MarkKind::Text => Some(AnyMark::Text(TextRenderer)),
        MarkKind::DensityX => Some(
            AnyMark::Density1D(Density1DRenderer { axis: DensityAxis::X }),
        ),
        MarkKind::DensityY => Some(
            AnyMark::Density1D(Density1DRenderer { axis: DensityAxis::Y }),
        ),
        MarkKind::Density => Some(AnyMark::Density2D(Density2DRenderer)),
        MarkKind::Raster => Some(
            AnyMark::Raster(RasterRenderer { scheme: SequentialScheme::Viridis }),
        ),
        MarkKind::Heatmap => Some(
            AnyMark::Heatmap(
                HeatmapRenderer { scheme: SequentialScheme::Viridis, bandwidth: None },
            ),
        ),
        MarkKind::Cell => Some(
            AnyMark::Cell(CellRenderer { scheme: SequentialScheme::Viridis }),
        ),
        MarkKind::Contour => Some(
            AnyMark::Contour(ContourRenderer { thresholds: None, bandwidth: None }),
        ),
        MarkKind::Hexbin => Some(
            AnyMark::Hexbin(HexbinRenderer { scheme: SequentialScheme::Viridis }),
        ),
        MarkKind::Hexgrid => Some(
            AnyMark::Hexgrid(
                HexgridRenderer { bin_width: Number::from_bits(DEFAULT_HEX_BIN_WIDTH) },
            ),
        ),
        MarkKind::RegressionY => Some(
            AnyMark::Regression(RegressionRenderer { ci: Number::from_bits(LEVEL_95) }),
        ),
        MarkKind::RegressionX => Some(
            AnyMark::Regression(RegressionRenderer { ci: Number::from_bits(LEVEL_95) }),
        ),
        MarkKind::Geo => Some(AnyMark::Geo(GeoRenderer { scheme: SequentialScheme::Viridis })),
        MarkKind::Voronoi => None,
    }
}

/// The first entry of a kind in a registry.
pub open spec fn first_entry<M>(registry: Seq<(MarkKind, M)>, kind: MarkKind) -> Option<M>
    decreases registry.len(),
{
    if registry.len() == 0 {
        None
    } else if registry[0].0 == kind {
        Some(registry[0].1)
    } else {
        first_entry(registry.drop_first(), kind)
    }
}

/// The kinds that have a renderer, in the order that the registry lists them.
pub open spec fn registered_kinds() -> Seq<MarkKind> {
    seq![
        MarkKind::Dot,
        MarkKind::DotX,
        MarkKind::DotY,
        MarkKind::Circle,
        MarkKind::BarX,
        MarkKind::BarY,
        MarkKind::Line,
        MarkKind::LineX,
        MarkKind::LineY,
        MarkKind::AreaY,
        MarkKind::AreaX,
        MarkKind::RuleX,
        MarkKind::RuleY,
        MarkKind::Rect,
        MarkKind::RectX,
        MarkKind::RectY,
        MarkKind::Text,
        MarkKind::DensityX,
        MarkKind::DensityY,
        MarkKind::Density,
        MarkKind::Raster,
        MarkKind::Heatmap,
        MarkKind::Cell,
        MarkKind::Contour,
        MarkKind::Hexbin,
        MarkKind::Hexgrid,
        MarkKind::RegressionY,
        MarkKind::RegressionX,
        MarkKind::Geo,
    ]
}

/// Build the default renderer registry mapping mark kinds to renderers.
pub fn default_renderers() -> (out: Vec<(MarkKind, AnyMark)>)
    ensures
        out@ == registered_kinds().map_values(|k: MarkKind| (k, registered(k)->0)),
{
    let mut out: Vec<(MarkKind, AnyMark)> = Vec::new();
    out.push((MarkKind::Dot, AnyMark::Dot(DotRenderer)));
    out.push((MarkKind::DotX, AnyMark::Dot(DotRenderer)));
    out.push((MarkKind::DotY, AnyMark::Dot(DotRenderer)));
    out.push((MarkKind::Circle, AnyMark::Dot(DotRenderer)));
    out.push((MarkKind::BarX, AnyMark::Bar(BarRenderer { axis: BarAxis::X })));
    out.push((MarkKind::BarY, AnyMark::Bar(BarRenderer { axis: BarAxis::Y })));
    out.push((MarkKind::Line, AnyMark::Line(LineRenderer)));
    out.push((MarkKind::LineX, AnyMark::Line(LineRenderer)));
    out.push((MarkKind::LineY, AnyMark::Line(LineRenderer)));
    out.push((MarkKind::AreaY, AnyMark::Area(AreaRenderer { axis: AreaAxis::Y })));
    out.push((MarkKind::AreaX, AnyMark::Area(AreaRenderer { axis: AreaAxis::X })));
    out.push((MarkKind::RuleX, AnyMark::Rule(RuleRenderer { axis: RuleAxis::X })));
    out.push((MarkKind::RuleY, AnyMark::Rule(RuleRenderer { axis: RuleAxis::Y })));
    out.push((MarkKind::Rect, AnyMark::Rect(RectRenderer { kind: RectKind::Xy })));
    out.push((MarkKind::RectX, AnyMark::Rect(RectRenderer { kind: RectKind::X })));
    out.push((MarkKind::RectY, AnyMark::Rect(RectRenderer { kind: RectKind::Y })));
    out.push((MarkKind::Text, AnyMark::Text(TextRenderer)));
    out.push(
        (MarkKind::DensityX, AnyMark::Density1D(Density1DRenderer { axis: DensityAxis::X })),
    );
    out.push(
        (MarkKind::DensityY, AnyMark::Density1D(Density1DRenderer { axis: DensityAxis::Y })),
    );
    out.push((MarkKind::Density, AnyMark::Density2D(Density2DRenderer)));
    out.push(
        (
            MarkKind::Raster,
            AnyMark::Raster(RasterRenderer { scheme: SequentialScheme::Viridis }),
        ),
    );
    out.push(
        (
            MarkKind::Heatmap,
            AnyMark::Heatmap(
                HeatmapRenderer { scheme: SequentialScheme::Viridis, bandwidth: None },
            ),
        ),
    );
    out.push(
        (MarkKind::Cell, AnyMark::Cell(CellRenderer { scheme: SequentialScheme::Viridis })),
    );
    out.push(
        (
            MarkKind::Contour,
            AnyMark::Contour(ContourRenderer { thresholds: None, bandwidth: None }),
        ),
    );
    out.push(
        (
            MarkKind::Hexbin,
            AnyMark::Hexbin(HexbinRenderer { scheme: SequentialScheme::Viridis }),
        ),
    );
    out.push(
        (
            MarkKind::Hexgrid,
            AnyMark::Hexgrid(
                HexgridRenderer { bin_width: Number::from_bits(DEFAULT_HEX_BIN_WIDTH) },
            ),
        ),
    );
    out.push(
        (
            MarkKind::RegressionY,
            AnyMark::Regression(RegressionRenderer { ci: Number::from_bits(LEVEL_95) }),
        ),
    );
    out.push(
        (
            MarkKind::RegressionX,
            AnyMark::Regression(RegressionRenderer { ci: Number::from_bits(LEVEL_95) }),
        ),
    );
    out.push((MarkKind::Geo, AnyMark::Geo(GeoRenderer { scheme: SequentialScheme::Viridis })));
    assert(out@ =~= registered_kinds().map_values(|k: MarkKind| (k, registered(k)->0)));
    out
}

/// An owned default renderer for a kind. None for a kind without one.
#[must_use]
pub fn owned_default_renderer(kind: MarkKind) -> (r: Option<AnyMark>)
    ensures
        r == registered(kind),
{
    match kind {
        MarkKind::Dot => Some(AnyMark::Dot(DotRenderer)),
        MarkKind::DotX => Some(AnyMark::Dot(DotRenderer)),
        MarkKind::DotY => Some(AnyMark::Dot(DotRenderer)),
        MarkKind::Circle => Some(AnyMark::Dot(DotRenderer)),
        MarkKind::BarX => Some(AnyMark::Bar(BarRenderer { axis: BarAxis::X })),
        MarkKind::BarY => Some(AnyMark::Bar(BarRenderer { axis: BarAxis::Y })),
        MarkKind::Line => Some(AnyMark::Line(LineRenderer)),
        MarkKind::LineX => Some(AnyMark::Line(LineRenderer)),
        MarkKind::LineY => Some(AnyMark::Line(LineRenderer)),
        MarkKind::AreaY => Some(AnyMark::Area(AreaRenderer { axis: AreaAxis::Y })),
        MarkKind::AreaX => Some(AnyMark::Area(AreaRenderer { axis: AreaAxis::X })),
        MarkKind::RuleX => Some(AnyMark::Rule(RuleRenderer { axis: RuleAxis::X })),
        MarkKind::RuleY => Some(AnyMark::Rule(RuleRenderer { axis: RuleAxis::Y })),
        MarkKind::Rect => Some(AnyMark::Rect(RectRenderer { kind: RectKind::Xy })),
        MarkKind::RectX => Some(AnyMark::Rect(RectRenderer { kind: RectKind::X })),
        MarkKind::RectY => Some(AnyMark::Rect(RectRenderer { kind: RectKind::Y })),
        MarkKind::Text => Some(AnyMark::Text(TextRenderer)),
        MarkKind::DensityX => Some(
            AnyMark::Density1D(Density1DRenderer { axis: DensityAxis::X }),
        ),
        MarkKind::DensityY => Some(
            AnyMark::Density1D(Density1DRenderer { axis: DensityAxis::Y }),
        ),
        MarkKind::Density => Some(AnyMark::Density2D(Density2DRenderer)),
        MarkKind::Raster => Some(
            AnyMark::Raster(RasterRenderer { scheme: SequentialScheme::Viridis }),
        ),
        MarkKind::Heatmap => Some(
            AnyMark::Heatmap(
                HeatmapRenderer { scheme: SequentialScheme::Viridis, bandwidth: None },
            ),
        ),
        MarkKind::Cell => Some(
            AnyMark::Cell(CellRenderer { scheme: SequentialScheme::Viridis }),
        ),
        MarkKind::Contour => Some(
            AnyMark::Contour(ContourRenderer { thresholds: None, bandwidth: None }),
        ),
        MarkKind::Hexbin => Some(
            AnyMark::Hexbin(HexbinRenderer { scheme: SequentialScheme::Viridis }),
        ),
        MarkKind::Hexgrid => Some(
            AnyMark::Hexgrid(
                HexgridRenderer { bin_width: Number::from_bits(DEFAULT_HEX_BIN_WIDTH) },
            ),
        ),
        MarkKind::RegressionY => Some(
            AnyMark::Regression(RegressionRenderer { ci: Number::from_bits(LEVEL_95) }),
        ),
        MarkKind::RegressionX => Some(
            AnyMark::Regression(RegressionRenderer { ci: Number::from_bits(LEVEL_95) }),
        ),
        MarkKind::Geo => Some(AnyMark::Geo(GeoRenderer { scheme: SequentialScheme::Viridis })),
        MarkKind::Voronoi => None,
    }
}

/// Look up a renderer for a mark kind. None for a kind that the registry does
/// not hold.
pub fn find_renderer<M>(registry: &Vec<(MarkKind, M)>, kind: MarkKind) -> (r: Option<&M>)
    ensures
        match r {
            Some(found) => first_entry(registry@, kind) == Some(*found),
            None => first_entry(registry@, kind) is None,
        },
{
    let mut i: usize = 0;
    assert(registry@.skip(0) =~= registry@);
    while i < registry.len()
        invariant
            i <= registry.len(),
            first_entry(registry@, kind) == first_entry(registry@.skip(i as int), kind),
        decreases registry.len() - i,
    {
        proof {
            let rest = registry@.skip(i as int);
            assert(rest[0] == registry@[i as int]);
            assert(rest.drop_first() =~= registry@.skip(i + 1));
        }
        if registry[i].0 == kind {
            return Some(&registry[i].1);
        }
        i = i + 1;
    }
    None
}

/// The renderer of a kind that a mark's own settings configure.
pub open spec fn configured(
    kind: MarkKind,
    scheme: SequentialScheme,
    bandwidth: Option<Number>,
    thresholds: Option<usize>,
    bin_width: Option<Number>,
) -> Option<AnyMark> {
    match kind {
        MarkKind::Raster => Some(AnyMark::Raster(RasterRenderer { scheme })),
        MarkKind::Heatmap => Some(AnyMark::Heatmap(HeatmapRenderer { scheme, bandwidth })),
        MarkKind::Cell => Some(AnyMark::Cell(CellRenderer { scheme })),
        MarkKind::Hexbin => Some(AnyMark::Hexbin(HexbinRenderer { scheme })),
        MarkKind::Hexgrid => Some(
            AnyMark::Hexgrid(
                (HexgridRenderer {
                    bin_width: match bin_width {
                        Some(w) => w,
                        None => Number::from_bits(DEFAULT_HEX_BIN_WIDTH),
                    },
                }),
            ),
        ),
        MarkKind::Contour => Some(
            AnyMark::Contour(ContourRenderer { thresholds, bandwidth }),
        ),
        MarkKind::Geo => Some(AnyMark::Geo(GeoRenderer { scheme })),
        _ => None,
    }
}

/// Build the configured renderer for a mark that carries a colour scheme, a
/// bandwidth, levels or a spacing of its own. None for a mark that renders
/// through the registry unchanged.
pub fn configured_renderer(
    kind: MarkKind,
    scheme: SequentialScheme,
    bandwidth: Option<Number>,
    thresholds: Option<usize>,
    bin_width: Option<Number>,
) -> (r: Option<AnyMark>)
    ensures
        r == configured(kind, scheme, bandwidth, thresholds, bin_width),
{
    match kind {
        MarkKind::Raster => Some(AnyMark::Raster(RasterRenderer { scheme })),
        MarkKind::Heatmap => Some(AnyMark::Heatmap(HeatmapRenderer { scheme, bandwidth })),
        MarkKind::Cell => Some(AnyMark::Cell(CellRenderer { scheme })),
        MarkKind::Hexbin => Some(AnyMark::Hexbin(HexbinRenderer { scheme })),
        MarkKind::Hexgrid => Some(
            AnyMark::Hexgrid(
                HexgridRenderer {
                    bin_width: match bin_width {
                        Some(w) => w,
                        None => Number::from_bits(DEFAULT_HEX_BIN_WIDTH),
                    },
                },
            ),
        ),
        MarkKind::Contour => Some(AnyMark::Contour(ContourRenderer { thresholds, bandwidth })),
        MarkKind::Geo => Some(AnyMark::Geo(GeoRenderer { scheme })),
        _ => None,
    }
}

/// Looking a kind up in the default registry finds the renderer registered for
/// it, and nothing for a kind without one.
pub proof fn the_registry_finds_what_is_registered(kind: MarkKind)
    ensures
        first_entry(
            registered_kinds().map_values(|k: MarkKind| (k, registered(k)->0)),
            kind,
        ) == registered(kind),
{
    lemma_entry_found(registered_kinds(), kind);
    let kinds = registered_kinds();
    if kind != MarkKind::Voronoi {
        assert(kinds.contains(kind)) by {
            lemma_kind_is_listed(kind);
        }
    } else {
        assert(!kinds.contains(kind));
    }
}

proof fn lemma_entry_found(kinds: Seq<MarkKind>, kind: MarkKind)
    ensures
        first_entry(kinds.map_values(|k: MarkKind| (k, registered(k)->0)), kind) == if kinds.contains(
            kind,
        ) {
            Some(registered(kind)->0)
        } else {
            None
        },
    decreases kinds.len(),
{
    let entries = kinds.map_values(|k: MarkKind| (k, registered(k)->0));
    if kinds.len() > 0 {
        let rest = kinds.drop_first();
        lemma_entry_found(rest, kind);
        assert(entries.drop_first() =~= rest.map_values(|k: MarkKind| (k, registered(k)->0)));
        assert(kinds.contains(kind) <==> kinds[0] == kind || rest.contains(kind)) by {
            if kinds.contains(kind) && kinds[0] != kind {
                let i = choose|i: int| 0 <= i < kinds.len() && kinds[i] == kind;
                assert(rest[i - 1] == kind);
            }
            if rest.contains(kind) {
                let i = choose|i: int| 0 <= i < rest.len() && rest[i] == kind;
                assert(kinds[i + 1] == kind);
            }
        }
    }
}

proof fn lemma_kind_is_listed(kind: MarkKind)
    requires
        kind != MarkKind::Voronoi,
    ensures
        registered_kinds().contains(kind),
{
    let kinds = registered_kinds();

    assert(kinds[0] == MarkKind::Dot);
    assert(kinds[1] == MarkKind::DotX);
    assert(kinds[2] == MarkKind::DotY);
    assert(kinds[3] == MarkKind::Circle);
    assert(kinds[4] == MarkKind::BarX);
    assert(kinds[5] == MarkKind::BarY);
    assert(kinds[6] == MarkKind::Line);
    assert(kinds[7] == MarkKind::LineX);
    assert(kinds[8] == MarkKind::LineY);
    assert(kinds[9] == MarkKind::AreaY);
    assert(kinds[10] == MarkKind::AreaX);
    assert(kinds[11] == MarkKind::RuleX);
    assert(kinds[12] == MarkKind::RuleY);
    assert(kinds[13] == MarkKind::Rect);
    assert(kinds[14] == MarkKind::RectX);
    assert(kinds[15] == MarkKind::RectY);
    assert(kinds[16] == MarkKind::Text);
    assert(kinds[17] == MarkKind::DensityX);
    assert(kinds[18] == MarkKind::DensityY);
    assert(kinds[19] == MarkKind::Density);
    assert(kinds[20] == MarkKind::Raster);
    assert(kinds[21] == MarkKind::Heatmap);
    assert(kinds[22] == MarkKind::Cell);
    assert(kinds[23] == MarkKind::Contour);
    assert(kinds[24] == MarkKind::Hexbin);
    assert(kinds[25] == MarkKind::Hexgrid);
    assert(kinds[26] == MarkKind::RegressionY);
    assert(kinds[27] == MarkKind::RegressionX);
    assert(kinds[28] == MarkKind::Geo);
}

/// A mark keeps its settings: what is configured without settings of its own
/// is what the registry holds.
pub proof fn configuring_nothing_gives_the_default(kind: MarkKind)
    requires
        configured(kind, SequentialScheme::Viridis, None, None, None) is Some,
    ensures
        configured(kind, SequentialScheme::Viridis, None, None, None) == registered(kind),
{
}

/// An override is the last word on a colour channel, whatever mark it wraps.
pub proof fn an_override_wins(
    over: ColourOverrideRenderer,
    slots: spec_fn(Channel) -> Option<ScaleModel>,
    batch: Batch,
    channel_map: ChannelMap,
    x_range: Range,
    y_range: Range,
    meridian: Seq<Rgba>,
    given: Given,
    c: Channel,
)
    ensures
        AnyMark::Overridden(Box::new(over)).augmented(
            slots,
            batch,
            channel_map,
            x_range,
            y_range,
            meridian,
            given,
            c,
        ) == recoloured(
            over.override_,
            c,
            over.inner.augmented(
                slots,
                batch,
                channel_map,
                x_range,
                y_range,
                meridian,
                given,
                c,
            ),
        ),
{
}

} // verus!
