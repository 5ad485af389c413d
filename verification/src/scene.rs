//! Scene builders: scales, frame, marks and legend in one display list.
//!
//! Grid lines, axes, titles and legends are laid out elsewhere, from the
//! scales that [`infer_chart_scales`] and [`infer_multi_mark_scales`] give, and
//! handed in as [`Furniture`].
use vstd::prelude::*;

use crate::batch::Batch;
use crate::channel::{all_channels, channels_are_all_listed, Channel, ChannelMap};
use crate::drawing::{drawn_for, op_views, DrawOp, Op, Outline, Rect, Scene, Shape};
use crate::highlight::HighlightState;
use crate::infer::{infer_scales, inferred_slot, with_literal};
use crate::ink::{ChartInk, Theme};
use crate::layout::ChartLayout;
use crate::mark::{Given, MarkRenderer};
use crate::number::Number;
use crate::numerals::ZERO;
use crate::scale::{Scale, ScaleModel};
use crate::scale_set::{anchor_scales, anchored_slot, ScaleSet, ViewExtent};
use crate::union::{infer_scales_multi, shared_slot, Entry};

verus! {

/// Input data for building a chart scene.
pub struct ChartData<'a, M: MarkRenderer> {
    /// The data.
    pub batch: &'a Batch,
    /// The encoding channels.
    pub channel_map: &'a ChannelMap,
    /// The mark renderer to use.
    pub renderer: &'a M,
    /// Chart dimensions and margins.
    pub layout: ChartLayout,
    /// Domains that pan and zoom put in place of the data's own.
    pub view_extent: Option<&'a ViewExtent>,
    /// Highlight state for per-row emphasis.
    pub highlight: Option<&'a HighlightState>,
    /// What the mark needs that is computed elsewhere.
    pub given: &'a Given,
}

/// What frames a plot. Each part is used where its scale is there: no mark
/// that drops the frame may leave a grid or an axis behind.
#[derive(Debug)]
pub struct Furniture {
    pub x_grid: Vec<DrawOp>,
    pub y_grid: Vec<DrawOp>,
    pub x_axis: Vec<DrawOp>,
    pub y_axis: Vec<DrawOp>,
    /// The plot's title, which is empty for a plot without one.
    pub title: Vec<DrawOp>,
    pub legend: Vec<DrawOp>,
}

/// The background of a chart.
pub open spec fn background_op(layout: ChartLayout, ink: ChartInk) -> Op {
    let zero = Number::from_bits(ZERO);
    Op::Fill(
        ink.background,
        Outline::Rect(Rect { x0: zero, y0: zero, x1: layout.width, y1: layout.height }),
    )
}

/// Fill the full chart area, so that everything else draws on top.
fn render_background(scene: &mut Scene, width: Number, height: Number, ink: ChartInk)
    ensures
        forall|layout: ChartLayout|
            layout.width == width && layout.height == height ==> final(scene)@ == old(scene)@.push(
                #[trigger] background_op(layout, ink),
            ),
{
    let zero = Number::from_bits(ZERO);
    scene.fill(
        ink.background,
        Shape::Rect(Rect { x0: zero, y0: zero, x1: width, y1: height }),
    );
}

/// A scale with another domain: continuous positional scales take it, and any
/// other scale stays.
pub open spec fn with_domain(scale: ScaleModel, new_min: Number, new_max: Number) -> ScaleModel {
    match scale {
        ScaleModel::Linear { range_start, range_end, .. } => ScaleModel::Linear {
            domain_min: new_min,
            domain_max: new_max,
            range_start,
            range_end,
        },
        ScaleModel::Time { range_start, range_end, .. } => ScaleModel::Time {
            domain_min_us: new_min.to_i64(),
            domain_max_us: new_max.to_i64(),
            range_start,
            range_end,
        },
        other => other,
    }
}

/// Override a scale's domain. Only linear and time scales are navigable; any
/// other is returned unchanged.
pub fn override_scale_domain(scale: &Scale, new_min: Number, new_max: Number) -> (r: Scale)
    ensures
        r@ == with_domain(scale@, new_min, new_max),
{
    match scale {
        Scale::Linear { range_start, range_end, .. } => Scale::Linear {
            domain_min: new_min,
            domain_max: new_max,
            range_start: *range_start,
            range_end: *range_end,
        },
        Scale::Time { range_start, range_end, .. } => Scale::Time {
            domain_min_us: new_min.to_i64(),
            domain_max_us: new_max.to_i64(),
            range_start: *range_start,
            range_end: *range_end,
        },
        other => other.clone(),
    }
}

/// A scale whose domain holds zero, where it is linear.
pub open spec fn with_zero(scale: ScaleModel) -> ScaleModel {
    match scale {
        ScaleModel::Linear { domain_min, domain_max, range_start, range_end } => {
            ScaleModel::Linear {
                domain_min: domain_min.min(Number::from_bits(ZERO)),
                domain_max: domain_max.max(Number::from_bits(ZERO)),
                range_start,
                range_end,
            }
        },
        other => other,
    }
}

/// Extend a linear scale's domain to hold zero. Any other scale is returned
/// unchanged.
pub fn extend_domain_to_zero(scale: &Scale) -> (r: Scale)
    ensures
        r@ == with_zero(scale@),
{
    match scale {
        Scale::Linear { domain_min, domain_max, range_start, range_end } => Scale::Linear {
            domain_min: domain_min.min(Number::from_bits(ZERO)),
            domain_max: domain_max.max(Number::from_bits(ZERO)),
            range_start: *range_start,
            range_end: *range_end,
        },
        other => other.clone(),
    }
}

/// A channel's scale, made to hold zero where some mark needs it.
pub open spec fn zeroed_slot(slot: Option<ScaleModel>, needed: bool) -> Option<ScaleModel> {
    match slot {
        Some(s) => if needed {
            Some(with_zero(s))
        } else {
            Some(s)
        },
        None => None,
    }
}

/// A channel's scale under a view extent.
pub open spec fn viewed_slot(
    slot: Option<ScaleModel>,
    extent: Option<&ViewExtent>,
    c: Channel,
) -> Option<ScaleModel> {
    match (slot, extent) {
        (Some(s), Some(e)) => match (c, e.x, e.y) {
            (Channel::X, Some((low, high)), _) => Some(with_domain(s, low, high)),
            (Channel::Y, _, Some((low, high))) => Some(with_domain(s, low, high)),
            _ => slot,
        },
        _ => slot,
    }
}

fn zero_channel(scales: &mut ScaleSet, channel: Channel)
    ensures
        final(scales).at(channel) == zeroed_slot(old(scales).at(channel), true),
        forall|c: Channel| c != channel ==> #[trigger] final(scales).at(c) == old(scales).at(c),
        final(scales).ink == old(scales).ink,
        final(scales).geo_extent == old(scales).geo_extent,
{
    let replacement = match scales.get(channel) {
        Some(s) => Some(extend_domain_to_zero(s)),
        None => None,
    };
    if let Some(s) = replacement {
        scales.insert(channel, s);
    }
}

fn view_channel(scales: &mut ScaleSet, channel: Channel, domain: Option<(Number, Number)>)
    ensures
        final(scales).at(channel) == match (old(scales).at(channel), domain) {
            (Some(s), Some((low, high))) => Some(with_domain(s, low, high)),
            (slot, _) => slot,
        },
        forall|c: Channel| c != channel ==> #[trigger] final(scales).at(c) == old(scales).at(c),
        final(scales).ink == old(scales).ink,
        final(scales).geo_extent == old(scales).geo_extent,
{
    let replacement = match (scales.get(channel), domain) {
        (Some(s), Some((low, high))) => Some(override_scale_domain(s, low, high)),
        _ => None,
    };
    if let Some(s) = replacement {
        scales.insert(channel, s);
    }
}

fn apply_view(scales: &mut ScaleSet, extent: Option<&ViewExtent>)
    ensures
        forall|c: Channel| #[trigger]
            final(scales).at(c) == viewed_slot(old(scales).at(c), extent, c),
        final(scales).ink == old(scales).ink,
        final(scales).geo_extent == old(scales).geo_extent,
{
    if let Some(e) = extent {
        let ghost before = *scales;
        view_channel(scales, Channel::X, e.x);
        let ghost between = *scales;
        view_channel(scales, Channel::Y, e.y);
        assert forall|c: Channel| #[trigger] scales.at(c) == viewed_slot(
            before.at(c),
            extent,
            c,
        ) by {
            if c != Channel::Y {
                assert(scales.at(c) == between.at(c));
            }
            if c != Channel::X {
                assert(between.at(c) == before.at(c));
            }
        }
    }
}

/// The scales of one mark's columns and constants.
pub open spec fn column_slots<M: MarkRenderer>(
    data: ChartData<'_, M>,
    theme: Theme,
) -> spec_fn(Channel) -> Option<ScaleModel> {
    |c: Channel|
        with_literal(
            inferred_slot(
                *data.batch,
                *data.channel_map,
                c,
                data.layout.x_range(),
                data.layout.y_range(),
                theme.categorical@,
            ),
            data.channel_map.literals.at(c),
            c,
            data.layout.x_range(),
            data.layout.y_range(),
        )
}

/// The scale of a channel of a chart with one mark: inferred, augmented by the
/// mark, made to hold zero where the mark needs it, and then navigated.
pub open spec fn chart_slot<M: MarkRenderer>(
    data: ChartData<'_, M>,
    theme: Theme,
    c: Channel,
) -> Option<ScaleModel> {
    viewed_slot(
        zeroed_slot(
            data.renderer.augmented(
                column_slots(data, theme),
                *data.batch,
                *data.channel_map,
                data.layout.x_range(),
                data.layout.y_range(),
                theme.meridian@,
                *data.given,
                c,
            ),
            data.renderer.baseline() == Some(c),
        ),
        data.view_extent,
        c,
    )
}

/// Infer the scales of a chart with one mark.
pub fn infer_chart_scales<M: MarkRenderer>(data: &ChartData<'_, M>, theme: &Theme) -> (r: ScaleSet)
    ensures
        forall|c: Channel| #[trigger] r.at(c) == chart_slot(*data, *theme, c),
        r.ink == theme.ink,
        r.geo_extent is None,
{
    let x_range = data.layout.x_range();
    let y_range = data.layout.y_range();
    let mut scales = infer_scales(data.batch, data.channel_map, x_range, y_range, theme);
    assert(scales.slots() =~= column_slots(*data, *theme));
    data.renderer.augment_scales(
        &mut scales,
        data.batch,
        data.channel_map,
        x_range,
        y_range,
        &theme.meridian,
        data.given,
    );
    let ghost augmented = scales;
    if let Some(ch) = data.renderer.zero_baseline_channel() {
        zero_channel(&mut scales, ch);
    }
    assert forall|c: Channel| #[trigger] scales.at(c) == zeroed_slot(
        augmented.at(c),
        data.renderer.baseline() == Some(c),
    ) by {}
    apply_view(&mut scales, data.view_extent);
    scales
}

/// A part of the frame: drawn where its scale is there, unless a mark drops
/// the frame.
pub open spec fn framed(
    frameless: bool,
    slot: Option<ScaleModel>,
    ops: Seq<DrawOp>,
) -> Seq<Op> {
    if frameless || slot is None {
        Seq::empty()
    } else {
        op_views(ops)
    }
}

fn append_framed(
    scene: &mut Scene,
    frameless: bool,
    scales: &ScaleSet,
    channel: Channel,
    ops: &Vec<DrawOp>,
)
    ensures
        final(scene)@ == old(scene)@ + framed(frameless, scales.at(channel), ops@),
{
    if !frameless && scales.get(channel).is_some() {
        scene.append(ops);
    } else {
        assert(scene@ + Seq::<Op>::empty() =~= scene@);
    }
}

/// A plot: its background and grid, its marks inside the plot area, then its
/// axes, title and legend.
pub open spec fn plot_ops(
    layout: ChartLayout,
    frameless: bool,
    marks: Seq<Op>,
    scales: ScaleSet,
    furniture: Furniture,
    titled: bool,
    legend: bool,
) -> Seq<Op> {
    seq![background_op(layout, scales.ink)] + framed(
        frameless,
        scales.at(Channel::X),
        furniture.x_grid@,
    ) + framed(frameless, scales.at(Channel::Y), furniture.y_grid@) + seq![
        Op::PushClip(layout.plot_area()),
    ] + marks + seq![Op::Pop] + framed(
        frameless,
        scales.at(Channel::X),
        furniture.x_axis@,
    ) + framed(frameless, scales.at(Channel::Y), furniture.y_axis@) + (if titled {
        op_views(furniture.title@)
    } else {
        Seq::empty()
    }) + framed(!legend, scales.at(Channel::Fill), furniture.legend@)
}

/// What comes before the marks of a plot.
fn open_plot(
    scene: &mut Scene,
    layout: &ChartLayout,
    frameless: bool,
    scales: &ScaleSet,
    furniture: &Furniture,
)
    ensures
        final(scene)@ == old(scene)@ + (seq![background_op(*layout, scales.ink)] + framed(
            frameless,
            scales.at(Channel::X),
            furniture.x_grid@,
        ) + framed(frameless, scales.at(Channel::Y), furniture.y_grid@) + seq![
            Op::PushClip(layout.plot_area()),
        ]),
{
    let ghost start = scene@;
    render_background(scene, layout.width, layout.height, scales.ink);
    assert(scene@ =~= start + seq![background_op(*layout, scales.ink)]);
    append_framed(scene, frameless, scales, Channel::X, &furniture.x_grid);
    append_framed(scene, frameless, scales, Channel::Y, &furniture.y_grid);
    scene.push(DrawOp::PushClip(layout.plot_area()));
    assert(scene@ =~= start + (seq![background_op(*layout, scales.ink)] + framed(
        frameless,
        scales.at(Channel::X),
        furniture.x_grid@,
    ) + framed(frameless, scales.at(Channel::Y), furniture.y_grid@) + seq![
        Op::PushClip(layout.plot_area()),
    ]));
}

/// What comes after the marks of a plot.
fn close_plot(
    scene: &mut Scene,
    frameless: bool,
    scales: &ScaleSet,
    furniture: &Furniture,
    titled: bool,
    legend: bool,
)
    ensures
        final(scene)@ == old(scene)@ + (seq![Op::Pop] + framed(
            frameless,
            scales.at(Channel::X),
            furniture.x_axis@,
        ) + framed(frameless, scales.at(Channel::Y), furniture.y_axis@) + (if titled {
            op_views(furniture.title@)
        } else {
            Seq::empty()
        }) + framed(!legend, scales.at(Channel::Fill), furniture.legend@)),
{
    let ghost start = scene@;
    let ghost x = framed(frameless, scales.at(Channel::X), furniture.x_axis@);
    let ghost y = framed(frameless, scales.at(Channel::Y), furniture.y_axis@);
    let ghost title: Seq<Op> = if titled {
        op_views(furniture.title@)
    } else {
        Seq::empty()
    };
    scene.push(DrawOp::Pop);
    assert(scene@ =~= start + seq![Op::Pop]);
    append_framed(scene, frameless, scales, Channel::X, &furniture.x_axis);
    append_framed(scene, frameless, scales, Channel::Y, &furniture.y_axis);
    let ghost before = scene@;
    if titled {
        scene.append(&furniture.title);
    }
    assert(scene@ =~= before + title);
    append_framed(scene, !legend, scales, Channel::Fill, &furniture.legend);
    assert(scene@ =~= start + (seq![Op::Pop] + x + y + title + framed(
        !legend,
        scales.at(Channel::Fill),
        furniture.legend@,
    )));
}

/// Build a complete chart scene from data and configuration. Returns the scene
/// and the scales it was drawn with. A chart of one mark carries no title.
pub fn build_chart_scene<M: MarkRenderer>(
    data: &ChartData<'_, M>,
    theme: &Theme,
    furniture: &Furniture,
) -> (r: (Scene, ScaleSet))
    ensures
        forall|c: Channel| #[trigger] r.1.at(c) == chart_slot(*data, *theme, c),
        r.1.ink == theme.ink,
        r.1.geo_extent is None,
        r.0@ == plot_ops(
            data.layout,
            data.renderer.frameless(),
            data.renderer.drawn(
                *data.batch,
                *data.channel_map,
                r.1,
                data.highlight,
                *data.given,
            ),
            r.1,
            *furniture,
            false,
            true,
        ),
{
    let scales = infer_chart_scales(data, theme);
    let mut scene = Scene::new();
    let frameless = data.renderer.suppresses_frame();
    open_plot(&mut scene, &data.layout, frameless, &scales, furniture);
    data.renderer.render(
        &mut scene,
        data.batch,
        data.channel_map,
        &scales,
        data.highlight,
        data.given,
    );
    close_plot(&mut scene, frameless, &scales, furniture, false, true);
    assert(scene@ =~= plot_ops(
        data.layout,
        data.renderer.frameless(),
        data.renderer.drawn(
            *data.batch,
            *data.channel_map,
            scales,
            data.highlight,
            *data.given,
        ),
        scales,
        *furniture,
        false,
        true,
    ));
    (scene, scales)
}

/// The tables and channels of some marks.
pub open spec fn pairs_of<M: MarkRenderer>(entries: Seq<ChartData<'_, M>>) -> Seq<Entry<'_>> {
    entries.map_values(|d: ChartData<'_, M>| Entry { batch: d.batch, channel_map: d.channel_map })
}

/// The scales that some marks' columns and constants share.
pub open spec fn shared_slots<M: MarkRenderer>(
    entries: Seq<ChartData<'_, M>>,
    theme: Theme,
) -> spec_fn(Channel) -> Option<ScaleModel> {
    |c: Channel|
        shared_slot(
            pairs_of(entries),
            c,
            entries[0].layout.x_range(),
            entries[0].layout.y_range(),
            theme.categorical@,
        )
}

/// The scales after the first `n` marks have augmented them, one after
/// another.
pub open spec fn layered_slots<M: MarkRenderer>(
    entries: Seq<ChartData<'_, M>>,
    theme: Theme,
    n: nat,
) -> spec_fn(Channel) -> Option<ScaleModel>
    decreases n,
{
    if n == 0 {
        shared_slots(entries, theme)
    } else {
        let before = layered_slots(entries, theme, (n - 1) as nat);
        let d = entries[n - 1];
        |c: Channel|
            d.renderer.augmented(
                before,
                *d.batch,
                *d.channel_map,
                entries[0].layout.x_range(),
                entries[0].layout.y_range(),
                theme.meridian@,
                *d.given,
                c,
            )
    }
}

/// Whether some mark needs a channel's domain to hold zero.
pub open spec fn needs_zero<M: MarkRenderer>(entries: Seq<ChartData<'_, M>>, c: Channel) -> bool {
    exists|i: int| 0 <= i < entries.len() && (#[trigger] entries[i]).renderer.baseline() == Some(c)
}

/// The scale of a channel that some marks share.
pub open spec fn plot_slot<M: MarkRenderer>(
    entries: Seq<ChartData<'_, M>>,
    theme: Theme,
    c: Channel,
) -> Option<
    ScaleModel,
> {
    viewed_slot(
        zeroed_slot(
            layered_slots(entries, theme, entries.len())(c),
            needs_zero(entries, c),
        ),
        entries[0].view_extent,
        c,
    )
}

fn any_needs_zero<M: MarkRenderer>(entries: &Vec<ChartData<'_, M>>, channel: Channel) -> (r: bool)
    ensures
        r == needs_zero(entries@, channel),
{
    let mut i: usize = 0;
    while i < entries.len()
        invariant
            i <= entries.len(),
            forall|k: int|
                0 <= k < i ==> (#[trigger] entries@[k]).renderer.baseline() != Some(channel),
        decreases entries.len() - i,
    {
        if let Some(ch) = entries[i].renderer.zero_baseline_channel() {
            if ch == channel {
                assert(entries@[i as int].renderer.baseline() == Some(channel));
                return true;
            }
        }
        i = i + 1;
    }
    false
}

fn zero_channels<M: MarkRenderer>(scales: &mut ScaleSet, entries: &Vec<ChartData<'_, M>>)
    ensures
        forall|c: Channel| #[trigger]
            final(scales).at(c) == zeroed_slot(old(scales).at(c), needs_zero(entries@, c)),
        final(scales).ink == old(scales).ink,
        final(scales).geo_extent == old(scales).geo_extent,
{
    let ghost before = *scales;
    let all = Channel::all();
    let mut i: usize = 0;
    while i < all.len()
        invariant
            i <= all.len(),
            all@ == all_channels(),
            scales.ink == before.ink,
            scales.geo_extent == before.geo_extent,
            forall|j: int|
                0 <= j < i ==> scales.at(#[trigger] all@[j]) == zeroed_slot(
                    before.at(all@[j]),
                    needs_zero(entries@, all@[j]),
                ),
            forall|j: int|
                i <= j < all.len() ==> scales.at(#[trigger] all@[j]) == before.at(all@[j]),
        decreases all.len() - i,
    {
        let ch = all[i];
        proof {
            channels_are_all_listed(ch);
        }
        if any_needs_zero(entries, ch) {
            zero_channel(scales, ch);
        }
        i = i + 1;
    }
    assert forall|c: Channel| #[trigger] scales.at(c) == zeroed_slot(
        before.at(c),
        needs_zero(entries@, c),
    ) by {
        channels_are_all_listed(c);
        let j = choose|j: int| 0 <= j < all_channels().len() && all_channels()[j] == c;
        assert(all@[j] == c);
    }
}

/// Infer the shared scale set for a plot of several marks: their columns'
/// domains unioned, then each mark's own contribution, then zero where a mark
/// needs it, then the first mark's view extent.
pub fn infer_multi_mark_scales<M: MarkRenderer>(
    entries: &Vec<ChartData<'_, M>>,
    theme: &Theme,
) -> (r: ScaleSet)
    requires
        entries.len() > 0,
    ensures
        forall|c: Channel| #[trigger] r.at(c) == plot_slot(entries@, *theme, c),
        r.ink == theme.ink,
        r.geo_extent is None,
{
    let x_range = entries[0].layout.x_range();
    let y_range = entries[0].layout.y_range();
    let mut pairs: Vec<Entry<'_>> = Vec::new();
    let mut i: usize = 0;
    while i < entries.len()
        invariant
            i <= entries.len(),
            pairs@ == pairs_of(entries@).take(i as int),
        decreases entries.len() - i,
    {
        pairs.push(Entry { batch: entries[i].batch, channel_map: entries[i].channel_map });
        i = i + 1;
        assert(pairs@ =~= pairs_of(entries@).take(i as int));
    }
    assert(pairs@ =~= pairs_of(entries@));
    let mut scales = infer_scales_multi(&pairs, x_range, y_range, theme);
    assert(scales.slots() =~= shared_slots(entries@, *theme));
    let mut k: usize = 0;
    while k < entries.len()
        invariant
            k <= entries.len(),
            entries.len() > 0,
            x_range == entries@[0].layout.x_range(),
            y_range == entries@[0].layout.y_range(),
            scales.ink == theme.ink,
            scales.geo_extent is None,
            scales.slots() == layered_slots(entries@, *theme, k as nat),
        decreases entries.len() - k,
    {
        let d = &entries[k];
        d.renderer.augment_scales(
            &mut scales,
            d.batch,
            d.channel_map,
            x_range,
            y_range,
            &theme.meridian,
            d.given,
        );
        k = k + 1;
        assert(scales.slots() =~= layered_slots(entries@, *theme, k as nat));
    }
    let ghost layered = scales;
    assert forall|c: Channel| #[trigger] layered.at(c) == layered_slots(
        entries@,
        *theme,
        entries@.len(),
    )(c) by {
        assert(layered.slots()(c) == layered.at(c));
    }
    zero_channels(&mut scales, entries);
    apply_view(&mut scales, entries[0].view_extent);
    scales
}

/// Whether some mark drops the frame.
pub open spec fn any_frameless<M: MarkRenderer>(entries: Seq<ChartData<'_, M>>) -> bool {
    exists|i: int| 0 <= i < entries.len() && (#[trigger] entries[i]).renderer.frameless()
}

/// What some marks draw on shared scales, in order.
pub open spec fn layers<M: MarkRenderer>(
    entries: Seq<ChartData<'_, M>>,
    scales: ScaleSet,
) -> Seq<Op> {
    drawn_for(
        entries.len(),
        |i: int|
            entries[i].renderer.drawn(
                *entries[i].batch,
                *entries[i].channel_map,
                scales,
                entries[i].highlight,
                *entries[i].given,
            ),
    )
}

/// The scene of a plot of several marks on shared scales. A mark that drops the
/// frame drops it for the whole plot.
pub open spec fn multi_ops<M: MarkRenderer>(
    entries: Seq<ChartData<'_, M>>,
    draw_inline_legend: bool,
    scales: ScaleSet,
    furniture: Furniture,
) -> Seq<Op> {
    plot_ops(
        entries[0].layout,
        any_frameless(entries),
        layers(entries, scales),
        scales,
        furniture,
        true,
        draw_inline_legend,
    )
}

fn drops_frame<M: MarkRenderer>(entries: &Vec<ChartData<'_, M>>) -> (r: bool)
    ensures
        r == any_frameless(entries@),
{
    let mut i: usize = 0;
    while i < entries.len()
        invariant
            i <= entries.len(),
            forall|k: int| 0 <= k < i ==> !(#[trigger] entries@[k]).renderer.frameless(),
        decreases entries.len() - i,
    {
        if entries[i].renderer.suppresses_frame() {
            assert(entries@[i as int].renderer.frameless());
            return true;
        }
        i = i + 1;
    }
    false
}

/// Draw a plot's background, grid, marks, axes, title and inline legend
/// against scales that are already resolved.
pub fn draw_multi_mark_scene<M: MarkRenderer>(
    entries: &Vec<ChartData<'_, M>>,
    draw_inline_legend: bool,
    scales: &ScaleSet,
    furniture: &Furniture,
) -> (scene: Scene)
    requires
        entries.len() > 0,
    ensures
        scene@ == multi_ops(entries@, draw_inline_legend, *scales, *furniture),
{
    let mut scene = Scene::new();
    let frameless = drops_frame(entries);
    open_plot(&mut scene, &entries[0].layout, frameless, scales, furniture);
    let ghost start = scene@;
    let ghost f = |i: int|
        entries@[i].renderer.drawn(
            *entries@[i].batch,
            *entries@[i].channel_map,
            *scales,
            entries@[i].highlight,
            *entries@[i].given,
        );
    assert(start + drawn_for(0, f) =~= start);
    let mut i: usize = 0;
    while i < entries.len()
        invariant
            i <= entries.len(),
            f == (|i: int|
                entries@[i].renderer.drawn(
                    *entries@[i].batch,
                    *entries@[i].channel_map,
                    *scales,
                    entries@[i].highlight,
                    *entries@[i].given,
                )),
            scene@ == start + drawn_for(i as nat, f),
        decreases entries.len() - i,
    {
        let ghost here = scene@;
        let d = &entries[i];
        d.renderer.render(
            &mut scene,
            d.batch,
            d.channel_map,
            scales,
            d.highlight,
            d.given,
        );
        assert(here + f(i as int) =~= start + drawn_for((i + 1) as nat, f));
        i = i + 1;
    }
    close_plot(&mut scene, frameless, scales, furniture, true, draw_inline_legend);
    assert(scene@ =~= multi_ops(entries@, draw_inline_legend, *scales, *furniture));
    scene
}

/// Build a scene from several marks that share one set of scales. Without
/// marks the scene is empty.
pub fn build_multi_mark_scene<M: MarkRenderer>(
    entries: &Vec<ChartData<'_, M>>,
    draw_inline_legend: bool,
    theme: &Theme,
    furniture: &Furniture,
) -> (r: (Scene, ScaleSet))
    ensures
        r.1.ink == theme.ink,
        r.1.geo_extent is None,
        entries.len() == 0 ==> r.0@ == Seq::<Op>::empty() && forall|c: Channel| #[trigger]
            r.1.at(c) is None,
        entries.len() > 0 ==> {
            &&& forall|c: Channel| #[trigger] r.1.at(c) == plot_slot(entries@, *theme, c)
            &&& r.0@ == multi_ops(entries@, draw_inline_legend, r.1, *furniture)
        },
{
    if entries.len() == 0 {
        return (Scene::new(), ScaleSet::new(theme.ink));
    }
    let scales = infer_multi_mark_scales(entries, theme);
    let scene = draw_multi_mark_scene(entries, draw_inline_legend, &scales, furniture);
    (scene, scales)
}

/// Launch-anchored sibling of [`build_multi_mark_scene`]: the fresh scales are
/// folded into the launch set, which only widens, and the plot is drawn
/// against the result. Without marks the scene is empty and the scales are
/// those of launch.
pub fn build_multi_mark_scene_anchored<M: MarkRenderer>(
    entries: &Vec<ChartData<'_, M>>,
    draw_inline_legend: bool,
    theme: &Theme,
    furniture: &Furniture,
    launch: &ScaleSet,
) -> (r: (Scene, ScaleSet))
    ensures
        r.1.ink == launch.ink,
        r.1.geo_extent == launch.geo_extent,
        entries.len() == 0 ==> r.0@ == Seq::<Op>::empty() && forall|c: Channel| #[trigger]
            r.1.at(c) == launch.at(c),
        entries.len() > 0 ==> {
            &&& forall|c: Channel| #[trigger]
                r.1.at(c) == anchored_slot(launch.at(c), plot_slot(entries@, *theme, c))
            &&& r.0@ == multi_ops(entries@, draw_inline_legend, r.1, *furniture)
        },
{
    if entries.len() == 0 {
        return (Scene::new(), launch.clone());
    }
    let fresh = infer_multi_mark_scales(entries, theme);
    let scales = anchor_scales(launch, fresh);
    let scene = draw_multi_mark_scene(entries, draw_inline_legend, &scales, furniture);
    (scene, scales)
}

/// A plot and where it stands in a dashboard.
pub struct Placed<'a> {
    pub x: Number,
    pub y: Number,
    pub scene: &'a Scene,
}

/// What one plot of a dashboard draws.
pub open spec fn placed_ops(plot: Placed<'_>) -> Seq<Op> {
    seq![Op::PushOffset(plot.x, plot.y)] + plot.scene@ + seq![Op::Pop]
}

/// A dashboard: its background, and each plot at its own place.
pub open spec fn dashboard_ops(
    width: Number,
    height: Number,
    ink: ChartInk,
    plots: Seq<Placed<'_>>,
) -> Seq<Op> {
    let zero = Number::from_bits(ZERO);
    seq![
        Op::Fill(
            ink.background,
            Outline::Rect(Rect { x0: zero, y0: zero, x1: width, y1: height }),
        ),
    ] + drawn_for(plots.len(), |i: int| placed_ops(plots[i]))
}

/// Compose plot scenes into one dashboard scene, each at its own origin, over
/// a background that fills the gaps between them.
pub fn compose_dashboard(
    width: Number,
    height: Number,
    ink: ChartInk,
    plots: &Vec<Placed<'_>>,
) -> (scene: Scene)
    ensures
        scene@ == dashboard_ops(width, height, ink, plots@),
{
    let zero = Number::from_bits(ZERO);
    let mut scene = Scene::new();
    scene.fill(
        ink.background,
        Shape::Rect(Rect { x0: zero, y0: zero, x1: width, y1: height }),
    );
    let ghost start = scene@;
    let ghost f = |i: int| placed_ops(plots@[i]);
    assert(start + drawn_for(0, f) =~= start);
    let mut i: usize = 0;
    while i < plots.len()
        invariant
            i <= plots.len(),
            f == (|i: int| placed_ops(plots@[i])),
            scene@ == start + drawn_for(i as nat, f),
        decreases plots.len() - i,
    {
        let ghost here = scene@;
        scene.push(DrawOp::PushOffset(plots[i].x, plots[i].y));
        scene.append(&plots[i].scene.ops);
        scene.push(DrawOp::Pop);
        assert(scene@ =~= here + f(i as int));
        assert(here + f(i as int) =~= start + drawn_for((i + 1) as nat, f));
        i = i + 1;
    }
    assert(scene@ =~= dashboard_ops(width, height, ink, plots@));
    scene
}

/// A map leaves no grid and no axis behind: whatever frame is handed in, a plot
/// with a mark that drops the frame draws none of it.
pub proof fn a_map_draws_no_frame(
    layout: ChartLayout,
    marks: Seq<Op>,
    scales: ScaleSet,
    a: Furniture,
    b: Furniture,
    titled: bool,
    legend: bool,
)
    requires
        op_views(a.title@) == op_views(b.title@),
        op_views(a.legend@) == op_views(b.legend@),
    ensures
        plot_ops(layout, true, marks, scales, a, titled, legend) == plot_ops(
            layout,
            true,
            marks,
            scales,
            b,
            titled,
            legend,
        ),
{
}

/// A mark that needs zero has zero in its domain, unless a view extent says
/// otherwise.
pub proof fn a_baseline_is_on_the_axis(slot: ScaleModel)
    requires
        slot matches ScaleModel::Linear { domain_min, domain_max, .. } && !domain_min.is_nan()
            && !domain_max.is_nan(),
    ensures
        zeroed_slot(Some(slot), true) matches Some(s) && s.domain_min() matches Some(low)
            && s.domain_max() matches Some(high) && low.le(Number::from_bits(ZERO))
            && Number::from_bits(ZERO).le(high),
{
}

/// An explicit view extent is the last word on a linear or time axis, across
/// or upright: the axis shows that domain, over the pixels it had. A time axis
/// shows it to the whole microsecond.
pub proof fn navigation_wins(
    slot: ScaleModel,
    extent: ViewExtent,
    c: Channel,
    low: Number,
    high: Number,
)
    requires
        slot is Linear || slot is Time,
        c == Channel::X && extent.x == Some((low, high)) || c == Channel::Y && extent.y == Some(
            (low, high),
        ),
    ensures
        viewed_slot(Some(slot), Some(&extent), c) matches Some(s) && {
            &&& s.range_start() == slot.range_start()
            &&& s.range_end() == slot.range_end()
            &&& slot is Linear ==> s is Linear && s.domain_min() == Some(low) && s.domain_max()
                == Some(high)
            &&& slot is Time ==> s is Time && s->Time_domain_min_us == low.to_i64()
                && s->Time_domain_max_us == high.to_i64()
        },
{
}

} // verus!
