#![allow(dead_code, unused_imports)]
use std::collections::{BTreeMap, HashSet};
use std::sync::Arc;

use arrow::array::{
    Array, ArrayRef, BooleanArray, Date32Array, Float32Array, Float64Array, Int16Array,
    Int32Array, Int64Array, Int8Array, LargeStringArray, StringArray, TimestampMicrosecondArray,
    UInt16Array, UInt32Array, UInt64Array, UInt8Array,
};
use arrow::record_batch::RecordBatch;
use brightfield_render::batch::{Batch, Records};
use brightfield_render::cartography::Trig;
use brightfield_render::channel::{Channel, ChannelMap, LabelForm};
use brightfield_render::colour::Rgba;
use brightfield_render::drawing::{
    count_scene_glyphs, count_scene_paths, DrawOp, Point, Rect, Scene, Shape, Step, TextAnchor,
};
use brightfield_render::infer::{infer_scales, Range};
use brightfield_render::ink::{ChartInk, Theme};
use brightfield_render::number::Number;
use brightfield_render::scale::Scale;
use brightfield_render::scale_set::ScaleSet;
use brightfield_render::single::Single;
use brightfield_render::layout::{ChartLayout, Margins};
use brightfield_render::selection::{
    committed_selection_rect, render_committed_selection, spans, CommittedSelection, Selected,
};

fn n(x: f64) -> Number {
    Number::from_bits(x.to_bits())
}

fn f(x: Number) -> f64 {
    f64::from_bits(x.to_bits())
}

fn single(x: f32) -> Single {
    Single::from_bits(x.to_bits())
}

fn rgba(c: [f32; 4]) -> Rgba {
    Rgba { r: single(c[0]), g: single(c[1]), b: single(c[2]), a: single(c[3]) }
}

fn parts(c: Rgba) -> [f32; 4] {
    [
        f32::from_bits(c.r.bits),
        f32::from_bits(c.g.bits),
        f32::from_bits(c.b.bits),
        f32::from_bits(c.a.bits),
    ]
}

fn span(a: f64, b: f64) -> Range {
    Range { start: n(a), end: n(b) }
}

fn across() -> Range {
    span(40.0, 600.0)
}

fn upright() -> Range {
    span(450.0, 20.0)
}

fn grey(v: f32) -> Rgba {
    rgba([v, v, v, 1.0])
}

fn ink() -> ChartInk {
    ChartInk {
        background: grey(0.99),
        mark_default: rgba([0.1, 0.35, 0.7, 1.0]),
        null: rgba([0.55, 0.54, 0.5, 1.0]),
        grid: grey(0.9),
        hexgrid_stroke: grey(0.85),
        geo_stroke: grey(0.4),
        selection_wash: rgba([0.2, 0.4, 0.9, 0.14]),
        selection_bound: rgba([0.2, 0.4, 0.9, 1.0]),
        knockout: rgba([1.0, 0.98, 0.97, 1.0]),
        notice_fill: rgba([0.95, 0.7, 0.1, 1.0]),
        notice_text: rgba([0.2, 0.1, 0.0, 1.0]),
        widget_border: grey(0.8),
        widget_fill: grey(0.97),
        widget_label: grey(0.15),
        widget_affordance: grey(0.5),
        widget_active: rgba([0.0, 0.3, 0.6, 1.0]),
    }
}

fn theme() -> Theme {
    Theme {
        ink: ink(),
        categorical: vec![
            rgba([0.1, 0.35, 0.7, 1.0]),
            rgba([0.9, 0.45, 0.1, 1.0]),
            rgba([0.2, 0.6, 0.3, 1.0]),
        ],
        meridian: meridian(),
    }
}

fn meridian() -> Vec<Rgba> {
    vec![rgba([0.95, 0.93, 0.9, 1.0]), rgba([0.4, 0.5, 0.6, 1.0]), rgba([0.05, 0.1, 0.3, 1.0])]
}

fn floats(v: Vec<f64>) -> ArrayRef {
    Arc::new(Float64Array::from(v))
}

fn maybe(v: Vec<Option<f64>>) -> ArrayRef {
    Arc::new(Float64Array::from(v))
}

fn words(v: Vec<&str>) -> ArrayRef {
    Arc::new(StringArray::from(v))
}

fn maybe_words(v: Vec<Option<&str>>) -> ArrayRef {
    Arc::new(StringArray::from(v))
}

fn table(columns: Vec<(&str, ArrayRef)>) -> Batch {
    Batch::read(&Records { arrow: RecordBatch::try_from_iter(columns).unwrap() })
}

fn channels(pairs: &[(Channel, &str)]) -> ChannelMap {
    let mut cm = ChannelMap::new();
    for (c, name) in pairs {
        cm.insert(*c, name.to_string());
    }
    cm
}

fn inferred(batch: &Batch, cm: &ChannelMap) -> ScaleSet {
    infer_scales(batch, cm, across(), upright(), &theme())
}

/// Elementary functions that are all zero, for what does not read them.
fn nothing_at() -> Trig {
    let zero = n(0.0);
    Trig {
        sin_lon: zero,
        cos_lon: zero,
        sin_lat: zero,
        cos_lat: zero,
        log: zero,
        angle: zero,
        arc: zero,
        sin_arc: zero,
        cos_arc: zero,
        sin_turn: zero,
        cos_turn: zero,
        power: zero,
    }
}

fn linear(d0: f64, d1: f64, r0: f64, r1: f64) -> Scale {
    Scale::Linear { domain_min: n(d0), domain_max: n(d1), range_start: n(r0), range_end: n(r1) }
}

fn domain(scale: Option<&Scale>) -> (f64, f64) {
    let s = scale.expect("a scale");
    (f(s.domain_min().expect("a domain")), f(s.domain_max().expect("a domain")))
}

/// The colour of every filled or stroked shape, in order.
fn colours(scene: &Scene) -> Vec<[u32; 4]> {
    let mut out = Vec::new();
    for op in &scene.ops {
        match op {
            DrawOp::Fill(c, _) => out.push(bits(*c)),
            DrawOp::Stroke(_, c, _) => out.push(bits(*c)),
            _ => {}
        }
    }
    out
}

fn colour_set(scene: &Scene) -> HashSet<[u32; 4]> {
    colours(scene).into_iter().collect()
}

fn bits(c: Rgba) -> [u32; 4] {
    [c.r.bits, c.g.bits, c.b.bits, c.a.bits]
}

fn continuous() -> Scale {
    linear(0.0, 10.0, 40.0, 340.0)
}

fn band(categories: &[&str]) -> Scale {
    Scale::Band {
        categories: categories.iter().map(|s| s.to_string()).collect(),
        range_start: n(40.0),
        range_end: n(340.0),
        padding: n(0.1),
    }
}

fn layout() -> ChartLayout {
    ChartLayout::with_margins(
        n(360.0),
        n(300.0),
        Margins { top: n(20.0), right: n(20.0), bottom: n(30.0), left: n(40.0) },
    )
}

fn picked() -> CommittedSelection {
    CommittedSelection { x: Some(Selected::Interval(n(2.0), n(4.0))), y: None }
}

#[test]
fn an_interval_maps_back_to_the_pixels_that_produced_it() {
    let scale = continuous();
    let (a, b) = (100.0, 220.0);
    let lo = scale.inverse_f64(n(a)).expect("continuous");
    let hi = scale.inverse_f64(n(b)).expect("continuous");
    let placed = spans(&scale, &Selected::Interval(lo, hi));
    assert_eq!(placed.len(), 1, "one interval, one span");
    assert!((f(placed[0].from) - a).abs() < 1e-9, "low bound returns");
    assert!((f(placed[0].to) - b).abs() < 1e-9, "high bound returns");
}

#[test]
fn an_interval_on_a_band_scale_places_nothing() {
    let scale = band(&["north", "south"]);
    assert!(spans(&scale, &Selected::Interval(n(0.0), n(1.0))).is_empty());
}

#[test]
fn categories_take_their_own_band_slots() {
    let scale = band(&["north", "south", "east"]);
    let width = f(scale.band_width().expect("a band scale has a slot width"));
    let chosen = Selected::Categories(vec![
        "south".to_string(),
        "west".to_string(),
        "east".to_string(),
    ]);
    let placed = spans(&scale, &chosen);
    assert_eq!(placed.len(), 2, "two of the three name a slot on this scale");
    for (i, name) in ["south", "east"].iter().enumerate() {
        let centre = f(scale.map_category(name).expect("carried category"));
        assert!((f(placed[i].from) - (centre - width / 2.0)).abs() < 1e-9);
        assert!((f(placed[i].to) - (centre + width / 2.0)).abs() < 1e-9);
    }
}

#[test]
fn an_unconstrained_channel_spans_the_plot() {
    let mut scales = ScaleSet::new(ink());
    scales.insert(Channel::X, continuous());
    let mut scene = Scene::new();
    render_committed_selection(&mut scene, &layout(), &scales, &picked());
    assert!(!scene.ops.is_empty(), "a placeable selection lays down geometry");
    let r = committed_selection_rect(&layout(), &scales, &picked()).expect("a rectangle");
    assert_eq!((f(r.x0), f(r.x1)), (100.0, 160.0));
    assert_eq!((f(r.y0), f(r.y1)), (20.0, 270.0), "the whole height of the plot");
}

#[test]
fn an_empty_selection_draws_nothing() {
    let mut scales = ScaleSet::new(ink());
    scales.insert(Channel::X, continuous());
    let mut scene = Scene::new();
    let empty = CommittedSelection::default();
    assert!(empty.is_empty());
    render_committed_selection(&mut scene, &layout(), &scales, &empty);
    assert!(scene.ops.is_empty(), "no constraint, no geometry");
}

#[test]
fn a_constraint_with_no_scale_draws_nothing() {
    let mut scene = Scene::new();
    render_committed_selection(&mut scene, &layout(), &ScaleSet::new(ink()), &picked());
    assert!(scene.ops.is_empty(), "no scale, no geometry");
}
