#![allow(dead_code, unused_imports)]
use std::collections::{BTreeMap, HashSet};
use std::sync::Arc;

use arrow::array::{
    Array, ArrayRef, BooleanArray, Date32Array, Float32Array, Float64Array, Int16Array,
    Int32Array, Int64Array, Int8Array, LargeStringArray, StringArray, TimestampMicrosecondArray,
    UInt16Array, UInt32Array, UInt64Array, UInt8Array,
};
use arrow::record_batch::RecordBatch;
use brightfield_render::batch::{Batch, Records};
use brightfield_render::cartography::Trig;
use brightfield_render::channel::{Channel, ChannelMap, LabelForm};
use brightfield_render::colour::Rgba;
use brightfield_render::drawing::{
    count_scene_glyphs, count_scene_paths, DrawOp, Point, Rect, Scene, Shape, Step, TextAnchor,
};
use brightfield_render::infer::{infer_scales, Range};
use brightfield_render::ink::{ChartInk, Theme};
use brightfield_render::number::Number;
use brightfield_render::scale::Scale;
use brightfield_render::scale_set::ScaleSet;
use brightfield_render::single::Single;
use brightfield_render::bar::{BarAxis, BarRenderer};
use brightfield_render::dot::DotRenderer;
use brightfield_render::drawing::{draw_text, draw_text_rotated};
use brightfield_render::geo_mark::GeoRenderer;
use brightfield_render::highlight::{HighlightState, HighlightStyle};
use brightfield_render::layout::{ChartLayout, Margins};
use brightfield_render::line::LineRenderer;
use brightfield_render::mark::{AnyMark, Given, MarkRenderer};
use brightfield_render::scale_set::ViewExtent;
use brightfield_render::scene::{
    build_chart_scene, build_multi_mark_scene, build_multi_mark_scene_anchored,
    compose_dashboard, ChartData, Furniture, Placed,
};
use brightfield_render::text::{
    measure, pen_positions, run_start, turned_start, LABEL_SIZE, TITLE_SIZE,
};
use brightfield_render::widgets::{render_checkbox, render_menu, render_radio, render_slider};

fn n(x: f64) -> Number {
    Number::from_bits(x.to_bits())
}

fn f(x: Number) -> f64 {
    f64::from_bits(x.to_bits())
}

fn single(x: f32) -> Single {
    Single::from_bits(x.to_bits())
}

fn rgba(c: [f32; 4]) -> Rgba {
    Rgba { r: single(c[0]), g: single(c[1]), b: single(c[2]), a: single(c[3]) }
}

fn parts(c: Rgba) -> [f32; 4] {
    [
        f32::from_bits(c.r.bits),
        f32::from_bits(c.g.bits),
        f32::from_bits(c.b.bits),
        f32::from_bits(c.a.bits),
    ]
}

fn span(a: f64, b: f64) -> Range {
    Range { start: n(a), end: n(b) }
}

fn across() -> Range {
    span(40.0, 600.0)
}

fn upright() -> Range {
    span(450.0, 20.0)
}

fn grey(v: f32) -> Rgba {
    rgba([v, v, v, 1.0])
}

fn ink() -> ChartInk {
    ChartInk {
        background: grey(0.99),
        mark_default: rgba([0.1, 0.35, 0.7, 1.0]),
        null: rgba([0.55, 0.54, 0.5, 1.0]),
        grid: grey(0.9),
        hexgrid_stroke: grey(0.85),
        geo_stroke: grey(0.4),
        selection_wash: rgba([0.2, 0.4, 0.9, 0.14]),
        selection_bound: rgba([0.2, 0.4, 0.9, 1.0]),
        knockout: rgba([1.0, 0.98, 0.97, 1.0]),
        notice_fill: rgba([0.95, 0.7, 0.1, 1.0]),
        notice_text: rgba([0.2, 0.1, 0.0, 1.0]),
        widget_border: grey(0.8),
        widget_fill: grey(0.97),
        widget_label: grey(0.15),
        widget_affordance: grey(0.5),
        widget_active: rgba([0.0, 0.3, 0.6, 1.0]),
    }
}

fn theme() -> Theme {
    Theme {
        ink: ink(),
        categorical: vec![
            rgba([0.1, 0.35, 0.7, 1.0]),
            rgba([0.9, 0.45, 0.1, 1.0]),
            rgba([0.2, 0.6, 0.3, 1.0]),
        ],
        meridian: meridian(),
    }
}

fn meridian() -> Vec<Rgba> {
    vec![rgba([0.95, 0.93, 0.9, 1.0]), rgba([0.4, 0.5, 0.6, 1.0]), rgba([0.05, 0.1, 0.3, 1.0])]
}

fn floats(v: Vec<f64>) -> ArrayRef {
    Arc::new(Float64Array::from(v))
}

fn maybe(v: Vec<Option<f64>>) -> ArrayRef {
    Arc::new(Float64Array::from(v))
}

fn words(v: Vec<&str>) -> ArrayRef {
    Arc::new(StringArray::from(v))
}

fn maybe_words(v: Vec<Option<&str>>) -> ArrayRef {
    Arc::new(StringArray::from(v))
}

fn table(columns: Vec<(&str, ArrayRef)>) -> Batch {
    Batch::read(&Records { arrow: RecordBatch::try_from_iter(columns).unwrap() })
}

fn channels(pairs: &[(Channel, &str)]) -> ChannelMap {
    let mut cm = ChannelMap::new();
    for (c, name) in pairs {
        cm.insert(*c, name.to_string());
    }
    cm
}

fn inferred(batch: &Batch, cm: &ChannelMap) -> ScaleSet {
    infer_scales(batch, cm, across(), upright(), &theme())
}

/// Elementary functions that are all zero, for what does not read them.
fn nothing_at() -> Trig {
    let zero = n(0.0);
    Trig {
        sin_lon: zero,
        cos_lon: zero,
        sin_lat: zero,
        cos_lat: zero,
        log: zero,
        angle: zero,
        arc: zero,
        sin_arc: zero,
        cos_arc: zero,
        sin_turn: zero,
        cos_turn: zero,
        power: zero,
    }
}

fn linear(d0: f64, d1: f64, r0: f64, r1: f64) -> Scale {
    Scale::Linear { domain_min: n(d0), domain_max: n(d1), range_start: n(r0), range_end: n(r1) }
}

fn domain(scale: Option<&Scale>) -> (f64, f64) {
    let s = scale.expect("a scale");
    (f(s.domain_min().expect("a domain")), f(s.domain_max().expect("a domain")))
}

/// The colour of every filled or stroked shape, in order.
fn colours(scene: &Scene) -> Vec<[u32; 4]> {
    let mut out = Vec::new();
    for op in &scene.ops {
        match op {
            DrawOp::Fill(c, _) => out.push(bits(*c)),
            DrawOp::Stroke(_, c, _) => out.push(bits(*c)),
            _ => {}
        }
    }
    out
}

fn colour_set(scene: &Scene) -> HashSet<[u32; 4]> {
    colours(scene).into_iter().collect()
}

fn bits(c: Rgba) -> [u32; 4] {
    [c.r.bits, c.g.bits, c.b.bits, c.a.bits]
}

fn layout(width: f64, height: f64) -> ChartLayout {
    ChartLayout::with_margins(
        n(width),
        n(height),
        Margins { top: n(20.0), right: n(20.0), bottom: n(30.0), left: n(40.0) },
    )
}

fn stroke(v: f64) -> DrawOp {
    let at = Point { x: n(v), y: n(v) };
    DrawOp::Stroke(n(1.0), grey(0.9), Shape::Line(at, at))
}

fn title() -> DrawOp {
    let at = Point { x: n(10.0), y: n(10.0) };
    DrawOp::Text(
        "Weather".to_string(),
        at,
        Single::from_bits(TITLE_SIZE),
        grey(0.2),
        TextAnchor::Middle,
    )
}

fn furniture(titled: bool) -> Furniture {
    Furniture {
        x_grid: vec![stroke(1.0)],
        y_grid: vec![stroke(2.0)],
        x_axis: vec![stroke(3.0)],
        y_axis: vec![stroke(4.0)],
        title: if titled { vec![title()] } else { Vec::new() },
        legend: vec![stroke(5.0), stroke(6.0)],
    }
}

fn data<'a, M: MarkRenderer>(
    batch: &'a Batch,
    channel_map: &'a ChannelMap,
    renderer: &'a M,
    layout: ChartLayout,
    given: &'a Given,
) -> ChartData<'a, M> {
    ChartData {
        batch,
        channel_map,
        renderer,
        layout,
        view_extent: None,
        highlight: None,
        given,
    }
}

fn xy() -> ChannelMap {
    channels(&[(Channel::X, "x"), (Channel::Y, "y")])
}

fn three() -> Batch {
    table(vec![
        ("x", floats(vec![1.0, 2.0, 3.0])),
        ("y", floats(vec![10.0, 20.0, 30.0])),
    ])
}

fn bars() -> (Batch, ChannelMap) {
    (
        table(vec![
            ("category", words(vec!["a", "b", "c"])),
            ("value", floats(vec![10.0, 20.0, 30.0])),
        ]),
        channels(&[(Channel::X, "category"), (Channel::Y, "value")]),
    )
}

#[test]
fn render_slider_draws_track_and_thumb() {
    let mut scene = Scene::new();
    render_slider(&mut scene, n(0.0), n(400.0), n(200.0), n(32.0), n(0.5), ink());
    assert_eq!(count_scene_paths(&scene), 2, "slider draws a track + a thumb");
    match &scene.ops[1] {
        DrawOp::Fill(c, Shape::Circle(p, r)) => {
            assert_eq!((f(p.x), f(p.y), f(*r)), (100.0, 416.0, 7.0));
            assert_eq!(bits(*c), bits(ink().widget_active));
        }
        other => panic!("expected the thumb, got {other:?}"),
    }
}

#[test]
fn render_menu_draws_box_chevron_and_label() {
    let mut scene = Scene::new();
    render_menu(&mut scene, n(0.0), n(400.0), n(200.0), n(32.0), "east", ink());
    assert_eq!(count_scene_paths(&scene), 3, "box fill + box border + chevron");
    assert_eq!(count_scene_glyphs(&scene), 4, "the current-value label renders");
}

#[test]
fn render_radio_draws_rows_and_selected_dot() {
    let labels: Vec<String> =
        ["circle", "square", "triangle"].iter().map(|s| s.to_string()).collect();
    let mut scene = Scene::new();
    render_radio(
        &mut scene,
        n(0.0),
        n(400.0),
        n(200.0),
        &labels,
        Some(1),
        n(8.0),
        ink(),
    );
    assert_eq!(count_scene_paths(&scene), 3 * 2 + 1, "three rings + one selected dot");
    assert_eq!(
        count_scene_glyphs(&scene) as usize,
        "circlesquaretriangle".chars().count()
    );
    match &scene.ops[0] {
        DrawOp::Fill(_, Shape::Circle(p, _)) => {
            assert_eq!((f(p.x), f(p.y)), (10.0, 415.0));
        }
        other => panic!("expected a ring, got {other:?}"),
    }
    let mut unselected = Scene::new();
    render_radio(
        &mut unselected,
        n(0.0),
        n(400.0),
        n(200.0),
        &labels,
        None,
        n(8.0),
        ink(),
    );
    assert_eq!(count_scene_paths(&unselected), 3 * 2);
}

#[test]
fn render_checkbox_check_glyph_tracks_checked_state() {
    let draw = |checked: bool| {
        let mut scene = Scene::new();
        render_checkbox(
            &mut scene,
            n(0.0),
            n(400.0),
            n(200.0),
            n(32.0),
            checked,
            "flag",
            ink(),
        );
        scene
    };
    let (checked, unchecked) = (draw(true), draw(false));
    assert_eq!(count_scene_paths(&checked), 3, "box fill + border + check stroke");
    assert_eq!(count_scene_paths(&unchecked), 2, "no check stroke when unchecked");
    assert_eq!(count_scene_glyphs(&checked), 4, "the label renders");
    assert_eq!(count_scene_glyphs(&unchecked), 4);
}

#[test]
fn build_multi_mark_scene_suppresses_inline_legend_when_asked() {
    let batch = table(vec![
        ("x", floats(vec![1.0, 2.0, 3.0])),
        ("y", floats(vec![10.0, 20.0, 30.0])),
        ("grp", words(vec!["a", "b", "c"])),
    ]);
    let cm = channels(&[(Channel::X, "x"), (Channel::Y, "y"), (Channel::Fill, "grp")]);
    let dot = AnyMark::Dot(DotRenderer);
    let given = Given::nothing();
    let entries = vec![data(&batch, &cm, &dot, layout(400.0, 300.0), &given)];
    let (with, _) = build_multi_mark_scene(&entries, true, &theme(), &furniture(false));
    let (without, _) = build_multi_mark_scene(&entries, false, &theme(), &furniture(false));
    assert!(count_scene_paths(&with) > count_scene_paths(&without));
}

#[test]
fn frame_suppressed_for_geo_plot() {
    let square = r#"{"type":"Polygon","coordinates":[[[0,0],[10,0],[10,10],[0,10],[0,0]]]}"#;
    let geo_batch = table(vec![("geom", words(vec![square]))]);
    let geo_cm = ChannelMap::new();
    let geo = AnyMark::Geo(GeoRenderer::default());
    let mut given = Given::nothing();
    given.vertex_angles = GeoRenderer::default()
        .rings(&geo_batch)
        .iter()
        .map(|rings| {
            rings.iter().map(|ring| ring.iter().map(|_| nothing_at()).collect()).collect()
        })
        .collect();
    let entries = vec![data(&geo_batch, &geo_cm, &geo, layout(400.0, 300.0), &given)];
    let (geo_scene, _) = build_multi_mark_scene(&entries, true, &theme(), &furniture(false));
    assert_eq!(count_scene_paths(&geo_scene), 2, "the background and the outline");

    let xy_batch = table(vec![("x", floats(vec![1.0])), ("y", floats(vec![10.0]))]);
    let cm = xy();
    let dot = AnyMark::Dot(DotRenderer);
    let none = Given::nothing();
    let entries = vec![data(&xy_batch, &cm, &dot, layout(400.0, 300.0), &none)];
    let (dot_scene, _) = build_multi_mark_scene(&entries, true, &theme(), &furniture(false));
    assert!(count_scene_paths(&dot_scene) > count_scene_paths(&geo_scene));
}

#[test]
fn mvdash_dashboard_scene_composes_independent_plots() {
    let batch = three();
    let cm = xy();
    let dot = AnyMark::Dot(DotRenderer);
    let given = Given::nothing();
    let entries = vec![data(&batch, &cm, &dot, layout(300.0, 200.0), &given)];
    let (s0, _) = build_multi_mark_scene(&entries, true, &theme(), &furniture(false));
    let (s1, _) = build_multi_mark_scene(&entries, true, &theme(), &furniture(false));
    let placed = |x: f64, scene| Placed { x: n(x), y: n(0.0), scene };
    let two = compose_dashboard(
        n(600.0),
        n(200.0),
        ink(),
        &vec![placed(0.0, &s0), placed(300.0, &s1)],
    );
    let one = compose_dashboard(n(600.0), n(200.0), ink(), &vec![placed(0.0, &s0)]);
    assert!(count_scene_paths(&two) > count_scene_paths(&one));
    let empty = compose_dashboard(n(600.0), n(200.0), ink(), &Vec::new());
    assert_eq!(colours(&empty), vec![bits(ink().background)]);
    let offsets: Vec<f64> = two
        .ops
        .iter()
        .filter_map(|op| match op {
            DrawOp::PushOffset(x, _) => Some(f(*x)),
            _ => None,
        })
        .collect();
    assert_eq!(offsets, vec![0.0, 300.0]);
}

#[test]
fn build_dot_chart_scene() {
    let batch = table(vec![
        ("x", floats(vec![1.0, 2.0, 3.0, 4.0, 5.0])),
        ("y", floats(vec![10.0, 20.0, 15.0, 25.0, 30.0])),
        ("colour", words(vec!["a", "b", "a", "b", "a"])),
    ]);
    let cm = channels(&[(Channel::X, "x"), (Channel::Y, "y"), (Channel::Fill, "colour")]);
    let dot = AnyMark::Dot(DotRenderer);
    let given = Given::nothing();
    let d = data(&batch, &cm, &dot, layout(640.0, 480.0), &given);
    let (scene, scales) = build_chart_scene(&d, &theme(), &furniture(false));
    assert!(count_scene_paths(&scene) > 5, "dot chart scene should have content");
    assert!(scales.get(Channel::X).is_some(), "x scale should exist");
    assert!(scales.get(Channel::Y).is_some(), "y scale should exist");
    assert!(scales.get(Channel::Fill).is_some(), "fill scale should exist");
    // Background, two grids, the clip, five dots, the end of the clip, two
    // axes and the two shapes of the legend.
    assert_eq!(scene.ops.len(), 14);
    assert!(matches!(scene.ops[3], DrawOp::PushClip(_)));
    assert!(matches!(scene.ops[9], DrawOp::Pop));
}

#[test]
fn build_bar_chart_scene() {
    let (batch, cm) = bars();
    let bar = AnyMark::Bar(BarRenderer { axis: BarAxis::Y });
    let given = Given::nothing();
    let d = data(&batch, &cm, &bar, layout(640.0, 480.0), &given);
    let (scene, _) = build_chart_scene(&d, &theme(), &furniture(false));
    assert!(count_scene_paths(&scene) > 3, "bar chart scene should have content");
}

#[test]
fn gpu_bars_zero_baseline_anchors_value_axis() {
    let (batch, cm) = bars();
    let bar = AnyMark::Bar(BarRenderer { axis: BarAxis::Y });
    let given = Given::nothing();
    let d = data(&batch, &cm, &bar, layout(640.0, 480.0), &given);
    let (_, scales) = build_chart_scene(&d, &theme(), &furniture(false));
    assert_eq!(domain(scales.get(Channel::Y)), (0.0, 30.0));
}

#[test]
fn gpu_dots_do_not_zero_anchor() {
    let batch = three();
    let cm = xy();
    let dot = AnyMark::Dot(DotRenderer);
    let given = Given::nothing();
    let d = data(&batch, &cm, &dot, layout(640.0, 480.0), &given);
    let (_, scales) = build_chart_scene(&d, &theme(), &furniture(false));
    assert_eq!(domain(scales.get(Channel::Y)).0, 10.0);
}

#[test]
fn build_line_chart_scene() {
    let ts: ArrayRef = Arc::new(TimestampMicrosecondArray::from(vec![
        1_000_000, 2_000_000, 3_000_000, 4_000_000,
    ]));
    let batch = table(vec![("ts", ts), ("value", floats(vec![10.0, 20.0, 15.0, 25.0]))]);
    let cm = channels(&[(Channel::X, "ts"), (Channel::Y, "value")]);
    let line = AnyMark::Line(LineRenderer);
    let given = Given::nothing();
    let d = data(&batch, &cm, &line, layout(640.0, 480.0), &given);
    let (scene, _) = build_chart_scene(&d, &theme(), &furniture(false));
    assert!(count_scene_paths(&scene) > 3, "line chart scene should have content");
}

#[test]
fn view_extent_overrides_scale_domain() {
    let batch = table(vec![
        ("x", floats(vec![1.0, 2.0, 3.0, 4.0, 5.0])),
        ("y", floats(vec![10.0, 20.0, 30.0, 40.0, 50.0])),
    ]);
    let cm = xy();
    let dot = AnyMark::Dot(DotRenderer);
    let given = Given::nothing();
    let full = data(&batch, &cm, &dot, layout(640.0, 480.0), &given);
    let (_, scales) = build_chart_scene(&full, &theme(), &furniture(false));
    assert_eq!(domain(scales.get(Channel::X)), (1.0, 5.0));
    let extent = ViewExtent { x: Some((n(2.0), n(4.0))), y: None };
    let mut zoomed = full;
    zoomed.view_extent = Some(&extent);
    let (_, scales) = build_chart_scene(&zoomed, &theme(), &furniture(false));
    assert_eq!(domain(scales.get(Channel::X)), (2.0, 4.0));
    assert_eq!(domain(scales.get(Channel::Y)), (10.0, 50.0));
}

#[test]
fn multi_mark_scene_dot_and_line() {
    let one = table(vec![
        ("x", floats(vec![1.0, 3.0, 5.0])),
        ("y", floats(vec![10.0, 30.0, 50.0])),
    ]);
    let two = table(vec![
        ("x", floats(vec![2.0, 4.0, 8.0])),
        ("y", floats(vec![20.0, 40.0, 80.0])),
    ]);
    let cm = xy();
    let dot = AnyMark::Dot(DotRenderer);
    let line = AnyMark::Line(LineRenderer);
    let given = Given::nothing();
    let entries = vec![
        data(&one, &cm, &dot, layout(640.0, 480.0), &given),
        data(&two, &cm, &line, layout(640.0, 480.0), &given),
    ];
    let (scene, scales) = build_multi_mark_scene(&entries, true, &theme(), &furniture(false));
    assert!(count_scene_paths(&scene) > 5, "multi-mark scene should have content");
    assert_eq!(domain(scales.get(Channel::X)), (1.0, 8.0));
    assert_eq!(domain(scales.get(Channel::Y)), (10.0, 80.0));
}

#[test]
fn multi_mark_scene_empty_entries() {
    let (scene, scales) =
        build_multi_mark_scene::<AnyMark>(&Vec::new(), true, &theme(), &furniture(false));
    assert_eq!(scene.ops.len(), 0, "empty entries => empty scene");
    assert!(scales.get(Channel::X).is_none());
    let mut launch = ScaleSet::new(ink());
    launch.insert(Channel::X, linear(0.0, 1.0, 0.0, 10.0));
    let (scene, kept) = build_multi_mark_scene_anchored::<AnyMark>(
        &Vec::new(),
        true,
        &theme(),
        &furniture(false),
        &launch,
    );
    assert!(scene.ops.is_empty());
    assert_eq!(domain(kept.get(Channel::X)), (0.0, 1.0));
}

#[test]
fn titled_scene_carries_more_ink_and_anchored_reemits() {
    let batch = three();
    let cm = xy();
    let dot = AnyMark::Dot(DotRenderer);
    let given = Given::nothing();
    let entries = vec![data(&batch, &cm, &dot, layout(400.0, 300.0), &given)];
    let (untitled, launch) =
        build_multi_mark_scene(&entries, true, &theme(), &furniture(false));
    let (titled, _) = build_multi_mark_scene(&entries, true, &theme(), &furniture(true));
    assert!(count_scene_glyphs(&titled) > count_scene_glyphs(&untitled));
    let anchored = |t: bool| {
        build_multi_mark_scene_anchored(&entries, true, &theme(), &furniture(t), &launch).0
    };
    assert!(count_scene_glyphs(&anchored(true)) > count_scene_glyphs(&anchored(false)));
}

#[test]
fn an_anchored_rebuild_holds_the_launch_frame() {
    let all = three();
    let some = table(vec![("x", floats(vec![2.0])), ("y", floats(vec![20.0]))]);
    let cm = xy();
    let dot = AnyMark::Dot(DotRenderer);
    let given = Given::nothing();
    let before = vec![data(&all, &cm, &dot, layout(400.0, 300.0), &given)];
    let (_, launch) = build_multi_mark_scene(&before, true, &theme(), &furniture(false));
    let after = vec![data(&some, &cm, &dot, layout(400.0, 300.0), &given)];
    let (_, held) = build_multi_mark_scene_anchored(
        &after,
        true,
        &theme(),
        &furniture(false),
        &launch,
    );
    assert_eq!(domain(held.get(Channel::X)), (1.0, 3.0));
    assert_eq!(domain(held.get(Channel::Y)), (10.0, 30.0));
}

#[test]
fn build_chart_scene_with_highlight() {
    let batch = three();
    let cm = xy();
    let dot = AnyMark::Dot(DotRenderer);
    let given = Given::nothing();
    let hs = HighlightState {
        selected: Some(vec![false, true, false]),
        otherwise: HighlightStyle { opacity: Some(n(0.15)), ..Default::default() },
    };
    let plain = data(&batch, &cm, &dot, layout(640.0, 480.0), &given);
    let mut lit = data(&batch, &cm, &dot, layout(640.0, 480.0), &given);
    lit.highlight = Some(&hs);
    let (scene, _) = build_chart_scene(&lit, &theme(), &furniture(false));
    let (scene2, _) = build_chart_scene(&plain, &theme(), &furniture(false));
    assert_eq!(scene.ops.len(), scene2.ops.len());
    assert_ne!(colours(&scene), colours(&scene2));
}

#[test]
fn draw_text_emits_glyph_geometry() {
    let mut scene = Scene::new();
    let size = Single::from_bits(LABEL_SIZE);
    draw_text(&mut scene, "42", n(100.0), n(100.0), size, grey(0.1), TextAnchor::Middle);
    assert!(!scene.ops.is_empty(), "drawing text adds to the scene");
    assert_eq!(count_scene_glyphs(&scene), 2);
    let mut empty = Scene::new();
    draw_text(&mut empty, "", n(0.0), n(0.0), size, grey(0.1), TextAnchor::Start);
    draw_text_rotated(&mut empty, "", n(0.0), n(0.0), size, grey(0.1), TextAnchor::Start);
    assert_eq!(empty.ops.len(), 0, "empty text draws nothing");
    draw_text_rotated(&mut scene, "kWh", n(10.0), n(100.0), size, grey(0.1), TextAnchor::End);
    assert_eq!(count_scene_glyphs(&scene), 5);
}

#[test]
fn glyphs_stand_one_after_another_from_their_anchor() {
    let advances = vec![single(6.5), single(7.0), single(3.25)];
    assert_eq!(f(measure(&advances)), 16.75);
    assert_eq!(f(measure(&Vec::new())), 0.0);
    assert_eq!(f(run_start(&advances, n(100.0), TextAnchor::Start)), 100.0);
    assert_eq!(f(run_start(&advances, n(100.0), TextAnchor::Middle)), 91.625);
    assert_eq!(f(run_start(&advances, n(100.0), TextAnchor::End)), 83.25);
    let start = turned_start(&advances, TextAnchor::Middle);
    assert_eq!(f32::from_bits(start.bits), -8.375);
    let pens: Vec<f32> =
        pen_positions(start, &advances).iter().map(|p| f32::from_bits(p.bits)).collect();
    assert_eq!(pens, vec![-8.375, -1.875, 5.125]);
}
