#![allow(dead_code, unused_imports)]
use std::collections::{BTreeMap, HashSet};
use std::sync::Arc;

use arrow::array::{
    Array, ArrayRef, BooleanArray, Date32Array, Float32Array, Float64Array, Int16Array,
    Int32Array, Int64Array, Int8Array, LargeStringArray, StringArray, TimestampMicrosecondArray,
    UInt16Array, UInt32Array, UInt64Array, UInt8Array,
};
use arrow::record_batch::RecordBatch;
use brightfield_render::batch::{Batch, Records};
use brightfield_render::cartography::Trig;
use brightfield_render::channel::{Channel, ChannelMap, LabelForm};
use brightfield_render::colour::Rgba;
use brightfield_render::drawing::{
    count_scene_glyphs, count_scene_paths, DrawOp, Point, Rect, Scene, Shape, Step, TextAnchor,
};
use brightfield_render::infer::{infer_scales, Range};
use brightfield_render::ink::{ChartInk, Theme};
use brightfield_render::number::Number;
use brightfield_render::scale::Scale;
use brightfield_render::scale_set::ScaleSet;
use brightfield_render::single::Single;
use brightfield_render::bar::{bar_label, place_bar_label, BarAxis, BarRenderer};
use brightfield_render::colour::parse_css_hex;
use brightfield_render::dot::{Angles, DotRenderer, DOT_RADIUS};
use brightfield_render::highlight::{
    apply_highlight, build_highlight_state, deemphasise, selected_fraction_of, selected_tip,
    HighlightState, HighlightStyle, SELECTED_COLUMN, SELECTED_COUNT_COLUMN,
};
use brightfield_render::line::{AreaAxis, AreaRenderer, LineRenderer};
use brightfield_render::mark::{AnyMark, Given, MarkRenderer};
use brightfield_render::projection::Projection;
use brightfield_render::rect::{RectKind, RectRenderer};
use brightfield_render::rule::{RuleAxis, RuleRenderer};
use brightfield_render::text_mark::TextRenderer;

fn n(x: f64) -> Number {
    Number::from_bits(x.to_bits())
}

fn f(x: Number) -> f64 {
    f64::from_bits(x.to_bits())
}

fn single(x: f32) -> Single {
    Single::from_bits(x.to_bits())
}

fn rgba(c: [f32; 4]) -> Rgba {
    Rgba { r: single(c[0]), g: single(c[1]), b: single(c[2]), a: single(c[3]) }
}

fn parts(c: Rgba) -> [f32; 4] {
    [
        f32::from_bits(c.r.bits),
        f32::from_bits(c.g.bits),
        f32::from_bits(c.b.bits),
        f32::from_bits(c.a.bits),
    ]
}

fn span(a: f64, b: f64) -> Range {
    Range { start: n(a), end: n(b) }
}

fn across() -> Range {
    span(40.0, 600.0)
}

fn upright() -> Range {
    span(450.0, 20.0)
}

fn grey(v: f32) -> Rgba {
    rgba([v, v, v, 1.0])
}

fn ink() -> ChartInk {
    ChartInk {
        background: grey(0.99),
        mark_default: rgba([0.1, 0.35, 0.7, 1.0]),
        null: rgba([0.55, 0.54, 0.5, 1.0]),
        grid: grey(0.9),
        hexgrid_stroke: grey(0.85),
        geo_stroke: grey(0.4),
        selection_wash: rgba([0.2, 0.4, 0.9, 0.14]),
        selection_bound: rgba([0.2, 0.4, 0.9, 1.0]),
        knockout: rgba([1.0, 0.98, 0.97, 1.0]),
        notice_fill: rgba([0.95, 0.7, 0.1, 1.0]),
        notice_text: rgba([0.2, 0.1, 0.0, 1.0]),
        widget_border: grey(0.8),
        widget_fill: grey(0.97),
        widget_label: grey(0.15),
        widget_affordance: grey(0.5),
        widget_active: rgba([0.0, 0.3, 0.6, 1.0]),
    }
}

fn theme() -> Theme {
    Theme {
        ink: ink(),
        categorical: vec![
            rgba([0.1, 0.35, 0.7, 1.0]),
            rgba([0.9, 0.45, 0.1, 1.0]),
            rgba([0.2, 0.6, 0.3, 1.0]),
        ],
        meridian: meridian(),
    }
}

fn meridian() -> Vec<Rgba> {
    vec![rgba([0.95, 0.93, 0.9, 1.0]), rgba([0.4, 0.5, 0.6, 1.0]), rgba([0.05, 0.1, 0.3, 1.0])]
}

fn floats(v: Vec<f64>) -> ArrayRef {
    Arc::new(Float64Array::from(v))
}

fn maybe(v: Vec<Option<f64>>) -> ArrayRef {
    Arc::new(Float64Array::from(v))
}

fn words(v: Vec<&str>) -> ArrayRef {
    Arc::new(StringArray::from(v))
}

fn maybe_words(v: Vec<Option<&str>>) -> ArrayRef {
    Arc::new(StringArray::from(v))
}

fn table(columns: Vec<(&str, ArrayRef)>) -> Batch {
    Batch::read(&Records { arrow: RecordBatch::try_from_iter(columns).unwrap() })
}

fn channels(pairs: &[(Channel, &str)]) -> ChannelMap {
    let mut cm = ChannelMap::new();
    for (c, name) in pairs {
        cm.insert(*c, name.to_string());
    }
    cm
}

fn inferred(batch: &Batch, cm: &ChannelMap) -> ScaleSet {
    infer_scales(batch, cm, across(), upright(), &theme())
}

/// Elementary functions that are all zero, for what does not read them.
fn nothing_at() -> Trig {
    let zero = n(0.0);
    Trig {
        sin_lon: zero,
        cos_lon: zero,
        sin_lat: zero,
        cos_lat: zero,
        log: zero,
        angle: zero,
        arc: zero,
        sin_arc: zero,
        cos_arc: zero,
        sin_turn: zero,
        cos_turn: zero,
        power: zero,
    }
}

fn linear(d0: f64, d1: f64, r0: f64, r1: f64) -> Scale {
    Scale::Linear { domain_min: n(d0), domain_max: n(d1), range_start: n(r0), range_end: n(r1) }
}

fn domain(scale: Option<&Scale>) -> (f64, f64) {
    let s = scale.expect("a scale");
    (f(s.domain_min().expect("a domain")), f(s.domain_max().expect("a domain")))
}

/// The colour of every filled or stroked shape, in order.
fn colours(scene: &Scene) -> Vec<[u32; 4]> {
    let mut out = Vec::new();
    for op in &scene.ops {
        match op {
            DrawOp::Fill(c, _) => out.push(bits(*c)),
            DrawOp::Stroke(_, c, _) => out.push(bits(*c)),
            _ => {}
        }
    }
    out
}

fn colour_set(scene: &Scene) -> HashSet<[u32; 4]> {
    colours(scene).into_iter().collect()
}

fn bits(c: Rgba) -> [u32; 4] {
    [c.r.bits, c.g.bits, c.b.bits, c.a.bits]
}

fn dots_batch() -> Batch {
    table(vec![
        ("x", floats(vec![1.0, 2.0, 3.0])),
        ("y", floats(vec![10.0, 20.0, 30.0])),
    ])
}

fn xy() -> ChannelMap {
    channels(&[(Channel::X, "x"), (Channel::Y, "y")])
}

fn lit(rows: Vec<bool>, opacity: Option<f64>) -> HighlightState {
    HighlightState {
        selected: Some(rows),
        otherwise: HighlightStyle {
            opacity: opacity.map(n),
            fill: None,
            fill_opacity: None,
            stroke: None,
            stroke_opacity: None,
        },
    }
}

fn circles(scene: &Scene) -> Vec<(f64, f64, f64)> {
    scene
        .ops
        .iter()
        .filter_map(|op| match op {
            DrawOp::Fill(_, Shape::Circle(p, r)) => Some((f(p.x), f(p.y), f(*r))),
            _ => None,
        })
        .collect()
}

fn rects(scene: &Scene) -> Vec<(f64, f64, f64, f64)> {
    scene
        .ops
        .iter()
        .filter_map(|op| match op {
            DrawOp::Fill(_, Shape::Rect(r)) => Some((f(r.x0), f(r.y0), f(r.x1), f(r.y1))),
            _ => None,
        })
        .collect()
}

#[test]
fn dot_renderer_positions_circles() {
    let batch = dots_batch();
    let cm = xy();
    let scales = inferred(&batch, &cm);
    let mut scene = Scene::new();
    DotRenderer.render(&mut scene, &batch, &cm, &scales, None, &Angles::nothing());
    assert_eq!(
        circles(&scene),
        vec![(40.0, 450.0, 4.0), (320.0, 235.0, 4.0), (600.0, 20.0, 4.0)]
    );
}

#[test]
fn dot_renderer_with_colour() {
    let batch = table(vec![
        ("x", floats(vec![1.0, 2.0, 3.0])),
        ("y", floats(vec![10.0, 20.0, 30.0])),
        ("species", words(vec!["a", "b", "a"])),
    ]);
    let cm = channels(&[(Channel::X, "x"), (Channel::Y, "y"), (Channel::Fill, "species")]);
    let scales = inferred(&batch, &cm);
    let mut scene = Scene::new();
    DotRenderer.render(&mut scene, &batch, &cm, &scales, None, &Angles::nothing());
    let palette = theme().categorical;
    assert_eq!(colours(&scene), vec![bits(palette[0]), bits(palette[1]), bits(palette[0])]);
}

#[test]
fn augment_scales_equal_aspect_widens_the_narrower_axis() {
    let batch =
        table(vec![("x", floats(vec![0.0, 10.0])), ("y", floats(vec![0.0, 1.0]))]);
    let mut cm = xy();
    cm.square = true;
    assert!(cm.equal_aspect());
    let (x_range, y_range) = (span(0.0, 500.0), span(500.0, 0.0));
    let mut scales = infer_scales(&batch, &cm, x_range, y_range, &theme());
    DotRenderer.augment_scales(&mut scales, &batch, &cm, x_range, y_range);
    let (x0, x1) = domain(scales.get(Channel::X));
    let (y0, y1) = domain(scales.get(Channel::Y));
    assert_eq!((x0, x1), (0.0, 10.0), "x was already the wider fit");
    let slope_x = (500.0 - 0.0) / (x1 - x0);
    let slope_y = (0.0 - 500.0) / (y1 - y0);
    assert!((slope_x.abs() - slope_y.abs()).abs() < 1e-9);
    assert!(y1 - y0 > 1.0 + 1e-9);
    assert!((y0 + y1 - 1.0).abs() < 1e-9, "y0={y0} y1={y1}");
}

#[test]
fn augment_scales_without_the_flag_leaves_scales_untouched() {
    let batch =
        table(vec![("x", floats(vec![0.0, 10.0])), ("y", floats(vec![0.0, 1.0]))]);
    let cm = xy();
    assert!(!cm.equal_aspect(), "a plain dot mark asked for nothing");
    let (x_range, y_range) = (span(0.0, 500.0), span(500.0, 0.0));
    let before = infer_scales(&batch, &cm, x_range, y_range, &theme());
    let mut after = infer_scales(&batch, &cm, x_range, y_range, &theme());
    DotRenderer.augment_scales(&mut after, &batch, &cm, x_range, y_range);
    assert_eq!(domain(before.get(Channel::X)), domain(after.get(Channel::X)));
    assert_eq!(domain(before.get(Channel::Y)), domain(after.get(Channel::Y)));
}

#[test]
fn a_projected_dot_draws_where_its_projection_puts_it() {
    let batch = table(vec![
        ("x", maybe(vec![Some(90.0), Some(2.0), None, Some(1.0)])),
        ("y", maybe(vec![Some(10.0), Some(89.0), Some(30.0), Some(1.0)])),
    ]);
    let mut cm = xy();
    cm.projection = Some(Projection::Mercator);
    let mut scales = ScaleSet::new(ink());
    scales.insert(Channel::X, linear(0.0, 10.0, 0.0, 100.0));
    scales.insert(Channel::Y, linear(0.0, 10.0, 100.0, 0.0));
    let mut t = nothing_at();
    t.log = n(2.0);
    let angles = Angles { rows: vec![t, t, t], lines: Vec::new() };
    let mut scene = Scene::new();
    DotRenderer.render(&mut scene, &batch, &cm, &scales, None, &angles);
    // A latitude past the clip, a missing longitude and a row nothing is given
    // for draw nothing; a quarter turn east lies at half the circle constant.
    let east = std::f64::consts::FRAC_PI_2 * 10.0;
    let drawn = circles(&scene);
    assert_eq!(drawn.len(), 1);
    assert!((drawn[0].0 - east).abs() < 1e-12);
    assert_eq!((drawn[0].1, drawn[0].2), (80.0, 4.0));
    let read = DotRenderer.coordinates(&batch, &cm);
    assert_eq!(read.len(), 4);
    assert_eq!(read[1].map(|p| (f(p.x), f(p.y))), Some((2.0, 89.0)));
    assert!(read[2].is_none());
}

#[test]
fn bar_renderer_rects() {
    let batch =
        table(vec![("category", words(vec!["a", "b"])), ("value", floats(vec![10.0, 20.0]))]);
    let cm = channels(&[(Channel::X, "category"), (Channel::Y, "value")]);
    let scales = inferred(&batch, &cm);
    let mut scene = Scene::new();
    BarRenderer { axis: BarAxis::Y }.render(&mut scene, &batch, &cm, &scales, None, &Vec::new());
    let drawn = rects(&scene);
    assert_eq!(drawn.len(), 2);
    // Two bands of 280 pixels with a tenth of padding.
    assert!((drawn[0].2 - drawn[0].0 - 252.0).abs() < 1e-9);
    assert!((drawn[0].0 - 54.0).abs() < 1e-9);
    // The baseline of the domain 10 to 20 lies at 880.
    assert_eq!((drawn[0].1, drawn[0].3), (450.0, 880.0));
    assert_eq!((drawn[1].1, drawn[1].3), (20.0, 880.0));
}

#[test]
fn bar_renderer_band_width_proportional() {
    let scale = Scale::Band {
        categories: vec!["a".to_string(), "b".to_string()],
        range_start: n(0.0),
        range_end: n(200.0),
        padding: n(0.1),
    };
    let bw = f(scale.band_width().expect("should compute band width"));
    assert!((bw - 90.0).abs() < f64::EPSILON, "band width should be 90.0, got {bw}");
}

#[test]
fn line_renderer_connected_path() {
    let ts: ArrayRef = Arc::new(TimestampMicrosecondArray::from(vec![
        1_000_000, 2_000_000, 3_000_000, 4_000_000,
    ]));
    let batch = table(vec![("ts", ts), ("value", floats(vec![10.0, 20.0, 15.0, 25.0]))]);
    let cm = channels(&[(Channel::X, "ts"), (Channel::Y, "value")]);
    let scales = inferred(&batch, &cm);
    let mut scene = Scene::new();
    LineRenderer.render(&mut scene, &batch, &cm, &scales, None);
    assert_eq!(count_scene_paths(&scene), 3, "three segments between four points");
}

#[test]
fn a_line_is_drawn_in_x_order() {
    let batch = table(vec![
        ("x", floats(vec![3.0, 1.0, 2.0, 1.0])),
        ("y", floats(vec![0.0, 1.0, 2.0, 3.0])),
    ]);
    let cm = xy();
    let mut scales = ScaleSet::new(ink());
    scales.insert(Channel::X, linear(0.0, 10.0, 0.0, 10.0));
    scales.insert(Channel::Y, linear(0.0, 10.0, 0.0, 10.0));
    let mut scene = Scene::new();
    LineRenderer.render(&mut scene, &batch, &cm, &scales, None);
    let drawn: Vec<(f64, f64)> = scene
        .ops
        .iter()
        .map(|op| match op {
            DrawOp::Stroke(_, _, Shape::Line(a, _)) => (f(a.x), f(a.y)),
            _ => panic!("a line is stroked"),
        })
        .collect();
    assert_eq!(drawn, vec![(1.0, 1.0), (1.0, 3.0), (2.0, 2.0)]);
}

#[test]
fn area_renderer_fills_one_band_to_baseline() {
    let batch = table(vec![
        ("x", floats(vec![0.0, 1.0, 2.0, 3.0])),
        ("y", floats(vec![10.0, 25.0, 15.0, 30.0])),
    ]);
    let cm = xy();
    let scales = inferred(&batch, &cm);

    let mut scene = Scene::new();
    let area_y = AreaRenderer { axis: AreaAxis::Y };
    area_y.render(&mut scene, &batch, &cm, &scales, None);
    assert_eq!(count_scene_paths(&scene), 1, "areaY emits one filled path");
    assert_eq!(area_y.zero_baseline_channel(), Some(Channel::Y));
    match &scene.ops[0] {
        DrawOp::Fill(c, Shape::Path(steps)) => {
            assert_eq!(steps.len(), 7, "four points, two on the baseline, and the close");
            assert_eq!(parts(*c)[3], 0.75);
        }
        other => panic!("expected a filled path, got {other:?}"),
    }

    let mut scene_x = Scene::new();
    let area_x = AreaRenderer { axis: AreaAxis::X };
    area_x.render(&mut scene_x, &batch, &cm, &scales, None);
    assert_eq!(count_scene_paths(&scene_x), 1, "areaX emits one filled path");
    assert_eq!(area_x.zero_baseline_channel(), Some(Channel::X));
}

#[test]
fn area_renderer_needs_two_points() {
    let batch = table(vec![("x", floats(vec![1.0])), ("y", floats(vec![10.0]))]);
    let cm = xy();
    let scales = inferred(&batch, &cm);
    let mut scene = Scene::new();
    AreaRenderer { axis: AreaAxis::Y }.render(&mut scene, &batch, &cm, &scales, None);
    assert_eq!(count_scene_paths(&scene), 0, "a single point can't form an area");
}

#[test]
fn rule_renderer_literal_y_draws_one_line() {
    let batch = table(vec![("x", floats(vec![0.0, 1.0, 2.0, 3.0]))]);
    let mut cm = channels(&[(Channel::X, "x")]);
    cm.insert_literal(Channel::Y, n(5.0));
    let scales = inferred(&batch, &cm);
    assert!(scales.get(Channel::Y).is_some(), "a literal y synthesises a y-scale");
    let mut scene = Scene::new();
    RuleRenderer { axis: RuleAxis::Y }.render(&mut scene, &batch, &cm, &scales, None);
    assert_eq!(count_scene_paths(&scene), 1, "a literal ruleY draws one horizontal line");
}

#[test]
fn rule_renderer_column_x_draws_one_per_row() {
    let batch = table(vec![
        ("t", floats(vec![1.0, 2.0, 3.0])),
        ("v", floats(vec![10.0, 20.0, 30.0])),
    ]);
    let cm = channels(&[(Channel::X, "t"), (Channel::Y, "v")]);
    let scales = inferred(&batch, &cm);
    let mut scene = Scene::new();
    RuleRenderer { axis: RuleAxis::X }.render(&mut scene, &batch, &cm, &scales, None);
    assert_eq!(count_scene_paths(&scene), 3, "one vertical line per row");
    match &scene.ops[1] {
        DrawOp::Stroke(w, _, Shape::Line(a, b)) => {
            assert_eq!(f(*w), 2.0);
            assert_eq!((f(a.x), f(a.y), f(b.x), f(b.y)), (320.0, 450.0, 320.0, 20.0));
        }
        other => panic!("expected a line, got {other:?}"),
    }
}

#[test]
fn rule_renderer_needs_perpendicular_scale() {
    let batch = table(vec![("z", floats(vec![1.0]))]);
    let mut cm = ChannelMap::new();
    cm.insert_literal(Channel::Y, n(5.0));
    let scales = inferred(&batch, &cm);
    let mut scene = Scene::new();
    RuleRenderer { axis: RuleAxis::Y }.render(&mut scene, &batch, &cm, &scales, None);
    assert_eq!(count_scene_paths(&scene), 0, "the rule can't span, so nothing draws");
}

#[test]
fn text_renderer_draws_a_glyph_per_character() {
    let batch = table(vec![
        ("x", floats(vec![1.0, 2.0])),
        ("y", floats(vec![10.0, 20.0])),
        ("label", words(vec!["AB", "CDE"])),
    ]);
    let cm = channels(&[(Channel::X, "x"), (Channel::Y, "y"), (Channel::Text, "label")]);
    let scales = inferred(&batch, &cm);
    let mut scene = Scene::new();
    TextRenderer.render(&mut scene, &batch, &cm, &scales, None);
    assert_eq!(count_scene_glyphs(&scene), 5, "one glyph per label character");
    assert_eq!(count_scene_paths(&scene), 0);
}

#[test]
fn highlight_state_predicate() {
    let hs = lit(vec![false, true, false], Some(0.15));
    assert!(!hs.keeps(0), "row 0 should not match");
    assert!(hs.keeps(1), "row 1 should match");
    assert!(!hs.keeps(2), "row 2 should not match");
    assert!((f(hs.otherwise.opacity.unwrap()) - 0.15).abs() < f64::EPSILON);
}

#[test]
fn highlight_state_send_sync() {
    fn assert_send_sync<T: Send + Sync>() {}
    assert_send_sync::<HighlightState>();
}

#[test]
fn dot_renderer_with_highlight() {
    let batch = dots_batch();
    let cm = xy();
    let scales = inferred(&batch, &cm);
    let hs = lit(vec![false, true, false], Some(0.15));
    let mut scene = Scene::new();
    DotRenderer.render(&mut scene, &batch, &cm, &scales, Some(&hs), &Angles::nothing());
    let drawn = colours(&scene);
    assert_eq!(drawn.len(), 3);
    assert_eq!(drawn[1], bits(ink().mark_default));
    assert_eq!(f32::from_bits(drawn[0][3]), 0.15);
    assert_eq!(f32::from_bits(drawn[2][3]), 0.15);
}

#[test]
fn a_label_reads_the_whole_at_rest_and_part_of_whole_under_a_selection() {
    let count =
        |v: f64, s: Option<f64>| bar_label(LabelForm::Count, n(v), s.map(n), None);
    assert_eq!(count(1234.0, None).as_deref(), Some("1234"));
    assert_eq!(count(1234.0, Some(567.0)).as_deref(), Some("567 / 1234"));
    assert_eq!(count(12.0, Some(0.0)).as_deref(), Some("0 / 12"));
    assert_eq!(count(12.5, None).as_deref(), Some("12.5"));

    let pct = |v: f64, s: Option<f64>, share: Option<f64>| {
        bar_label(LabelForm::Percent, n(v), s.map(n), share.map(n))
    };
    assert_eq!(pct(25.0, None, Some(100.0)).as_deref(), Some("25%"));
    assert_eq!(pct(25.0, Some(5.0), Some(100.0)).as_deref(), Some("5% / 25%"));
    assert_eq!(pct(50.0, Some(25.0), Some(200.0)).as_deref(), Some("12% / 25%"));
}

#[test]
fn a_percentage_with_no_denominator_is_not_printed() {
    assert_eq!(bar_label(LabelForm::Percent, n(1.0), None, None), None);
    assert_eq!(bar_label(LabelForm::Percent, n(1.0), None, Some(n(0.0))), None);
    assert!(bar_label(LabelForm::Count, n(1.0), None, None).is_some());
}

#[test]
fn a_label_that_does_not_fit_is_drawn_past_the_tip_instead_of_inside_it() {
    let bar = rgba([0.0, 0.5, 0.8, 1.0]);
    let knockout = ink().knockout;
    let inside = place_bar_label(n(40.0), n(100.0), n(300.0), bar, knockout);
    assert!(f(inside.at) < 300.0 && f(inside.at) > 260.0);
    assert!(matches!(inside.anchor, TextAnchor::End));
    assert_ne!(parts(inside.colour), parts(bar));

    let outside = place_bar_label(n(40.0), n(100.0), n(120.0), bar, knockout);
    assert!(f(outside.at) > 120.0);
    assert!(matches!(outside.anchor, TextAnchor::Start));
    assert_eq!(parts(outside.colour), parts(bar));

    let down = place_bar_label(n(40.0), n(300.0), n(280.0), bar, knockout);
    assert!(f(down.at) < 280.0);
    assert!(matches!(down.anchor, TextAnchor::End));
}

#[test]
fn a_labelled_bar_prints_its_number_at_its_tip() {
    let batch =
        table(vec![("category", words(vec!["a", "b"])), ("value", floats(vec![10.0, 30.0]))]);
    let mut cm = channels(&[(Channel::Y, "category"), (Channel::X, "value")]);
    cm.label = Some(LabelForm::Percent);
    let mut scales = ScaleSet::new(ink());
    scales.insert(Channel::X, linear(0.0, 40.0, 0.0, 400.0));
    scales.insert(
        Channel::Y,
        Scale::Band {
            categories: vec!["a".to_string(), "b".to_string()],
            range_start: n(100.0),
            range_end: n(0.0),
            padding: n(0.0),
        },
    );
    let renderer = BarRenderer { axis: BarAxis::X };
    let labels = renderer.labels(&batch, &cm, &scales);
    assert_eq!(labels, vec![Some("25%".to_string()), Some("75%".to_string())]);
    let mut scene = Scene::new();
    // A label of 95 pixels fits the longer bar and not the shorter.
    let widths = vec![n(95.0), n(95.0)];
    renderer.render(&mut scene, &batch, &cm, &scales, None, &widths);
    let texts: Vec<(String, f64, TextAnchor, [u32; 4])> = scene
        .ops
        .iter()
        .filter_map(|op| match op {
            DrawOp::Text(t, p, _, c, a) => Some((t.clone(), f(p.x), *a, bits(*c))),
            _ => None,
        })
        .collect();
    assert_eq!(texts.len(), 2);
    assert_eq!(
        texts[0],
        ("25%".to_string(), 106.0, TextAnchor::Start, bits(ink().mark_default))
    );
    assert_eq!(texts[1], ("75%".to_string(), 294.0, TextAnchor::End, bits(ink().knockout)));
}

#[test]
fn a_bar_carrying_selected_counts_draws_the_part_over_the_whole() {
    let rows = |selected: Vec<Option<f64>>| {
        table(vec![
            ("category", words(vec!["a", "b"])),
            ("value", floats(vec![10.0, 20.0])),
            (SELECTED_COUNT_COLUMN, maybe(selected)),
        ])
    };
    let cm = channels(&[(Channel::Y, "category"), (Channel::X, "value")]);
    let renderer = BarRenderer { axis: BarAxis::X };
    let paths = |batch: &Batch| {
        let scales = inferred(batch, &cm);
        let mut scene = Scene::new();
        renderer.render(&mut scene, batch, &cm, &scales, None, &Vec::new());
        count_scene_paths(&scene)
    };
    let both = paths(&rows(vec![Some(4.0), Some(9.0)]));
    let neither = paths(&rows(vec![Some(0.0), Some(0.0)]));
    assert!(both > neither);
    assert_eq!((both, neither), (4, 2));
    let null = paths(&rows(vec![None, None]));
    assert_eq!(null, neither);
}

#[test]
fn bar_renderer_with_highlight() {
    let batch =
        table(vec![("category", words(vec!["a", "b"])), ("value", floats(vec![10.0, 20.0]))]);
    let cm = channels(&[(Channel::X, "category"), (Channel::Y, "value")]);
    let scales = inferred(&batch, &cm);
    let hs = HighlightState { selected: Some(vec![true]), otherwise: Default::default() };
    let mut scene = Scene::new();
    BarRenderer { axis: BarAxis::Y }.render(
        &mut scene,
        &batch,
        &cm,
        &scales,
        Some(&hs),
        &Vec::new(),
    );
    let drawn = colours(&scene);
    assert_eq!(drawn[0], bits(ink().mark_default));
    assert_eq!(f32::from_bits(drawn[1][3]), 0.2);
}

#[test]
fn deemphasise_default_alpha() {
    let base = rgba([0.3, 0.5, 0.7, 1.0]);
    let [r, g, b, a] = parts(deemphasise(base, &HighlightStyle::default()));
    assert!((r - 0.3).abs() < 1e-6 && (g - 0.5).abs() < 1e-6 && (b - 0.7).abs() < 1e-6);
    assert!((a - 0.2).abs() < 1e-6, "default deemphasis is alpha × 0.2");
}

#[test]
fn deemphasise_opacity_scales_alpha() {
    let base = rgba([0.3, 0.5, 0.7, 1.0]);
    let style = HighlightStyle { opacity: Some(n(0.1)), ..Default::default() };
    let a = parts(deemphasise(base, &style))[3];
    assert!((a - 0.1).abs() < 1e-6);
}

#[test]
fn deemphasise_fill_and_fill_opacity() {
    let base = rgba([0.3, 0.5, 0.7, 1.0]);
    let ccc = parse_css_hex("#ccc").unwrap();
    let style = HighlightStyle {
        fill: Some(ccc),
        fill_opacity: Some(n(0.2)),
        ..Default::default()
    };
    let [r, g, b, a] = parts(deemphasise(base, &style));
    assert!((r - 0.8).abs() < 1e-2 && (g - 0.8).abs() < 1e-2 && (b - 0.8).abs() < 1e-2);
    assert!((a - 0.2).abs() < 1e-6, "fillOpacity sets alpha");
}

#[test]
fn a_sub_pixel_selection_is_a_hairline_not_nothing() {
    let tip = |base: f64, tip: f64, t: f64| f(selected_tip(n(base), n(tip), n(t)));
    let (base, top) = (300.0, 100.0);
    let edge = tip(base, top, 0.001);
    assert!(edge < base);
    assert!((base - edge) >= 0.25);
    let short = tip(300.0, 299.9, 0.001);
    assert!((299.9..=300.0).contains(&short));
    let down = tip(100.0, 300.0, 0.001);
    assert!(down - 100.0 >= 0.25);
    let half = tip(300.0, 100.0, 0.5);
    assert!((half - 200.0).abs() < 1e-9);
}

#[test]
fn selected_fraction_is_a_proportion_of_the_group() {
    let counts = Some(vec![Some(n(3.0)), Some(n(0.0)), None, Some(n(9.0))]);
    let at = |row: usize, total: f64| selected_fraction_of(&counts, row, n(total)).map(f);
    assert_eq!(at(0, 12.0), Some(0.25));
    assert_eq!(at(1, 12.0), None);
    assert_eq!(at(2, 12.0), None);
    assert_eq!(at(3, 0.0), None);
    assert_eq!(at(3, 4.0), Some(1.0));
    assert_eq!(selected_fraction_of(&None, 0, n(12.0)), None);
    assert_eq!(at(9, 12.0), None);
}

#[test]
fn apply_highlight_matching_row_untouched() {
    let base = rgba([0.3, 0.5, 0.7, 1.0]);
    let hs = lit(vec![true], Some(0.1));
    assert_eq!(parts(apply_highlight(base, 0, Some(&hs)))[3], 1.0);
    assert!((parts(apply_highlight(base, 1, Some(&hs)))[3] - 0.1).abs() < 1e-6);
    assert_eq!(parts(apply_highlight(base, 1, None))[3], 1.0);
}

#[test]
fn ce_parse_css_hex_forms() {
    assert_eq!(parse_css_hex("#000000").map(parts), Some([0.0, 0.0, 0.0, 1.0]));
    assert_eq!(parse_css_hex("#ffffff").map(parts), Some([1.0, 1.0, 1.0, 1.0]));
    let g = 0xCC as f32 / 255.0;
    assert_eq!(parse_css_hex("#ccc").map(parts), Some([g, g, g, 1.0]));
    assert!(parse_css_hex("none").is_none());
    assert!(parse_css_hex("#gg").is_none());
    // The forms with an alpha of their own, in either case.
    assert_eq!(parse_css_hex(" #F00f ").map(parts), Some([1.0, 0.0, 0.0, 1.0]));
    let half = 0x80 as f32 / 255.0;
    assert_eq!(parse_css_hex("#00FF0080").map(parts), Some([0.0, 1.0, 0.0, half]));
    assert!(parse_css_hex("#+1+2+3").is_none());
}

#[test]
fn membership_column_drives_dim() {
    let selected: ArrayRef = Arc::new(BooleanArray::from(vec![true, false, false]));
    let batch = table(vec![
        ("x", floats(vec![1.0, 2.0, 3.0])),
        ("y", floats(vec![10.0, 20.0, 30.0])),
        (SELECTED_COLUMN, selected),
    ]);
    let cm = xy();
    let scales = inferred(&batch, &cm);
    let style = HighlightStyle { opacity: Some(n(0.1)), ..Default::default() };
    let hs = build_highlight_state(&batch, &style).expect("membership column present");
    assert!(hs.keeps(0), "row 0 selected");
    assert!(!hs.keeps(1), "row 1 not selected");
    let draw_of = |highlight: Option<&HighlightState>| {
        let mut scene = Scene::new();
        DotRenderer.render(&mut scene, &batch, &cm, &scales, highlight, &Angles::nothing());
        colours(&scene)
    };
    assert_ne!(draw_of(Some(&hs)), draw_of(None));
    let no_col = table(vec![("x", floats(vec![1.0])), ("y", floats(vec![10.0]))]);
    assert!(build_highlight_state(&no_col, &style).is_none());
}

#[test]
fn a_group_count_dims_every_group() {
    let batch = table(vec![
        ("x", floats(vec![1.0])),
        (SELECTED_COUNT_COLUMN, floats(vec![1.0])),
    ]);
    let hs = build_highlight_state(&batch, &HighlightStyle::default()).expect("counts present");
    assert!(!hs.keeps(0));
    // A membership column of another type gives no state at all.
    let odd = table(vec![(SELECTED_COLUMN, floats(vec![1.0]))]);
    assert!(build_highlight_state(&odd, &HighlightStyle::default()).is_none());
}

fn previous() -> Vec<Point> {
    vec![
        Point { x: n(100.0), y: n(100.0) },
        Point { x: n(200.0), y: n(200.0) },
        Point { x: n(300.0), y: n(300.0) },
    ]
}

#[test]
fn dot_render_interpolated_at_zero() {
    let batch = dots_batch();
    let cm = xy();
    let scales = inferred(&batch, &cm);
    let mut scene = Scene::new();
    DotRenderer.render_interpolated(
        &mut scene,
        &batch,
        &cm,
        &scales,
        &previous(),
        n(0.0),
        None,
        &Angles::nothing(),
    );
    assert_eq!(
        circles(&scene),
        vec![(100.0, 100.0, 4.0), (200.0, 200.0, 4.0), (300.0, 300.0, 4.0)]
    );
}

#[test]
fn dot_render_interpolated_at_one() {
    let batch = dots_batch();
    let cm = xy();
    let scales = inferred(&batch, &cm);
    let mut scene = Scene::new();
    DotRenderer.render_interpolated(
        &mut scene,
        &batch,
        &cm,
        &scales,
        &previous(),
        n(1.0),
        None,
        &Angles::nothing(),
    );
    assert_eq!(
        circles(&scene),
        vec![(40.0, 450.0, 4.0), (320.0, 235.0, 4.0), (600.0, 20.0, 4.0)]
    );
}

#[test]
fn bar_default_render_interpolated_produces_content() {
    let batch =
        table(vec![("category", words(vec!["a", "b"])), ("value", floats(vec![10.0, 20.0]))]);
    let cm = channels(&[(Channel::X, "category"), (Channel::Y, "value")]);
    let scales = inferred(&batch, &cm);
    let renderer = AnyMark::Bar(BarRenderer { axis: BarAxis::Y });
    let mut scene = Scene::new();
    renderer.render_interpolated(
        &mut scene,
        &batch,
        &cm,
        &scales,
        &previous(),
        n(0.5),
        None,
        &Given::nothing(),
    );
    let mut plain = Scene::new();
    renderer.render(&mut plain, &batch, &cm, &scales, None, &Given::nothing());
    assert_eq!(rects(&scene).len(), 2);
    assert_eq!(rects(&scene), rects(&plain));
}

#[test]
fn recty_one_fill_per_row_and_synthesizes_shared_x_scale() {
    let batch = table(vec![
        ("x1", floats(vec![0.0, 1.0, 2.0])),
        ("x2", floats(vec![1.0, 2.0, 3.0])),
        ("y", floats(vec![10.0, 20.0, 15.0])),
    ]);
    let cm = channels(&[(Channel::X1, "x1"), (Channel::X2, "x2"), (Channel::Y, "y")]);
    let mut scales = inferred(&batch, &cm);
    assert!(scales.get(Channel::X).is_none(), "no bare x before the mark adds one");
    let renderer = RectRenderer { kind: RectKind::Y };
    renderer.augment_scales(&mut scales, &batch, &cm, across(), upright());
    assert!(matches!(scales.get(Channel::X), Some(Scale::Linear { .. })));
    assert_eq!(domain(scales.get(Channel::X)), (0.0, 3.0));
    assert_eq!(renderer.zero_baseline_channel(), Some(Channel::Y));
    let mut scene = Scene::new();
    renderer.render(&mut scene, &batch, &cm, &scales, None);
    assert_eq!(count_scene_paths(&scene), 3, "one fill per x-bin");
}

#[test]
fn rectx_synthesizes_shared_y_scale_and_baselines_on_x() {
    let batch = table(vec![
        ("y1", floats(vec![0.0, 2.0])),
        ("y2", floats(vec![2.0, 5.0])),
        ("x", floats(vec![10.0, 30.0])),
    ]);
    let cm = channels(&[(Channel::Y1, "y1"), (Channel::Y2, "y2"), (Channel::X, "x")]);
    let mut scales = inferred(&batch, &cm);
    let renderer = RectRenderer { kind: RectKind::X };
    renderer.augment_scales(&mut scales, &batch, &cm, across(), upright());
    assert_eq!(domain(scales.get(Channel::Y)), (0.0, 5.0));
    assert_eq!(renderer.zero_baseline_channel(), Some(Channel::X));
    let mut scene = Scene::new();
    renderer.render(&mut scene, &batch, &cm, &scales, None);
    assert_eq!(count_scene_paths(&scene), 2, "one fill per y-bin");
}

#[test]
fn rect_xy_both_axes_ranged() {
    let batch = table(vec![
        ("x1", floats(vec![0.0, 2.0])),
        ("x2", floats(vec![1.0, 4.0])),
        ("y1", floats(vec![0.0, 1.0])),
        ("y2", floats(vec![3.0, 6.0])),
    ]);
    let cm = channels(&[
        (Channel::X1, "x1"),
        (Channel::X2, "x2"),
        (Channel::Y1, "y1"),
        (Channel::Y2, "y2"),
    ]);
    let mut scales = inferred(&batch, &cm);
    let renderer = RectRenderer { kind: RectKind::Xy };
    renderer.augment_scales(&mut scales, &batch, &cm, across(), upright());
    assert!(scales.get(Channel::X).is_some(), "shared X synthesized");
    assert!(scales.get(Channel::Y).is_some(), "shared Y synthesized");
    assert_eq!(renderer.zero_baseline_channel(), None, "bare rect has no baseline");
    let mut scene = Scene::new();
    renderer.render(&mut scene, &batch, &cm, &scales, None);
    assert_eq!(count_scene_paths(&scene), 2);
}

#[test]
fn rect_skips_degenerate_and_null_rows() {
    let batch = table(vec![
        ("x1", maybe(vec![Some(0.0), Some(1.0), Some(2.0)])),
        ("x2", maybe(vec![Some(1.0), Some(1.0), None])),
        ("y", maybe(vec![Some(10.0), Some(20.0), Some(15.0)])),
    ]);
    let cm = channels(&[(Channel::X1, "x1"), (Channel::X2, "x2"), (Channel::Y, "y")]);
    let mut scales = inferred(&batch, &cm);
    let renderer = RectRenderer { kind: RectKind::Y };
    renderer.augment_scales(&mut scales, &batch, &cm, across(), upright());
    let mut scene = Scene::new();
    renderer.render(&mut scene, &batch, &cm, &scales, None);
    assert_eq!(count_scene_paths(&scene), 1, "only the single well-formed bin draws");
}

#[test]
fn rect_categorical_fill() {
    let batch = table(vec![
        ("x1", floats(vec![0.0, 1.0])),
        ("x2", floats(vec![1.0, 2.0])),
        ("y", floats(vec![10.0, 20.0])),
        ("g", words(vec!["a", "b"])),
    ]);
    let cm = channels(&[
        (Channel::X1, "x1"),
        (Channel::X2, "x2"),
        (Channel::Y, "y"),
        (Channel::Fill, "g"),
    ]);
    let mut scales = inferred(&batch, &cm);
    let renderer = RectRenderer { kind: RectKind::Y };
    renderer.augment_scales(&mut scales, &batch, &cm, across(), upright());
    let mut scene = Scene::new();
    renderer.render(&mut scene, &batch, &cm, &scales, None);
    assert_eq!(count_scene_paths(&scene), 2, "one filled rect per row, coloured by g");
    let palette = theme().categorical;
    assert_eq!(colours(&scene), vec![bits(palette[0]), bits(palette[1])]);
}

#[test]
fn rect_skips_non_finite_edges() {
    let batch = table(vec![
        ("x1", floats(vec![0.0, f64::NAN, 2.0])),
        ("x2", floats(vec![1.0, f64::NAN, 3.0])),
        ("y", floats(vec![10.0, 20.0, 15.0])),
    ]);
    let cm = channels(&[(Channel::X1, "x1"), (Channel::X2, "x2"), (Channel::Y, "y")]);
    let mut scales = inferred(&batch, &cm);
    let renderer = RectRenderer { kind: RectKind::Y };
    renderer.augment_scales(&mut scales, &batch, &cm, across(), upright());
    let (low, high) = domain(scales.get(Channel::X));
    assert!(low.is_finite() && high.is_finite());
    assert_eq!((low, high), (0.0, 3.0));
    let mut scene = Scene::new();
    renderer.render(&mut scene, &batch, &cm, &scales, None);
    assert_eq!(count_scene_paths(&scene), 2, "the NaN-edged row is dropped");
}

#[test]
fn a_ranged_bar_draws_the_selected_part_from_its_baseline() {
    let batch = table(vec![
        ("x1", floats(vec![0.0])),
        ("x2", floats(vec![1.0])),
        ("y", floats(vec![8.0])),
        (SELECTED_COUNT_COLUMN, floats(vec![2.0])),
    ]);
    let cm = channels(&[(Channel::X1, "x1"), (Channel::X2, "x2"), (Channel::Y, "y")]);
    let mut scales = ScaleSet::new(ink());
    scales.insert(Channel::X, linear(0.0, 1.0, 0.0, 100.0));
    scales.insert(Channel::Y, linear(0.0, 8.0, 80.0, 0.0));
    let mut scene = Scene::new();
    RectRenderer { kind: RectKind::Y }.render(&mut scene, &batch, &cm, &scales, None);
    assert_eq!(rects(&scene), vec![(0.0, 0.0, 100.0, 80.0), (0.0, 60.0, 100.0, 80.0)]);
    assert_eq!(colours(&scene)[1], bits(ink().mark_default));
    assert_eq!(f32::from_bits(colours(&scene)[0][3]), 0.2);
}

#[test]
fn dsb_null_categorical_fill_renders_null_ink_on_dot() {
    let batch = table(vec![
        ("x", floats(vec![1.0, 2.0])),
        ("y", floats(vec![1.0, 2.0])),
        ("cat", maybe_words(vec![Some("a"), None])),
    ]);
    let cm = channels(&[(Channel::X, "x"), (Channel::Y, "y"), (Channel::Fill, "cat")]);
    let scales = inferred(&batch, &cm);
    let slot1 = scales
        .get(Channel::Fill)
        .and_then(|s| s.map_colour("a"))
        .expect("categorical fill scale built");
    let mut scene = Scene::new();
    DotRenderer.render(&mut scene, &batch, &cm, &scales, None, &Angles::nothing());
    assert_eq!(colour_set(&scene), HashSet::from([bits(slot1), bits(ink().null)]));
}

#[test]
fn dsb_no_fill_channel_keeps_default_colour() {
    let batch = table(vec![("x", floats(vec![1.0])), ("y", floats(vec![2.0]))]);
    let cm = xy();
    let scales = inferred(&batch, &cm);
    let mut scene = Scene::new();
    DotRenderer.render(&mut scene, &batch, &cm, &scales, None, &Angles::nothing());
    assert_eq!(colour_set(&scene), HashSet::from([bits(ink().mark_default)]));
}

#[test]
fn a_constant_colour_wins_over_the_palette() {
    let batch = table(vec![
        ("x", floats(vec![1.0])),
        ("y", floats(vec![2.0])),
        ("cat", words(vec!["a"])),
    ]);
    let mut cm = channels(&[(Channel::X, "x"), (Channel::Y, "y"), (Channel::Fill, "cat")]);
    let red = rgba([1.0, 0.0, 0.0, 1.0]);
    cm.insert_colour(Channel::Fill, red);
    let scales = inferred(&batch, &cm);
    let mut scene = Scene::new();
    DotRenderer.render(&mut scene, &batch, &cm, &scales, None, &Angles::nothing());
    assert_eq!(colours(&scene), vec![bits(red)]);
    assert_eq!(f(Number::from_bits(DOT_RADIUS)), 4.0);
}
