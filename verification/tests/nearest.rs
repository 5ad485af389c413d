#![allow(dead_code, unused_imports)]
use std::collections::{BTreeMap, HashSet};
use std::sync::Arc;

use arrow::array::{
    Array, ArrayRef, BooleanArray, Date32Array, Float32Array, Float64Array, Int16Array,
    Int32Array, Int64Array, Int8Array, LargeStringArray, StringArray, TimestampMicrosecondArray,
    UInt16Array, UInt32Array, UInt64Array, UInt8Array,
};
use arrow::record_batch::RecordBatch;
use brightfield_render::batch::{Batch, Records};
use brightfield_render::cartography::Trig;
use brightfield_render::channel::{Channel, ChannelMap, LabelForm};
use brightfield_render::colour::Rgba;
use brightfield_render::drawing::{
    count_scene_glyphs, count_scene_paths, DrawOp, Point, Rect, Scene, Shape, Step, TextAnchor,
};
use brightfield_render::infer::{infer_scales, Range};
use brightfield_render::ink::{ChartInk, Theme};
use brightfield_render::number::Number;
use brightfield_render::scale::Scale;
use brightfield_render::scale_set::ScaleSet;
use brightfield_render::single::Single;
use brightfield_render::nearest::{
    band_category_at, column_typed_value_at, column_value_at, find_nearest,
    is_numeric_point_column, NearestHit, NearestMode, SelectionValue,
};

fn n(x: f64) -> Number {
    Number::from_bits(x.to_bits())
}

fn f(x: Number) -> f64 {
    f64::from_bits(x.to_bits())
}

fn single(x: f32) -> Single {
    Single::from_bits(x.to_bits())
}

fn rgba(c: [f32; 4]) -> Rgba {
    Rgba { r: single(c[0]), g: single(c[1]), b: single(c[2]), a: single(c[3]) }
}

fn parts(c: Rgba) -> [f32; 4] {
    [
        f32::from_bits(c.r.bits),
        f32::from_bits(c.g.bits),
        f32::from_bits(c.b.bits),
        f32::from_bits(c.a.bits),
    ]
}

fn span(a: f64, b: f64) -> Range {
    Range { start: n(a), end: n(b) }
}

fn across() -> Range {
    span(40.0, 600.0)
}

fn upright() -> Range {
    span(450.0, 20.0)
}

fn grey(v: f32) -> Rgba {
    rgba([v, v, v, 1.0])
}

fn ink() -> ChartInk {
    ChartInk {
        background: grey(0.99),
        mark_default: rgba([0.1, 0.35, 0.7, 1.0]),
        null: rgba([0.55, 0.54, 0.5, 1.0]),
        grid: grey(0.9),
        hexgrid_stroke: grey(0.85),
        geo_stroke: grey(0.4),
        selection_wash: rgba([0.2, 0.4, 0.9, 0.14]),
        selection_bound: rgba([0.2, 0.4, 0.9, 1.0]),
        knockout: rgba([1.0, 0.98, 0.97, 1.0]),
        notice_fill: rgba([0.95, 0.7, 0.1, 1.0]),
        notice_text: rgba([0.2, 0.1, 0.0, 1.0]),
        widget_border: grey(0.8),
        widget_fill: grey(0.97),
        widget_label: grey(0.15),
        widget_affordance: grey(0.5),
        widget_active: rgba([0.0, 0.3, 0.6, 1.0]),
    }
}

fn theme() -> Theme {
    Theme {
        ink: ink(),
        categorical: vec![
            rgba([0.1, 0.35, 0.7, 1.0]),
            rgba([0.9, 0.45, 0.1, 1.0]),
            rgba([0.2, 0.6, 0.3, 1.0]),
        ],
        meridian: meridian(),
    }
}

fn meridian() -> Vec<Rgba> {
    vec![rgba([0.95, 0.93, 0.9, 1.0]), rgba([0.4, 0.5, 0.6, 1.0]), rgba([0.05, 0.1, 0.3, 1.0])]
}

fn floats(v: Vec<f64>) -> ArrayRef {
    Arc::new(Float64Array::from(v))
}

fn maybe(v: Vec<Option<f64>>) -> ArrayRef {
    Arc::new(Float64Array::from(v))
}

fn words(v: Vec<&str>) -> ArrayRef {
    Arc::new(StringArray::from(v))
}

fn maybe_words(v: Vec<Option<&str>>) -> ArrayRef {
    Arc::new(StringArray::from(v))
}

fn table(columns: Vec<(&str, ArrayRef)>) -> Batch {
    Batch::read(&Records { arrow: RecordBatch::try_from_iter(columns).unwrap() })
}

fn channels(pairs: &[(Channel, &str)]) -> ChannelMap {
    let mut cm = ChannelMap::new();
    for (c, name) in pairs {
        cm.insert(*c, name.to_string());
    }
    cm
}

fn inferred(batch: &Batch, cm: &ChannelMap) -> ScaleSet {
    infer_scales(batch, cm, across(), upright(), &theme())
}

/// Elementary functions that are all zero, for what does not read them.
fn nothing_at() -> Trig {
    let zero = n(0.0);
    Trig {
        sin_lon: zero,
        cos_lon: zero,
        sin_lat: zero,
        cos_lat: zero,
        log: zero,
        angle: zero,
        arc: zero,
        sin_arc: zero,
        cos_arc: zero,
        sin_turn: zero,
        cos_turn: zero,
        power: zero,
    }
}

fn linear(d0: f64, d1: f64, r0: f64, r1: f64) -> Scale {
    Scale::Linear { domain_min: n(d0), domain_max: n(d1), range_start: n(r0), range_end: n(r1) }
}

fn domain(scale: Option<&Scale>) -> (f64, f64) {
    let s = scale.expect("a scale");
    (f(s.domain_min().expect("a domain")), f(s.domain_max().expect("a domain")))
}

/// The colour of every filled or stroked shape, in order.
fn colours(scene: &Scene) -> Vec<[u32; 4]> {
    let mut out = Vec::new();
    for op in &scene.ops {
        match op {
            DrawOp::Fill(c, _) => out.push(bits(*c)),
            DrawOp::Stroke(_, c, _) => out.push(bits(*c)),
            _ => {}
        }
    }
    out
}

fn colour_set(scene: &Scene) -> HashSet<[u32; 4]> {
    colours(scene).into_iter().collect()
}

fn bits(c: Rgba) -> [u32; 4] {
    [c.r.bits, c.g.bits, c.b.bits, c.a.bits]
}

fn test_batch() -> (Batch, ChannelMap, ScaleSet) {
    let batch = table(vec![
        ("x", floats(vec![1.0, 2.0, 3.0, 4.0, 5.0])),
        ("y", floats(vec![10.0, 20.0, 30.0, 40.0, 50.0])),
    ]);
    let cm = channels(&[(Channel::X, "x"), (Channel::Y, "y")]);
    let scales = inferred(&batch, &cm);
    (batch, cm, scales)
}

fn at(x: f64, y: f64) -> Point {
    Point { x: n(x), y: n(y) }
}

#[test]
fn nearest_mode_variants() {
    let modes = [NearestMode::X, NearestMode::Y, NearestMode::XY];
    assert_eq!(modes.len(), 3);
}

#[test]
fn nearest_hit_fields() {
    let hit = NearestHit { row: 2, point: at(100.0, 200.0), distance: n(5.5) };
    assert_eq!(hit.row, 2);
    assert_eq!(f(hit.point.x), 100.0);
    assert_eq!(f(hit.point.y), 200.0);
    assert_eq!(f(hit.distance), 5.5);
}

#[test]
fn exact_hit_returns_some() {
    let (batch, cm, scales) = test_batch();
    let px = scales.get(Channel::X).unwrap().map_f64(n(3.0));
    let py = scales.get(Channel::Y).unwrap().map_f64(n(30.0));
    let cursor = Point { x: px, y: py };
    let hit = find_nearest(cursor, &batch, &cm, &scales, NearestMode::XY, None)
        .expect("cursor on point should return Some");
    assert_eq!(hit.row, 2, "should match row index 2 (value 3.0, 30.0)");
    assert!(f(hit.distance) < 1.0);
}

#[test]
fn far_away_returns_none() {
    let (batch, cm, scales) = test_batch();
    let hit =
        find_nearest(at(-1000.0, -1000.0), &batch, &cm, &scales, NearestMode::XY, None);
    assert!(hit.is_none(), "cursor far away should return None");
}

#[test]
fn mode_x_ignores_y_distance() {
    let (batch, cm, scales) = test_batch();
    let px = f(scales.get(Channel::X).unwrap().map_f64(n(3.0)));
    let hit = find_nearest(at(px, 9999.0), &batch, &cm, &scales, NearestMode::X, None);
    assert_eq!(hit.expect("a hit").row, 2);
}

#[test]
fn mode_y_ignores_x_distance() {
    let (batch, cm, scales) = test_batch();
    let py = f(scales.get(Channel::Y).unwrap().map_f64(n(30.0)));
    let hit = find_nearest(at(9999.0, py), &batch, &cm, &scales, NearestMode::Y, None);
    assert_eq!(hit.expect("a hit").row, 2);
}

#[test]
fn custom_max_distance() {
    let (batch, cm, scales) = test_batch();
    let px = f(scales.get(Channel::X).unwrap().map_f64(n(3.0))) + 10.0;
    let near = |max: f64| {
        find_nearest(at(px, 235.0), &batch, &cm, &scales, NearestMode::X, Some(n(max)))
    };
    assert!(near(5.0).is_none(), "10px offset with 5px max should miss in X mode");
    assert!(near(15.0).is_some(), "10px offset with 15px max should hit in X mode");
}

#[test]
fn selection_value_literals_are_type_correct() {
    assert_eq!(SelectionValue::Int(42).literal(), "42");
    assert_eq!(SelectionValue::Number(n(3.5)).literal(), "3.5");
    assert_eq!(SelectionValue::Number(n(3.0)).literal(), "3");
    assert_eq!(SelectionValue::Text("Athletics".into()).literal(), "'Athletics'");
    assert_eq!(SelectionValue::Text("O'Hara".into()).literal(), "'O''Hara'");
    assert_eq!(
        SelectionValue::Timestamp(1_700_000_000_000_000).literal(),
        "make_timestamp(1700000000000000)"
    );
    assert_eq!(
        SelectionValue::TimestampTz(1_700_000_000_000_000).literal(),
        "make_timestamp(1700000000000000) AT TIME ZONE 'UTC'"
    );
    assert_eq!(SelectionValue::Int(-7).literal(), "-7");
    assert_eq!(SelectionValue::Int(u64::MAX as i128).literal(), "18446744073709551615");
}

#[test]
fn column_typed_value_at_dispatches_on_arrow_type() {
    let i: ArrayRef = Arc::new(Int32Array::from(vec![Some(7), None]));
    let u: ArrayRef = Arc::new(UInt64Array::from(vec![u64::MAX, 1]));
    let ts: ArrayRef = Arc::new(TimestampMicrosecondArray::from(vec![5, 6]));
    let tz: ArrayRef =
        Arc::new(TimestampMicrosecondArray::from(vec![5, 6]).with_timezone("UTC"));
    let batch = table(vec![
        ("i", i),
        ("s", maybe_words(vec![Some("beta"), Some("gamma")])),
        ("u", u),
        ("t", ts),
        ("z", tz),
        ("f", floats(vec![0.5, 1.5])),
    ]);
    assert_eq!(column_typed_value_at(&batch, "i", 0), Some(SelectionValue::Int(7)));
    assert_eq!(
        column_typed_value_at(&batch, "s", 0),
        Some(SelectionValue::Text("beta".into()))
    );
    assert_eq!(column_typed_value_at(&batch, "i", 1), None);
    assert_eq!(column_typed_value_at(&batch, "i", 99), None);
    assert_eq!(column_typed_value_at(&batch, "nope", 0), None);
    assert_eq!(
        column_typed_value_at(&batch, "u", 0),
        Some(SelectionValue::Int(u64::MAX as i128))
    );
    assert_eq!(column_typed_value_at(&batch, "t", 1), Some(SelectionValue::Timestamp(6)));
    assert_eq!(column_typed_value_at(&batch, "z", 1), Some(SelectionValue::TimestampTz(6)));
    assert_eq!(
        column_typed_value_at(&batch, "f", 1),
        Some(SelectionValue::Number(n(1.5)))
    );
    assert!(is_numeric_point_column(&batch, "i"));
    assert!(is_numeric_point_column(&batch, "f"));
    assert!(!is_numeric_point_column(&batch, "t"));
    assert!(!is_numeric_point_column(&batch, "s"));
    assert_eq!(column_value_at(&batch, "f", 0).map(f), Some(0.5));
    assert_eq!(column_value_at(&batch, "f", 2), None);
}

#[test]
fn band_category_at_maps_pixel_to_nearest_category() {
    let scale = Scale::Band {
        categories: vec!["a".into(), "b".into(), "c".into()],
        range_start: n(0.0),
        range_end: n(300.0),
        padding: n(0.1),
    };
    for cat in ["a", "b", "c"] {
        let px = scale.map_category(cat).unwrap();
        assert_eq!(band_category_at(&scale, px).as_deref(), Some(cat));
    }
    assert_eq!(band_category_at(&linear(0.0, 1.0, 0.0, 1.0), n(0.5)), None);
    assert_eq!(band_category_at(&scale, n(-50.0)).as_deref(), Some("a"));
    assert_eq!(band_category_at(&scale, n(999.0)).as_deref(), Some("c"));
}
