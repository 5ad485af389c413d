#![allow(dead_code, unused_imports)]
use std::collections::{BTreeMap, HashSet};
use std::sync::Arc;

use arrow::array::{
    Array, ArrayRef, BooleanArray, Date32Array, Float32Array, Float64Array, Int16Array,
    Int32Array, Int64Array, Int8Array, LargeStringArray, StringArray, TimestampMicrosecondArray,
    UInt16Array, UInt32Array, UInt64Array, UInt8Array,
};
use arrow::record_batch::RecordBatch;
use brightfield_render::batch::{Batch, Records};
use brightfield_render::cartography::Trig;
use brightfield_render::channel::{Channel, ChannelMap, LabelForm};
use brightfield_render::colour::Rgba;
use brightfield_render::drawing::{
    count_scene_glyphs, count_scene_paths, DrawOp, Point, Rect, Scene, Shape, Step, TextAnchor,
};
use brightfield_render::infer::{infer_scales, Range};
use brightfield_render::ink::{ChartInk, Theme};
use brightfield_render::number::Number;
use brightfield_render::scale::Scale;
use brightfield_render::scale_set::ScaleSet;
use brightfield_render::single::Single;
use brightfield_render::bar::label_number;

fn n(x: f64) -> Number {
    Number::from_bits(x.to_bits())
}

fn f(x: Number) -> f64 {
    f64::from_bits(x.to_bits())
}

fn single(x: f32) -> Single {
    Single::from_bits(x.to_bits())
}

fn rgba(c: [f32; 4]) -> Rgba {
    Rgba { r: single(c[0]), g: single(c[1]), b: single(c[2]), a: single(c[3]) }
}

fn parts(c: Rgba) -> [f32; 4] {
    [
        f32::from_bits(c.r.bits),
        f32::from_bits(c.g.bits),
        f32::from_bits(c.b.bits),
        f32::from_bits(c.a.bits),
    ]
}

fn span(a: f64, b: f64) -> Range {
    Range { start: n(a), end: n(b) }
}

fn across() -> Range {
    span(40.0, 600.0)
}

fn upright() -> Range {
    span(450.0, 20.0)
}

fn grey(v: f32) -> Rgba {
    rgba([v, v, v, 1.0])
}

fn ink() -> ChartInk {
    ChartInk {
        background: grey(0.99),
        mark_default: rgba([0.1, 0.35, 0.7, 1.0]),
        null: rgba([0.55, 0.54, 0.5, 1.0]),
        grid: grey(0.9),
        hexgrid_stroke: grey(0.85),
        geo_stroke: grey(0.4),
        selection_wash: rgba([0.2, 0.4, 0.9, 0.14]),
        selection_bound: rgba([0.2, 0.4, 0.9, 1.0]),
        knockout: rgba([1.0, 0.98, 0.97, 1.0]),
        notice_fill: rgba([0.95, 0.7, 0.1, 1.0]),
        notice_text: rgba([0.2, 0.1, 0.0, 1.0]),
        widget_border: grey(0.8),
        widget_fill: grey(0.97),
        widget_label: grey(0.15),
        widget_affordance: grey(0.5),
        widget_active: rgba([0.0, 0.3, 0.6, 1.0]),
    }
}

fn theme() -> Theme {
    Theme {
        ink: ink(),
        categorical: vec![
            rgba([0.1, 0.35, 0.7, 1.0]),
            rgba([0.9, 0.45, 0.1, 1.0]),
            rgba([0.2, 0.6, 0.3, 1.0]),
        ],
        meridian: meridian(),
    }
}

fn meridian() -> Vec<Rgba> {
    vec![rgba([0.95, 0.93, 0.9, 1.0]), rgba([0.4, 0.5, 0.6, 1.0]), rgba([0.05, 0.1, 0.3, 1.0])]
}

fn floats(v: Vec<f64>) -> ArrayRef {
    Arc::new(Float64Array::from(v))
}

fn maybe(v: Vec<Option<f64>>) -> ArrayRef {
    Arc::new(Float64Array::from(v))
}

fn words(v: Vec<&str>) -> ArrayRef {
    Arc::new(StringArray::from(v))
}

fn maybe_words(v: Vec<Option<&str>>) -> ArrayRef {
    Arc::new(StringArray::from(v))
}

fn table(columns: Vec<(&str, ArrayRef)>) -> Batch {
    Batch::read(&Records { arrow: RecordBatch::try_from_iter(columns).unwrap() })
}

fn channels(pairs: &[(Channel, &str)]) -> ChannelMap {
    let mut cm = ChannelMap::new();
    for (c, name) in pairs {
        cm.insert(*c, name.to_string());
    }
    cm
}

fn inferred(batch: &Batch, cm: &ChannelMap) -> ScaleSet {
    infer_scales(batch, cm, across(), upright(), &theme())
}

/// Elementary functions that are all zero, for what does not read them.
fn nothing_at() -> Trig {
    let zero = n(0.0);
    Trig {
        sin_lon: zero,
        cos_lon: zero,
        sin_lat: zero,
        cos_lat: zero,
        log: zero,
        angle: zero,
        arc: zero,
        sin_arc: zero,
        cos_arc: zero,
        sin_turn: zero,
        cos_turn: zero,
        power: zero,
    }
}

fn linear(d0: f64, d1: f64, r0: f64, r1: f64) -> Scale {
    Scale::Linear { domain_min: n(d0), domain_max: n(d1), range_start: n(r0), range_end: n(r1) }
}

fn domain(scale: Option<&Scale>) -> (f64, f64) {
    let s = scale.expect("a scale");
    (f(s.domain_min().expect("a domain")), f(s.domain_max().expect("a domain")))
}

/// The colour of every filled or stroked shape, in order.
fn colours(scene: &Scene) -> Vec<[u32; 4]> {
    let mut out = Vec::new();
    for op in &scene.ops {
        match op {
            DrawOp::Fill(c, _) => out.push(bits(*c)),
            DrawOp::Stroke(_, c, _) => out.push(bits(*c)),
            _ => {}
        }
    }
    out
}

fn colour_set(scene: &Scene) -> HashSet<[u32; 4]> {
    colours(scene).into_iter().collect()
}

fn bits(c: Rgba) -> [u32; 4] {
    [c.r.bits, c.g.bits, c.b.bits, c.a.bits]
}

fn samples() -> Vec<f64> {
    let mut out = vec![
        0.0,
        -0.0,
        1.0,
        -1.0,
        0.5,
        1.5,
        2.5,
        -2.5,
        0.1,
        1e-9,
        1e-300,
        5e-324,
        -5e-324,
        f64::MIN_POSITIVE,
        f64::EPSILON,
        1e300,
        f64::MAX,
        f64::MIN,
        f64::INFINITY,
        f64::NEG_INFINITY,
        f64::NAN,
        4503599627370495.5,
        4503599627370497.0,
        9007199254740993.0,
        9.3e18,
        -9.3e18,
        1.9e19,
        std::f64::consts::PI,
    ];
    let mut seed: u64 = 0x1234_5678_9abc_def1;
    for _ in 0..60 {
        seed = seed.wrapping_mul(6364136223846793005).wrapping_add(1442695040888963407);
        out.push(f64::from_bits(seed));
        out.push((seed >> 11) as f64 / (1u64 << 40) as f64 - 4096.0);
    }
    out
}

fn agree(got: Number, want: f64, what: &str) {
    if want.is_nan() {
        assert!(got.is_nan(), "{what}: got {:?}", f(got));
    } else {
        assert_eq!(got.to_bits(), want.to_bits(), "{what}: got {:?} want {want:?}", f(got));
    }
}

#[test]
fn arithmetic_rounds_as_the_machine_does() {
    let all = samples();
    for &a in &all {
        for &b in &all {
            agree(n(a).plus(n(b)), a + b, &format!("{a:?} + {b:?}"));
            agree(n(a).minus(n(b)), a - b, &format!("{a:?} - {b:?}"));
            agree(n(a).times(n(b)), a * b, &format!("{a:?} * {b:?}"));
            agree(n(a).over(n(b)), a / b, &format!("{a:?} / {b:?}"));
        }
    }
}

#[test]
fn the_remainder_is_exact() {
    let all = samples();
    for &a in &all {
        for &b in &all {
            agree(n(a).remainder(n(b)), a % b, &format!("{a:?} % {b:?}"));
        }
    }
}

#[test]
fn order_agrees_with_the_machine() {
    let all = samples();
    for &a in &all {
        for &b in &all {
            assert_eq!(n(a).lt(n(b)), a < b, "{a:?} < {b:?}");
            assert_eq!(n(a).le(n(b)), a <= b, "{a:?} <= {b:?}");
            assert_eq!(n(a).same(n(b)), a == b, "{a:?} == {b:?}");
            if !(a == 0.0 && b == 0.0) {
                agree(n(a).min(n(b)), a.min(b), &format!("min {a:?} {b:?}"));
                agree(n(a).max(n(b)), a.max(b), &format!("max {a:?} {b:?}"));
            }
            agree(n(a).copysign(n(b)), a.copysign(b), &format!("copysign {a:?} {b:?}"));
        }
    }
}

#[test]
fn roots_and_whole_parts_agree_with_the_machine() {
    for &a in &samples() {
        agree(n(a).sqrt(), a.sqrt(), &format!("sqrt {a:?}"));
        agree(n(a).floor(), a.floor(), &format!("floor {a:?}"));
        agree(n(a).ceil(), a.ceil(), &format!("ceil {a:?}"));
        agree(n(a).round(), a.round(), &format!("round {a:?}"));
        agree(n(a).trunc(), a.trunc(), &format!("trunc {a:?}"));
        agree(n(a).abs(), a.abs(), &format!("abs {a:?}"));
        agree(n(a).negated(), -a, &format!("neg {a:?}"));
        agree(n(a).clamp(n(-2.0), n(3.0)), a.clamp(-2.0, 3.0), &format!("clamp {a:?}"));
        assert_eq!(n(a).to_i64(), a as i64, "{a:?} as i64");
        assert_eq!(n(a).to_u64(), a as u64, "{a:?} as u64");
        assert_eq!(n(a).to_usize(), a as usize, "{a:?} as usize");
        assert_eq!(n(a).is_finite(), a.is_finite());
        assert_eq!(n(a).is_nan(), a.is_nan());
        if a.is_finite() {
            assert!(n(a).fract().same(n(a.fract())), "fract {a:?}");
        }
    }
}

#[test]
fn integers_become_the_nearest_number() {
    for i in [0i64, 1, -1, 9007199254740993, i64::MAX, i64::MIN, -9007199254740993, 123456789] {
        assert_eq!(f(Number::from_i64(i)), i as f64);
    }
    for u in [0u64, 1, u64::MAX, 9007199254740993, 18446744073709549568] {
        assert_eq!(f(Number::from_u64(u)), u as f64);
    }
    assert_eq!(f(Number::from_difference(i64::MAX, i64::MIN)), u64::MAX as f64);
    assert_eq!(f(Number::from_sum(i64::MAX, i64::MAX)), 2.0 * i64::MAX as f64);
}

fn same_single(got: Single, want: f32, what: &str) {
    if want.is_nan() {
        assert!(f32::from_bits(got.bits).is_nan(), "{what}");
    } else {
        assert_eq!(got.bits, want.to_bits(), "{what}");
    }
}

#[test]
fn single_precision_rounds_as_the_machine_does() {
    let mut all: Vec<f32> = samples().iter().map(|x| *x as f32).collect();
    all.extend([1e-45f32, 1e38, f32::MAX, f32::MIN_POSITIVE]);
    for &a in &all {
        for &b in &all {
            same_single(single(a).plus(single(b)), a + b, "plus");
            same_single(single(a).minus(single(b)), a - b, "minus");
            same_single(single(a).times(single(b)), a * b, "times");
        }
        agree(single(a).widened(), f64::from(a), "widened");
    }
    for &a in &samples() {
        same_single(Single::nearest(n(a)), a as f32, &format!("nearest {a:?}"));
    }
    for byte in 0..=255u8 {
        same_single(Single::of_byte(byte), f32::from(byte) / 255.0, "of_byte");
    }
}

#[test]
fn numbers_are_written_as_the_machine_writes_them() {
    for &a in &samples() {
        let want = if a.fract().abs() < f64::EPSILON {
            format!("{a:.0}")
        } else {
            format!("{a:.1}")
        };
        assert_eq!(label_number(n(a)), want, "{a:?}");
    }
    assert_eq!(label_number(n(0.25)), "0.2");
    assert_eq!(label_number(n(0.35)), "0.3");
    assert_eq!(label_number(n(-0.0)), "-0");
}
