#![allow(dead_code, unused_imports)]
use std::collections::{BTreeMap, HashSet};
use std::sync::Arc;

use arrow::array::{
    Array, ArrayRef, BooleanArray, Date32Array, Float32Array, Float64Array, Int16Array,
    Int32Array, Int64Array, Int8Array, LargeStringArray, StringArray, TimestampMicrosecondArray,
    UInt16Array, UInt32Array, UInt64Array, UInt8Array,
};
use arrow::record_batch::RecordBatch;
use brightfield_render::batch::{Batch, Records};
use brightfield_render::cartography::Trig;
use brightfield_render::channel::{Channel, ChannelMap, LabelForm};
use brightfield_render::colour::Rgba;
use brightfield_render::drawing::{
    count_scene_glyphs, count_scene_paths, DrawOp, Point, Rect, Scene, Shape, Step, TextAnchor,
};
use brightfield_render::infer::{infer_scales, Range};
use brightfield_render::ink::{ChartInk, Theme};
use brightfield_render::number::Number;
use brightfield_render::scale::Scale;
use brightfield_render::scale_set::ScaleSet;
use brightfield_render::single::Single;
use brightfield_render::layout::{ChartLayout, Margins};
use brightfield_render::sample_notice::{
    notice_label, render_sample_notice, sample_band_margins, SampleFact, NOTICE_BAND,
};
use brightfield_render::sample_policy::{
    renders_complete, sample_exponent, MEASURED_BLANK_MIN, MEASURED_INKED_MAX,
};

fn n(x: f64) -> Number {
    Number::from_bits(x.to_bits())
}

fn f(x: Number) -> f64 {
    f64::from_bits(x.to_bits())
}

fn single(x: f32) -> Single {
    Single::from_bits(x.to_bits())
}

fn rgba(c: [f32; 4]) -> Rgba {
    Rgba { r: single(c[0]), g: single(c[1]), b: single(c[2]), a: single(c[3]) }
}

fn parts(c: Rgba) -> [f32; 4] {
    [
        f32::from_bits(c.r.bits),
        f32::from_bits(c.g.bits),
        f32::from_bits(c.b.bits),
        f32::from_bits(c.a.bits),
    ]
}

fn span(a: f64, b: f64) -> Range {
    Range { start: n(a), end: n(b) }
}

fn across() -> Range {
    span(40.0, 600.0)
}

fn upright() -> Range {
    span(450.0, 20.0)
}

fn grey(v: f32) -> Rgba {
    rgba([v, v, v, 1.0])
}

fn ink() -> ChartInk {
    ChartInk {
        background: grey(0.99),
        mark_default: rgba([0.1, 0.35, 0.7, 1.0]),
        null: rgba([0.55, 0.54, 0.5, 1.0]),
        grid: grey(0.9),
        hexgrid_stroke: grey(0.85),
        geo_stroke: grey(0.4),
        selection_wash: rgba([0.2, 0.4, 0.9, 0.14]),
        selection_bound: rgba([0.2, 0.4, 0.9, 1.0]),
        knockout: rgba([1.0, 0.98, 0.97, 1.0]),
        notice_fill: rgba([0.95, 0.7, 0.1, 1.0]),
        notice_text: rgba([0.2, 0.1, 0.0, 1.0]),
        widget_border: grey(0.8),
        widget_fill: grey(0.97),
        widget_label: grey(0.15),
        widget_affordance: grey(0.5),
        widget_active: rgba([0.0, 0.3, 0.6, 1.0]),
    }
}

fn theme() -> Theme {
    Theme {
        ink: ink(),
        categorical: vec![
            rgba([0.1, 0.35, 0.7, 1.0]),
            rgba([0.9, 0.45, 0.1, 1.0]),
            rgba([0.2, 0.6, 0.3, 1.0]),
        ],
        meridian: meridian(),
    }
}

fn meridian() -> Vec<Rgba> {
    vec![rgba([0.95, 0.93, 0.9, 1.0]), rgba([0.4, 0.5, 0.6, 1.0]), rgba([0.05, 0.1, 0.3, 1.0])]
}

fn floats(v: Vec<f64>) -> ArrayRef {
    Arc::new(Float64Array::from(v))
}

fn maybe(v: Vec<Option<f64>>) -> ArrayRef {
    Arc::new(Float64Array::from(v))
}

fn words(v: Vec<&str>) -> ArrayRef {
    Arc::new(StringArray::from(v))
}

fn maybe_words(v: Vec<Option<&str>>) -> ArrayRef {
    Arc::new(StringArray::from(v))
}

fn table(columns: Vec<(&str, ArrayRef)>) -> Batch {
    Batch::read(&Records { arrow: RecordBatch::try_from_iter(columns).unwrap() })
}

fn channels(pairs: &[(Channel, &str)]) -> ChannelMap {
    let mut cm = ChannelMap::new();
    for (c, name) in pairs {
        cm.insert(*c, name.to_string());
    }
    cm
}

fn inferred(batch: &Batch, cm: &ChannelMap) -> ScaleSet {
    infer_scales(batch, cm, across(), upright(), &theme())
}

/// Elementary functions that are all zero, for what does not read them.
fn nothing_at() -> Trig {
    let zero = n(0.0);
    Trig {
        sin_lon: zero,
        cos_lon: zero,
        sin_lat: zero,
        cos_lat: zero,
        log: zero,
        angle: zero,
        arc: zero,
        sin_arc: zero,
        cos_arc: zero,
        sin_turn: zero,
        cos_turn: zero,
        power: zero,
    }
}

fn linear(d0: f64, d1: f64, r0: f64, r1: f64) -> Scale {
    Scale::Linear { domain_min: n(d0), domain_max: n(d1), range_start: n(r0), range_end: n(r1) }
}

fn domain(scale: Option<&Scale>) -> (f64, f64) {
    let s = scale.expect("a scale");
    (f(s.domain_min().expect("a domain")), f(s.domain_max().expect("a domain")))
}

/// The colour of every filled or stroked shape, in order.
fn colours(scene: &Scene) -> Vec<[u32; 4]> {
    let mut out = Vec::new();
    for op in &scene.ops {
        match op {
            DrawOp::Fill(c, _) => out.push(bits(*c)),
            DrawOp::Stroke(_, c, _) => out.push(bits(*c)),
            _ => {}
        }
    }
    out
}

fn colour_set(scene: &Scene) -> HashSet<[u32; 4]> {
    colours(scene).into_iter().collect()
}

fn bits(c: Rgba) -> [u32; 4] {
    [c.r.bits, c.g.bits, c.b.bits, c.a.bits]
}

fn margins() -> Margins {
    Margins { top: n(20.0), right: n(20.0), bottom: n(30.0), left: n(40.0) }
}

#[test]
fn band_is_reserved_only_when_sampled() {
    let base = margins();
    assert_eq!(sample_band_margins(base, false).bottom, base.bottom);
    let grown = sample_band_margins(base, true);
    assert_eq!(f(grown.bottom), 30.0 + f(Number::from_bits(NOTICE_BAND)));
    assert_eq!(f(grown.bottom), 52.0);
    assert_eq!((grown.top, grown.left, grown.right), (base.top, base.left, base.right));
}

#[test]
fn the_notice_is_a_band_across_the_plot_with_its_words() {
    let layout = ChartLayout::with_margins(
        n(400.0),
        n(300.0),
        sample_band_margins(margins(), true),
    );
    let mut scene = Scene::new();
    render_sample_notice(&mut scene, &layout, SampleFact { drawn: 10, of: 100 }, ink());
    assert_eq!(colours(&scene), vec![bits(ink().notice_fill)]);
    match &scene.ops[0] {
        DrawOp::Fill(_, Shape::Rect(r)) => {
            assert_eq!(
                (f(r.x0), f(r.y0), f(r.x1), f(r.y1)),
                (40.0, 278.0, 380.0, 300.0)
            );
        }
        other => panic!("expected a band, got {other:?}"),
    }
    match &scene.ops[1] {
        DrawOp::Text(t, p, size, c, a) => {
            assert_eq!(t, "SAMPLED — 10 of 100 rows drawn (10%)");
            assert_eq!((f(p.x), f(p.y)), (47.0, 293.0));
            assert_eq!(f32::from_bits(size.bits), 11.0);
            assert_eq!(bits(*c), bits(ink().notice_text));
            assert_eq!(*a, TextAnchor::Start);
        }
        other => panic!("expected words, got {other:?}"),
    }
    assert!(count_scene_glyphs(&scene) > 0);
    // A plot without room for the band draws none.
    let narrow = ChartLayout::with_margins(n(50.0), n(300.0), margins());
    let mut none = Scene::new();
    render_sample_notice(&mut none, &narrow, SampleFact { drawn: 10, of: 100 }, ink());
    assert!(none.ops.is_empty());
}

#[test]
fn the_label_carries_the_proportion_beside_the_counts() {
    let s = notice_label(SampleFact { drawn: 4_688, of: 75_000 });
    assert_eq!(s, "SAMPLED — 4,688 of 75,000 rows drawn (6.3%)");
}

#[test]
fn a_thin_sample_never_reads_as_none_of_it() {
    let cases = [
        (750_u64, 1_000_u64, "75%"),
        (631, 10_000, "6.3%"),
        (42, 10_000, "0.42%"),
        (42, 100_000, "0.042%"),
        (1, 1_000_000, "<0.001%"),
        (3, 100_000_000, "<0.001%"),
    ];
    for (drawn, of, expected) in cases {
        let label = notice_label(SampleFact { drawn, of });
        assert!(
            label.ends_with(&format!("({expected})")),
            "{drawn} of {of} printed {label}, expected ({expected})"
        );
        assert!(
            !label.contains("(0%)") && !label.contains("(0.0%)"),
            "a sample with {drawn} rows on screen printed as nothing: {label}"
        );
    }
}

#[test]
fn zero_drawn_says_zero_and_zero_rows_says_nothing() {
    assert!(notice_label(SampleFact { drawn: 0, of: 500 }).ends_with("(0%)"));
    let none = notice_label(SampleFact { drawn: 0, of: 0 });
    assert!(!none.contains('%'), "nothing to be a proportion of: {none}");
}

#[test]
fn the_modulus_is_the_smallest_that_brings_the_plot_back_under_the_ceiling() {
    let cases: &[(u64, u64, Option<u64>)] = &[
        (1_000, 1, None),
        (MEASURED_INKED_MAX, 1, None),
        (MEASURED_INKED_MAX + 1, 1, Some(2)),
        (MEASURED_BLANK_MIN, 1, Some(2)),
        (2 * MEASURED_INKED_MAX, 2, Some(2)),
        (500_000, 1, Some(8)),
        (3_000_000, 3, Some(32)),
        (10_000_000, 1, Some(128)),
    ];
    for &(primitives, marks, want) in cases {
        let got = sample_exponent(primitives).map(|e| 1_u64 << e);
        assert_eq!(
            got, want,
            "{primitives} primitives across {marks} row-level mark(s): expected \
             modulus {want:?}, got {got:?}"
        );
        if let Some(modulus) = got {
            assert!(renders_complete(primitives / modulus));
            assert!(!renders_complete(primitives / (modulus / 2)));
        }
    }
}

#[test]
fn every_magnitude_lands_under_the_ceiling() {
    let mut primitives = 1_u64;
    while primitives < 1 << 40 {
        match sample_exponent(primitives) {
            Some(e) => assert!(
                renders_complete(primitives >> e),
                "{primitives} primitives sampled at 1 in {} still draws {}",
                1_u64 << e,
                primitives >> e
            ),
            None => assert!(
                renders_complete(primitives),
                "{primitives} primitives was left unsampled but does not draw"
            ),
        }
        primitives = primitives.saturating_mul(3) + 1;
    }
    let e = sample_exponent(u64::MAX).expect("the largest count is sampled");
    assert!(renders_complete(u64::MAX >> e));
}
