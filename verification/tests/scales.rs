#![allow(dead_code, unused_imports)]
use std::collections::{BTreeMap, HashSet};
use std::sync::Arc;

use arrow::array::{
    Array, ArrayRef, BooleanArray, Date32Array, Float32Array, Float64Array, Int16Array,
    Int32Array, Int64Array, Int8Array, LargeStringArray, StringArray, TimestampMicrosecondArray,
    UInt16Array, UInt32Array, UInt64Array, UInt8Array,
};
use arrow::record_batch::RecordBatch;
use brightfield_render::batch::{Batch, Records};
use brightfield_render::cartography::Trig;
use brightfield_render::channel::{Channel, ChannelMap, LabelForm};
use brightfield_render::colour::Rgba;
use brightfield_render::drawing::{
    count_scene_glyphs, count_scene_paths, DrawOp, Point, Rect, Scene, Shape, Step, TextAnchor,
};
use brightfield_render::infer::{infer_scales, Range};
use brightfield_render::ink::{ChartInk, Theme};
use brightfield_render::number::Number;
use brightfield_render::scale::Scale;
use brightfield_render::scale_set::ScaleSet;
use brightfield_render::single::Single;
use brightfield_render::batch::Cells;
use brightfield_render::categories::order_categories;
use brightfield_render::colour_override::{apply_colour_override, ColourOverride};
use brightfield_render::infer::{infer_column_scale, merge_linear_scale};
use brightfield_render::mark::{AnyMark, ColourOverrideRenderer, Given, MarkRenderer};
use brightfield_render::pins::{
    apply_pinned_domains, FixedDomains, PinnedDomain, PinnedDomains,
};
use brightfield_render::raster::RasterRenderer;
use brightfield_render::scale_set::{anchor_scales, ViewExtent};
use brightfield_render::scheme::SequentialScheme;
use brightfield_render::union::{
    infer_scales_multi, positional_axis_class, union_scales, AxisClass, Entry,
};

fn n(x: f64) -> Number {
    Number::from_bits(x.to_bits())
}

fn f(x: Number) -> f64 {
    f64::from_bits(x.to_bits())
}

fn single(x: f32) -> Single {
    Single::from_bits(x.to_bits())
}

fn rgba(c: [f32; 4]) -> Rgba {
    Rgba { r: single(c[0]), g: single(c[1]), b: single(c[2]), a: single(c[3]) }
}

fn parts(c: Rgba) -> [f32; 4] {
    [
        f32::from_bits(c.r.bits),
        f32::from_bits(c.g.bits),
        f32::from_bits(c.b.bits),
        f32::from_bits(c.a.bits),
    ]
}

fn span(a: f64, b: f64) -> Range {
    Range { start: n(a), end: n(b) }
}

fn across() -> Range {
    span(40.0, 600.0)
}

fn upright() -> Range {
    span(450.0, 20.0)
}

fn grey(v: f32) -> Rgba {
    rgba([v, v, v, 1.0])
}

fn ink() -> ChartInk {
    ChartInk {
        background: grey(0.99),
        mark_default: rgba([0.1, 0.35, 0.7, 1.0]),
        null: rgba([0.55, 0.54, 0.5, 1.0]),
        grid: grey(0.9),
        hexgrid_stroke: grey(0.85),
        geo_stroke: grey(0.4),
        selection_wash: rgba([0.2, 0.4, 0.9, 0.14]),
        selection_bound: rgba([0.2, 0.4, 0.9, 1.0]),
        knockout: rgba([1.0, 0.98, 0.97, 1.0]),
        notice_fill: rgba([0.95, 0.7, 0.1, 1.0]),
        notice_text: rgba([0.2, 0.1, 0.0, 1.0]),
        widget_border: grey(0.8),
        widget_fill: grey(0.97),
        widget_label: grey(0.15),
        widget_affordance: grey(0.5),
        widget_active: rgba([0.0, 0.3, 0.6, 1.0]),
    }
}

fn theme() -> Theme {
    Theme {
        ink: ink(),
        categorical: vec![
            rgba([0.1, 0.35, 0.7, 1.0]),
            rgba([0.9, 0.45, 0.1, 1.0]),
            rgba([0.2, 0.6, 0.3, 1.0]),
        ],
        meridian: meridian(),
    }
}

fn meridian() -> Vec<Rgba> {
    vec![rgba([0.95, 0.93, 0.9, 1.0]), rgba([0.4, 0.5, 0.6, 1.0]), rgba([0.05, 0.1, 0.3, 1.0])]
}

fn floats(v: Vec<f64>) -> ArrayRef {
    Arc::new(Float64Array::from(v))
}

fn maybe(v: Vec<Option<f64>>) -> ArrayRef {
    Arc::new(Float64Array::from(v))
}

fn words(v: Vec<&str>) -> ArrayRef {
    Arc::new(StringArray::from(v))
}

fn maybe_words(v: Vec<Option<&str>>) -> ArrayRef {
    Arc::new(StringArray::from(v))
}

fn table(columns: Vec<(&str, ArrayRef)>) -> Batch {
    Batch::read(&Records { arrow: RecordBatch::try_from_iter(columns).unwrap() })
}

fn channels(pairs: &[(Channel, &str)]) -> ChannelMap {
    let mut cm = ChannelMap::new();
    for (c, name) in pairs {
        cm.insert(*c, name.to_string());
    }
    cm
}

fn inferred(batch: &Batch, cm: &ChannelMap) -> ScaleSet {
    infer_scales(batch, cm, across(), upright(), &theme())
}

/// Elementary functions that are all zero, for what does not read them.
fn nothing_at() -> Trig {
    let zero = n(0.0);
    Trig {
        sin_lon: zero,
        cos_lon: zero,
        sin_lat: zero,
        cos_lat: zero,
        log: zero,
        angle: zero,
        arc: zero,
        sin_arc: zero,
        cos_arc: zero,
        sin_turn: zero,
        cos_turn: zero,
        power: zero,
    }
}

fn linear(d0: f64, d1: f64, r0: f64, r1: f64) -> Scale {
    Scale::Linear { domain_min: n(d0), domain_max: n(d1), range_start: n(r0), range_end: n(r1) }
}

fn domain(scale: Option<&Scale>) -> (f64, f64) {
    let s = scale.expect("a scale");
    (f(s.domain_min().expect("a domain")), f(s.domain_max().expect("a domain")))
}

/// The colour of every filled or stroked shape, in order.
fn colours(scene: &Scene) -> Vec<[u32; 4]> {
    let mut out = Vec::new();
    for op in &scene.ops {
        match op {
            DrawOp::Fill(c, _) => out.push(bits(*c)),
            DrawOp::Stroke(_, c, _) => out.push(bits(*c)),
            _ => {}
        }
    }
    out
}

fn colour_set(scene: &Scene) -> HashSet<[u32; 4]> {
    colours(scene).into_iter().collect()
}

fn bits(c: Rgba) -> [u32; 4] {
    [c.r.bits, c.g.bits, c.b.bits, c.a.bits]
}

fn numeric_batch() -> Batch {
    table(vec![("x", floats(vec![1.0, 2.0, 3.0])), ("y", floats(vec![10.0, 20.0, 30.0]))])
}

fn categorical_batch() -> Batch {
    table(vec![
        ("category", words(vec!["a", "b", "c"])),
        ("value", floats(vec![10.0, 20.0, 30.0])),
    ])
}

fn time_batch() -> Batch {
    let ts: ArrayRef = Arc::new(TimestampMicrosecondArray::from(vec![
        1_000_000, 2_000_000, 3_000_000, 4_000_000,
    ]));
    table(vec![("ts", ts), ("value", floats(vec![10.0, 20.0, 15.0, 25.0]))])
}

fn wide() -> Scale {
    linear(0.0, 100.0, 0.0, 500.0)
}

fn band(categories: &[&str], r0: f64, r1: f64, padding: f64) -> Scale {
    Scale::Band {
        categories: categories.iter().map(|c| c.to_string()).collect(),
        range_start: n(r0),
        range_end: n(r1),
        padding: n(padding),
    }
}

fn names(scale: Option<&Scale>) -> Vec<String> {
    match scale {
        Some(Scale::Band { categories, .. }) => categories.clone(),
        Some(Scale::Colour { categories, .. }) => categories.clone(),
        other => panic!("expected categories, got {other:?}"),
    }
}

#[test]
fn infer_linear_scales() {
    let batch = numeric_batch();
    let cm = channels(&[(Channel::X, "x"), (Channel::Y, "y")]);
    let scales = infer_scales(&batch, &cm, span(40.0, 600.0), span(400.0, 20.0), &theme());
    assert!(matches!(scales.get(Channel::X), Some(Scale::Linear { .. })));
    assert!(matches!(scales.get(Channel::Y), Some(Scale::Linear { .. })));
    assert_eq!(domain(scales.get(Channel::X)), (1.0, 3.0));
    assert_eq!(domain(scales.get(Channel::Y)), (10.0, 30.0));
}

#[test]
fn infer_band_scale() {
    let batch = categorical_batch();
    let cm = channels(&[(Channel::X, "category")]);
    let scales = infer_scales(&batch, &cm, span(40.0, 600.0), span(400.0, 20.0), &theme());
    assert!(matches!(scales.get(Channel::X), Some(Scale::Band { .. })));
    assert_eq!(names(scales.get(Channel::X)), ["a", "b", "c"]);
}

#[test]
fn infer_time_scale() {
    let batch = time_batch();
    let cm = channels(&[(Channel::X, "ts"), (Channel::Y, "value")]);
    let scales = infer_scales(&batch, &cm, span(40.0, 600.0), span(400.0, 20.0), &theme());
    match scales.get(Channel::X) {
        Some(Scale::Time { domain_min_us, domain_max_us, .. }) => {
            assert_eq!(*domain_min_us, 1_000_000);
            assert_eq!(*domain_max_us, 4_000_000);
        }
        other => panic!("expected Time scale for x, got: {other:?}"),
    }
}

#[test]
fn infer_colour_scale_for_fill_channel() {
    let batch = categorical_batch();
    let cm = channels(&[(Channel::Fill, "category")]);
    let scales = infer_scales(&batch, &cm, span(0.0, 0.0), span(0.0, 0.0), &theme());
    match scales.get(Channel::Fill) {
        Some(Scale::Colour { categories, palette }) => {
            assert_eq!(categories, &["a", "b", "c"]);
            assert!(!palette.is_empty());
        }
        other => panic!("expected Colour scale for fill, got: {other:?}"),
    }
}

#[test]
fn linear_scale_maps_correctly() {
    let scale = wide();
    assert_eq!(f(scale.map_f64(n(0.0))), 0.0);
    assert_eq!(f(scale.map_f64(n(50.0))), 250.0);
    assert_eq!(f(scale.map_f64(n(100.0))), 500.0);
}

#[test]
fn view_extent_with_both_axes() {
    let ve = ViewExtent {
        x: Some((n(10.0), n(50.0))),
        y: Some((n(100.0), n(200.0))),
    };
    assert_eq!(ve.x, Some((n(10.0), n(50.0))));
    assert_eq!(ve.y, Some((n(100.0), n(200.0))));
}

#[test]
fn view_extent_with_none_axes() {
    let ve = ViewExtent::default();
    assert_eq!(ve.x, None);
    assert_eq!(ve.y, None);
}

#[test]
fn view_extent_partial() {
    let ve = ViewExtent { x: Some((n(1.0), n(2.0))), y: None };
    assert!(ve.x.is_some());
    assert!(ve.y.is_none());
}

#[test]
fn linear_inverse_at_endpoints() {
    let scale = wide();
    assert_eq!(scale.inverse_f64(n(0.0)).map(f), Some(0.0));
    assert_eq!(scale.inverse_f64(n(500.0)).map(f), Some(100.0));
}

#[test]
fn linear_inverse_at_midpoint() {
    assert_eq!(wide().inverse_f64(n(250.0)).map(f), Some(50.0));
}

#[test]
fn linear_inverse_roundtrip() {
    let scale = linear(10.0, 90.0, 40.0, 600.0);
    let pixel = scale.map_f64(n(55.0));
    let roundtrip = f(scale.inverse_f64(pixel).unwrap());
    assert!((roundtrip - 55.0).abs() < 1e-10);
}

#[test]
fn time_inverse() {
    let scale = Scale::Time {
        domain_min_us: 1_000_000,
        domain_max_us: 4_000_000,
        range_start: n(0.0),
        range_end: n(300.0),
    };
    let inv = f(scale.inverse_f64(n(100.0)).expect("time should return Some"));
    let expected = 1_000_000.0 + (3_000_000.0 / 3.0);
    assert!((inv - expected).abs() < 1.0);
}

#[test]
fn band_inverse_returns_none() {
    assert!(band(&["a", "b"], 0.0, 200.0, 0.1).inverse_f64(n(100.0)).is_none());
}

#[test]
fn colour_inverse_returns_none() {
    let scale = Scale::Colour {
        categories: vec!["a".to_string()],
        palette: vec![rgba([1.0, 0.0, 0.0, 1.0])],
    };
    assert!(scale.inverse_f64(n(50.0)).is_none());
}

#[test]
fn band_scale_maps_categories() {
    let scale = band(&["a", "b", "c"], 0.0, 300.0, 0.1);
    let a = f(scale.map_category("a").expect("a should map"));
    let b = f(scale.map_category("b").expect("b should map"));
    let c = f(scale.map_category("c").expect("c should map"));
    assert!(a < b);
    assert!(b < c);
    assert!(scale.map_category("d").is_none());
    let bw = f(scale.band_width().expect("should have band width"));
    assert!(bw > 0.0);
    assert!(bw < 100.0);
    assert_eq!((a, b, c), (50.0, 150.0, 250.0));
}

#[test]
fn multi_unions_linear_domains() {
    let one = table(vec![("x", floats(vec![1.0, 5.0])), ("y", floats(vec![10.0, 50.0]))]);
    let two = table(vec![("x", floats(vec![3.0, 8.0])), ("y", floats(vec![5.0, 30.0]))]);
    let cm = channels(&[(Channel::X, "x"), (Channel::Y, "y")]);
    let entries = vec![
        Entry { batch: &one, channel_map: &cm },
        Entry { batch: &two, channel_map: &cm },
    ];
    let scales = infer_scales_multi(&entries, across(), upright(), &theme());
    assert!(matches!(scales.get(Channel::X), Some(Scale::Linear { .. })));
    assert_eq!(domain(scales.get(Channel::X)), (1.0, 8.0));
    assert_eq!(domain(scales.get(Channel::Y)), (5.0, 50.0));
}

#[test]
fn multi_unions_categorical_fill() {
    let one = table(vec![("category", words(vec!["red", "blue"]))]);
    let two = table(vec![("category", words(vec!["blue", "green"]))]);
    let cm = channels(&[(Channel::Fill, "category")]);
    let entries = vec![
        Entry { batch: &one, channel_map: &cm },
        Entry { batch: &two, channel_map: &cm },
    ];
    let scales = infer_scales_multi(&entries, span(0.0, 0.0), span(0.0, 0.0), &theme());
    assert!(matches!(scales.get(Channel::Fill), Some(Scale::Colour { .. })));
    let categories = names(scales.get(Channel::Fill));
    assert_eq!(categories.len(), 3);
    for c in ["red", "blue", "green"] {
        assert!(categories.contains(&c.to_string()));
    }
}

#[test]
fn multi_single_entry_matches_infer_scales() {
    let batch = numeric_batch();
    let cm = channels(&[(Channel::X, "x"), (Channel::Y, "y")]);
    let one = infer_scales(&batch, &cm, span(40.0, 600.0), span(400.0, 20.0), &theme());
    let entries = vec![Entry { batch: &batch, channel_map: &cm }];
    let multi = infer_scales_multi(&entries, span(40.0, 600.0), span(400.0, 20.0), &theme());
    assert_eq!(domain(one.get(Channel::X)), domain(multi.get(Channel::X)));
}

#[test]
fn merge_linear_scale_inserts_unions_and_skips_nonlinear() {
    let range = span(0.0, 100.0);
    let mut set = ScaleSet::new(ink());
    merge_linear_scale(&mut set, Channel::X, n(2.0), n(8.0), range);
    match set.get(Channel::X).expect("x scale inserted") {
        Scale::Linear { domain_min, domain_max, range_start, range_end } => {
            assert_eq!((f(*domain_min), f(*domain_max)), (2.0, 8.0));
            assert_eq!((f(*range_start), f(*range_end)), (0.0, 100.0));
        }
        other => panic!("expected Linear, got {other:?}"),
    }
    merge_linear_scale(&mut set, Channel::X, n(1.0), n(5.0), range);
    merge_linear_scale(&mut set, Channel::X, n(4.0), n(12.0), range);
    assert_eq!(domain(set.get(Channel::X)), (1.0, 12.0));
    let mut set2 = ScaleSet::new(ink());
    set2.insert(Channel::X, band(&["a", "b"], 0.0, 10.0, 0.1));
    merge_linear_scale(&mut set2, Channel::X, n(1.0), n(9.0), range);
    assert!(matches!(set2.get(Channel::X).unwrap(), Scale::Band { .. }));
}

fn ramp(d0: f64, d1: f64, stops: &[[f32; 4]]) -> Scale {
    Scale::Sequential {
        domain_min: n(d0),
        domain_max: n(d1),
        stops: stops.iter().map(|c| rgba(*c)).collect(),
    }
}

const BLACK: [f32; 4] = [0.0, 0.0, 0.0, 1.0];
const WHITE: [f32; 4] = [1.0, 1.0, 1.0, 1.0];

#[test]
fn map_continuous_interpolates_and_clamps() {
    let scale = ramp(0.0, 10.0, &[BLACK, WHITE]);
    let at = |v: f64| parts(scale.map_continuous(n(v)));
    assert_eq!(at(0.0), BLACK);
    assert_eq!(at(10.0), WHITE);
    for v in at(5.0).iter().take(3) {
        assert!((v - 0.5).abs() < 1e-6);
    }
    assert_eq!(at(-5.0), BLACK);
    assert_eq!(at(42.0), WHITE);
    let degenerate = ramp(3.0, 3.0, &[BLACK, WHITE]);
    assert_eq!(parts(degenerate.map_continuous(n(3.0))), WHITE);
}

#[test]
fn map_continuous_locates_correct_bracket() {
    let scale = ramp(
        0.0,
        2.0,
        &[[1.0, 0.0, 0.0, 1.0], [0.0, 1.0, 0.0, 1.0], [0.0, 0.0, 1.0, 1.0]],
    );
    let c = parts(scale.map_continuous(n(1.5)));
    assert!((c[0] - 0.0).abs() < 1e-6);
    assert!((c[1] - 0.5).abs() < 1e-6, "green = {}", c[1]);
    assert!((c[2] - 0.5).abs() < 1e-6, "blue = {}", c[2]);
}

fn schemes() -> [SequentialScheme; 4] {
    [
        SequentialScheme::Viridis,
        SequentialScheme::Blues,
        SequentialScheme::Turbo,
        SequentialScheme::Meridian,
    ]
}

#[test]
fn scheme_stops_and_wire_roundtrip() {
    let own: Vec<Rgba> = (0..13).map(|i| grey(i as f32 / 12.0)).collect();
    for scheme in schemes() {
        let stops = scheme.stops(&own);
        assert!(stops.len() >= 5, "{scheme:?} has >= 5 stops");
        for s in &stops {
            for c in parts(*s) {
                assert!((0.0..=1.0).contains(&c), "{scheme:?} component {c} in range");
            }
        }
        assert_eq!(SequentialScheme::from_wire(scheme.wire_name()), Some(scheme));
    }
    assert_eq!(SequentialScheme::Meridian.stops(&own), own);
    assert_eq!(SequentialScheme::from_wire("magma"), None);
    assert_eq!(SequentialScheme::from_wire("Viridis"), None);
    assert_eq!(SequentialScheme::default(), SequentialScheme::Viridis);
}

#[test]
fn next_cycles_viridis_blues_turbo_meridian() {
    assert_eq!(SequentialScheme::Viridis.next(), SequentialScheme::Blues);
    assert_eq!(SequentialScheme::Blues.next(), SequentialScheme::Turbo);
    assert_eq!(SequentialScheme::Turbo.next(), SequentialScheme::Meridian);
    assert_eq!(SequentialScheme::Meridian.next(), SequentialScheme::Viridis);
    for start in schemes() {
        assert_eq!(start.next().next().next().next(), start, "{start:?} cycles in 4");
    }
}

#[test]
fn a_ninth_category_wraps_to_the_first_colour() {
    let palette: Vec<Rgba> = (0..8).map(|i| grey(i as f32 / 8.0)).collect();
    let scale = Scale::Colour {
        categories: (0..9).map(|i| format!("c{i}")).collect(),
        palette: palette.clone(),
    };
    assert_eq!(scale.map_colour("c8"), Some(palette[0]));
    assert_eq!(scale.map_colour("c7"), Some(palette[7]));
    let empty = Scale::Colour { categories: vec!["a".to_string()], palette: Vec::new() };
    assert_eq!(empty.map_colour("a"), None);
}

#[test]
fn dsb_colour_override_pins_categorical_domain_and_range() {
    let mut set = ScaleSet::new(ink());
    set.insert(
        Channel::Fill,
        Scale::Colour {
            categories: vec!["b".into(), "a".into()],
            palette: theme().categorical,
        },
    );
    let c1 = grey(0x11 as f32 / 255.0);
    let c2 = grey(0x22 as f32 / 255.0);
    let ov = ColourOverride {
        categories: Some(vec!["a".into(), "b".into()]),
        domain: None,
        range: Some(vec![c1, c2]),
    };
    apply_colour_override(&mut set, &ov);
    let scale = set.get(Channel::Fill).expect("fill scale kept");
    assert_eq!(scale.map_colour("a"), Some(c1));
    assert_eq!(scale.map_colour("b"), Some(c2));
}

#[test]
fn dsb_colour_override_two_stop_ramp_and_domain() {
    let mut set = ScaleSet::new(ink());
    set.insert(
        Channel::Fill,
        Scale::Sequential {
            domain_min: n(0.0),
            domain_max: n(40.0),
            stops: SequentialScheme::Viridis.stops(&meridian()),
        },
    );
    let ov = ColourOverride {
        categories: None,
        domain: Some((n(0.0), n(100.0))),
        range: Some(vec![rgba(BLACK), rgba(WHITE)]),
    };
    apply_colour_override(&mut set, &ov);
    let scale = set.get(Channel::Fill).expect("fill scale kept");
    match scale {
        Scale::Sequential { domain_min, domain_max, stops } => {
            assert_eq!((f(*domain_min), f(*domain_max)), (0.0, 100.0));
            assert_eq!(stops.len(), 2, "two-stop ramp");
        }
        other => panic!("expected Sequential, got {other:?}"),
    }
    for c in &parts(scale.map_continuous(n(50.0)))[..3] {
        assert!((c - 0.5).abs() < 1e-6);
    }
    let mut pos = ScaleSet::new(ink());
    pos.insert(Channel::X, linear(0.0, 1.0, 0.0, 10.0));
    apply_colour_override(&mut pos, &ov);
    assert_eq!(domain(pos.get(Channel::X)), (0.0, 1.0));
}

#[test]
fn an_override_rides_its_mark_through_a_rebuild() {
    let batch = table(vec![
        ("x_bin", floats(vec![0.0, 1.0])),
        ("y_bin", floats(vec![0.0, 1.0])),
        ("__bf_count", floats(vec![1.0, 100.0])),
    ]);
    let cm = channels(&[(Channel::X, "x_bin"), (Channel::Y, "y_bin")]);
    let over = AnyMark::Overridden(Box::new(ColourOverrideRenderer {
        inner: AnyMark::Raster(RasterRenderer::default()),
        override_: ColourOverride {
            categories: None,
            domain: Some((n(0.0), n(10.0))),
            range: Some(vec![rgba(BLACK), rgba(WHITE)]),
        },
    }));
    let mut scales = inferred(&batch, &cm);
    let given = Given::nothing();
    over.augment_scales(&mut scales, &batch, &cm, across(), upright(), &meridian(), &given);
    assert_eq!(domain(scales.get(Channel::Fill)), (0.0, 10.0));
    let mut scene = Scene::new();
    over.render(&mut scene, &batch, &cm, &scales, None, &given);
    assert_eq!(colours(&scene)[1], bits(rgba(WHITE)));
    assert!(!over.suppresses_frame());
    assert_eq!(over.zero_baseline_channel(), None);
}

#[test]
fn sequential_match_arms_decided() {
    let stops = SequentialScheme::Viridis.stops(&meridian());
    let ramp_to = |hi: f64| Scale::Sequential {
        domain_min: n(0.0),
        domain_max: n(hi),
        stops: stops.clone(),
    };
    let a = ramp_to(10.0);
    let unioned = union_scales(&vec![ramp_to(10.0), ramp_to(25.0)], span(0.0, 0.0))
        .expect("union yields a scale");
    assert!(matches!(unioned, Scale::Sequential { .. }));
    assert_eq!(domain(Some(&unioned)), (0.0, 25.0));
    assert_eq!(a.domain_min().map(f), Some(0.0));
    assert_eq!(a.domain_max().map(f), Some(10.0));
    assert_eq!(f(a.range_start()), 0.0);
    assert_eq!(f(a.range_end()), 0.0);
    assert!(a.inverse_f64(n(5.0)).is_none());
}

fn set_of(c: Channel, s: Scale) -> ScaleSet {
    let mut set = ScaleSet::new(ink());
    set.insert(c, s);
    set
}

fn plain(min: f64, max: f64) -> Scale {
    linear(min, max, 0.0, 400.0)
}

fn swatches(categories: &[&str]) -> Scale {
    Scale::Colour {
        categories: categories.iter().map(|c| c.to_string()).collect(),
        palette: theme().categorical,
    }
}

#[test]
fn anchor_scales_is_widen_only() {
    let launch = set_of(Channel::X, plain(0.0, 100.0));
    let a = anchor_scales(&launch, set_of(Channel::X, plain(25.0, 75.0)));
    assert_eq!(domain(a.get(Channel::X)), (0.0, 100.0));
    let a = anchor_scales(&launch, set_of(Channel::X, plain(-10.0, 130.0)));
    assert_eq!(domain(a.get(Channel::X)), (-10.0, 130.0));
    let a = anchor_scales(&launch, set_of(Channel::X, plain(-5.0, 40.0)));
    assert_eq!(domain(a.get(Channel::X)), (-5.0, 100.0));

    let seq = |hi: f64, scheme: SequentialScheme| Scale::Sequential {
        domain_min: n(0.0),
        domain_max: n(hi),
        stops: scheme.stops(&meridian()),
    };
    let lseq = set_of(Channel::Fill, seq(100.0, SequentialScheme::Blues));
    let fseq = set_of(Channel::Fill, seq(40.0, SequentialScheme::Viridis));
    match anchor_scales(&lseq, fseq).get(Channel::Fill) {
        Some(Scale::Sequential { domain_min, domain_max, stops }) => {
            assert_eq!((f(*domain_min), f(*domain_max)), (0.0, 100.0));
            assert_eq!(*stops, SequentialScheme::Blues.stops(&meridian()));
        }
        other => panic!("expected Sequential, got {other:?}"),
    }

    let lcat = set_of(Channel::Fill, swatches(&["a", "b", "c"]));
    let fcat = set_of(Channel::Fill, swatches(&["c"]));
    let kept = anchor_scales(&lcat, fcat);
    assert!(matches!(kept.get(Channel::Fill), Some(Scale::Colour { .. })));
    assert_eq!(names(kept.get(Channel::Fill)), ["a", "b", "c"]);

    let launch_y = set_of(Channel::Y, plain(0.0, 10.0));
    let fresh_fill = set_of(Channel::Fill, seq(9.0, SequentialScheme::Blues));
    let a = anchor_scales(&launch_y, fresh_fill);
    assert!(a.get(Channel::Y).is_some(), "only-in-launch kept");
    assert!(a.get(Channel::Fill).is_some(), "only-in-fresh adopted");
}

#[test]
fn inset_survives_anchored_rebuild() {
    let launch = set_of(Channel::X, linear(0.0, 100.0, 45.0, 615.0));
    match anchor_scales(&launch, set_of(Channel::X, plain(-10.0, 130.0))).get(Channel::X) {
        Some(Scale::Linear { domain_min, domain_max, range_start, range_end }) => {
            assert_eq!((f(*domain_min), f(*domain_max)), (-10.0, 130.0));
            assert_eq!((f(*range_start), f(*range_end)), (45.0, 615.0));
        }
        other => panic!("expected Linear, got {other:?}"),
    }
    let a = anchor_scales(&launch, set_of(Channel::X, plain(25.0, 75.0)));
    let x = a.get(Channel::X).unwrap();
    assert_eq!((f(x.range_start()), f(x.range_end())), (45.0, 615.0));
}

#[test]
fn axi_positional_axis_class_peeks_datatypes() {
    let num = numeric_batch();
    let ncm = channels(&[(Channel::X, "x"), (Channel::Y, "y")]);
    let np = vec![Entry { batch: &num, channel_map: &ncm }];
    assert_eq!(positional_axis_class(&np, Channel::X), Some(AxisClass::Continuous));
    assert_eq!(positional_axis_class(&np, Channel::Y), Some(AxisClass::Continuous));

    let cat = categorical_batch();
    let ccm = channels(&[(Channel::X, "category"), (Channel::Y, "value")]);
    let cp = vec![Entry { batch: &cat, channel_map: &ccm }];
    assert_eq!(positional_axis_class(&cp, Channel::X), Some(AxisClass::Band));
    assert_eq!(positional_axis_class(&cp, Channel::Y), Some(AxisClass::Continuous));

    let only_x = channels(&[(Channel::X, "x")]);
    let op = vec![Entry { batch: &num, channel_map: &only_x }];
    assert_eq!(positional_axis_class(&op, Channel::Y), None);

    let mixed = vec![
        Entry { batch: &cat, channel_map: &ccm },
        Entry { batch: &num, channel_map: &ncm },
    ];
    assert_eq!(positional_axis_class(&mixed, Channel::X), Some(AxisClass::Continuous));

    let tim = time_batch();
    let tcm = channels(&[(Channel::X, "ts")]);
    let tp = vec![Entry { batch: &tim, channel_map: &tcm }];
    assert_eq!(positional_axis_class(&tp, Channel::X), Some(AxisClass::Continuous));
}

#[test]
fn a_pin_re_domains_a_scale_without_touching_its_range() {
    let pin = PinnedDomain::of(&linear(0.0, 100.0, 40.0, 600.0)).expect("a linear pin");
    let mut set = set_of(Channel::X, linear(10.0, 20.0, 40.0, 900.0));
    apply_pinned_domains(&mut set, &PinnedDomains { x: Some(pin), y: None });
    match set.get(Channel::X).expect("x scale kept") {
        Scale::Linear { domain_min, domain_max, range_start, range_end } => {
            assert_eq!((f(*domain_min), f(*domain_max)), (0.0, 100.0), "domain pinned");
            assert_eq!((f(*range_start), f(*range_end)), (40.0, 900.0));
        }
        other => panic!("expected a linear scale, got {other:?}"),
    }
}

#[test]
fn a_band_pin_restores_the_categories_a_filter_removed() {
    let pin = PinnedDomain::of(&band(&["a", "b", "c"], 0.0, 300.0, 0.1)).expect("a band pin");
    let mut set = set_of(Channel::X, band(&["a"], 0.0, 300.0, 0.2));
    apply_pinned_domains(&mut set, &PinnedDomains { x: Some(pin), y: None });
    match set.get(Channel::X).expect("x scale kept") {
        Scale::Band { categories, padding, .. } => {
            assert_eq!(categories, &["a", "b", "c"], "every slot is back, in order");
            assert_eq!(f(*padding), 0.2);
        }
        other => panic!("expected a band scale, got {other:?}"),
    }
}

#[test]
fn colour_scales_offer_no_positional_pin() {
    assert!(PinnedDomain::of(&swatches(&["a"])).is_none());
    assert!(PinnedDomain::of(&ramp(0.0, 1.0, &[[0.0; 4], [1.0; 4]])).is_none());
}

#[test]
fn a_pin_of_the_wrong_kind_leaves_the_fresh_scale_alone() {
    let mut set = set_of(Channel::X, band(&["a", "b"], 0.0, 300.0, 0.1));
    let pins = PinnedDomains { x: Some(PinnedDomain::Linear(n(0.0), n(100.0))), y: None };
    apply_pinned_domains(&mut set, &pins);
    assert!(matches!(set.get(Channel::X), Some(Scale::Band { .. })));
    assert_eq!(names(set.get(Channel::X)), ["a", "b"]);
}

#[test]
fn an_empty_pin_set_writes_nothing() {
    let mut set = set_of(Channel::X, linear(3.0, 7.0, 0.0, 100.0));
    let empty = PinnedDomains::default();
    assert!(empty.is_empty());
    apply_pinned_domains(&mut set, &empty);
    assert_eq!(domain(set.get(Channel::X)), (3.0, 7.0));
}

#[test]
fn capture_takes_the_first_answer_and_keeps_it() {
    let both = FixedDomains { x: true, y: true };
    let scales_at = |lo: f64, hi: f64| set_of(Channel::X, linear(lo, hi, 0.0, 100.0));
    let mut pins = PinnedDomains::default();
    pins.capture(&scales_at(0.0, 50.0), both);
    assert_eq!(pins.x, Some(PinnedDomain::Linear(n(0.0), n(50.0))));
    pins.capture(&scales_at(2.0, 9.0), both);
    assert_eq!(pins.x, Some(PinnedDomain::Linear(n(0.0), n(50.0))));
    assert_eq!(pins.y, None, "no y scale existed to pin");
}

#[test]
fn capture_ignores_an_axis_the_spec_did_not_pin() {
    let mut set = set_of(Channel::X, linear(0.0, 1.0, 0.0, 10.0));
    set.insert(Channel::Y, linear(0.0, 1.0, 0.0, 10.0));
    let mut pins = PinnedDomains::default();
    pins.capture(&set, FixedDomains { x: false, y: true });
    assert_eq!(pins.x, None, "x was not requested");
    assert_eq!(pins.y, Some(PinnedDomain::Linear(n(0.0), n(1.0))));
}

fn text_cells(v: &[&str]) -> Cells {
    Cells::Utf8(v.iter().map(|s| Some(s.to_string())).collect())
}

#[test]
fn colour_inference_orders_categories_and_band_inference_does_not() {
    let col = text_cells(&["zulu", "alpha", "zulu", "mike"]);
    let palette = theme().categorical;
    let fill = infer_column_scale(&col, span(0.0, 0.0), Channel::Fill, &palette)
        .expect("a colour scale");
    assert!(matches!(fill, Scale::Colour { .. }));
    assert_eq!(names(Some(&fill)), ["alpha", "mike", "zulu"]);
    let x = infer_column_scale(&col, span(0.0, 100.0), Channel::X, &palette)
        .expect("a band scale");
    assert!(matches!(x, Scale::Band { .. }));
    assert_eq!(names(Some(&x)), ["zulu", "alpha", "mike"]);
}

#[test]
fn unioning_two_colour_scales_re_orders_the_merged_set() {
    let palette = theme().categorical;
    let of = |v: &[&str]| {
        infer_column_scale(&text_cells(v), span(0.0, 0.0), Channel::Fill, &palette)
            .expect("colour scale")
    };
    let merged = union_scales(&vec![of(&["alpha", "zulu"]), of(&["mike"])], span(0.0, 0.0))
        .expect("a union of colour scales");
    assert!(matches!(merged, Scale::Colour { .. }));
    assert_eq!(names(Some(&merged)), ["alpha", "mike", "zulu"]);
}

#[test]
fn categories_are_put_in_dictionary_order() {
    let mut v: Vec<String> =
        ["b", "B", "a", "ab", "é", "z"].iter().map(|s| s.to_string()).collect();
    let mut expected = v.clone();
    expected.sort();
    order_categories(&mut v);
    assert_eq!(v, expected);
}

#[test]
fn every_column_type_reads_as_its_numbers() {
    let cols: Vec<(&str, ArrayRef)> = vec![
        ("f64", floats(vec![-1.5, 2.0])),
        ("f32", Arc::new(Float32Array::from(vec![0.1f32, 3.0]))),
        ("i8", Arc::new(Int8Array::from(vec![-128, 127]))),
        ("i16", Arc::new(Int16Array::from(vec![-32768, 32767]))),
        ("i32", Arc::new(Int32Array::from(vec![i32::MIN, i32::MAX]))),
        ("i64", Arc::new(Int64Array::from(vec![i64::MIN, i64::MAX]))),
        ("u8", Arc::new(UInt8Array::from(vec![0, 255]))),
        ("u16", Arc::new(UInt16Array::from(vec![0, 65535]))),
        ("u32", Arc::new(UInt32Array::from(vec![0, u32::MAX]))),
        ("u64", Arc::new(UInt64Array::from(vec![1, u64::MAX]))),
        ("ts", Arc::new(TimestampMicrosecondArray::from(vec![7, 9]))),
        ("text", words(vec!["p", "q"])),
        ("long", Arc::new(LargeStringArray::from(vec!["p", "q"]))),
        ("day", Arc::new(Date32Array::from(vec![0, 19_000]))),
        ("flag", Arc::new(BooleanArray::from(vec![true, false]))),
    ];
    let batch = table(cols);
    assert_eq!(batch.rows, 2);
    let read = |name: &str| -> Option<Vec<Option<f64>>> {
        batch.column_as_f64(name).map(|v| v.into_iter().map(|x| x.map(f)).collect())
    };
    let both = |a: f64, b: f64| Some(vec![Some(a), Some(b)]);
    assert_eq!(read("f64"), both(-1.5, 2.0));
    assert_eq!(read("f32"), both(f64::from(0.1f32), 3.0));
    assert_eq!(read("i8"), both(-128.0, 127.0));
    assert_eq!(read("i16"), both(-32768.0, 32767.0));
    assert_eq!(read("i32"), both(i32::MIN as f64, i32::MAX as f64));
    assert_eq!(read("i64"), both(i64::MIN as f64, i64::MAX as f64));
    assert_eq!(read("u8"), both(0.0, 255.0));
    assert_eq!(read("u16"), both(0.0, 65535.0));
    assert_eq!(read("u32"), both(0.0, u32::MAX as f64));
    assert_eq!(read("u64"), both(1.0, u64::MAX as f64));
    assert_eq!(read("ts"), both(7.0, 9.0));
    assert_eq!(read("text"), None);
    assert_eq!(read("flag"), None);
    assert_eq!(read("absent"), None);
    assert_eq!(batch.text_at("text", 1).as_deref(), Some("q"));
    assert_eq!(batch.text_at("day", 0).as_deref(), Some("1970-01-01"));
    assert_eq!(batch.text_at("day", 1).as_deref(), Some("2022-01-08"));
    assert_eq!(batch.text_at("long", 0), None);
    assert_eq!(batch.text_at("text", 2), None);
    let holes = table(vec![("v", maybe(vec![Some(1.0), None]))]);
    assert!(!holes.is_missing("v", 0));
    assert!(holes.is_missing("v", 1));
    assert!(!holes.is_missing("w", 1));
}
