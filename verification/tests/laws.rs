#![allow(dead_code, unused_imports)]
use std::collections::{BTreeMap, HashSet};
use std::sync::Arc;

use arrow::array::{
    Array, ArrayRef, BooleanArray, Date32Array, Float32Array, Float64Array, Int16Array,
    Int32Array, Int64Array, Int8Array, LargeStringArray, StringArray, TimestampMicrosecondArray,
    UInt16Array, UInt32Array, UInt64Array, UInt8Array,
};
use arrow::record_batch::RecordBatch;
use brightfield_render::batch::{Batch, Records};
use brightfield_render::cartography::Trig;
use brightfield_render::channel::{Channel, ChannelMap, LabelForm};
use brightfield_render::colour::Rgba;
use brightfield_render::drawing::{
    count_scene_glyphs, count_scene_paths, DrawOp, Point, Rect, Scene, Shape, Step, TextAnchor,
};
use brightfield_render::infer::{infer_scales, Range};
use brightfield_render::ink::{ChartInk, Theme};
use brightfield_render::number::Number;
use brightfield_render::scale::Scale;
use brightfield_render::scale_set::ScaleSet;
use brightfield_render::single::Single;
use brightfield_render::bar::{BarAxis, BarRenderer};
use brightfield_render::colour::{parse_colour_literal, parse_css_hex};
use brightfield_render::density::density_1d_weighted_pairs;
use brightfield_render::dot::{Angles, DotRenderer};
use brightfield_render::drawing::count_scene_fills;
use brightfield_render::geo::{aspect_fit_domains, GeoExtent};
use brightfield_render::hexgrid::HexgridRenderer;
use brightfield_render::highlight::{build_highlight_state, selected_tip, HighlightStyle};
use brightfield_render::infer::merge_linear_scale;
use brightfield_render::layout::{ChartLayout, Margins};
use brightfield_render::nearest::{band_category_at, SelectionValue};
use brightfield_render::projection::Projection;
use brightfield_render::raster::RasterRenderer;
use brightfield_render::sample_notice::{notice_label, SampleFact};
use brightfield_render::selection::{committed_selection_rect, CommittedSelection, Selected};
use brightfield_render::scene::override_scale_domain;
use brightfield_render::scheme::SequentialScheme;
use brightfield_render::student::t_critical;
use brightfield_render::text_mark::TextRenderer;
use brightfield_render::union::{positional_axis_class, union_scales, AxisClass, Entry};
use brightfield_render::widgets::render_slider;

fn n(x: f64) -> Number {
    Number::from_bits(x.to_bits())
}

fn f(x: Number) -> f64 {
    f64::from_bits(x.to_bits())
}

fn single(x: f32) -> Single {
    Single::from_bits(x.to_bits())
}

fn rgba(c: [f32; 4]) -> Rgba {
    Rgba { r: single(c[0]), g: single(c[1]), b: single(c[2]), a: single(c[3]) }
}

fn parts(c: Rgba) -> [f32; 4] {
    [
        f32::from_bits(c.r.bits),
        f32::from_bits(c.g.bits),
        f32::from_bits(c.b.bits),
        f32::from_bits(c.a.bits),
    ]
}

fn span(a: f64, b: f64) -> Range {
    Range { start: n(a), end: n(b) }
}

fn across() -> Range {
    span(40.0, 600.0)
}

fn upright() -> Range {
    span(450.0, 20.0)
}

fn grey(v: f32) -> Rgba {
    rgba([v, v, v, 1.0])
}

fn ink() -> ChartInk {
    ChartInk {
        background: grey(0.99),
        mark_default: rgba([0.1, 0.35, 0.7, 1.0]),
        null: rgba([0.55, 0.54, 0.5, 1.0]),
        grid: grey(0.9),
        hexgrid_stroke: grey(0.85),
        geo_stroke: grey(0.4),
        selection_wash: rgba([0.2, 0.4, 0.9, 0.14]),
        selection_bound: rgba([0.2, 0.4, 0.9, 1.0]),
        knockout: rgba([1.0, 0.98, 0.97, 1.0]),
        notice_fill: rgba([0.95, 0.7, 0.1, 1.0]),
        notice_text: rgba([0.2, 0.1, 0.0, 1.0]),
        widget_border: grey(0.8),
        widget_fill: grey(0.97),
        widget_label: grey(0.15),
        widget_affordance: grey(0.5),
        widget_active: rgba([0.0, 0.3, 0.6, 1.0]),
    }
}

fn theme() -> Theme {
    Theme {
        ink: ink(),
        categorical: vec![
            rgba([0.1, 0.35, 0.7, 1.0]),
            rgba([0.9, 0.45, 0.1, 1.0]),
            rgba([0.2, 0.6, 0.3, 1.0]),
        ],
        meridian: meridian(),
    }
}

fn meridian() -> Vec<Rgba> {
    vec![rgba([0.95, 0.93, 0.9, 1.0]), rgba([0.4, 0.5, 0.6, 1.0]), rgba([0.05, 0.1, 0.3, 1.0])]
}

fn floats(v: Vec<f64>) -> ArrayRef {
    Arc::new(Float64Array::from(v))
}

fn maybe(v: Vec<Option<f64>>) -> ArrayRef {
    Arc::new(Float64Array::from(v))
}

fn words(v: Vec<&str>) -> ArrayRef {
    Arc::new(StringArray::from(v))
}

fn maybe_words(v: Vec<Option<&str>>) -> ArrayRef {
    Arc::new(StringArray::from(v))
}

fn table(columns: Vec<(&str, ArrayRef)>) -> Batch {
    Batch::read(&Records { arrow: RecordBatch::try_from_iter(columns).unwrap() })
}

fn channels(pairs: &[(Channel, &str)]) -> ChannelMap {
    let mut cm = ChannelMap::new();
    for (c, name) in pairs {
        cm.insert(*c, name.to_string());
    }
    cm
}

fn inferred(batch: &Batch, cm: &ChannelMap) -> ScaleSet {
    infer_scales(batch, cm, across(), upright(), &theme())
}

/// Elementary functions that are all zero, for what does not read them.
fn nothing_at() -> Trig {
    let zero = n(0.0);
    Trig {
        sin_lon: zero,
        cos_lon: zero,
        sin_lat: zero,
        cos_lat: zero,
        log: zero,
        angle: zero,
        arc: zero,
        sin_arc: zero,
        cos_arc: zero,
        sin_turn: zero,
        cos_turn: zero,
        power: zero,
    }
}

fn linear(d0: f64, d1: f64, r0: f64, r1: f64) -> Scale {
    Scale::Linear { domain_min: n(d0), domain_max: n(d1), range_start: n(r0), range_end: n(r1) }
}

fn domain(scale: Option<&Scale>) -> (f64, f64) {
    let s = scale.expect("a scale");
    (f(s.domain_min().expect("a domain")), f(s.domain_max().expect("a domain")))
}

/// The colour of every filled or stroked shape, in order.
fn colours(scene: &Scene) -> Vec<[u32; 4]> {
    let mut out = Vec::new();
    for op in &scene.ops {
        match op {
            DrawOp::Fill(c, _) => out.push(bits(*c)),
            DrawOp::Stroke(_, c, _) => out.push(bits(*c)),
            _ => {}
        }
    }
    out
}

fn colour_set(scene: &Scene) -> HashSet<[u32; 4]> {
    colours(scene).into_iter().collect()
}

fn bits(c: Rgba) -> [u32; 4] {
    [c.r.bits, c.g.bits, c.b.bits, c.a.bits]
}

#[test]
fn every_band_centre_names_its_own_category() {
    let names = ["north", "east", "south", "west", "centre"];
    let scale = Scale::Band {
        categories: names.iter().map(|c| c.to_string()).collect(),
        range_start: n(40.0),
        range_end: n(600.0),
        padding: n(0.1),
    };
    for name in names {
        let centre = scale.map_category(name).unwrap();
        assert_eq!(band_category_at(&scale, centre).as_deref(), Some(name));
    }
}

#[test]
fn the_start_of_a_domain_is_the_start_of_its_range() {
    for (d0, d1) in [(0.1, 0.7), (-3.3, 1.0e9), (5.0, -5.0)] {
        let scale = linear(d0, d1, 450.0, 20.0);
        assert_eq!(f(scale.map_f64(n(d0))), 450.0);
        assert_eq!(f(scale.inverse_f64(n(450.0)).unwrap()), d0);
    }
}

#[test]
fn a_row_without_a_position_draws_no_dot() {
    let batch = table(vec![
        ("x", maybe(vec![Some(1.0), None, Some(3.0)])),
        ("y", maybe(vec![Some(1.0), Some(2.0), Some(3.0)])),
    ]);
    let cm = channels(&[(Channel::X, "x"), (Channel::Y, "y")]);
    let scales = inferred(&batch, &cm);
    let mut scene = Scene::new();
    DotRenderer.render(&mut scene, &batch, &cm, &scales, None, &Angles::nothing());
    assert_eq!(count_scene_paths(&scene), 2);
    assert_eq!(count_scene_fills(&scene), 2);
}

#[test]
fn labels_are_glyphs_and_not_shapes() {
    let batch = table(vec![
        ("x", floats(vec![1.0, 2.0])),
        ("y", floats(vec![1.0, 2.0])),
        ("name", words(vec!["abc", "de"])),
    ]);
    let cm = channels(&[(Channel::X, "x"), (Channel::Y, "y"), (Channel::Text, "name")]);
    let scales = inferred(&batch, &cm);
    let mut scene = Scene::new();
    TextRenderer.render(&mut scene, &batch, &cm, &scales, None);
    assert_eq!(count_scene_paths(&scene), 0);
    assert_eq!(count_scene_glyphs(&scene), 5);
}

#[test]
fn extents_beyond_the_sphere_are_held_to_it() {
    for (a, b, c, d) in [
        (-500.0, 500.0, -100.0, 100.0),
        (180.0, 180.0, 90.0, 90.0),
        (-180.0, -180.0, -90.0, -90.0),
        (f64::INFINITY, f64::NEG_INFINITY, 0.0, 0.0),
    ] {
        let e = GeoExtent::new(n(a), n(b), n(c), n(d));
        assert!(-180.0 <= f(e.lon_min) && f(e.lon_max) <= 180.0);
        assert!(f(e.lon_min) < f(e.lon_max) && f(e.lat_min) < f(e.lat_max));
        assert!(-90.0 <= f(e.lat_min) && f(e.lat_max) <= 90.0);
    }
}

#[test]
fn a_colour_constant_is_a_hex_form_first_and_a_keyword_otherwise() {
    let steel = Some((70, 130, 180, 255));
    assert_eq!(
        parse_colour_literal("steelblue", steel).map(parts),
        Some([70.0 / 255.0, 130.0 / 255.0, 180.0 / 255.0, 1.0])
    );
    assert_eq!(parse_colour_literal("#ccc", steel).map(parts), parse_css_hex("#ccc").map(parts));
    assert!(parse_colour_literal("currentColor", None).is_none());
    assert!(parse_colour_literal("#12", None).is_none());
}

#[test]
fn a_style_keeps_its_numbers_and_reads_its_colours() {
    let fill = Some("#ccc".to_string());
    let stroke = Some("nonsense".to_string());
    let style = HighlightStyle::resolve(Some(n(0.3)), &fill, None, &stroke, Some(n(0.5)));
    assert_eq!(style.opacity.map(f), Some(0.3));
    assert_eq!(style.fill.map(parts), parse_css_hex("#ccc").map(parts));
    assert!(style.fill_opacity.is_none());
    assert!(style.stroke.is_none());
    assert_eq!(style.stroke_opacity.map(f), Some(0.5));
}

#[test]
fn a_text_column_reads_as_texts_and_a_number_column_does_not() {
    let batch = table(vec![
        ("s", maybe_words(vec![Some("a"), None])),
        ("v", floats(vec![1.0, 2.0])),
    ]);
    assert_eq!(batch.column_as_string("s"), Some(vec![Some("a".to_string()), None]));
    assert_eq!(batch.column_as_string("v"), None);
    assert_eq!(batch.column_as_string("none"), None);
}

#[test]
fn a_date_axis_is_a_band_of_iso_days() {
    let batch = table(vec![
        ("day", Arc::new(Date32Array::from(vec![Some(0), Some(19_723), None, Some(0)]))),
        ("v", floats(vec![1.0, 2.0, 3.0, 4.0])),
    ]);
    let cm = channels(&[(Channel::X, "day"), (Channel::Y, "v")]);
    let scales = inferred(&batch, &cm);
    match scales.get(Channel::X) {
        Some(Scale::Band { categories, .. }) => {
            assert_eq!(categories, &vec!["1970-01-01".to_string(), "2024-01-01".to_string()]);
        }
        other => panic!("a band, not {other:?}"),
    }
    let mut scene = Scene::new();
    BarRenderer { axis: BarAxis::Y }.render(&mut scene, &batch, &cm, &scales, None, &Vec::new());
    assert_eq!(count_scene_paths(&scene), 3, "one bar for each row that has a day");
}

#[test]
fn a_column_lies_inside_the_scale_inferred_from_it() {
    let values = vec![3.25, -7.5, f64::NAN, 12.0];
    let batch = table(vec![("v", floats(values.clone())), ("w", floats(vec![1.0; 4]))]);
    let cm = channels(&[(Channel::X, "v"), (Channel::Y, "w")]);
    let (low, high) = domain(inferred(&batch, &cm).get(Channel::X));
    assert_eq!((low, high), (-7.5, 12.0));
    assert!(values.iter().all(|v| v.is_nan() || (low <= *v && *v <= high)));
}

#[test]
fn a_ramp_gives_its_end_stops_exactly() {
    let first = rgba([0.3, 0.1, 0.7, 1.0]);
    let last = rgba([0.1, 0.9, 0.2, 0.7]);
    let stops = vec![first, rgba([0.4, 0.4, 0.4, 1.0]), last];
    let scale = Scale::Sequential { domain_min: n(0.1), domain_max: n(0.7), stops };
    for v in [0.1, 0.0, -5.0, f64::NEG_INFINITY] {
        assert_eq!(bits(scale.map_continuous(n(v))), bits(first));
    }
    for v in [0.7, 0.8, 1.0e300, f64::INFINITY] {
        assert_eq!(bits(scale.map_continuous(n(v))), bits(last));
    }
}

#[test]
fn a_scale_keeps_the_order_of_its_values() {
    let values = [-1.0e6, -0.3, 0.1, 0.2, 0.3, 7.7, 1.0e9];
    let up = linear(0.1, 0.7, 40.0, 600.0);
    let down = linear(0.1, 0.7, 450.0, 20.0);
    let time = Scale::Time {
        domain_min_us: 1,
        domain_max_us: 10,
        range_start: n(0.0),
        range_end: n(3.0),
    };
    for pair in values.windows(2) {
        let (a, b) = (n(pair[0]), n(pair[1]));
        assert!(f(up.map_f64(a)) <= f(up.map_f64(b)));
        assert!(f(down.map_f64(b)) <= f(down.map_f64(a)));
        assert!(f(time.map_f64(a)) <= f(time.map_f64(b)));
    }
}

#[test]
fn a_selected_part_ends_on_its_bar() {
    let edge = |base: f64, tip: f64, part: f64| f(selected_tip(n(base), n(tip), n(part)));
    assert_eq!(edge(0.0, 100.0, 0.25), 25.0);
    assert_eq!(edge(450.0, 250.0, 0.5), 350.0);
    assert_eq!(edge(0.0, 100.0, 0.0001), 0.25, "a hairline");
    assert_eq!(edge(100.0, 0.0, 0.0001), 99.75);
    assert_eq!(edge(5.0, 5.125, 0.1), 5.125, "a bar shorter than a hairline");
    for (base, tip) in [(0.1, 0.7), (450.1, 20.3), (1.0e16, 3.0), (-0.3, 0.9)] {
        let (low, high) = (f64::min(base, tip), f64::max(base, tip));
        for part in [0.0, 0.1, 0.999_999, 1.0, 1.5] {
            let e = edge(base, tip, part);
            assert!(low <= e && e <= high, "{base} {tip} {part} gives {e}");
        }
    }
}

#[test]
fn a_percentage_has_two_figures() {
    let label = |drawn: u64, of: u64| notice_label(SampleFact { drawn, of });
    assert!(label(996, 10_000).ends_with("(10%)"));
    assert!(label(994, 10_000).ends_with("(9.9%)"));
    assert!(label(998, 100_000).ends_with("(1.0%)"));
    assert!(label(999, 1_000_000).ends_with("(0.10%)"));
    assert!(label(994, 1_000_000).ends_with("(0.099%)"));
    assert!(label(1, 1).ends_with("(100%)"));
}

#[test]
fn a_point_at_the_pole_has_a_whole_narrowest_span() {
    let e = GeoExtent::new(n(-180.0), n(-180.0), n(90.0), n(90.0));
    assert_eq!((f(e.lon_min), f(e.lat_max)), (-180.0, 90.0));
    assert!((f(e.lon_span()) - 1e-4).abs() < 1e-12);
    assert!((f(e.lat_span()) - 1e-4).abs() < 1e-12);
}

#[test]
fn one_bin_twice_makes_no_curve() {
    let bins = |xs: Vec<f64>| {
        let k = xs.len();
        table(vec![("x", floats(xs)), ("__bf_count", floats(vec![2.0; k]))])
    };
    assert!(density_1d_weighted_pairs(&bins(vec![3.0, 3.0]), "x").is_none());
    let pairs = density_1d_weighted_pairs(&bins(vec![4.0, 3.0]), "x").expect("two bins");
    assert_eq!((f(pairs[0].x), f(pairs[1].x)), (3.0, 4.0));
}

#[test]
fn an_interval_that_a_scale_cannot_place_has_no_rectangle() {
    let zero = n(0.0);
    let margins = Margins { top: zero, right: zero, bottom: zero, left: zero };
    let layout = ChartLayout::with_margins(n(360.0), n(300.0), margins);
    let mut scales = ScaleSet::new(ink());
    scales.insert(Channel::X, linear(0.0, 10.0, 0.0, 360.0));
    let held = || CommittedSelection { x: Some(Selected::Interval(n(2.0), n(4.0))), y: None };
    let r = committed_selection_rect(&layout, &scales, &held()).expect("a rectangle");
    assert_eq!((f(r.x0), f(r.x1), f(r.y0), f(r.y1)), (72.0, 144.0, 0.0, 300.0));
    scales.insert(
        Channel::X,
        Scale::Band {
            categories: vec!["a".to_string()],
            range_start: zero,
            range_end: n(360.0),
            padding: zero,
        },
    );
    assert!(committed_selection_rect(&layout, &scales, &held()).is_none());
}

#[test]
fn a_merged_domain_holds_both_extents() {
    let mut scales = ScaleSet::new(ink());
    merge_linear_scale(&mut scales, Channel::X, n(2.0), n(5.0), across());
    assert_eq!(domain(scales.get(Channel::X)), (2.0, 5.0));
    merge_linear_scale(&mut scales, Channel::X, n(-1.0), n(3.0), across());
    assert_eq!(domain(scales.get(Channel::X)), (-1.0, 5.0));
}

#[test]
fn a_constant_has_its_place_on_the_axis() {
    let batch = table(vec![("x", floats(vec![10.0, 20.0])), ("w", floats(vec![1.0, 2.0]))]);
    for (value, ends) in [(30.0, (10.0, 30.0)), (0.0, (0.0, 20.0))] {
        let mut cm = channels(&[(Channel::X, "x")]);
        cm.insert_literal(Channel::X, n(value));
        assert_eq!(domain(inferred(&batch, &cm).get(Channel::X)), ends);
    }
    for (value, ends) in [(4.0, (0.0, 4.0)), (0.0, (-1.0, 1.0)), (-2.0, (-2.0, 0.0))] {
        let mut cm = ChannelMap::new();
        cm.insert_literal(Channel::Y, n(value));
        assert_eq!(domain(inferred(&batch, &cm).get(Channel::Y)), ends);
    }
}

#[test]
fn the_sparsest_bin_is_still_visible() {
    let batch = table(vec![
        ("x", floats(vec![0.0, 1.0])),
        ("y", floats(vec![0.0, 1.0])),
        ("__bf_count", floats(vec![1.0, 1_000_000.0])),
    ]);
    let cm = channels(&[(Channel::X, "x"), (Channel::Y, "y")]);
    let scales = inferred(&batch, &cm);
    let mut scene = Scene::new();
    let raster = RasterRenderer { scheme: SequentialScheme::Viridis };
    raster.render(&mut scene, &batch, &cm, &scales, None);
    let alphas: Vec<f32> = colours(&scene).iter().map(|c| f32::from_bits(c[3])).collect();
    assert_eq!(alphas, vec![0.15, 1.0]);
}

#[test]
fn a_thumb_beyond_its_track_stands_at_the_end() {
    let thumb = |frac: f64| {
        let mut scene = Scene::new();
        let (x, y, w, h) = (n(10.0), n(0.0), n(114.0), n(20.0));
        render_slider(&mut scene, x, y, w, h, n(frac), ink());
        match &scene.ops[1] {
            DrawOp::Fill(_, Shape::Circle(at, _)) => f(at.x),
            _ => panic!("a thumb"),
        }
    };
    assert_eq!(
        (thumb(-3.0), thumb(0.0), thumb(0.5), thumb(1.0), thumb(7.0)),
        (17.0, 17.0, 67.0, 117.0, 117.0)
    );
}

#[test]
fn quotes_in_a_literal_are_doubled() {
    let text = SelectionValue::Text("it's 'so'".to_string());
    assert_eq!(text.literal(), "'it''s ''so'''");
    assert_eq!(SelectionValue::Int(-7).literal(), "-7");
}

#[test]
fn a_count_column_of_text_is_no_highlight() {
    let style = HighlightStyle::default();
    let text = table(vec![("__bf_selected_count", words(vec!["1", "2"]))]);
    assert!(build_highlight_state(&text, &style).is_none());
    let counts = table(vec![("__bf_selected_count", floats(vec![1.0, 2.0]))]);
    assert!(build_highlight_state(&counts, &style).is_some());
}

#[test]
fn every_numeric_column_gives_a_linear_scale() {
    let columns: Vec<(ArrayRef, (f64, f64))> = vec![
        (Arc::new(Float32Array::from(vec![0.5f32, 2.5])), (0.5, 2.5)),
        (Arc::new(Int8Array::from(vec![-3i8, 7])), (-3.0, 7.0)),
        (Arc::new(Int16Array::from(vec![i16::MAX, i16::MAX])), (32767.0, 32767.0)),
        (Arc::new(UInt8Array::from(vec![4u8, 255])), (4.0, 255.0)),
        (Arc::new(UInt16Array::from(vec![1u16, 2])), (1.0, 2.0)),
        (Arc::new(UInt32Array::from(vec![7u32, 9])), (7.0, 9.0)),
        (Arc::new(UInt64Array::from(vec![1u64 << 63, 1])), (1.0, 9_223_372_036_854_775_808.0)),
        (Arc::new(Int64Array::from(vec![i64::MAX])), (i64::MAX as f64, i64::MAX as f64)),
    ];
    for (column, ends) in columns {
        let batch = table(vec![("v", column)]);
        let cm = channels(&[(Channel::X, "v")]);
        let scales = inferred(&batch, &cm);
        assert!(matches!(scales.get(Channel::X), Some(Scale::Linear { .. })));
        assert_eq!(domain(scales.get(Channel::X)), ends);
        let entries = vec![Entry { batch: &batch, channel_map: &cm }];
        assert_eq!(positional_axis_class(&entries, Channel::X), Some(AxisClass::Continuous));
    }
    let empty = table(vec![("v", Arc::new(Int16Array::from(vec![None, None])) as ArrayRef)]);
    let cm = channels(&[(Channel::X, "v")]);
    assert!(inferred(&empty, &cm).get(Channel::X).is_none());
}

#[test]
fn the_last_instant_has_a_time_scale() {
    let last: ArrayRef = Arc::new(TimestampMicrosecondArray::from(vec![i64::MAX]));
    let batch = table(vec![("t", last)]);
    let cm = channels(&[(Channel::X, "t")]);
    match inferred(&batch, &cm).get(Channel::X) {
        Some(Scale::Time { domain_min_us, domain_max_us, .. }) => {
            assert_eq!((*domain_min_us, *domain_max_us), (i64::MAX, i64::MAX));
        }
        other => panic!("a time scale, not {other:?}"),
    }
}

#[test]
fn a_value_comes_back_from_its_pixel_up_to_rounding() {
    let scale = linear(10.0, 90.0, 40.0, 600.0);
    for v in [55.0, 10.0, 90.0, -3.7, 1.0e6] {
        let back = f(scale.inverse_f64(scale.map_f64(n(v))).unwrap());
        assert!((back - v).abs() <= 1e-10 * (1.0 + v.abs()), "{v} gives {back}");
    }
    let time = Scale::Time {
        domain_min_us: 1_000_000,
        domain_max_us: 4_000_000,
        range_start: n(40.0),
        range_end: n(600.0),
    };
    let back = f(time.inverse_f64(time.map_f64(n(2_345_678.0))).unwrap());
    assert!((back - 2_345_678.0).abs() < 1e-6);
}

#[test]
fn critical_values_fall_with_the_sample_and_rise_with_the_level() {
    let t = |ci: f64, size: f64| f(t_critical(n(ci), n(size)));
    let mut sizes: Vec<f64> = (0..700).map(|i| 3.0 + f64::from(i) * 0.1).collect();
    sizes.push(f64::from_bits(4.0f64.to_bits() + 1));
    sizes.sort_by(f64::total_cmp);
    for ci in [0.90, 0.95, 0.99] {
        for pair in sizes.windows(2) {
            assert!(t(ci, pair[0]) >= t(ci, pair[1]) && t(ci, pair[1]) > 0.0);
        }
    }
    for size in &sizes {
        assert!(t(0.90, *size) <= t(0.95, *size) && t(0.95, *size) <= t(0.99, *size));
    }
    assert_eq!((t(0.95, 62.0), t(0.95, 1.0e9)), (1.96, 1.96));
    assert_eq!((t(0.95, 2.999), t(0.99, 0.0), t(0.90, f64::NAN)), (0.0, 0.0, 0.0));
}

#[test]
fn fitting_a_fitted_box_moves_nothing_to_speak_of() {
    let boxes = [(0.0, 3.0, 0.0, 10.0), (-7.3, 101.7, 44.1, 44.2), (5.0, 5.0, 1.0, 2.0)];
    for (x0, x1, y0, y1) in boxes {
        let start = Rect { x0: n(x0), y0: n(y0), x1: n(x1), y1: n(y1) };
        let once = aspect_fit_domains(start, across(), upright());
        let twice = aspect_fit_domains(once, across(), upright());
        for (a, b) in [
            (once.x0, twice.x0),
            (once.x1, twice.x1),
            (once.y0, twice.y0),
            (once.y1, twice.y1),
        ] {
            assert!((f(a) - f(b)).abs() < 1e-9);
        }
    }
}

#[test]
fn a_mesh_finds_the_extent_that_was_binned() {
    let (w, h, b) = (560.0, 430.0, 20.0);
    let size = b / 3.0f64.sqrt();
    let (x, y) = ((12.5, 99.0), (-3.0, 4.75));
    let dx = (b / 2.0) * (x.1 - x.0) / w;
    let dy = size * (y.1 - y.0) / h;
    let mesh = HexgridRenderer { bin_width: n(b) };
    let lattice = mesh
        .sibling_lattice(
            &linear(x.0 - dx, x.1 + dx, 40.0, 600.0),
            &linear(y.0 - dy, y.1 + dy, 450.0, 20.0),
        )
        .expect("a lattice");
    for (found, wanted) in [
        (lattice.dx_data, dx),
        (lattice.dy_data, dy),
        (lattice.xmin_raw, x.0),
        (lattice.ymin_raw, y.0),
        (lattice.xspan_raw, x.1 - x.0),
        (lattice.yspan_raw, y.1 - y.0),
    ] {
        assert!((f(found) - wanted).abs() < 1e-10, "{} for {wanted}", f(found));
    }
}

#[test]
fn mercator_gives_its_coordinates_back() {
    let per_degree = std::f64::consts::PI / 180.0;
    for (lon, lat) in [(0.0, 0.0), (-122.4, 37.8), (179.9, -66.5), (13.4, 84.9)] {
        let u = n(lon).times(n(per_degree));
        let back = Projection::Mercator.invert_lon(u).unwrap();
        assert!((f(back) - lon).abs() < 1e-12);
        let v: f64 = ((std::f64::consts::FRAC_PI_2 + lat * per_degree) / 2.0).tan().ln();
        let gudermannian = 2.0 * v.exp().atan() - std::f64::consts::FRAC_PI_2;
        let up = Projection::Mercator.invert_lat(n(v), n(gudermannian)).unwrap();
        assert!((f(up) - lat).abs() < 1e-9);
    }
}

#[test]
fn a_view_extent_moves_either_axis_of_either_kind() {
    let time = Scale::Time {
        domain_min_us: 0,
        domain_max_us: 10,
        range_start: n(450.0),
        range_end: n(20.0),
    };
    match override_scale_domain(&time, n(2.9), n(7.2)) {
        Scale::Time { domain_min_us, domain_max_us, range_start, range_end } => {
            assert_eq!((domain_min_us, domain_max_us), (2, 7));
            assert_eq!((f(range_start), f(range_end)), (450.0, 20.0));
        }
        other => panic!("a time scale, not {other:?}"),
    }
    let moved = override_scale_domain(&linear(0.0, 1.0, 450.0, 20.0), n(-2.0), n(3.0));
    assert_eq!(domain(Some(&moved)), (-2.0, 3.0));
}

#[test]
fn a_number_is_written_as_the_machine_writes_it() {
    let mut values = vec![
        0.0, -0.0, 1.0, 3.0, 3.5, -2.5, 0.1, 0.3, 1.0 / 3.0, 100.0, 1.0e21, 1.0e22, 1.0e23, 1.5e300,
        5.0e-324, 2.0e-323, f64::MIN_POSITIVE, f64::MAX, f64::MIN, f64::EPSILON, 1.0e-7, 123_456.789,
        9_007_199_254_740_993.0, 4.35, 0.000_001, 2.225_073_858_507_201e-308, f64::INFINITY,
        f64::NEG_INFINITY, f64::NAN, 1024.0, 65536.0, 2.0f64.powi(1000), 2.0f64.powi(-1000),
    ];
    let mut seed = 0x9e37_79b9_7f4a_7c15u64;
    for _ in 0..400 {
        seed = seed.wrapping_mul(6_364_136_223_846_793_005).wrapping_add(1_442_695_040_888_963_407);
        values.push(f64::from_bits(seed ^ (seed >> 29)));
        values.push((seed % 2_000_001) as f64 / 1000.0 - 1000.0);
    }
    for v in values {
        assert_eq!(SelectionValue::Number(n(v)).literal(), format!("{v}"));
    }
}

#[test]
fn a_union_does_not_ask_which_scale_came_first() {
    let (a, b) = (linear(2.0, 9.0, 0.0, 1.0), linear(-1.0, 4.0, 5.0, 6.0));
    let one = union_scales(&vec![a.clone(), b.clone()], across());
    let two = union_scales(&vec![b, a], across());
    assert_eq!(domain(one.as_ref()), (-1.0, 9.0));
    assert_eq!(domain(two.as_ref()), (-1.0, 9.0));
}
