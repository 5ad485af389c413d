#![allow(dead_code, unused_imports)]
use std::collections::{BTreeMap, HashSet};
use std::sync::Arc;

use arrow::array::{
    Array, ArrayRef, BooleanArray, Date32Array, Float32Array, Float64Array, Int16Array,
    Int32Array, Int64Array, Int8Array, LargeStringArray, StringArray, TimestampMicrosecondArray,
    UInt16Array, UInt32Array, UInt64Array, UInt8Array,
};
use arrow::record_batch::RecordBatch;
use brightfield_render::batch::{Batch, Records};
use brightfield_render::cartography::Trig;
use brightfield_render::channel::{Channel, ChannelMap, LabelForm};
use brightfield_render::colour::Rgba;
use brightfield_render::drawing::{
    count_scene_glyphs, count_scene_paths, DrawOp, Point, Rect, Scene, Shape, Step, TextAnchor,
};
use brightfield_render::infer::{infer_scales, Range};
use brightfield_render::ink::{ChartInk, Theme};
use brightfield_render::number::Number;
use brightfield_render::scale::Scale;
use brightfield_render::scale_set::ScaleSet;
use brightfield_render::single::Single;
use brightfield_render::cartography::{project_path, CONFORMAL_N};
use brightfield_render::dot::{Angles, DotRenderer};
use brightfield_render::geo::{
    aspect_fit_domains, clip_polyline, clip_segment, graticule, graticule_lines, graticule_step,
    split_runs, GeoExtent, GraticuleKind, MERCATOR_CLIP_LAT,
};
use brightfield_render::geo_mark::{AngleRow, GeoRenderer};
use brightfield_render::geojson::parse_geojson_rings;
use brightfield_render::mark::{AnyMark, MarkRenderer};
use brightfield_render::projection::Projection;
use brightfield_render::scheme::SequentialScheme;

fn n(x: f64) -> Number {
    Number::from_bits(x.to_bits())
}

fn f(x: Number) -> f64 {
    f64::from_bits(x.to_bits())
}

fn single(x: f32) -> Single {
    Single::from_bits(x.to_bits())
}

fn rgba(c: [f32; 4]) -> Rgba {
    Rgba { r: single(c[0]), g: single(c[1]), b: single(c[2]), a: single(c[3]) }
}

fn parts(c: Rgba) -> [f32; 4] {
    [
        f32::from_bits(c.r.bits),
        f32::from_bits(c.g.bits),
        f32::from_bits(c.b.bits),
        f32::from_bits(c.a.bits),
    ]
}

fn span(a: f64, b: f64) -> Range {
    Range { start: n(a), end: n(b) }
}

fn across() -> Range {
    span(40.0, 600.0)
}

fn upright() -> Range {
    span(450.0, 20.0)
}

fn grey(v: f32) -> Rgba {
    rgba([v, v, v, 1.0])
}

fn ink() -> ChartInk {
    ChartInk {
        background: grey(0.99),
        mark_default: rgba([0.1, 0.35, 0.7, 1.0]),
        null: rgba([0.55, 0.54, 0.5, 1.0]),
        grid: grey(0.9),
        hexgrid_stroke: grey(0.85),
        geo_stroke: grey(0.4),
        selection_wash: rgba([0.2, 0.4, 0.9, 0.14]),
        selection_bound: rgba([0.2, 0.4, 0.9, 1.0]),
        knockout: rgba([1.0, 0.98, 0.97, 1.0]),
        notice_fill: rgba([0.95, 0.7, 0.1, 1.0]),
        notice_text: rgba([0.2, 0.1, 0.0, 1.0]),
        widget_border: grey(0.8),
        widget_fill: grey(0.97),
        widget_label: grey(0.15),
        widget_affordance: grey(0.5),
        widget_active: rgba([0.0, 0.3, 0.6, 1.0]),
    }
}

fn theme() -> Theme {
    Theme {
        ink: ink(),
        categorical: vec![
            rgba([0.1, 0.35, 0.7, 1.0]),
            rgba([0.9, 0.45, 0.1, 1.0]),
            rgba([0.2, 0.6, 0.3, 1.0]),
        ],
        meridian: meridian(),
    }
}

fn meridian() -> Vec<Rgba> {
    vec![rgba([0.95, 0.93, 0.9, 1.0]), rgba([0.4, 0.5, 0.6, 1.0]), rgba([0.05, 0.1, 0.3, 1.0])]
}

fn floats(v: Vec<f64>) -> ArrayRef {
    Arc::new(Float64Array::from(v))
}

fn maybe(v: Vec<Option<f64>>) -> ArrayRef {
    Arc::new(Float64Array::from(v))
}

fn words(v: Vec<&str>) -> ArrayRef {
    Arc::new(StringArray::from(v))
}

fn maybe_words(v: Vec<Option<&str>>) -> ArrayRef {
    Arc::new(StringArray::from(v))
}

fn table(columns: Vec<(&str, ArrayRef)>) -> Batch {
    Batch::read(&Records { arrow: RecordBatch::try_from_iter(columns).unwrap() })
}

fn channels(pairs: &[(Channel, &str)]) -> ChannelMap {
    let mut cm = ChannelMap::new();
    for (c, name) in pairs {
        cm.insert(*c, name.to_string());
    }
    cm
}

fn inferred(batch: &Batch, cm: &ChannelMap) -> ScaleSet {
    infer_scales(batch, cm, across(), upright(), &theme())
}

/// Elementary functions that are all zero, for what does not read them.
fn nothing_at() -> Trig {
    let zero = n(0.0);
    Trig {
        sin_lon: zero,
        cos_lon: zero,
        sin_lat: zero,
        cos_lat: zero,
        log: zero,
        angle: zero,
        arc: zero,
        sin_arc: zero,
        cos_arc: zero,
        sin_turn: zero,
        cos_turn: zero,
        power: zero,
    }
}

fn linear(d0: f64, d1: f64, r0: f64, r1: f64) -> Scale {
    Scale::Linear { domain_min: n(d0), domain_max: n(d1), range_start: n(r0), range_end: n(r1) }
}

fn domain(scale: Option<&Scale>) -> (f64, f64) {
    let s = scale.expect("a scale");
    (f(s.domain_min().expect("a domain")), f(s.domain_max().expect("a domain")))
}

/// The colour of every filled or stroked shape, in order.
fn colours(scene: &Scene) -> Vec<[u32; 4]> {
    let mut out = Vec::new();
    for op in &scene.ops {
        match op {
            DrawOp::Fill(c, _) => out.push(bits(*c)),
            DrawOp::Stroke(_, c, _) => out.push(bits(*c)),
            _ => {}
        }
    }
    out
}

fn colour_set(scene: &Scene) -> HashSet<[u32; 4]> {
    colours(scene).into_iter().collect()
}

fn bits(c: Rgba) -> [u32; 4] {
    [c.r.bits, c.g.bits, c.b.bits, c.a.bits]
}

const SQUARE: &str =
    r#"{"type":"Polygon","coordinates":[[[0,0],[10,0],[10,10],[0,10],[0,0]]]}"#;

fn all() -> [Projection; 15] {
    [
        Projection::Equirectangular,
        Projection::Identity,
        Projection::ReflectY,
        Projection::Mercator,
        Projection::TransverseMercator,
        Projection::Orthographic,
        Projection::Stereographic,
        Projection::Gnomonic,
        Projection::AzimuthalEqualArea,
        Projection::AzimuthalEquidistant,
        Projection::EqualEarth,
        Projection::ConicEqualArea,
        Projection::ConicConformal,
        Projection::ConicEquidistant,
        Projection::Albers,
    ]
}

fn trig(p: Projection, lon: f64, lat: f64) -> Trig {
    let (lam, phi) = (lon.to_radians(), lat.to_radians());
    let turn = f(p.turn(n(lon)));
    let tan_half = f(p.half_angle(n(lat))).tan();
    let mut t = Trig {
        sin_lon: n(lam.sin()),
        cos_lon: n(lam.cos()),
        sin_lat: n(phi.sin()),
        cos_lat: n(phi.cos()),
        log: n(tan_half.ln()),
        angle: n(phi.tan().atan2(lam.cos())),
        arc: n(0.0),
        sin_arc: n(0.0),
        cos_arc: n(1.0),
        sin_turn: n(turn.sin()),
        cos_turn: n(turn.cos()),
        power: n(tan_half.powf(f(Number::from_bits(CONFORMAL_N)))),
    };
    if p == Projection::TransverseMercator {
        t.log = n(f(p.log_argument(t)).ln());
    }
    let argument = f(p.arc_argument(t));
    let arc = if p == Projection::EqualEarth { argument.asin() } else { argument.acos() };
    t.arc = n(arc);
    t.sin_arc = n(arc.sin());
    t.cos_arc = n(arc.cos());
    t
}

fn project(p: Projection, lon: f64, lat: f64) -> Option<(f64, f64)> {
    p.project(n(lon), n(lat), trig(p, lon, lat)).map(|q| (f(q.x), f(q.y)))
}

fn geo_batch(geoms: Vec<&str>, fill: Option<Vec<f64>>) -> Batch {
    let mut cols = vec![("geom", words(geoms))];
    if let Some(v) = fill {
        cols.push(("rate", floats(v)));
    }
    table(cols)
}

fn flat(batch: &Batch) -> Vec<AngleRow> {
    GeoRenderer::default()
        .rings(batch)
        .iter()
        .map(|rings| {
            rings.iter().map(|ring| ring.iter().map(|_| nothing_at()).collect()).collect()
        })
        .collect()
}

#[test]
fn projection_equirect_identity_and_albers_reference() {
    assert_eq!(project(Projection::Equirectangular, 12.0, -34.0), Some((12.0, -34.0)));
    let (rx, ry) = project(Projection::Albers, -96.0, 23.0).expect("albers is total");
    assert!(rx.abs() < 1e-9 && ry.abs() < 1e-9, "reference point ≈ origin: ({rx}, {ry})");
    let (ax, ay) = project(Projection::Albers, -80.0, 40.0).expect("albers is total");
    assert!((ax - 0.211010).abs() < 1e-4 && (ay - 0.314810).abs() < 1e-4, "({ax}, {ay})");
    let (_, south) = project(Projection::Albers, -96.0, 30.0).expect("albers is total");
    let (_, north) = project(Projection::Albers, -96.0, 45.0).expect("albers is total");
    assert!(north > south, "albers v increases north");
    assert_eq!(Projection::default(), Projection::Equirectangular);
}

#[test]
fn the_mercator_clip_latitude_is_atan_sinh_pi() {
    let clip = std::f64::consts::PI.sinh().atan().to_degrees();
    assert!((f(Number::from_bits(MERCATOR_CLIP_LAT)) - clip).abs() < 1e-12);
}

#[test]
fn an_unrepresentable_coordinate_has_no_position() {
    assert_eq!(project(Projection::Orthographic, 180.0, 0.0), None);
    assert_eq!(project(Projection::Gnomonic, 90.0, 0.0), None);
    assert_eq!(project(Projection::Stereographic, 180.0, 0.0), None);
    assert_eq!(project(Projection::AzimuthalEqualArea, 180.0, 0.0), None);
    assert_eq!(project(Projection::AzimuthalEquidistant, 180.0, 0.0), None);
    assert_eq!(project(Projection::Mercator, 0.0, 86.0), None);
    assert_eq!(project(Projection::Mercator, 0.0, -90.0), None);
    assert_eq!(project(Projection::TransverseMercator, 90.0, 0.0), None);
    for p in [
        Projection::Equirectangular,
        Projection::Identity,
        Projection::ReflectY,
        Projection::EqualEarth,
        Projection::ConicEqualArea,
        Projection::ConicConformal,
        Projection::ConicEquidistant,
        Projection::Albers,
    ] {
        for (lon, lat) in [(0.0, 90.0), (180.0, -90.0), (-180.0, 0.0), (12.0, 34.0)] {
            assert!(project(p, lon, lat).is_some(), "{p:?} at {lon}, {lat}");
        }
    }
}

#[test]
fn projections_take_their_closed_forms() {
    let (lon, lat) = (30.0_f64, 40.0_f64);
    let (lam, phi) = (lon.to_radians(), lat.to_radians());
    let near = |p: Projection, want: (f64, f64)| {
        let got = project(p, lon, lat).expect("a position");
        assert!(
            (got.0 - want.0).abs() < 1e-9 && (got.1 - want.1).abs() < 1e-9,
            "{p:?}: {got:?} against {want:?}"
        );
    };
    near(Projection::ReflectY, (lon, -lat));
    near(Projection::Mercator, (lam, phi.tan().asinh()));
    near(
        Projection::TransverseMercator,
        ((phi.cos() * lam.sin()).atanh(), phi.tan().atan2(lam.cos())),
    );
    let k = lam.cos() * phi.cos();
    near(Projection::Orthographic, (phi.cos() * lam.sin(), phi.sin()));
    near(Projection::Gnomonic, (phi.cos() * lam.sin() / k, phi.sin() / k));
    near(
        Projection::Stereographic,
        (phi.cos() * lam.sin() / (1.0 + k), phi.sin() / (1.0 + k)),
    );
    let s = (2.0 / (1.0 + k)).sqrt();
    near(Projection::AzimuthalEqualArea, (s * phi.cos() * lam.sin(), s * phi.sin()));
    let c = k.acos();
    let s = c / c.sin();
    near(Projection::AzimuthalEquidistant, (s * phi.cos() * lam.sin(), s * phi.sin()));
    let l = (3.0_f64.sqrt() / 2.0 * phi.sin()).asin();
    let poly = 1.340264 - 3.0 * 0.081106 * l.powi(2)
        + l.powi(6) * (7.0 * 0.000893 + 9.0 * 0.003796 * l.powi(2));
    near(
        Projection::EqualEarth,
        (
            2.0 * lam * l.cos() / (3.0_f64.sqrt() * poly),
            l * (1.340264 - 0.081106 * l.powi(2)
                + l.powi(6) * (0.000893 + 0.003796 * l.powi(2))),
        ),
    );
    let cone = |n0: f64, r: f64, r0: f64| (r * (n0 * lam).sin(), r0 - r * (n0 * lam).cos());
    let third = std::f64::consts::FRAC_PI_3;
    let n0 = third.sin() / 2.0;
    near(
        Projection::ConicEqualArea,
        cone(n0, (1.0 - 2.0 * n0 * phi.sin()).sqrt() / n0, 1.0 / n0),
    );
    let n0 = (1.0 - third.cos()) / third;
    near(Projection::ConicEquidistant, cone(n0, 1.0 / n0 - phi, 1.0 / n0));
    let y0 = 30.0_f64.to_radians();
    let n0 = y0.sin();
    let tany = |y: f64| ((std::f64::consts::FRAC_PI_2 + y) / 2.0).tan();
    let f0 = y0.cos() * tany(y0).powf(n0) / n0;
    near(Projection::ConicConformal, cone(n0, f0 / tany(phi).powf(n0), f0));
}

#[test]
fn separability_is_the_claim_the_inverses_keep() {
    for p in all() {
        let both = p.invert_lon(n(0.0)).is_some() && p.invert_lat(n(0.0), n(0.0)).is_some();
        assert_eq!(p.axes_invert_separately(), both, "{p:?}");
    }
    let v = project(Projection::Mercator, 25.0, 50.0).expect("a position");
    let gudermannian = 2.0 * v.1.exp().atan() - std::f64::consts::FRAC_PI_2;
    let lon = f(Projection::Mercator.invert_lon(n(v.0)).expect("separable"));
    let lat =
        f(Projection::Mercator.invert_lat(n(v.1), n(gudermannian)).expect("separable"));
    assert!((lon - 25.0).abs() < 1e-9 && (lat - 50.0).abs() < 1e-9);
}

#[test]
fn augment_scales_aspect_fits_and_suppresses_frame() {
    let batch = geo_batch(vec![SQUARE], None);
    let cm = ChannelMap::new();
    let renderer = GeoRenderer::default();
    let mut scales = inferred(&batch, &cm);
    let angles = flat(&batch);
    renderer.augment_scales(
        &mut scales,
        &batch,
        &cm,
        across(),
        upright(),
        &meridian(),
        &angles,
    );
    let (xd0, xd1) = domain(scales.get(Channel::X));
    let (yd0, yd1) = domain(scales.get(Channel::Y));
    let slope_x = (600.0 - 40.0) / (xd1 - xd0);
    let slope_y = (20.0 - 450.0) / (yd1 - yd0);
    assert!((slope_x.abs() - slope_y.abs()).abs() < 1e-6, "equal px-per-unit");
    let cx = f(scales.get(Channel::X).unwrap().map_f64(n(5.0)));
    let cy = f(scales.get(Channel::Y).unwrap().map_f64(n(5.0)));
    assert!((cx - (40.0 + 600.0) / 2.0).abs() < 1e-6, "x centred: {cx}");
    assert!((cy - (450.0 + 20.0) / 2.0).abs() < 1e-6, "y centred: {cy}");
    assert!(AnyMark::Geo(renderer).suppresses_frame(), "geo drops grid + axes");
    let mut scene = Scene::new();
    renderer.render(&mut scene, &batch, &cm, &scales, None, &angles);
    assert!(count_scene_paths(&scene) > 0, "basemap strokes the polygon outline");
    assert_eq!(colours(&scene), vec![bits(ink().geo_stroke)]);
}

#[test]
fn choropleth_builds_sequential_fill_ramp() {
    let batch = geo_batch(vec![SQUARE, SQUARE], Some(vec![2.0, 8.0]));
    let cm = channels(&[(Channel::Fill, "rate")]);
    let renderer = GeoRenderer { scheme: SequentialScheme::Blues };
    let mut scales = inferred(&batch, &cm);
    let angles = flat(&batch);
    renderer.augment_scales(
        &mut scales,
        &batch,
        &cm,
        across(),
        upright(),
        &meridian(),
        &angles,
    );
    assert!(matches!(scales.get(Channel::Fill), Some(Scale::Sequential { .. })));
    assert_eq!(domain(scales.get(Channel::Fill)), (0.0, 8.0));
    let mut scene = Scene::new();
    renderer.render(&mut scene, &batch, &cm, &scales, None, &angles);
    let ramp = scales.get(Channel::Fill).unwrap();
    assert_eq!(
        colours(&scene),
        vec![bits(ramp.map_continuous(n(2.0))), bits(ramp.map_continuous(n(8.0)))]
    );
}

#[test]
fn geo_multipolygon_and_malformed_geojson_are_handled() {
    let multi = r#"{"type":"MultiPolygon","coordinates":[[[[0,0],[1,0],[1,1],[0,0]]],[[[2,2],[3,2],[3,3],[2,2]]]]}"#;
    assert_eq!(parse_geojson_rings(multi).len(), 2, "two sub-polygon rings");
    assert!(parse_geojson_rings("not json").is_empty());
    assert!(parse_geojson_rings(r#"{"type":"Point","coordinates":[0,0]}"#).is_empty());
    let feature = r#"{"type":"Feature","geometry":{"type":"Polygon","coordinates":[[[0,0],[1,0],[1,1],[0,0]]]},"properties":{}}"#;
    assert_eq!(parse_geojson_rings(feature).len(), 1);
}

#[test]
fn a_ring_keeps_its_positions_and_drops_what_is_none() {
    let text = r#"{"type":"Polygon","coordinates":[[[0.5,-1],[2,3,99],["x",1],[4],5],[[1,1]],7]}"#;
    let rings = parse_geojson_rings(text);
    assert_eq!(rings.len(), 1, "a ring of one point and a bare number are no rings");
    let points: Vec<(f64, f64)> = rings[0].iter().map(|p| (f(p.x), f(p.y))).collect();
    assert_eq!(points, vec![(0.5, -1.0), (2.0, 3.0)]);
    assert!(parse_geojson_rings(r#"{"type":"Feature"}"#).is_empty());
    assert!(parse_geojson_rings(r#"{"type":"Polygon"}"#).is_empty());
    assert!(parse_geojson_rings(r#"{"type":"MultiPolygon","coordinates":3}"#).is_empty());
    assert!(parse_geojson_rings("[1,2]").is_empty());
}

#[test]
fn a_ring_with_a_lost_vertex_is_not_drawn() {
    let batch = geo_batch(vec![SQUARE], None);
    let mut scales = ScaleSet::new(ink());
    scales.insert(Channel::X, linear(0.0, 10.0, 0.0, 100.0));
    scales.insert(Channel::Y, linear(0.0, 10.0, 100.0, 0.0));
    let mut cm = ChannelMap::new();
    cm.projection = Some(Projection::Orthographic);
    // Angles that put each vertex where its coordinates are, seen from the front.
    let mut angles: Vec<AngleRow> = GeoRenderer::default()
        .rings(&batch)
        .iter()
        .map(|rings| {
            rings
                .iter()
                .map(|ring| {
                    ring.iter()
                        .map(|p| Trig {
                            sin_lon: p.x,
                            cos_lon: n(1.0),
                            sin_lat: p.y,
                            cos_lat: n(1.0),
                            ..nothing_at()
                        })
                        .collect()
                })
                .collect()
        })
        .collect();
    let renderer = GeoRenderer::default();
    let steps_of = |angles: &Vec<AngleRow>| {
        let mut scene = Scene::new();
        renderer.render(&mut scene, &batch, &cm, &scales, None, angles);
        match &scene.ops[0] {
            DrawOp::Stroke(_, _, Shape::Path(steps)) => steps.len(),
            other => panic!("expected a path, got {other:?}"),
        }
    };
    assert_eq!(steps_of(&angles), 6);
    // The far side of the globe has no position.
    angles[0][0][2].cos_lon = n(-1.0);
    assert_eq!(steps_of(&angles), 0);
    let planar = renderer.project_rings(&batch, &cm, &angles);
    assert!(planar[0][0][2].is_none());
    assert_eq!(planar[0][0][1].map(|p| (f(p.x), f(p.y))), Some((10.0, 0.0)));
    // The vertices that do have a position still count for the frame.
    let bbox = renderer.projected_bbox(&batch, &cm, &angles).expect("a box");
    assert_eq!((f(bbox.x0), f(bbox.y0), f(bbox.x1), f(bbox.y1)), (0.0, 0.0, 10.0, 10.0));
    assert!(renderer.projected_bbox(&batch, &cm, &Vec::new()).is_none());
}

#[test]
fn an_extent_is_ordered_held_to_the_sphere_and_never_empty() {
    let e = GeoExtent::new(n(200.0), n(-10.0), n(95.0), n(20.0));
    assert_eq!(
        (f(e.lon_min), f(e.lon_max), f(e.lat_min), f(e.lat_max)),
        (-10.0, 180.0, 20.0, 90.0)
    );
    assert_eq!((f(e.lon_span()), f(e.lat_span())), (190.0, 70.0));
    let point = GeoExtent::new(n(5.0), n(5.0), n(90.0), n(90.0));
    assert!((f(point.lon_span()) - 1e-4).abs() < 1e-12);
    assert_eq!(f(point.lat_max), 90.0);
    assert!(f(point.lat_span()) > 0.0);
}

#[test]
fn the_step_is_the_coarsest_that_divides_a_span_in_six() {
    let step = |s: f64| f(graticule_step(n(s)));
    assert_eq!(step(360.0), 45.0);
    assert_eq!(step(180.0), 30.0);
    assert_eq!(step(60.0), 10.0);
    assert_eq!(step(7.0), 1.0);
    assert_eq!(step(-180.0), 30.0);
    assert_eq!(step(0.001), 0.01, "the finest rung stands where none is fine enough");
    assert_eq!(step(540.0), 90.0);
}

#[test]
fn a_graticule_stands_at_whole_steps() {
    let extent = GeoExtent::new(n(-10.0), n(50.0), n(0.0), n(35.0));
    let paths = graticule(extent);
    let meridians: Vec<f64> = paths
        .iter()
        .filter(|p| p.kind == GraticuleKind::Meridian)
        .map(|p| f(p.degrees))
        .collect();
    let parallels: Vec<f64> = paths
        .iter()
        .filter(|p| p.kind == GraticuleKind::Parallel)
        .map(|p| f(p.degrees))
        .collect();
    assert_eq!(meridians, vec![-10.0, 0.0, 10.0, 20.0, 30.0, 40.0, 50.0]);
    assert_eq!(parallels, vec![0.0, 5.0, 10.0, 15.0, 20.0, 25.0, 30.0, 35.0]);
    let first = &paths[0].coordinates;
    assert_eq!(first.len(), 33);
    assert_eq!((f(first[0].x), f(first[0].y)), (-10.0, 0.0));
    assert_eq!((f(first[32].x), f(first[32].y)), (-10.0, 35.0));
    assert_eq!(f(first[16].y), 17.5);

    // A path that its projection loses in the middle comes back in two lines.
    let mut angles: Vec<Vec<Trig>> = paths
        .iter()
        .map(|p| {
            let near = Trig { cos_lon: n(1.0), cos_lat: n(1.0), ..nothing_at() };
            p.coordinates.iter().map(|_| near).collect()
        })
        .collect();
    angles[0][10].cos_lon = n(-1.0);
    angles[1] = Vec::new();
    let lines = graticule_lines(Projection::Orthographic, extent, &angles);
    assert_eq!(lines.len(), paths.len());
    assert_eq!(lines[0].points.len(), 10);
    assert_eq!(lines[1].points.len(), 22);
    assert_eq!(f(lines[1].degrees), -10.0);
    assert_eq!(f(lines[2].degrees), 10.0);
}

#[test]
fn runs_of_one_point_are_dropped() {
    let p = |x: f64| Some(Point { x: n(x), y: n(0.0) });
    let runs = split_runs(&vec![p(1.0), None, p(2.0), p(3.0), None, None, p(4.0)]);
    assert_eq!(runs.len(), 1);
    assert_eq!(runs[0].len(), 2);
}

fn frame() -> Rect {
    Rect { x0: n(0.0), y0: n(0.0), x1: n(10.0), y1: n(10.0) }
}

#[test]
fn a_segment_is_cut_at_the_frame() {
    let clip = |a: (f64, f64), b: (f64, f64)| {
        clip_segment(
            Point { x: n(a.0), y: n(a.1) },
            Point { x: n(b.0), y: n(b.1) },
            frame(),
        )
        .map(|(p, q)| (f(p.x), f(p.y), f(q.x), f(q.y)))
    };
    assert_eq!(clip((2.0, 3.0), (4.0, 5.0)), Some((2.0, 3.0, 4.0, 5.0)));
    assert_eq!(clip((-5.0, 5.0), (15.0, 5.0)), Some((0.0, 5.0, 10.0, 5.0)));
    assert_eq!(clip((-5.0, -5.0), (15.0, 15.0)), Some((0.0, 0.0, 10.0, 10.0)));
    assert_eq!(clip((-5.0, 11.0), (15.0, 11.0)), None);
    assert_eq!(clip((-2.0, 3.0), (-1.0, 4.0)), None);
    assert_eq!(clip((0.0, 12.0), (12.0, 24.0)), None);
}

#[test]
fn a_polyline_is_split_where_it_leaves_the_frame() {
    let points: Vec<Point> = [(1.0, 5.0), (9.0, 5.0), (15.0, 5.0), (15.0, 8.0), (5.0, 8.0)]
        .iter()
        .map(|(x, y)| Point { x: n(*x), y: n(*y) })
        .collect();
    let runs = clip_polyline(&points, frame());
    let seen: Vec<Vec<(f64, f64)>> = runs
        .iter()
        .map(|r| r.iter().map(|p| (f(p.x), f(p.y))).collect())
        .collect();
    assert_eq!(
        seen,
        vec![
            vec![(1.0, 5.0), (9.0, 5.0), (10.0, 5.0)],
            vec![(10.0, 8.0), (5.0, 8.0)]
        ]
    );
    assert!(clip_polyline(&Vec::new(), frame()).is_empty());
}

#[test]
fn a_map_is_fitted_with_equal_pixels_per_unit() {
    let bbox = Rect { x0: n(0.0), y0: n(0.0), x1: n(10.0), y1: n(5.0) };
    let to = aspect_fit_domains(bbox, span(0.0, 100.0), span(100.0, 0.0));
    assert_eq!((f(to.x0), f(to.x1)), (0.0, 10.0));
    assert_eq!((f(to.y0), f(to.y1)), (-2.5, 7.5));
}

#[test]
fn a_projected_dot_stands_on_its_graticule() {
    let batch = table(vec![("x", floats(vec![5.0])), ("y", floats(vec![5.0]))]);
    let mut cm = channels(&[(Channel::X, "x"), (Channel::Y, "y")]);
    cm.projection = Some(Projection::Equirectangular);
    let mut scales = ScaleSet::new(ink());
    scales.insert(Channel::X, linear(0.0, 10.0, 0.0, 100.0));
    scales.insert(Channel::Y, linear(0.0, 10.0, 100.0, 0.0));
    let extent = GeoExtent::new(n(0.0), n(10.0), n(0.0), n(10.0));
    scales.geo_extent = Some(extent);
    let angles = Angles {
        rows: vec![nothing_at()],
        lines: graticule(extent)
            .iter()
            .map(|p| p.coordinates.iter().map(|_| nothing_at()).collect())
            .collect(),
    };
    let mut scene = Scene::new();
    DotRenderer.render(&mut scene, &batch, &cm, &scales, None, &angles);
    // Eleven meridians and eleven parallels a degree apart, then the dot.
    assert_eq!(scene.ops.len(), 23);
    assert!(matches!(&scene.ops[22], DrawOp::Fill(_, Shape::Circle(_, _))));
    match &scene.ops[0] {
        DrawOp::Stroke(w, c, Shape::Path(_)) => {
            assert_eq!(f(*w), 0.5);
            assert_eq!(bits(*c), bits(ink().grid));
        }
        other => panic!("expected a graticule line, got {other:?}"),
    }
}

#[test]
fn a_map_is_drawn_in_the_projection_its_channels_name() {
    let batch = geo_batch(vec![SQUARE], None);
    for p in all() {
        let angles: Vec<AngleRow> = GeoRenderer::default()
            .rings(&batch)
            .iter()
            .map(|rings| {
                rings
                    .iter()
                    .map(|ring| ring.iter().map(|c| trig(p, f(c.x), f(c.y))).collect())
                    .collect()
            })
            .collect();
        let mut cm = ChannelMap::new();
        cm.projection = Some(p);
        let planar = GeoRenderer::default().project_rings(&batch, &cm, &angles);
        let ring = &GeoRenderer::default().rings(&batch)[0][0];
        for (at, c) in planar[0][0].iter().zip(ring) {
            assert_eq!(at.map(|q| (f(q.x), f(q.y))), project(p, f(c.x), f(c.y)));
        }
        let path = project_path(p, ring, &angles[0][0]);
        assert_eq!(path.len(), ring.len());
    }
    // Without a projection the coordinates are the positions.
    let plain = GeoRenderer::default().project_rings(&batch, &ChannelMap::new(), &flat(&batch));
    assert_eq!(plain[0][0][2].map(|q| (f(q.x), f(q.y))), Some((10.0, 10.0)));
}
