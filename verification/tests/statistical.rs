#![allow(dead_code, unused_imports)]
use std::collections::{BTreeMap, HashSet};
use std::sync::Arc;

use arrow::array::{
    Array, ArrayRef, BooleanArray, Date32Array, Float32Array, Float64Array, Int16Array,
    Int32Array, Int64Array, Int8Array, LargeStringArray, StringArray, TimestampMicrosecondArray,
    UInt16Array, UInt32Array, UInt64Array, UInt8Array,
};
use arrow::record_batch::RecordBatch;
use brightfield_render::batch::{Batch, Records};
use brightfield_render::cartography::Trig;
use brightfield_render::channel::{Channel, ChannelMap, LabelForm};
use brightfield_render::colour::Rgba;
use brightfield_render::drawing::{
    count_scene_glyphs, count_scene_paths, DrawOp, Point, Rect, Scene, Shape, Step, TextAnchor,
};
use brightfield_render::infer::{infer_scales, Range};
use brightfield_render::ink::{ChartInk, Theme};
use brightfield_render::number::Number;
use brightfield_render::scale::Scale;
use brightfield_render::scale_set::ScaleSet;
use brightfield_render::single::Single;
use brightfield_render::cell::CellRenderer;
use brightfield_render::contour::ContourRenderer;
use brightfield_render::dash::{dash_polyline, Rhythm, Segment};
use brightfield_render::density::{
    density_1d_weighted_pairs, density_grid, Density1DRenderer, Density2DRenderer, DensityAxis,
    Kernel,
};
use brightfield_render::hexbin::{
    HexbinRenderer, HEX_DX_COL, HEX_DY_COL, HEX_X0_COL, HEX_X1_COL, HEX_Y0_COL, HEX_Y1_COL,
};
use brightfield_render::hexgrid::{lattice_centres, HexgridRenderer};
use brightfield_render::kde::{build_kde_grid, histogram, KdeGrid, Smoothing, DENSITY_COUNT_COL};
use brightfield_render::lattice::{bin_step, sorted_unique};
use brightfield_render::mark::{
    configured_renderer, default_renderers, find_renderer, owned_default_renderer, AnyMark, Given,
    MarkKind, MarkRenderer,
};
use brightfield_render::raster::{HeatmapRenderer, RasterRenderer, RASTER_MIN_T};
use brightfield_render::regression::{FitLengths, RegressionRenderer};
use brightfield_render::scheme::SequentialScheme;
use brightfield_render::student::t_critical;

fn n(x: f64) -> Number {
    Number::from_bits(x.to_bits())
}

fn f(x: Number) -> f64 {
    f64::from_bits(x.to_bits())
}

fn single(x: f32) -> Single {
    Single::from_bits(x.to_bits())
}

fn rgba(c: [f32; 4]) -> Rgba {
    Rgba { r: single(c[0]), g: single(c[1]), b: single(c[2]), a: single(c[3]) }
}

fn parts(c: Rgba) -> [f32; 4] {
    [
        f32::from_bits(c.r.bits),
        f32::from_bits(c.g.bits),
        f32::from_bits(c.b.bits),
        f32::from_bits(c.a.bits),
    ]
}

fn span(a: f64, b: f64) -> Range {
    Range { start: n(a), end: n(b) }
}

fn across() -> Range {
    span(40.0, 600.0)
}

fn upright() -> Range {
    span(450.0, 20.0)
}

fn grey(v: f32) -> Rgba {
    rgba([v, v, v, 1.0])
}

fn ink() -> ChartInk {
    ChartInk {
        background: grey(0.99),
        mark_default: rgba([0.1, 0.35, 0.7, 1.0]),
        null: rgba([0.55, 0.54, 0.5, 1.0]),
        grid: grey(0.9),
        hexgrid_stroke: grey(0.85),
        geo_stroke: grey(0.4),
        selection_wash: rgba([0.2, 0.4, 0.9, 0.14]),
        selection_bound: rgba([0.2, 0.4, 0.9, 1.0]),
        knockout: rgba([1.0, 0.98, 0.97, 1.0]),
        notice_fill: rgba([0.95, 0.7, 0.1, 1.0]),
        notice_text: rgba([0.2, 0.1, 0.0, 1.0]),
        widget_border: grey(0.8),
        widget_fill: grey(0.97),
        widget_label: grey(0.15),
        widget_affordance: grey(0.5),
        widget_active: rgba([0.0, 0.3, 0.6, 1.0]),
    }
}

fn theme() -> Theme {
    Theme {
        ink: ink(),
        categorical: vec![
            rgba([0.1, 0.35, 0.7, 1.0]),
            rgba([0.9, 0.45, 0.1, 1.0]),
            rgba([0.2, 0.6, 0.3, 1.0]),
        ],
        meridian: meridian(),
    }
}

fn meridian() -> Vec<Rgba> {
    vec![rgba([0.95, 0.93, 0.9, 1.0]), rgba([0.4, 0.5, 0.6, 1.0]), rgba([0.05, 0.1, 0.3, 1.0])]
}

fn floats(v: Vec<f64>) -> ArrayRef {
    Arc::new(Float64Array::from(v))
}

fn maybe(v: Vec<Option<f64>>) -> ArrayRef {
    Arc::new(Float64Array::from(v))
}

fn words(v: Vec<&str>) -> ArrayRef {
    Arc::new(StringArray::from(v))
}

fn maybe_words(v: Vec<Option<&str>>) -> ArrayRef {
    Arc::new(StringArray::from(v))
}

fn table(columns: Vec<(&str, ArrayRef)>) -> Batch {
    Batch::read(&Records { arrow: RecordBatch::try_from_iter(columns).unwrap() })
}

fn channels(pairs: &[(Channel, &str)]) -> ChannelMap {
    let mut cm = ChannelMap::new();
    for (c, name) in pairs {
        cm.insert(*c, name.to_string());
    }
    cm
}

fn inferred(batch: &Batch, cm: &ChannelMap) -> ScaleSet {
    infer_scales(batch, cm, across(), upright(), &theme())
}

/// Elementary functions that are all zero, for what does not read them.
fn nothing_at() -> Trig {
    let zero = n(0.0);
    Trig {
        sin_lon: zero,
        cos_lon: zero,
        sin_lat: zero,
        cos_lat: zero,
        log: zero,
        angle: zero,
        arc: zero,
        sin_arc: zero,
        cos_arc: zero,
        sin_turn: zero,
        cos_turn: zero,
        power: zero,
    }
}

fn linear(d0: f64, d1: f64, r0: f64, r1: f64) -> Scale {
    Scale::Linear { domain_min: n(d0), domain_max: n(d1), range_start: n(r0), range_end: n(r1) }
}

fn domain(scale: Option<&Scale>) -> (f64, f64) {
    let s = scale.expect("a scale");
    (f(s.domain_min().expect("a domain")), f(s.domain_max().expect("a domain")))
}

/// The colour of every filled or stroked shape, in order.
fn colours(scene: &Scene) -> Vec<[u32; 4]> {
    let mut out = Vec::new();
    for op in &scene.ops {
        match op {
            DrawOp::Fill(c, _) => out.push(bits(*c)),
            DrawOp::Stroke(_, c, _) => out.push(bits(*c)),
            _ => {}
        }
    }
    out
}

fn colour_set(scene: &Scene) -> HashSet<[u32; 4]> {
    colours(scene).into_iter().collect()
}

fn bits(c: Rgba) -> [u32; 4] {
    [c.r.bits, c.g.bits, c.b.bits, c.a.bits]
}

fn bins_cm() -> ChannelMap {
    channels(&[(Channel::X, "x_bin"), (Channel::Y, "y_bin")])
}

fn bins(xs: Vec<f64>, ys: Vec<f64>, counts: Vec<f64>) -> Batch {
    table(vec![
        ("x_bin", floats(xs)),
        ("y_bin", floats(ys)),
        (DENSITY_COUNT_COL, floats(counts)),
    ])
}

fn numbers(v: &[Number]) -> Vec<f64> {
    v.iter().map(|x| f(*x)).collect()
}

/// Gaussian smoothing of a histogram, cell by cell.
fn kde_2d(bins: &[u32], shape: (usize, usize), h: (f64, f64), step: (f64, f64)) -> Vec<f64> {
    let (rows, cols) = shape;
    let mut out = vec![0.0; rows * cols];
    for r in 0..rows {
        for c in 0..cols {
            for i in 0..rows {
                for j in 0..cols {
                    let dx = (c as f64 - j as f64) * step.0 / h.0;
                    let dy = (r as f64 - i as f64) * step.1 / h.1;
                    out[r * cols + c] +=
                        f64::from(bins[i * cols + j]) * (-0.5 * (dx * dx + dy * dy)).exp();
                }
            }
        }
    }
    out
}

fn silverman(samples: &[f64]) -> f64 {
    let n = samples.len() as f64;
    let mean = samples.iter().sum::<f64>() / n;
    let var = samples.iter().map(|x| (x - mean).powi(2)).sum::<f64>() / n;
    1.06 * var.sqrt() * n.powf(-0.2)
}

fn smoothing(batch: &Batch, bandwidth: Option<f64>) -> Smoothing {
    let h = histogram(batch, "x_bin", "y_bin").expect("a histogram");
    let samples = h.samples();
    let xs: Vec<f64> = samples.iter().map(|p| f(p.x)).collect();
    let ys: Vec<f64> = samples.iter().map(|p| f(p.y)).collect();
    let (h_x, h_y) = (silverman(&xs), silverman(&ys));
    let used = match bandwidth {
        Some(b) => (b, b),
        None => (h_x, h_y),
    };
    let density = kde_2d(
        &h.bins,
        (h.y_centres.len(), h.x_centres.len()),
        used,
        (f(h.dx), f(h.dy)),
    );
    Smoothing { h_x: n(h_x), h_y: n(h_y), density: density.into_iter().map(n).collect() }
}

fn grid(batch: &Batch, bandwidth: Option<f64>) -> KdeGrid {
    build_kde_grid(batch, "x_bin", "y_bin", bandwidth.map(n), &smoothing(batch, bandwidth))
        .expect("grid builds")
}

fn kernel(batch: &Batch, column: &str) -> Kernel {
    let pairs = density_1d_weighted_pairs(batch, column).expect("weighted pairs");
    let total: f64 = pairs.iter().map(|p| f(p.y)).sum();
    let mean: f64 = pairs.iter().map(|p| f(p.x) * f(p.y)).sum::<f64>() / total;
    let var: f64 =
        pairs.iter().map(|p| (f(p.x) - mean).powi(2) * f(p.y)).sum::<f64>() / total;
    let h = 1.06 * var.sqrt() * total.powf(-0.2);
    let places = density_grid(&pairs, n(h));
    let density = places
        .iter()
        .map(|g| {
            n(pairs
                .iter()
                .map(|p| f(p.y) * (-0.5 * ((f(*g) - f(p.x)) / h).powi(2)).exp())
                .sum())
        })
        .collect();
    Kernel { bandwidth: n(h), density }
}

fn rects(scene: &Scene) -> Vec<(f64, f64, f64, f64)> {
    scene
        .ops
        .iter()
        .filter_map(|op| match op {
            DrawOp::Fill(_, Shape::Rect(r)) => Some((f(r.x0), f(r.y0), f(r.x1), f(r.y1))),
            _ => None,
        })
        .collect()
}

#[test]
fn density1d_x_renders_filled_path() {
    let batch = table(vec![
        ("x_bin", floats(vec![0.0, 1.0, 2.0, 3.0, 4.0, 5.0, 6.0, 7.0])),
        (DENSITY_COUNT_COL, floats(vec![1.0, 4.0, 10.0, 20.0, 20.0, 10.0, 4.0, 1.0])),
    ]);
    let cm = channels(&[(Channel::X, "x_bin")]);
    let mut scales = inferred(&batch, &cm);
    let renderer = Density1DRenderer { axis: DensityAxis::X };
    let k = kernel(&batch, "x_bin");
    renderer.augment_scales(&mut scales, &batch, &cm, across(), upright(), k.bandwidth);
    let (low, high) = domain(scales.get(Channel::X));
    assert!((low + 3.0 * f(k.bandwidth)).abs() < 1e-9, "the tails are on the axis");
    assert!((high - 7.0 - 3.0 * f(k.bandwidth)).abs() < 1e-9);
    assert_eq!(domain(scales.get(Channel::Y)), (0.0, 1.0));
    let mut scene = Scene::new();
    renderer.render(&mut scene, &batch, &cm, &scales, None, &k);
    assert!(count_scene_paths(&scene) >= 1, "the curve is a filled path");
    match &scene.ops[0] {
        DrawOp::Fill(_, Shape::Path(steps)) => {
            assert_eq!(steps.len(), 195, "192 points, two on the baseline, and the close");
        }
        other => panic!("expected a filled path, got {other:?}"),
    }
}

#[test]
fn density1d_y_renders_filled_path() {
    let batch = table(vec![
        ("y_bin", floats(vec![0.0, 1.0, 2.0, 3.0, 4.0])),
        (DENSITY_COUNT_COL, floats(vec![1.0, 5.0, 12.0, 5.0, 1.0])),
    ]);
    let cm = channels(&[(Channel::Y, "y_bin")]);
    let mut scales = inferred(&batch, &cm);
    let renderer = Density1DRenderer { axis: DensityAxis::Y };
    let k = kernel(&batch, "y_bin");
    renderer.augment_scales(&mut scales, &batch, &cm, across(), upright(), k.bandwidth);
    let mut scene = Scene::new();
    renderer.render(&mut scene, &batch, &cm, &scales, None, &k);
    assert!(count_scene_paths(&scene) >= 1, "the curve is a filled path");
}

#[test]
fn a_flat_estimate_draws_no_curve() {
    let batch = table(vec![
        ("x_bin", floats(vec![0.0, 1.0])),
        (DENSITY_COUNT_COL, floats(vec![1.0, 1.0])),
    ]);
    let cm = channels(&[(Channel::X, "x_bin")]);
    let mut scales = inferred(&batch, &cm);
    let renderer = Density1DRenderer { axis: DensityAxis::X };
    renderer.augment_scales(&mut scales, &batch, &cm, across(), upright(), n(1.0));
    let mut scene = Scene::new();
    let none = Kernel { bandwidth: n(1.0), density: Vec::new() };
    renderer.render(&mut scene, &batch, &cm, &scales, None, &none);
    assert_eq!(count_scene_paths(&scene), 0);
    let unsmoothed = Kernel { bandwidth: n(0.0), density: vec![n(1.0); 192] };
    renderer.render(&mut scene, &batch, &cm, &scales, None, &unsmoothed);
    assert_eq!(count_scene_paths(&scene), 0);
}

fn heatmap_batch() -> Batch {
    bins(
        vec![0.0, 1.0, 2.0, 0.0, 1.0, 2.0, 0.0, 1.0, 2.0],
        vec![0.0, 0.0, 0.0, 1.0, 1.0, 1.0, 2.0, 2.0, 2.0],
        vec![1.0, 4.0, 1.0, 4.0, 16.0, 4.0, 1.0, 4.0, 1.0],
    )
}

fn scrambled_batch() -> Batch {
    bins(
        vec![1.0, 0.0, 2.0, 0.0, 1.0, 2.0, 1.0, 0.0],
        vec![1.0, 0.0, 0.0, 1.0, 0.0, 1.0, 2.0, 2.0],
        vec![16.0, 1.0, 1.0, 4.0, 4.0, 4.0, 4.0, 1.0],
    )
}

#[test]
fn density2d_renders_circle_grid() {
    let batch = heatmap_batch();
    let cm = bins_cm();
    let scales = inferred(&batch, &cm);
    let mut scene = Scene::new();
    Density2DRenderer.render(&mut scene, &batch, &cm, &scales, None, &smoothing(&batch, None));
    assert!(count_scene_paths(&scene) >= 9, "one circle per cell of a 3×3 grid");
}

#[test]
fn kde_grid_helper_matches_inline_path() {
    let batch = scrambled_batch();
    let g = grid(&batch, None);
    assert_eq!(numbers(&g.x_centres), vec![0.0, 1.0, 2.0], "x centres sorted");
    assert_eq!(numbers(&g.y_centres), vec![0.0, 1.0, 2.0], "y centres sorted");
    assert_eq!(f(g.dx), 1.0);
    assert_eq!(f(g.dy), 1.0);
    assert_eq!((g.rows(), g.cols()), (3, 3));

    let counts: Vec<u32> = vec![1, 4, 1, 4, 16, 4, 1, 4, 0];
    let h = histogram(&batch, "x_bin", "y_bin").expect("a histogram");
    assert_eq!(h.bins, counts, "row by row, the missing bin at zero");
    let mut xs = Vec::new();
    let mut ys = Vec::new();
    for r in 0..3 {
        for c in 0..3 {
            for _ in 0..counts[r * 3 + c] {
                xs.push(c as f64);
                ys.push(r as f64);
            }
        }
    }
    let samples = h.samples();
    assert_eq!(samples.iter().map(|p| f(p.x)).collect::<Vec<f64>>(), xs);
    assert_eq!(samples.iter().map(|p| f(p.y)).collect::<Vec<f64>>(), ys);
    let expected = kde_2d(&counts, (3, 3), (silverman(&xs), silverman(&ys)), (1.0, 1.0));
    assert_eq!(numbers(&g.density), expected);
    let expected_max = expected.iter().cloned().fold(0.0_f64, f64::max);
    assert_eq!(f(g.max_density), expected_max);

    let with_bw = grid(&batch, Some(0.5));
    assert_eq!(
        numbers(&with_bw.density),
        kde_2d(&counts, (3, 3), (0.5, 0.5), (1.0, 1.0))
    );
    assert!(with_bw.density != g.density);

    let s = smoothing(&batch, None);
    assert!(build_kde_grid(&batch, "missing", "y_bin", None, &s).is_none());
    assert!(build_kde_grid(&batch, "x_bin", "y_bin", Some(n(0.0)), &s).is_none());
    let flat = Smoothing { h_x: n(1.0), h_y: n(1.0), density: vec![n(0.0); 9] };
    assert!(build_kde_grid(&batch, "x_bin", "y_bin", None, &flat).is_none());
}

#[test]
fn build_kde_grid_dense_lattice_fills_interior_gaps() {
    let dense = bins(
        vec![0.0, 1.0, 0.0, 1.0],
        vec![0.0, 0.0, 1.0, 1.0],
        vec![1.0, 2.0, 3.0, 4.0],
    );
    let g = grid(&dense, None);
    assert_eq!(numbers(&g.x_centres), vec![0.0, 1.0], "contiguous x lattice unchanged");
    assert_eq!(numbers(&g.y_centres), vec![0.0, 1.0], "contiguous y lattice unchanged");

    let gapped = bins(
        vec![0.0, 1.0, 4.0, 0.0, 1.0, 4.0],
        vec![0.0, 0.0, 0.0, 1.0, 1.0, 1.0],
        vec![1.0, 2.0, 3.0, 4.0, 5.0, 6.0],
    );
    let g = grid(&gapped, None);
    assert_eq!(f(g.dx), 1.0, "recovered pitch is the GCD of the gaps 1 and 3");
    assert_eq!(numbers(&g.x_centres), vec![0.0, 1.0, 2.0, 3.0, 4.0]);
    assert_eq!(g.cols(), 5, "five columns span the gapped axis");
    assert_eq!(g.rows(), 2, "the ungapped y axis is untouched");
    let h = histogram(&gapped, "x_bin", "y_bin").expect("a histogram");
    assert_eq!(h.bins, vec![1, 2, 0, 0, 3, 4, 5, 0, 0, 6]);
}

#[test]
fn raster_bin_step_recovers_pitch_from_sparse_centres() {
    let step = |v: &[f64]| bin_step(&v.iter().map(|x| n(*x)).collect()).map(f);
    assert_eq!(step(&[0.0, 2.0, 3.0]), Some(1.0));
    let found = step(&[0.0, 0.9, 2.25]).expect("recovers pitch");
    assert!((found - 0.45).abs() < 1e-9, "GCD of 0.9 and 1.35 is 0.45, got {found}");
    assert_eq!(step(&[10.0]), None, "one centre → no step");
    assert_eq!(
        numbers(&sorted_unique(&vec![Some(n(2.0)), None, Some(n(2.0)), Some(n(1.0))])),
        vec![1.0, 2.0]
    );
}

fn raster_scales(renderer: &RasterRenderer, batch: &Batch) -> ScaleSet {
    let mut scales = inferred(batch, &bins_cm());
    renderer.augment_scales(&mut scales, batch, &bins_cm(), across(), upright(), &meridian());
    scales
}

#[test]
fn raster_renders_one_cell_per_bin() {
    let batch = heatmap_batch();
    let scales = raster_scales(&RasterRenderer::default(), &batch);
    let mut scene = Scene::new();
    RasterRenderer::default().render(&mut scene, &batch, &bins_cm(), &scales, None);
    assert!(count_scene_paths(&scene) >= 9, "one filled cell per bin of a 3×3 grid");
}

#[test]
fn raster_colours_cells_through_ramp() {
    let batch = bins(vec![0.0, 1.0], vec![0.0, 1.0], vec![1.0, 100.0]);
    let scales = raster_scales(&RasterRenderer::default(), &batch);
    let ramp = scales.get(Channel::Fill).expect("fill ramp built");
    let dmax = f(ramp.domain_max().expect("sequential has a domain max"));
    let min_t = f(Number::from_bits(RASTER_MIN_T));
    assert_eq!(min_t, 0.15);
    let sample = |count: f64| {
        let pos = (count / dmax).clamp(0.0, 1.0).max(min_t);
        ramp.map_continuous(n(pos * dmax))
    };
    let (low, high) = (sample(1.0), sample(100.0));
    assert_eq!(parts(low)[3], 1.0, "ramp colours are full-alpha");
    assert_eq!(parts(high)[3], 1.0, "ramp colours are full-alpha");
    assert!(low != high, "ramp maps the two counts to distinct colours");
    let mut scene = Scene::new();
    RasterRenderer::default().render(&mut scene, &batch, &bins_cm(), &scales, None);
    assert_eq!(colour_set(&scene), HashSet::from([bits(low), bits(high)]));

    let mut no_fill = ScaleSet::new(ink());
    no_fill.insert(Channel::X, scales.get(Channel::X).unwrap().clone());
    no_fill.insert(Channel::Y, scales.get(Channel::Y).unwrap().clone());
    let mut scene2 = Scene::new();
    RasterRenderer::default().render(&mut scene2, &batch, &bins_cm(), &no_fill, None);
    let [cr, cg, cb, _] = parts(ink().mark_default);
    let alpha_low = (1.0_f64 / 100.0).clamp(0.0, 1.0).max(min_t) as f32;
    assert_eq!(
        colour_set(&scene2),
        HashSet::from([
            bits(rgba([cr, cg, cb, alpha_low])),
            bits(rgba([cr, cg, cb, 1.0]))
        ])
    );
}

fn hexbin_batch(fill_col: &str, fills: Vec<f64>) -> Batch {
    table(vec![
        ("x", floats(vec![0.0, 10.0])),
        ("y", floats(vec![0.0, 10.0])),
        (fill_col, floats(fills)),
        (HEX_DX_COL, floats(vec![2.0, 2.0])),
        (HEX_DY_COL, floats(vec![2.0, 2.0])),
    ])
}

fn hexbin_cm(fill_col: &str) -> ChannelMap {
    channels(&[(Channel::X, "x"), (Channel::Y, "y"), (Channel::Fill, fill_col)])
}

fn hexbin_scales(batch: &Batch, cm: &ChannelMap) -> ScaleSet {
    let mut scales = inferred(batch, cm);
    HexbinRenderer::default().augment_scales(
        &mut scales,
        batch,
        cm,
        across(),
        upright(),
        &meridian(),
    );
    scales
}

#[test]
fn count_fills_ramp_through_sequential() {
    let batch = hexbin_batch(DENSITY_COUNT_COL, vec![1.0, 100.0]);
    let cm = hexbin_cm(DENSITY_COUNT_COL);
    let scales = hexbin_scales(&batch, &cm);
    let ramp = scales.get(Channel::Fill).expect("count ramp built");
    assert_eq!(ramp.domain_max().map(f), Some(100.0), "count ramp zero-anchored");
    let sample = |count: f64| {
        let pos = (count / 100.0).clamp(0.0, 1.0).max(0.15);
        ramp.map_continuous(n(pos * 100.0))
    };
    let mut scene = Scene::new();
    HexbinRenderer::default().render(&mut scene, &batch, &cm, &scales, None);
    assert_eq!(count_scene_paths(&scene), 2, "one hexagon fill per row");
    assert_eq!(colour_set(&scene), HashSet::from([bits(sample(1.0)), bits(sample(100.0))]));
}

#[test]
fn avg_fills_follow_cell_anchoring() {
    let batch = hexbin_batch("v", vec![15.0, 100.0]);
    let cm = hexbin_cm("v");
    let scales = hexbin_scales(&batch, &cm);
    let ramp = scales.get(Channel::Fill).expect("avg ramp built");
    assert_eq!(ramp.domain_max().map(f), Some(100.0));
    let mut scene = Scene::new();
    HexbinRenderer::default().render(&mut scene, &batch, &cm, &scales, None);
    assert_eq!(
        colour_set(&scene),
        HashSet::from([
            bits(ramp.map_continuous(n(15.0))),
            bits(ramp.map_continuous(n(100.0)))
        ])
    );
}

#[test]
fn augment_scales_widens_and_anchors() {
    let batch = hexbin_batch("v", vec![-5.0, 10.0]);
    let cm = hexbin_cm("v");
    let scales = hexbin_scales(&batch, &cm);
    for c in [Channel::X, Channel::Y] {
        let (low, high) = domain(scales.get(c));
        assert!((low - (-2.0)).abs() < 1e-9, "widened low");
        assert!((high - 12.0).abs() < 1e-9, "widened high");
    }
    assert!(matches!(scales.get(Channel::Fill), Some(Scale::Sequential { .. })));
    let (low, high) = domain(scales.get(Channel::Fill));
    assert_eq!(high, 10.0);
    assert!((low - (-5.0)).abs() < 1e-9);
}

fn swatches() -> Scale {
    Scale::Colour {
        categories: vec!["a".to_string(), "b".to_string()],
        palette: vec![rgba([1.0, 0.0, 0.0, 1.0]), rgba([0.0, 1.0, 0.0, 1.0])],
    }
}

#[test]
fn augment_scales_merges_not_clobber() {
    let batch = hexbin_batch(DENSITY_COUNT_COL, vec![1.0, 100.0]);
    let cm = hexbin_cm(DENSITY_COUNT_COL);
    let mut scales = ScaleSet::new(ink());
    scales.insert(Channel::Fill, swatches());
    HexbinRenderer::default().augment_scales(
        &mut scales,
        &batch,
        &cm,
        across(),
        upright(),
        &meridian(),
    );
    assert!(matches!(scales.get(Channel::Fill), Some(Scale::Colour { .. })));
}

#[test]
fn configured_renderer_rebuild_parity() {
    let batch = hexbin_batch(DENSITY_COUNT_COL, vec![1.0, 100.0]);
    let cm = hexbin_cm(DENSITY_COUNT_COL);
    let renderer =
        configured_renderer(MarkKind::Hexbin, SequentialScheme::Turbo, None, None, None)
            .expect("hexbin has a configured renderer");
    let mut scales = inferred(&batch, &cm);
    let given = Given::nothing();
    renderer.augment_scales(&mut scales, &batch, &cm, across(), upright(), &meridian(), &given);
    let mut a = Scene::new();
    renderer.render(&mut a, &batch, &cm, &scales, None, &given);
    let mut b = Scene::new();
    renderer.render(&mut b, &batch, &cm, &scales, None, &given);
    assert_eq!(colours(&a), colours(&b));
    let vscales = hexbin_scales(&batch, &cm);
    let mut viridis = Scene::new();
    HexbinRenderer::default().render(&mut viridis, &batch, &cm, &vscales, None);
    assert_ne!(colours(&a), colours(&viridis));
}

fn hexgrid_batch() -> Batch {
    let one: ArrayRef = Arc::new(Int64Array::from(vec![1]));
    table(vec![("__bf_hexgrid", one)])
}

#[test]
fn hexgrid_mesh_covers_plot_extent() {
    let renderer = HexgridRenderer { bin_width: n(20.0) };
    let mut scales = ScaleSet::new(ink());
    scales.insert(Channel::X, linear(0.0, 1.0, 40.0, 240.0));
    scales.insert(Channel::Y, linear(0.0, 1.0, 170.0, 20.0));
    let expected = lattice_centres(span(40.0, 240.0), span(170.0, 20.0), n(20.0)).len();
    assert!(expected > 0, "lattice must cover the rect");
    // Columns -1 to 11 and rows -1 to 10.
    assert_eq!(expected, 13 * 12);
    let mut scene = Scene::new();
    renderer.render(&mut scene, &hexgrid_batch(), &ChannelMap::new(), &scales, None);
    assert_eq!(count_scene_paths(&scene), expected, "one outline per lattice centre");
}

fn lowerer_hex_centres(
    w: f64,
    h: f64,
    b: f64,
    x: (f64, f64),
    y: (f64, f64),
) -> (Vec<(f64, f64)>, f64, f64) {
    let sqrt3 = 1.732_050_807_568_877_2_f64;
    let size = b / sqrt3;
    let dx = (b / 2.0) / w * (x.1 - x.0);
    let dy = size / h * (y.1 - y.0);
    let mut out = Vec::new();
    for r in -40..=40 {
        for q in -40..=40 {
            let cx_px = size * (sqrt3 * q as f64 + (sqrt3 / 2.0) * r as f64);
            let cy_px = size * 1.5 * r as f64;
            let cx = x.0 + cx_px / w * (x.1 - x.0);
            let cy = y.0 + cy_px / h * (y.1 - y.0);
            if cx >= x.0 && cx <= x.1 && cy >= y.0 && cy <= y.1 {
                out.push((cx, cy));
            }
        }
    }
    (out, dx, dy)
}

fn assert_hexbin_mesh_coincides(w: f64, h: f64, b: f64, x: (f64, f64), y: (f64, f64)) {
    let x_range = span(40.0, 40.0 + w);
    let y_range = span(20.0 + h, 20.0);
    let (centres, dx, dy) = lowerer_hex_centres(w, h, b, x, y);
    assert!(centres.len() > 20, "enough occupied hexes to probe");
    let count = centres.len();
    let batch = table(vec![
        ("x", floats(centres.iter().map(|c| c.0).collect())),
        ("y", floats(centres.iter().map(|c| c.1).collect())),
        (HEX_DX_COL, floats(vec![dx; count])),
        (HEX_DY_COL, floats(vec![dy; count])),
        (HEX_X0_COL, floats(vec![x.0; count])),
        (HEX_X1_COL, floats(vec![x.1; count])),
        (HEX_Y0_COL, floats(vec![y.0; count])),
        (HEX_Y1_COL, floats(vec![y.1; count])),
        (DENSITY_COUNT_COL, floats(vec![1.0; count])),
    ]);
    let cm = hexbin_cm(DENSITY_COUNT_COL);
    let mut scales = infer_scales(&batch, &cm, x_range, y_range, &theme());
    HexbinRenderer::default().augment_scales(
        &mut scales,
        &batch,
        &cm,
        x_range,
        y_range,
        &meridian(),
    );
    let x_scale = scales.get(Channel::X).unwrap();
    let y_scale = scales.get(Channel::Y).unwrap();
    let lat = HexgridRenderer { bin_width: n(b) }
        .sibling_lattice(x_scale, y_scale)
        .expect("a widened data scale yields the sibling lattice");
    let mesh: Vec<(f64, f64)> = lat
        .data_centres()
        .into_iter()
        .map(|p| (f(x_scale.map_f64(p.x)), f(y_scale.map_f64(p.y))))
        .collect();
    let mut worst = 0.0_f64;
    for (cx, cy) in &centres {
        let (hx, hy) = (f(x_scale.map_f64(n(*cx))), f(y_scale.map_f64(n(*cy))));
        let nearest = mesh
            .iter()
            .map(|(mx, my)| ((mx - hx).powi(2) + (my - hy).powi(2)).sqrt())
            .fold(f64::INFINITY, f64::min);
        worst = worst.max(nearest);
    }
    assert!(worst < 1e-6, "every hexbin centre sits on a mesh centre; worst {worst} px");
}

#[test]
fn lattice_pitch_matches_hexbin_geometry() {
    assert_hexbin_mesh_coincides(460.0, 370.0, 20.0, (0.0, 9.2), (0.0, 7.4));
    assert_hexbin_mesh_coincides(500.0, 300.0, 30.0, (0.0, 50.0), (0.0, 6.0));
}

#[test]
fn dataless_hexgrid_renders_headlessly() {
    let renderer = HexgridRenderer::default();
    let batch = hexgrid_batch();
    let cm = ChannelMap::new();
    let mut scales = inferred(&batch, &cm);
    assert!(scales.get(Channel::X).is_none(), "no data-driven x scale");
    renderer.augment_scales(&mut scales, &batch, &cm, across(), upright());
    assert!(scales.get(Channel::X).is_some(), "unit x scale synthesised");
    let mut scene = Scene::new();
    renderer.render(&mut scene, &batch, &cm, &scales, None);
    assert!(count_scene_paths(&scene) > 0, "dataless mesh still renders");
}

#[test]
fn hexgrid_augment_preserves_existing_scales() {
    let renderer = HexgridRenderer::default();
    let mut scales = ScaleSet::new(ink());
    scales.insert(Channel::X, linear(5.0, 50.0, 40.0, 600.0));
    renderer.augment_scales(
        &mut scales,
        &hexgrid_batch(),
        &ChannelMap::new(),
        across(),
        upright(),
    );
    assert_eq!(scales.get(Channel::X).unwrap().domain_max().map(f), Some(50.0));
}

fn two_bins(counts: Vec<f64>) -> Batch {
    bins(vec![0.0, 1.0], vec![0.0, 1.0], counts)
}

#[test]
fn raster_augment_scales_merges_fill_not_clobber() {
    let cm = bins_cm();
    let (xr, yr) = (span(0.0, 100.0), span(100.0, 0.0));
    let raster = RasterRenderer::default();
    let mut scales = ScaleSet::new(ink());
    scales.insert(Channel::Fill, swatches());
    raster.augment_scales(&mut scales, &two_bins(vec![1.0, 9.0]), &cm, xr, yr, &meridian());
    match scales.get(Channel::Fill) {
        Some(Scale::Colour { categories, .. }) => assert_eq!(categories, &["a", "b"]),
        other => panic!("categorical Fill must survive, got {other:?}"),
    }
    let mut scales = ScaleSet::new(ink());
    raster.augment_scales(&mut scales, &two_bins(vec![3.0, 10.0]), &cm, xr, yr, &meridian());
    raster.augment_scales(&mut scales, &two_bins(vec![50.0, 100.0]), &cm, xr, yr, &meridian());
    assert!(matches!(scales.get(Channel::Fill), Some(Scale::Sequential { .. })));
    assert_eq!(domain(scales.get(Channel::Fill)), (0.0, 100.0));
}

#[test]
fn raster_render_samples_against_shared_ramp_domain() {
    let cm = bins_cm();
    let big = two_bins(vec![50.0, 100.0]);
    let small = two_bins(vec![1.0, 40.0]);
    let raster = RasterRenderer::default();
    let mut scales = inferred(&small, &cm);
    raster.augment_scales(&mut scales, &big, &cm, across(), upright(), &meridian());
    raster.augment_scales(&mut scales, &small, &cm, across(), upright(), &meridian());
    let ramp = scales.get(Channel::Fill).expect("shared ramp");
    assert_eq!(ramp.domain_max().map(f), Some(100.0), "domain unioned to 100");
    let mut scene = Scene::new();
    raster.render(&mut scene, &small, &cm, &scales, None);
    let floor = ramp.map_continuous(n(0.15 * 100.0));
    let high = ramp.map_continuous(n(40.0));
    assert!(floor != high);
    assert_eq!(colour_set(&scene), HashSet::from([bits(floor), bits(high)]));
}

#[test]
fn raster_augment_scales_widens_domain_by_half_bin() {
    let batch = bins(vec![0.0, 1.0, 2.0], vec![0.0, 1.0, 2.0], vec![1.0, 1.0, 1.0]);
    let scales = raster_scales(&RasterRenderer::default(), &batch);
    let (low, high) = domain(scales.get(Channel::X));
    assert!((low - (-0.5)).abs() < 1e-9, "x domain min widened to -0.5");
    assert!((high - 2.5).abs() < 1e-9, "x domain max widened to 2.5");
}

#[test]
fn raster_augment_scales_builds_fill_sequential() {
    let batch = bins(vec![0.0, 1.0, 2.0], vec![0.0, 1.0, 2.0], vec![3.0, 7.0, 1.0]);
    let renderer = RasterRenderer { scheme: SequentialScheme::Blues };
    let scales = raster_scales(&renderer, &batch);
    match scales.get(Channel::Fill) {
        Some(Scale::Sequential { domain_min, domain_max, stops }) => {
            assert_eq!((f(*domain_min), f(*domain_max)), (0.0, 7.0));
            assert_eq!(stops, &SequentialScheme::Blues.stops(&meridian()));
        }
        other => panic!("expected a Fill Sequential scale, got {other:?}"),
    }
    assert_eq!(domain(scales.get(Channel::X)).0, -0.5);
    assert_eq!(domain(scales.get(Channel::Y)).1, 2.5);
}

fn heatmap_scales(renderer: &HeatmapRenderer, batch: &Batch, s: &Smoothing) -> ScaleSet {
    let mut scales = inferred(batch, &bins_cm());
    renderer.augment_scales(
        &mut scales,
        batch,
        &bins_cm(),
        across(),
        upright(),
        &meridian(),
        s,
    );
    scales
}

#[test]
fn heatmap_colours_cells_through_ramp() {
    let batch = scrambled_batch();
    let renderer = HeatmapRenderer::default();
    let s = smoothing(&batch, None);
    let scales = heatmap_scales(&renderer, &batch, &s);
    let g = grid(&batch, None);
    let ramp = scales.get(Channel::Fill).expect("fill ramp built");
    let expected: HashSet<[u32; 4]> =
        g.density.iter().map(|v| bits(ramp.map_continuous(*v))).collect();
    assert_ne!(
        bits(ramp.map_continuous(g.density[4])),
        bits(ramp.map_continuous(g.density[0]))
    );
    let unoccupied = g.density[8];
    assert!(f(unoccupied) > 0.0, "the smoothed field is positive at the unoccupied bin");
    let mut scene = Scene::new();
    renderer.render(&mut scene, &batch, &bins_cm(), &scales, None, &s);
    assert_eq!(count_scene_paths(&scene), 9, "every grid cell, not only occupied bins");
    assert_eq!(colour_set(&scene), expected);
    assert!(colour_set(&scene).contains(&bits(ramp.map_continuous(unoccupied))));

    let mut no_fill = ScaleSet::new(ink());
    no_fill.insert(Channel::X, scales.get(Channel::X).unwrap().clone());
    no_fill.insert(Channel::Y, scales.get(Channel::Y).unwrap().clone());
    let mut scene2 = Scene::new();
    renderer.render(&mut scene2, &batch, &bins_cm(), &no_fill, None, &s);
    let [cr, cg, cb, _] = parts(ink().mark_default);
    let expected: HashSet<[u32; 4]> = g
        .density
        .iter()
        .map(|v| {
            let t = (f(*v) / f(g.max_density)).clamp(0.0, 1.0) as f32;
            bits(rgba([cr, cg, cb, t]))
        })
        .collect();
    assert_eq!(colour_set(&scene2), expected);
}

#[test]
fn heatmap_augment_scales_builds_zero_anchored_fill() {
    let batch = heatmap_batch();
    let renderer = HeatmapRenderer { scheme: SequentialScheme::Blues, bandwidth: None };
    let s = smoothing(&batch, None);
    let scales = heatmap_scales(&renderer, &batch, &s);
    let g = grid(&batch, None);
    match scales.get(Channel::Fill) {
        Some(Scale::Sequential { domain_min, domain_max, stops }) => {
            assert_eq!((f(*domain_min), f(*domain_max)), (0.0, f(g.max_density)));
            assert_eq!(stops, &SequentialScheme::Blues.stops(&meridian()));
        }
        other => panic!("expected a Fill Sequential scale, got {other:?}"),
    }
    assert_eq!(domain(scales.get(Channel::X)), (-0.5, 2.5));
    assert_eq!(domain(scales.get(Channel::Y)), (-0.5, 2.5));
    let mut with_colour = ScaleSet::new(ink());
    with_colour.insert(Channel::Fill, swatches());
    renderer.augment_scales(
        &mut with_colour,
        &batch,
        &bins_cm(),
        across(),
        upright(),
        &meridian(),
        &s,
    );
    match with_colour.get(Channel::Fill) {
        Some(Scale::Colour { categories, .. }) => assert_eq!(categories, &["a", "b"]),
        other => panic!("categorical Fill must survive, got {other:?}"),
    }
}

#[test]
fn heatmap_bandwidth_attr_reaches_kde() {
    let batch = heatmap_batch();
    let render_with = |renderer: &HeatmapRenderer, bandwidth: Option<f64>| {
        let s = smoothing(&batch, bandwidth);
        let scales = heatmap_scales(renderer, &batch, &s);
        let mut scene = Scene::new();
        renderer.render(&mut scene, &batch, &bins_cm(), &scales, None, &s);
        (colour_set(&scene), scales)
    };
    let explicit = HeatmapRenderer {
        scheme: SequentialScheme::default(),
        bandwidth: Some(n(0.5)),
    };
    let (drawn, scales) = render_with(&explicit, Some(0.5));
    let (silverman, _) = render_with(&HeatmapRenderer::default(), None);
    assert_ne!(drawn, silverman);
    let g = grid(&batch, Some(0.5));
    let ramp = scales.get(Channel::Fill).expect("fill ramp built");
    let expected: HashSet<[u32; 4]> =
        g.density.iter().map(|v| bits(ramp.map_continuous(*v))).collect();
    assert_eq!(drawn, expected);
}

#[test]
fn heatmap_gapped_centres_cells_drawn_at_recovered_pitch() {
    let batch = bins(
        vec![0.5, 15.5, 16.5, 0.5],
        vec![0.5, 1.5, 0.5, 1.5],
        vec![1.0, 4.0, 2.0, 3.0],
    );
    let g = grid(&batch, None);
    assert_eq!(f(g.dx), 1.0, "the dense lattice carries the recovered pitch 1");
    assert_eq!(g.x_centres.len(), 17);
    assert_eq!(bin_step(&g.x_centres).map(f), Some(1.0));
    let mut scales = ScaleSet::new(ink());
    scales.insert(Channel::X, linear(0.0, 20.0, 0.0, 20.0));
    scales.insert(Channel::Y, linear(0.0, 20.0, 0.0, 20.0));
    let s = smoothing(&batch, None);
    let mut scene = Scene::new();
    HeatmapRenderer::default().render(&mut scene, &batch, &bins_cm(), &scales, None, &s);
    let coords: HashSet<i64> = rects(&scene)
        .iter()
        .flat_map(|r| [r.0, r.1, r.2, r.3])
        .map(|v| (v * 4.0).round() as i64)
        .collect();
    let has = |v: f64| coords.contains(&((v * 4.0).round() as i64));
    assert!(has(0.0) && has(1.0), "first cell drawn at the recovered pitch 1");
    assert!(has(15.0) && has(17.0), "sparse cells drawn at the recovered pitch 1");
    assert!(has(8.0), "interior gap bins are materialised in the dense lattice");
    assert!(!has(-7.0) && !has(24.0), "no cell spills past the lattice bounds");
    let mut aug = ScaleSet::new(ink());
    HeatmapRenderer::default().augment_scales(
        &mut aug,
        &batch,
        &bins_cm(),
        span(0.0, 20.0),
        span(0.0, 20.0),
        &meridian(),
        &s,
    );
    assert_eq!(domain(aug.get(Channel::X)), (0.0, 17.0));
    assert_eq!(domain(aug.get(Channel::Y)), (0.0, 2.0));
}

#[test]
fn contour_strokes_one_path_per_line_and_counts_its_levels() {
    let batch = heatmap_batch();
    let cm = bins_cm();
    let scales = inferred(&batch, &cm);
    let s = smoothing(&batch, None);
    let point = |x: f64, y: f64| Point { x: n(x), y: n(y) };
    let lines = vec![
        vec![
            vec![point(0.5, 0.5), point(1.5, 0.5), point(1.0, 1.5)],
            vec![point(f64::NAN, 0.5)],
        ],
        vec![vec![point(0.8, 0.8), point(f64::INFINITY, 1.0), point(1.2, 0.8)]],
        vec![vec![point(0.9, 0.9), point(1.1, 0.9)]],
    ];
    let renderer = ContourRenderer { thresholds: Some(2), bandwidth: None };
    assert_eq!(renderer.level_count(), 2);
    assert_eq!(ContourRenderer::default().level_count(), 10);
    let mut scene = Scene::new();
    renderer.render(&mut scene, &batch, &cm, &scales, None, &s, &lines);
    assert_eq!(count_scene_paths(&scene), 2, "a line without a finite point draws nothing");
    let mut all = Scene::new();
    ContourRenderer::default().render(&mut all, &batch, &cm, &scales, None, &s, &lines);
    assert_eq!(count_scene_paths(&all), 3, "the third level lies past two thresholds");
    match &scene.ops[1] {
        DrawOp::Stroke(_, _, Shape::Path(steps)) => assert_eq!(steps.len(), 2),
        other => panic!("expected a stroked path, got {other:?}"),
    }
    // Without a grid there is nothing to trace.
    let one = bins(vec![0.0], vec![0.0], vec![1.0]);
    let mut empty = Scene::new();
    renderer.render(&mut empty, &one, &cm, &scales, None, &s, &lines);
    assert_eq!(count_scene_paths(&empty), 0);
}

fn cell_batch() -> Batch {
    table(vec![
        ("day", words(vec!["Mon", "Mon", "Tue", "Tue"])),
        ("slot", words(vec!["am", "pm", "am", "pm"])),
        ("value", floats(vec![1.0, 4.0, 2.0, 8.0])),
        ("grade", words(vec!["a", "b", "a", "b"])),
    ])
}

fn cell_cm(fill: &str) -> ChannelMap {
    channels(&[(Channel::X, "slot"), (Channel::Y, "day"), (Channel::Fill, fill)])
}

fn cell_scales(renderer: &CellRenderer, batch: &Batch, cm: &ChannelMap) -> ScaleSet {
    let mut scales = inferred(batch, cm);
    renderer.augment_scales(&mut scales, batch, cm, across(), upright(), &meridian());
    scales
}

#[test]
fn cell_renders_rect_per_category_pair() {
    let batch = cell_batch();
    let cm = cell_cm("value");
    let renderer = CellRenderer::default();
    let scales = cell_scales(&renderer, &batch, &cm);
    assert!(
        matches!(scales.get(Channel::X), Some(Scale::Band { .. }))
            && matches!(scales.get(Channel::Y), Some(Scale::Band { .. }))
    );
    let mut scene = Scene::new();
    renderer.render(&mut scene, &batch, &cm, &scales, None);
    assert_eq!(count_scene_paths(&scene), 4, "one rect per occupied category pair");
    let ramp = scales.get(Channel::Fill).expect("fill ramp built");
    let expected: HashSet<[u32; 4]> =
        [1.0, 4.0, 2.0, 8.0].iter().map(|v| bits(ramp.map_continuous(n(*v)))).collect();
    assert_eq!(expected.len(), 4, "the four values encode four distinct colours");
    assert_eq!(colour_set(&scene), expected);
}

#[test]
fn cell_augment_scales_anchors_sequential_domain() {
    let batch = cell_batch();
    let cm = cell_cm("value");
    let renderer = CellRenderer { scheme: SequentialScheme::Blues };
    assert!(matches!(inferred(&batch, &cm).get(Channel::Fill), Some(Scale::Linear { .. })));
    let scales = cell_scales(&renderer, &batch, &cm);
    match scales.get(Channel::Fill) {
        Some(Scale::Sequential { domain_min, domain_max, stops }) => {
            assert_eq!((f(*domain_min), f(*domain_max)), (0.0, 8.0));
            assert_eq!(stops, &SequentialScheme::Blues.stops(&meridian()));
        }
        other => panic!("expected a Fill Sequential, got {other:?}"),
    }
    let neg = table(vec![
        ("day", words(vec!["Mon", "Tue"])),
        ("slot", words(vec!["am", "pm"])),
        ("value", floats(vec![-3.0, 5.0])),
    ]);
    let neg_scales = cell_scales(&renderer, &neg, &cm);
    assert!(matches!(neg_scales.get(Channel::Fill), Some(Scale::Sequential { .. })));
    assert_eq!(domain(neg_scales.get(Channel::Fill)), (-3.0, 5.0));

    let mut union = ScaleSet::new(ink());
    union.insert(
        Channel::Fill,
        Scale::Sequential {
            domain_min: n(0.0),
            domain_max: n(100.0),
            stops: SequentialScheme::Viridis.stops(&meridian()),
        },
    );
    renderer.augment_scales(&mut union, &batch, &cm, across(), upright(), &meridian());
    match union.get(Channel::Fill) {
        Some(Scale::Sequential { domain_max, stops, .. }) => {
            assert_eq!(f(*domain_max), 100.0, "union keeps the wider domain");
            assert_eq!(stops, &SequentialScheme::Viridis.stops(&meridian()));
        }
        other => panic!("expected a unioned Sequential, got {other:?}"),
    }
    let mut colour = ScaleSet::new(ink());
    colour.insert(Channel::Fill, swatches());
    renderer.augment_scales(&mut colour, &batch, &cm, across(), upright(), &meridian());
    assert!(matches!(colour.get(Channel::Fill), Some(Scale::Colour { .. })));
}

#[test]
fn cell_utf8_fill_keeps_colour_path() {
    let batch = cell_batch();
    let cm = cell_cm("grade");
    let renderer = CellRenderer::default();
    let scales = cell_scales(&renderer, &batch, &cm);
    let fill = scales.get(Channel::Fill).expect("a fill scale");
    assert!(matches!(fill, Scale::Colour { .. }));
    let a = fill.map_colour("a").expect("category a");
    let b = fill.map_colour("b").expect("category b");
    let mut scene = Scene::new();
    renderer.render(&mut scene, &batch, &cm, &scales, None);
    assert_eq!(count_scene_paths(&scene), 4, "one rect per category pair");
    assert_eq!(colour_set(&scene), HashSet::from([bits(a), bits(b)]));
}

#[test]
fn dsb_null_numeric_fill_renders_null_ink_on_cell() {
    let batch = table(vec![
        ("x", words(vec!["a", "b"])),
        ("y", words(vec!["u", "u"])),
        ("v", maybe(vec![Some(10.0), None])),
    ]);
    let cm = channels(&[(Channel::X, "x"), (Channel::Y, "y"), (Channel::Fill, "v")]);
    let renderer = CellRenderer::default();
    let scales = cell_scales(&renderer, &batch, &cm);
    let ramp = scales.get(Channel::Fill).expect("fill ramp built");
    let at_10 = ramp.map_continuous(n(10.0));
    let mut scene = Scene::new();
    renderer.render(&mut scene, &batch, &cm, &scales, None);
    let drawn = colour_set(&scene);
    assert_eq!(drawn, HashSet::from([bits(at_10), bits(ink().null)]));
    assert!(!drawn.contains(&bits(rgba([0.306, 0.475, 0.655, 1.0]))));
    assert!(!drawn.contains(&bits(ink().mark_default)));
}

#[test]
fn dsb_null_fill_renders_null_ink_on_hexbin() {
    let batch = table(vec![
        ("x", floats(vec![0.0, 10.0])),
        ("y", floats(vec![0.0, 10.0])),
        ("m", maybe(vec![Some(5.0), None])),
        (HEX_DX_COL, floats(vec![1.0, 1.0])),
        (HEX_DY_COL, floats(vec![1.0, 1.0])),
    ]);
    let cm = hexbin_cm("m");
    let scales = hexbin_scales(&batch, &cm);
    let mut scene = Scene::new();
    HexbinRenderer::default().render(&mut scene, &batch, &cm, &scales, None);
    let drawn = colour_set(&scene);
    assert!(drawn.contains(&bits(ink().null)), "the NULL-metric hex renders NULL ink");
    assert!(
        !drawn.contains(&bits(ink().mark_default))
            && !drawn.contains(&bits(rgba([0.306, 0.475, 0.655, 1.0])))
    );
}

fn anscombe_fit() -> (Batch, ChannelMap, ScaleSet, f64, f64) {
    anscombe_with(None)
}

fn anscombe_with(count: Option<f64>) -> (Batch, ChannelMap, ScaleSet, f64, f64) {
    let xs = [10.0, 8.0, 13.0, 9.0, 11.0, 14.0, 6.0, 4.0, 12.0, 7.0, 5.0];
    let ys = [8.04, 6.95, 7.58, 8.81, 8.33, 9.96, 7.24, 4.26, 10.84, 4.82, 5.68];
    let size = xs.len() as f64;
    let x_bar = xs.iter().sum::<f64>() / size;
    let mean_y = ys.iter().sum::<f64>() / size;
    let sxx: f64 = xs.iter().map(|x| (x - x_bar).powi(2)).sum();
    let syy: f64 = ys.iter().map(|y| (y - mean_y).powi(2)).sum();
    let sxy: f64 = xs.iter().zip(ys.iter()).map(|(x, y)| (x - x_bar) * (y - mean_y)).sum();
    let slope = sxy / sxx;
    let intercept = mean_y - slope * x_bar;
    let batch = table(vec![
        ("slope", floats(vec![slope])),
        ("intercept", floats(vec![intercept])),
        ("n", floats(vec![count.unwrap_or(size)])),
        ("x_bar", floats(vec![x_bar])),
        ("sxx", floats(vec![sxx])),
        ("sxy", floats(vec![sxy])),
        ("syy", floats(vec![syy])),
    ]);
    let mut scales = ScaleSet::new(ink());
    scales.insert(Channel::X, linear(0.0, 20.0, 40.0, 600.0));
    scales.insert(Channel::Y, linear(0.0, 12.0, 450.0, 20.0));
    (batch, ChannelMap::new(), scales, slope, intercept)
}

fn lengths_of(points: &[Point]) -> Vec<Number> {
    points
        .windows(2)
        .map(|w| n((f(w[1].x) - f(w[0].x)).hypot(f(w[1].y) - f(w[0].y))))
        .collect()
}

fn fit_lengths(batch: &Batch, cm: &ChannelMap, scales: &ScaleSet) -> Vec<FitLengths> {
    RegressionRenderer::default()
        .fits(batch, cm, scales)
        .iter()
        .map(|fit| match fit {
            Some(fit) => FitLengths {
                upper: lengths_of(&fit.upper),
                lower: lengths_of(&fit.lower),
                line: lengths_of(&fit.line),
            },
            None => FitLengths { upper: Vec::new(), lower: Vec::new(), line: Vec::new() },
        })
        .collect()
}

#[test]
fn regression_renders_line_and_ci_band() {
    let (batch, cm, scales, slope, intercept) = anscombe_fit();
    let mut scene = Scene::new();
    RegressionRenderer { ci: n(0.95) }.render(&mut scene, &batch, &cm, &scales, None);
    assert!(count_scene_paths(&scene) >= 2, "a fitted line and a band");
    assert_eq!(count_scene_paths(&scene), 32, "the band and 31 pieces of the line");
    assert!((slope - 0.5).abs() < 0.01, "Anscombe I slope ≈ 0.5 ({slope})");
    assert!((intercept - 3.0).abs() < 0.05, "Anscombe I intercept ≈ 3.0 ({intercept})");
}

#[test]
fn a_fit_is_sampled_along_the_axis_with_its_band_about_it() {
    let (batch, cm, scales, slope, intercept) = anscombe_fit();
    let fits = RegressionRenderer::default().fits(&batch, &cm, &scales);
    let fit = fits[0].as_ref().expect("a fit");
    assert!(fit.band);
    assert_eq!(fit.line.len(), 32);
    assert_eq!(f(fit.line[0].x), 40.0);
    assert_eq!(f(fit.line[31].x), 600.0);
    let y = |v: f64| 450.0 + (20.0 - 450.0) * (v / 12.0);
    assert!((f(fit.line[0].y) - y(intercept)).abs() < 1e-9);
    assert!((f(fit.line[31].y) - y(20.0 * slope + intercept)).abs() < 1e-9);
    for i in 0..32 {
        assert!(f(fit.upper[i].y) < f(fit.line[i].y) && f(fit.line[i].y) < f(fit.lower[i].y));
    }
}

#[test]
fn student_quantiles_are_tabulated_interpolated_and_bounded() {
    let t = |ci: f64, size: f64| f(t_critical(n(ci), n(size)));
    assert_eq!(t(0.95, 12.0), 2.228);
    assert_eq!(t(0.99, 3.0), 63.657);
    assert_eq!(t(0.90, 32.0), 1.697);
    assert_eq!(t(0.5, 12.0), 2.228, "an unknown level reads as 95 in a hundred");
    assert!((t(0.95, 13.0) - (2.228 + 2.179) / 2.0).abs() < 1e-12);
    assert_eq!(t(0.95, 62.0), 1.96);
    assert_eq!(t(0.95, 1.0e9), 1.96);
    assert_eq!(t(0.95, 2.0), 0.0);
    assert_eq!(t(0.95, f64::NAN), 0.0);
}

fn dash() -> Rhythm {
    Rhythm { on: n(6.0), off: n(4.0) }
}

fn length(s: &Segment) -> f64 {
    (f(s.to.x) - f(s.from.x)).hypot(f(s.to.y) - f(s.from.y))
}

#[test]
fn a_dash_draws_gaps_and_carries_its_rhythm_across_joins() {
    let pts: Vec<Point> =
        (0..=10).map(|i| Point { x: n(f64::from(i) * 7.0), y: n(50.0) }).collect();
    let runs = dash_polyline(&pts, &lengths_of(&pts), dash());
    let inked: f64 = runs.iter().map(length).sum();
    let total = 70.0;
    assert!(!runs.is_empty(), "a dashed 70 px run drew nothing");
    assert!((inked / total - 0.6).abs() < 0.08);
    let joined =
        runs.windows(2).filter(|w| (f(w[0].to.x) - f(w[1].from.x)).abs() < 1e-6).count();
    assert!(joined > 0, "no dash continued across a segment join");
    let first: Vec<(f64, f64)> =
        runs.iter().take(4).map(|s| (f(s.from.x), f(s.to.x))).collect();
    assert_eq!(first, vec![(0.0, 6.0), (10.0, 14.0), (14.0, 16.0), (20.0, 21.0)]);
}

#[test]
fn a_dash_skips_what_has_no_length() {
    let pts: Vec<Point> =
        [0.0, 7.0, 7.0, 14.0].iter().map(|x| Point { x: n(*x), y: n(0.0) }).collect();
    let lengths = vec![n(7.0), n(0.0), n(f64::NAN)];
    let runs = dash_polyline(&pts, &lengths, dash());
    assert_eq!(runs.len(), 1);
    assert_eq!(length(&runs[0]), 6.0);
    let solid = Rhythm { on: n(6.0), off: n(0.0) };
    assert!(dash_polyline(&pts, &lengths, solid).is_empty());
    assert!(dash_polyline(&Vec::new(), &lengths, dash()).is_empty());
}

fn solid_and_dashed() -> (Scene, Scene, ScaleSet) {
    let (batch, cm, scales, _, _) = anscombe_fit();
    let renderer = RegressionRenderer::default();
    let mut solid = Scene::new();
    renderer.render(&mut solid, &batch, &cm, &scales, None);
    let mut dashed = Scene::new();
    let lengths = fit_lengths(&batch, &cm, &scales);
    renderer.render_beyond_frame(&mut dashed, &batch, &cm, &scales, None, &lengths);
    (solid, dashed, scales)
}

#[test]
fn the_two_entry_points_draw_the_fit_differently() {
    let (solid, dashed, scales) = solid_and_dashed();
    assert!(count_scene_paths(&dashed) > count_scene_paths(&solid));
    let x = scales.get(Channel::X).expect("x scale");
    let y = scales.get(Channel::Y).expect("y scale");
    let path: Vec<Point> = (0..32)
        .map(|i| {
            let xv = 20.0 * (f64::from(i) / 31.0);
            Point { x: x.map_f64(n(xv)), y: y.map_f64(n(0.5 * xv + 3.0)) }
        })
        .collect();
    let lengths = lengths_of(&path);
    let full: f64 = lengths.iter().map(|l| f(*l)).sum();
    let inked: f64 = dash_polyline(&path, &lengths, dash()).iter().map(length).sum();
    assert!(inked < full * 0.8, "too close to solid to read as a different treatment");
}

fn ink_census(scene: &Scene) -> BTreeMap<[u32; 4], usize> {
    let mut out = BTreeMap::new();
    for c in colours(scene) {
        *out.entry(c).or_insert(0usize) += 1;
    }
    out
}

fn band_and_fit_paths(scene: &Scene) -> (usize, usize) {
    let census = ink_census(scene);
    assert_eq!(census.len(), 2, "a one-group regression draws in exactly two inks");
    let mut band = 0usize;
    let mut fit = 0usize;
    for (c, count) in census {
        if f32::from_bits(c[3]) == 1.0 {
            fit += count;
        } else {
            band += count;
        }
    }
    (band, fit)
}

#[test]
fn the_band_of_an_unrescoped_fit_is_drawn_differently_from_one_that_rescoped() {
    let (solid, dashed, _) = solid_and_dashed();
    let (solid_band, _) = band_and_fit_paths(&solid);
    let (dashed_band, _) = band_and_fit_paths(&dashed);
    assert_eq!(solid_band, 1, "one filled polygon and nothing else");
    assert!(dashed_band > solid_band);
}

#[test]
fn the_bands_caveat_is_the_fits_own_dash_and_not_a_second_vocabulary() {
    let (solid, dashed, _) = solid_and_dashed();
    let (solid_band, _) = band_and_fit_paths(&solid);
    let (dashed_band, dashed_fit) = band_and_fit_paths(&dashed);
    let edge_runs = dashed_band - solid_band;
    let ratio = edge_runs as f64 / dashed_fit as f64;
    assert!((1.8..=2.6).contains(&ratio), "two edges at one rhythm: {ratio}");
    let solid_inks: Vec<[u32; 4]> = ink_census(&solid).into_keys().collect();
    let dashed_inks: Vec<[u32; 4]> = ink_census(&dashed).into_keys().collect();
    assert_eq!(solid_inks, dashed_inks);
}

fn draws_a_fill(scene: &Scene) -> bool {
    scene.ops.iter().any(|op| matches!(op, DrawOp::Fill(_, _)))
}

#[test]
fn the_band_that_wears_the_caveat_still_states_its_interval() {
    let (batch, cm, scales, _, _) = anscombe_with(Some(2.0));
    let renderer = RegressionRenderer::default();
    let mut bandless = Scene::new();
    let lengths = fit_lengths(&batch, &cm, &scales);
    renderer.render_beyond_frame(&mut bandless, &batch, &cm, &scales, None, &lengths);
    assert!(count_scene_paths(&bandless) > 0);
    assert!(!draws_a_fill(&bandless), "two points leave no band");
    let (solid, dashed, _) = solid_and_dashed();
    assert!(draws_a_fill(&dashed), "dashing its edge does not withdraw the interval");
    assert_eq!(band_and_fit_paths(&solid).0, 1);
}

#[test]
fn a_fit_of_one_point_is_not_drawn() {
    let (batch, cm, scales, _, _) = anscombe_with(Some(1.0));
    let mut scene = Scene::new();
    RegressionRenderer::default().render(&mut scene, &batch, &cm, &scales, None);
    assert_eq!(count_scene_paths(&scene), 0);
}

#[test]
fn a_fit_builds_its_scales_from_the_emitted_extents() {
    let batch = table(vec![
        ("x_min", floats(vec![1.0, 2.0])),
        ("x_max", floats(vec![5.0, 9.0])),
        ("y_min", floats(vec![-1.0, 0.0])),
        ("y_max", maybe(vec![None, None])),
    ]);
    let mut scales = ScaleSet::new(ink());
    RegressionRenderer::default().augment_scales(
        &mut scales,
        &batch,
        &ChannelMap::new(),
        across(),
        upright(),
    );
    assert_eq!(domain(scales.get(Channel::X)), (1.0, 9.0));
    assert!(scales.get(Channel::Y).is_none(), "an extent without a bound is none");
}

#[test]
fn default_renderers_finds_density_and_regression() {
    let registry = default_renderers();
    for kind in [
        MarkKind::Dot,
        MarkKind::BarX,
        MarkKind::Line,
        MarkKind::Density,
        MarkKind::DensityX,
        MarkKind::DensityY,
        MarkKind::RegressionX,
        MarkKind::RegressionY,
        MarkKind::Heatmap,
        MarkKind::Hexbin,
        MarkKind::Geo,
    ] {
        assert!(find_renderer(&registry, kind).is_some());
        assert!(owned_default_renderer(kind).is_some());
    }
    assert!(find_renderer(&registry, MarkKind::Voronoi).is_none());
    assert!(owned_default_renderer(MarkKind::Voronoi).is_none());
    assert!(matches!(
        find_renderer(&registry, MarkKind::Contour),
        Some(AnyMark::Contour(_))
    ));
    assert!(configured_renderer(
        MarkKind::Dot,
        SequentialScheme::Viridis,
        None,
        None,
        None
    )
    .is_none());
}
