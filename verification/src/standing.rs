//! What a density curve shows: it stands on its baseline and is highest where
//! the data is densest.
use vstd::arithmetic::power2::{lemma2_to64, lemma2_to64_rest, pow2};
use vstd::prelude::*;

use crate::accuracy::{
    amount, distance, least, lemma_amount_of_parts, lemma_amount_of_sign, lemma_amounts_in_order,
    lemma_close, lemma_distance_of_product, lemma_distances, lemma_least_is_small,
    lemma_minus_accuracy, lemma_over_accuracy, lemma_part, lemma_plus_accuracy,
    lemma_times_accuracy, lemma_triangle, roundoff, trip_roundoff,
};
use crate::batch::Batch;
use crate::bounds::{
    lemma_difference_keeps_order, lemma_nothing_over, lemma_over_itself, lemma_over_keeps_order,
    lemma_plus_keeps_order, lemma_plus_nothing, lemma_times_keeps_order, lemma_times_nothing,
};
use crate::channel::{Channel, ChannelMap};
use crate::density::{
    curve, curve_span, levels, padded, places, Density1DRenderer, DensityAxis, Kernel,
    DENSITY_TAIL_SIGMAS, GRID,
};
use crate::drawing::{polygon, Op, Outline, Point, Step};
use crate::even_places::{
    a_curve_is_sampled_evenly, is_step, lemma_finish, lemma_product_near, lemma_step,
};
use crate::fits::{lemma_product_fits, lemma_sum_fits, lemma_within_more, within};
use crate::folds::{highest_from, lemma_highest};
use crate::infer::Range;
use crate::number::{lemma_format, lemma_rank_is_value_order, Number};
use crate::numerals::{ONE, ZERO};
use crate::residual::lemma_one;
use crate::scale::ScaleModel;
use crate::scale_set::ScaleSet;
use crate::straight::{a_scale_draws_a_straight_line, lies_at};

verus! {

/// The point that a step of a path leads to.
pub open spec fn reached(step: Step) -> Point {
    match step {
        Step::MoveTo(x, y) => Point { x, y },
        Step::LineTo(x, y) => Point { x, y },
        Step::Close => Point { x: Number::from_bits(ZERO), y: Number::from_bits(ZERO) },
    }
}

/// Whether steps are a closed outline of `n` corners: a move, lines and a close.
pub open spec fn is_outline(steps: Seq<Step>, n: int) -> bool {
    &&& n > 0
    &&& steps.len() == n + 1
    &&& steps[0] is MoveTo
    &&& forall|i: int| 0 < i < n ==> #[trigger] steps[i] is LineTo
    &&& steps[n] is Close
}

/// A polygon goes through its corners in order and closes.
pub proof fn a_polygon_goes_through_its_corners(points: Seq<Point>)
    requires
        points.len() > 0,
    ensures
        is_outline(polygon(points), points.len() as int),
        forall|i: int|
            0 <= i < points.len() ==> reached(#[trigger] polygon(points)[i]) == points[i],
{
}

/// Where a point lies along the axis of a curve's bins.
pub open spec fn along(axis: DensityAxis, p: Point) -> Number {
    match axis {
        DensityAxis::X => p.x,
        DensityAxis::Y => p.y,
    }
}

/// Where a point lies along the axis of a curve's heights.
pub open spec fn height(axis: DensityAxis, p: Point) -> Number {
    match axis {
        DensityAxis::X => p.y,
        DensityAxis::Y => p.x,
    }
}

/// Whether a pixel is `part` of the way from the start of a range to its end, up
/// to rounding.
pub open spec fn is_part_way(start: Number, end: Number, part: real, pixel: Number) -> bool {
    pixel.is_finite() && distance(
        amount(pixel) - (amount(start) + part * (amount(end) - amount(start))),
    ) <= trip_roundoff() * (distance(amount(start)) + distance(amount(end))) + 1024 as real
        * least()
}

/// Whether one pixel lies no farther from the start of a range than another,
/// in the direction of its end.
pub open spec fn no_higher(start: Number, end: Number, a: Number, b: Number) -> bool {
    if end.lt(start) {
        b.le(a)
    } else {
        a.le(b)
    }
}

/// A density in proportion to the greatest.
proof fn lemma_share(d: Number, max: Number)
    requires
        max.is_finite(),
        Number::from_bits(ZERO).lt(max),
        Number::from_bits(ZERO).le(d),
        d.le(max),
    ensures
        d.is_finite(),
        Number::from_bits(ZERO).le(d.over(max)),
        d.over(max).le(Number::from_bits(ONE)),
        d.over(max).is_finite(),
        within(d.over(max), 0),
        0 as real <= amount(d) / amount(max) <= 1 as real,
        distance(amount(d.over(max)) - amount(d) / amount(max)) <= roundoff() + least(),
{
    let zero = Number::from_bits(ZERO);
    let one = Number::from_bits(ONE);
    lemma_format();
    lemma_amount_of_sign(zero);
    lemma_over_itself(max);
    lemma_over_keeps_order(d, max, max);
    lemma_over_keeps_order(zero, d, max);
    lemma_nothing_over(zero, max);
    lemma_amounts_in_order(zero, max);
    lemma_amounts_in_order(zero, d);
    lemma_amounts_in_order(d, max);
    lemma_one();
    let t = d.over(max);
    lemma_amounts_in_order(zero, t);
    lemma_amounts_in_order(t, one);
    lemma2_to64();
    assert(within(t, 0)) by {
        reveal(distance);
    }
    lemma_over_accuracy(d, max);
    let (a, m, s) = (amount(d), amount(max), amount(d) / amount(max));
    assert(0 as real <= s <= 1 as real) by (nonlinear_arith)
        requires
            s == a / m,
            0 as real <= a <= m,
            m > 0 as real,
    ;
    let size = distance(amount(t));
    assert(size <= 1 as real) by {
        reveal(distance);
    }
    assert(roundoff() * size <= roundoff()) by (nonlinear_arith)
        requires
            size <= 1 as real,
            roundoff() >= 0 as real,
    ;
}

/// A rounded share of a rounded way, from a start.
proof fn lemma_rise(start: Number, end: Number, t: Number, share: real)
    requires
        within(start, 200),
        within(end, 200),
        within(t, 0),
        0 as real <= share <= 1 as real,
        distance(amount(t) - share) <= roundoff() + least(),
    ensures
        is_part_way(start, end, share, start.plus(t.times(end.minus(start)))),
{
    let (u, h) = (roundoff(), least());
    let r = end.minus(start);
    let q = t.times(r);
    let v = start.plus(q);
    lemma_least_is_small();
    lemma_sum_fits(end, start, 200);
    lemma_product_fits(t, r, 0, 201);
    lemma_within_more(start, 200, 201);
    lemma_sum_fits(start, q, 201);
    lemma_minus_accuracy(end, start);
    lemma_times_accuracy(t, r);
    lemma_plus_accuracy(start, q);
    let (s, e) = (amount(start), amount(end));
    let way = e - s;
    lemma_close(amount(r), way, 0 as real);
    lemma_product_near(amount(r), way, amount(t), share);
    lemma_close(amount(q), amount(t) * amount(r), h);
    assert(amount(t) * amount(r) == amount(r) * amount(t)) by (nonlinear_arith);
    lemma_finish(way, share, amount(r) * amount(t), amount(q));
    lemma_distances(way, share);
    lemma_part(distance(way));
    lemma_step(s, e, amount(r), share, amount(q), amount(v));
    assert(way * share == share * way) by (nonlinear_arith);
}

/// Whether the `j`th density is finite, positive and the greatest of those that
/// a curve is drawn from.
pub open spec fn is_peak(density: Seq<Number>, j: int) -> bool {
    &&& 0 <= j < density.len() && j < GRID
    &&& density[j].is_finite() && Number::from_bits(ZERO).lt(density[j])
    &&& forall|k: int|
        0 <= k < density.len() && k < GRID && !(#[trigger] density[k]).is_nan() ==> density[k].le(
            density[j],
        )
}

/// The greatest density is the one that heights are in proportion to.
proof fn lemma_peak(density: Seq<Number>, j: int)
    requires
        is_peak(density, j),
    ensures
        ({
            let max = highest_from(Number::from_bits(ZERO), levels(density));
            &&& max.same(density[j])
            &&& max.is_finite()
            &&& Number::from_bits(ZERO).lt(max)
        }),
{
    let zero = Number::from_bits(ZERO);
    let all = levels(density);
    let max = highest_from(zero, all);
    lemma_format();
    lemma_highest(zero, all);
    assert(all[j] == density[j]);
    assert(all[j].le(max));
    if all.contains(max) {
        let k = choose|k: int| 0 <= k < all.len() && all[k] == max;
        if k < density.len() {
            assert(density[k] == max);
            assert(density[k].le(density[j]));
        }
    }
}

/// A density curve stands on its baseline. Each point lies along the bins at its
/// place of the span, which the places divide evenly. Its height is in
/// proportion to its density: at the start of the height axis for none, and at
/// its end for the greatest. The outline closes along the start of the height
/// axis, below the end of the span and then below its start.
pub proof fn a_curve_stands_on_its_baseline(
    axis: DensityAxis,
    bins: ScaleModel,
    heights: ScaleModel,
    span: Range,
    density: Seq<Number>,
    i: int,
    j: int,
)
    requires
        0 <= i < GRID,
        i < density.len(),
        Number::from_bits(ZERO).le(density[i]),
        is_peak(density, j),
        within(heights.range_start(), 200),
        within(heights.range_end(), 200),
    ensures
        ({
            let points = curve(axis, bins, heights, span, density);
            let (start, end) = (heights.range_start(), heights.range_end());
            &&& points.len() == GRID + 2
            &&& lies_at(bins, places(span)[i], along(axis, points[i]))
            &&& within(span.start, 200) && within(span.end, 200) ==> is_step(
                span.start,
                span.end,
                i,
                GRID - 1,
                places(span)[i],
            )
            &&& is_part_way(
                start,
                end,
                amount(density[i]) / amount(density[j]),
                height(axis, points[i]),
            )
            &&& density[i].magnitude() == 0 ==> height(axis, points[i]).same(start)
            &&& lies_at(bins, span.end, along(axis, points[GRID as int]))
            &&& lies_at(bins, span.start, along(axis, points[GRID + 1]))
            &&& height(axis, points[GRID as int]) == start
            &&& height(axis, points[GRID + 1]) == start
        }),
{
    let zero = Number::from_bits(ZERO);
    let points = curve(axis, bins, heights, span, density);
    let (start, end) = (heights.range_start(), heights.range_end());
    let max = highest_from(zero, levels(density));
    let d = density[i];
    let r = end.minus(start);
    lemma_format();
    lemma_peak(density, j);
    lemma_amounts_in_order(max, density[j]);
    assert(levels(density)[i] == d);
    lemma_share(d, max);
    lemma_rise(start, end, d.over(max), amount(d) / amount(max));
    a_scale_draws_a_straight_line(bins, places(span)[i]);
    a_scale_draws_a_straight_line(bins, span.end);
    a_scale_draws_a_straight_line(bins, span.start);
    if within(span.start, 200) && within(span.end, 200) {
        a_curve_is_sampled_evenly(span, i);
    }
    if d.magnitude() == 0 {
        lemma_sum_fits(end, start, 200);
        lemma_nothing_over(d, max);
        lemma_times_nothing(r, d.over(max));
        lemma_plus_nothing(start, d.over(max).times(r));
    }
}

/// Of two places of a density curve the one with the greater density is drawn no
/// lower: no nearer to the start of the height axis.
pub proof fn a_greater_density_is_drawn_no_lower(
    axis: DensityAxis,
    bins: ScaleModel,
    heights: ScaleModel,
    span: Range,
    density: Seq<Number>,
    i: int,
    k: int,
    j: int,
)
    requires
        0 <= i < GRID,
        0 <= k < GRID,
        i < density.len(),
        k < density.len(),
        Number::from_bits(ZERO).le(density[i]),
        density[i].le(density[k]),
        is_peak(density, j),
        within(heights.range_start(), 200),
        within(heights.range_end(), 200),
    ensures
        ({
            let points = curve(axis, bins, heights, span, density);
            no_higher(
                heights.range_start(),
                heights.range_end(),
                height(axis, points[i]),
                height(axis, points[k]),
            )
        }),
{
    let zero = Number::from_bits(ZERO);
    let (start, end) = (heights.range_start(), heights.range_end());
    let max = highest_from(zero, levels(density));
    let r = end.minus(start);
    lemma_format();
    lemma_peak(density, j);
    assert(levels(density)[i] == density[i] && levels(density)[k] == density[k]);
    assert(density[k].le(density[j]));
    lemma_share(density[i], max);
    lemma_share(density[k], max);
    let (s, t) = (density[i].over(max), density[k].over(max));
    lemma_over_keeps_order(density[i], density[k], max);
    lemma_sum_fits(end, start, 200);
    lemma_difference_keeps_order(end, start, zero);
    lemma_rank_is_value_order(end, start);
    lemma_rank_is_value_order(start, end);
    if r.magnitude() == 0 {
        lemma_times_nothing(s, r);
        lemma_times_nothing(t, r);
        lemma_plus_nothing(start, s.times(r));
        lemma_plus_nothing(start, t.times(r));
    } else {
        lemma_times_keeps_order(s, t, r);
        if r.negative() {
            lemma_plus_keeps_order(t.times(r), s.times(r), start);
        } else {
            lemma_plus_keeps_order(s.times(r), t.times(r), start);
        }
    }
}

/// The channels of a curve's bins and heights: bins along x rise in y, and bins
/// along y rise in x.
pub open spec fn curve_channels(axis: DensityAxis) -> (Channel, Channel) {
    match axis {
        DensityAxis::X => (Channel::X, Channel::Y),
        DensityAxis::Y => (Channel::Y, Channel::X),
    }
}

/// A density mark draws one filled outline through the points of its curve, on
/// the scales of its two channels, wherever two centres are distinct, the
/// bandwidth is positive and some density is; and nothing anywhere else.
pub proof fn a_density_mark_draws_its_curve(
    mark: Density1DRenderer,
    batch: Batch,
    channel_map: ChannelMap,
    scales: ScaleSet,
    kernel: Kernel,
)
    ensures
        ({
            let zero = Number::from_bits(ZERO);
            let (b, h) = curve_channels(mark.axis);
            let drawn = mark.drawn(batch, channel_map, scales, kernel);
            match (channel_map.column(b), scales.at(b), scales.at(h)) {
                (Some(column), Some(bins), Some(heights)) => match curve_span(
                    batch,
                    column,
                    kernel.bandwidth,
                ) {
                    Some(span) => {
                        &&& (exists|j: int| is_peak(kernel.density@, j)) ==> drawn.len() == 1
                        &&& drawn.len() <= 1
                        &&& drawn.len() == 1 ==> (drawn[0] matches Op::Fill(_, Outline::Path(steps))
                            && is_outline(steps, GRID + 2) && forall|i: int|
                            0 <= i < GRID + 2 ==> reached(#[trigger] steps[i]) == curve(
                                mark.axis,
                                bins,
                                heights,
                                span,
                                kernel.density@,
                            )[i])
                    },
                    None => drawn.len() == 0,
                },
                _ => drawn.len() == 0,
            }
        }),
{
    let (b, h) = curve_channels(mark.axis);
    if let (Some(column), Some(bins), Some(heights)) = (
        channel_map.column(b),
        scales.at(b),
        scales.at(h),
    ) {
        if let Some(span) = curve_span(batch, column, kernel.bandwidth) {
            let points = curve(mark.axis, bins, heights, span, kernel.density@);
            a_polygon_goes_through_its_corners(points);
            if exists|j: int| is_peak(kernel.density@, j) {
                let j = choose|j: int| is_peak(kernel.density@, j);
                lemma_peak(kernel.density@, j);
            }
        }
    }
}

/// The span of a curve that is drawn reaches three bandwidths past the first and
/// the last of its centres, up to rounding.
pub proof fn a_curve_reaches_past_its_data(pairs: Seq<Point>, bandwidth: Number)
    requires
        pairs.len() > 0,
        within(pairs[0].x, 200),
        within(pairs.last().x, 200),
        within(bandwidth, 200),
    ensures
        ({
            let span = padded(pairs, bandwidth);
            let (low, high, h) = (
                amount(pairs[0].x),
                amount(pairs.last().x),
                amount(bandwidth),
            );
            &&& span.start.is_finite() && span.end.is_finite()
            &&& distance(amount(span.start) - (low - 3 as real * h)) <= trip_roundoff() * (
            distance(low) + distance(h)) + 8 as real * least()
            &&& distance(amount(span.end) - (high + 3 as real * h)) <= trip_roundoff() * (
            distance(high) + distance(h)) + 8 as real * least()
        }),
{
    let pad = Number::from_bits(DENSITY_TAIL_SIGMAS).times(bandwidth);
    let three = Number::from_bits(DENSITY_TAIL_SIGMAS);
    let h = amount(bandwidth);
    lemma_three();
    lemma_product_fits(three, bandwidth, 2, 200);
    lemma_within_more(pairs[0].x, 200, 202);
    lemma_within_more(pairs.last().x, 200, 202);
    lemma_sum_fits(pairs[0].x, pad, 202);
    lemma_sum_fits(pairs.last().x, pad, 202);
    lemma_times_accuracy(three, bandwidth);
    lemma_minus_accuracy(pairs[0].x, pad);
    lemma_plus_accuracy(pairs.last().x, pad);
    lemma_least_is_small();
    lemma_close(amount(pad), 3 as real * h, least());
    lemma_distance_of_product(3 as real, h);
    let exact = 3 as real * h;
    assert(distance(3 as real) == 3 as real && distance(-exact) == distance(exact) && distance(
        -amount(pad) - (-exact),
    ) == distance(amount(pad) - exact)) by {
        reveal(distance);
    }
    lemma_padding(amount(pairs[0].x), -(3 as real * h), -amount(pad), h, amount(
        padded(pairs, bandwidth).start,
    ));
    lemma_padding(amount(pairs.last().x), 3 as real * h, amount(pad), h, amount(
        padded(pairs, bandwidth).end,
    ));
}

proof fn lemma_padding(x: real, exact: real, pad: real, h: real, v: real)
    requires
        distance(exact) == 3 as real * distance(h),
        distance(pad - exact) <= 2 as real * (roundoff() * (3 as real * distance(h))) + 2 as real
            * least(),
        distance(v - (x + pad)) <= roundoff() * distance(v),
    ensures
        distance(v - (x + exact)) <= trip_roundoff() * (distance(x) + distance(h)) + 8 as real
            * least(),
{
    let u = roundoff();
    let whole = distance(x) + distance(h);
    let uw = u * whole;
    lemma_least_is_small();
    lemma_distances(x, h);
    lemma_distances(x, pad);
    lemma_distances(pad, exact);
    lemma_close(v, x + pad, 0 as real);
    lemma_triangle(pad, exact, 0 as real);
    lemma_triangle(v, x + pad, x + exact);
    assert((x + pad) - (x + exact) == pad - exact);
    lemma_part(whole);
    lemma_part(distance(h));
    let size = distance(x + pad);
    assert(size <= 4 as real * whole + 2 as real * least());
    assert(u * size <= 4 as real * uw + least() && u * distance(h) <= uw) by (nonlinear_arith)
        requires
            size <= 4 as real * whole + 2 as real * least(),
            distance(h) <= whole,
            uw == u * whole,
            u >= 0 as real,
            u <= 1 as real / 2 as real,
            least() > 0 as real,
    ;
    assert(u * (3 as real * distance(h)) == 3 as real * (u * distance(h))) by (nonlinear_arith);
    assert(trip_roundoff() * whole == 512 as real * uw) by (nonlinear_arith)
        requires
            trip_roundoff() == 1 as real / 17592186044416 as real,
            u == 1 as real / 9007199254740992 as real,
            uw == u * whole,
    ;
}

proof fn lemma_three()
    ensures
        amount(Number::from_bits(DENSITY_TAIL_SIGMAS)) == 3 as real,
        within(Number::from_bits(DENSITY_TAIL_SIGMAS), 2),
{
    lemma_format();
    lemma2_to64();
    lemma2_to64_rest();
    let three = Number::from_bits(DENSITY_TAIL_SIGMAS);
    lemma_amount_of_parts(three, 51);
    assert(pow2(51) == 2251799813685248);
    assert(amount(three) * 2251799813685248 as real == 6755399441055744 as real);
    reveal(distance);
}

} // verus!
