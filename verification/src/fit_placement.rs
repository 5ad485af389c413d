//! Where a fit is drawn: its line, and its band above and below it.
use vstd::prelude::*;

use crate::accuracy::{amount, distance, lemma_minus_accuracy, lemma_plus_accuracy, roundoff};
use crate::batch::{cell_of, Batch};
use crate::channel::{Channel, ChannelMap};
use crate::colour::Rgba;
use crate::drawing::{polygon, Op, Outline, Point};
use crate::number::Number;
use crate::numerals::THREE;
use crate::placement::{drawn_at, lemma_block};
use crate::regression::{
    band_outline, coefficients, fit_of, fit_ops, or_zero, row_fit, sample_place, solid_ops,
    Coefficients, FitModel, RegressionRenderer, SAMPLES,
};
use crate::scale::ScaleModel;
use crate::scale_set::ScaleSet;
use crate::standing::{a_polygon_goes_through_its_corners, is_outline, reached};
use crate::straight::a_scale_draws_a_straight_line;

verus! {

/// Whether a pixel is drawn at a place, at a height that is a sum up to one
/// rounding.
pub open spec fn drawn_at_sum(
    x: ScaleModel,
    y: ScaleModel,
    place: Number,
    sum: real,
    pixel: Point,
) -> bool {
    exists|height: Number|
        {
            &&& height.is_finite() ==> distance(amount(height) - sum) <= roundoff() * distance(
                amount(height),
            )
            &&& #[trigger] drawn_at(x, y, (Point { x: place, y: height }), pixel)
        }
}

/// A fit is drawn as its line and its band: at each sampled place the line is
/// drawn at the fitted value, the upper edge of the band at that value and the
/// band's reach together, and the lower edge at the value less the reach.
pub proof fn a_fit_is_drawn_as_its_line_and_band(
    ci: Number,
    c: Coefficients,
    colour: Rgba,
    x: ScaleModel,
    y: ScaleModel,
    x_min: Number,
    x_max: Number,
    i: int,
)
    requires
        0 <= i < SAMPLES,
        ({
            let v = sample_place(x_min, x_max, i);
            c.at(v).is_finite() && c.reach(ci, v).is_finite()
        }),
    ensures
        ({
            let fit = fit_of(ci, c, colour, x, y, x_min, x_max);
            let v = sample_place(x_min, x_max, i);
            let (value, reach) = (amount(c.at(v)), amount(c.reach(ci, v)));
            &&& fit.colour == colour
            &&& fit.band <==> Number::from_bits(THREE).le(c.n)
            &&& fit.line.len() == SAMPLES && fit.upper.len() == SAMPLES && fit.lower.len()
                == SAMPLES
            &&& drawn_at(x, y, Point { x: v, y: c.at(v) }, fit.line[i])
            &&& drawn_at_sum(x, y, v, value + reach, fit.upper[i])
            &&& drawn_at_sum(x, y, v, value - reach, fit.lower[i])
        }),
{
    let fit = fit_of(ci, c, colour, x, y, x_min, x_max);
    let v = sample_place(x_min, x_max, i);
    let (at, reach) = (c.at(v), c.reach(ci, v));
    let (top, bottom) = (at.plus(reach), at.minus(reach));
    a_scale_draws_a_straight_line(x, v);
    a_scale_draws_a_straight_line(y, at);
    a_scale_draws_a_straight_line(y, top);
    a_scale_draws_a_straight_line(y, bottom);
    if top.is_finite() {
        lemma_plus_accuracy(at, reach);
    }
    if bottom.is_finite() {
        lemma_minus_accuracy(at, reach);
    }
    assert(drawn_at(x, y, Point { x: v, y: top }, fit.upper[i]));
    assert(drawn_at(x, y, Point { x: v, y: bottom }, fit.lower[i]));
}

/// A fit is shown by its band, one filled outline along the upper edge and back
/// along the lower, and then by its line, piece by piece from one sampled point
/// to the next.
pub proof fn a_fit_shows_its_band_and_then_its_line(fit: FitModel)
    requires
        fit.line.len() == SAMPLES,
        fit.upper.len() == SAMPLES,
        fit.lower.len() == SAMPLES,
    ensures
        ({
            let ops = solid_ops(fit);
            let n: int = if fit.band {
                1
            } else {
                0
            };
            &&& ops.len() == n + SAMPLES - 1
            &&& fit.band ==> (ops[0] matches Op::Fill(_, Outline::Path(steps)) && is_outline(
                steps,
                2 * SAMPLES,
            ) && forall|k: int|
                0 <= k < SAMPLES ==> reached(#[trigger] steps[k]) == fit.upper[k] && reached(
                    steps[2 * SAMPLES - 1 - k],
                ) == fit.lower[k])
            &&& forall|k: int|
                0 <= k < SAMPLES - 1 ==> (#[trigger] ops[n + k] matches Op::Stroke(
                    _,
                    colour,
                    Outline::Line(from, to),
                ) && colour == fit.colour && from == fit.line[k] && to == fit.line[k + 1])
        }),
{
    if fit.band {
        let points = band_outline(fit.upper, fit.lower);
        a_polygon_goes_through_its_corners(points);
        let steps = polygon(points);
        assert forall|k: int| 0 <= k < SAMPLES implies reached(#[trigger] steps[k])
            == fit.upper[k] && reached(steps[2 * SAMPLES - 1 - k]) == fit.lower[k] by {
            assert(reached(steps[k]) == points[k]);
            assert(reached(steps[2 * SAMPLES - 1 - k]) == points[2 * SAMPLES - 1 - k]);
        }
    }
}

/// A row's fit is read from the columns of its name, and drawn on the x and y
/// scales over the domain of the x scale; all of what it shows is drawn.
pub proof fn a_row_draws_its_fit(
    mark: RegressionRenderer,
    batch: Batch,
    channel_map: ChannelMap,
    scales: ScaleSet,
    row: int,
)
    requires
        0 <= row < batch.rows,
    ensures
        coefficients(batch, row) matches Some(c) ==> {
            &&& cell_of(batch.numbers("slope"@), row) == Some(c.slope)
            &&& cell_of(batch.numbers("intercept"@), row) == Some(c.intercept)
            &&& cell_of(batch.numbers("n"@), row) == Some(c.n)
            &&& or_zero(cell_of(batch.numbers("x_bar"@), row)) == c.x_bar
            &&& or_zero(cell_of(batch.numbers("sxx"@), row)) == c.sxx
            &&& or_zero(cell_of(batch.numbers("sxy"@), row)) == c.sxy
            &&& or_zero(cell_of(batch.numbers("syy"@), row)) == c.syy
        },
        row_fit(mark.ci, batch, channel_map, scales, row) matches Some(fit) ==> {
            let (x, y) = (scales.at(Channel::X)->0, scales.at(Channel::Y)->0);
            &&& x.domain_min() is Some && x.domain_max() is Some
            &&& fit == fit_of(
                mark.ci,
                coefficients(batch, row)->0,
                fit.colour,
                x,
                y,
                x.domain_min()->0,
                x.domain_max()->0,
            )
            &&& exists|o: int|
                0 <= o && o + solid_ops(fit).len() <= mark.drawn(
                    batch,
                    channel_map,
                    scales,
                ).len() && #[trigger] mark.drawn(batch, channel_map, scales).subrange(
                    o,
                    o + solid_ops(fit).len(),
                ) == solid_ops(fit)
        },
{
    if let Some(fit) = row_fit(mark.ci, batch, channel_map, scales, row) {
        let drawn = mark.drawn(batch, channel_map, scales);
        let f = |r: int| fit_ops(row_fit(mark.ci, batch, channel_map, scales, r), None, r);
        let o = lemma_block(batch.rows as nat, f, row);
        assert(f(row) == solid_ops(fit));
        let part = drawn.subrange(o, o + solid_ops(fit).len());
        assert forall|k: int| 0 <= k < solid_ops(fit).len() implies part[k] == solid_ops(
            fit,
        )[k] by {
            assert(drawn[o + k] == f(row)[k]);
        }
        assert(part =~= solid_ops(fit));
    }
}

} // verus!
