//! Where a graticule stands: meridians at longitudes and parallels at latitudes,
//! at whole numbers of steps.
use vstd::arithmetic::power2::{lemma2_to64, pow2};
use vstd::prelude::*;

use crate::accuracy::{
    amount, distance, least, lemma_amounts_in_order, lemma_least_is_small, lemma_over_accuracy,
    lemma_part, roundoff,
};
use crate::approximation::is_about;
use crate::even_places::{is_step, lemma_even_step};
use crate::fits::{beyond, lemma_quotient_fits, lemma_within_more, within};
use crate::geo::{
    graticule_model, meridian, multiples, parallel, spacing, GeoExtent, PathModel,
    GRATICULE_INTERVALS,
};
use crate::gridding::{lemma_whole_steps, reach_of};
use crate::number::{lemma_format, Number};
use crate::numerals::ZERO;
use crate::wholes::{a_ceiling_is_the_whole_number_above, a_floor_is_the_whole_number_below};

verus! {

/// Whether an extent is moderate.
pub open spec fn is_moderate_extent(extent: GeoExtent) -> bool {
    &&& within(extent.lon_min, 200) && within(extent.lon_max, 200)
    &&& within(extent.lat_min, 200) && within(extent.lat_max, 200)
}

/// Whether a line is a meridian: all of it at one longitude, from the least
/// latitude of an extent to the greatest in even steps.
pub open spec fn is_meridian(extent: GeoExtent, path: PathModel) -> bool {
    &&& path.kind is Meridian
    &&& path.coordinates.len() == GRATICULE_INTERVALS + 1
    &&& forall|i: int|
        0 <= i <= GRATICULE_INTERVALS ==> (#[trigger] path.coordinates[i]).x == path.degrees
            && is_step(
            extent.lat_min,
            extent.lat_max,
            i,
            GRATICULE_INTERVALS as int,
            path.coordinates[i].y,
        )
}

/// Whether a line is a parallel: all of it at one latitude, from the least
/// longitude of an extent to the greatest in even steps.
pub open spec fn is_parallel(extent: GeoExtent, path: PathModel) -> bool {
    &&& path.kind is Parallel
    &&& path.coordinates.len() == GRATICULE_INTERVALS + 1
    &&& forall|i: int|
        0 <= i <= GRATICULE_INTERVALS ==> (#[trigger] path.coordinates[i]).y == path.degrees
            && is_step(
            extent.lon_min,
            extent.lon_max,
            i,
            GRATICULE_INTERVALS as int,
            path.coordinates[i].x,
        )
}

/// Meridians run north at one longitude, and parallels east at one latitude.
pub proof fn a_graticule_line_keeps_its_degree(extent: GeoExtent, degrees: Number)
    requires
        is_moderate_extent(extent),
    ensures
        is_meridian(extent, meridian(extent, degrees)),
        is_parallel(extent, parallel(extent, degrees)),
        meridian(extent, degrees).degrees == degrees,
        parallel(extent, degrees).degrees == degrees,
{
    let last = GRATICULE_INTERVALS as int;
    let (m, p) = (meridian(extent, degrees), parallel(extent, degrees));
    assert forall|i: int| 0 <= i <= last implies (#[trigger] m.coordinates[i]).x == m.degrees
        && is_step(extent.lat_min, extent.lat_max, i, last, m.coordinates[i].y) by {
        lemma_even_step(extent.lat_min, extent.lat_max, i, last);
    }
    assert forall|i: int| 0 <= i <= last implies (#[trigger] p.coordinates[i]).y == p.degrees
        && is_step(extent.lon_min, extent.lon_max, i, last, p.coordinates[i].x) by {
        lemma_even_step(extent.lon_min, extent.lon_max, i, last);
    }
}

/// A graticule is meridians at the whole steps of the longitudes, and then
/// parallels at the whole steps of the latitudes.
pub proof fn a_graticule_is_meridians_and_then_parallels(extent: GeoExtent, i: int)
    requires
        is_moderate_extent(extent),
        0 <= i < graticule_model(extent).len(),
    ensures
        ({
            let path = graticule_model(extent)[i];
            let east = multiples(extent.lon_min, extent.lon_max, spacing(extent.lon_span()));
            let north = multiples(extent.lat_min, extent.lat_max, spacing(extent.lat_span()));
            if i < east.len() {
                is_meridian(extent, path) && path.degrees == east[i]
            } else {
                is_parallel(extent, path) && path.degrees == north[i - east.len()]
            }
        }),
{
    let path = graticule_model(extent)[i];
    a_graticule_line_keeps_its_degree(extent, path.degrees);
}

/// Whether a number of steps lies between two bounds, up to rounding.
pub open spec fn is_step_between(lo: Number, hi: Number, step: Number, n: int) -> bool {
    let slack = 1 as real / 1000000 as real;
    &&& n as real * amount(step) >= amount(lo) - slack
    &&& n as real * amount(step) <= amount(hi) + slack
}

/// The whole numbers of steps between two bounds stand one after the other,
/// each at its own number of steps, none left out and none past a bound.
pub proof fn ticks_stand_at_whole_steps(lo: Number, hi: Number, step: Number) -> (ends: (int, int))
    requires
        within(lo, 10),
        within(hi, 10),
        within(step, 10),
        amount(step) >= 1 as real / 128 as real,
    ensures
        ({
            let (first, last) = ends;
            let all = multiples(lo, hi, step);
            let slack = 1 as real / 1000000 as real;
            &&& all.len() == if first <= last {
                last - first + 1
            } else {
                0
            }
            &&& forall|k: int|
                0 <= k < all.len() ==> {
                    &&& is_about(
                        #[trigger] all[k],
                        (first + k) as real * amount(step),
                        2 as real * reach_of(Number::from_bits(ZERO), step, first + k),
                    )
                    &&& is_step_between(lo, hi, step, first + k)
                }
            &&& (first - 1) as real * amount(step) < amount(lo) + slack
            &&& (last + 1) as real * amount(step) > amount(hi) - slack
        }),
{
    let (a, b, s) = (amount(lo), amount(hi), amount(step));
    let (p, q) = (lo.over(step), hi.over(step));
    lemma_format();
    lemma_step_count(lo, step);
    lemma_step_count(hi, step);
    lemma_within_more(step, 10, 200);
    let first = a_ceiling_is_the_whole_number_above(p);
    let last = a_floor_is_the_whole_number_below(q);
    lemma_amounts_in_order(p.ceil(), q.floor());
    let all = multiples(lo, hi, step);
    let slack = 1 as real / 1000000 as real;
    reveal(distance);
    assert(-1000000 <= first <= 1000000 && -1000000 <= last <= 1000000);
    let (f, l) = (first as real, last as real);
    assert(f * s >= a - slack && (f - 1 as real) * s < a + slack) by (nonlinear_arith)
        requires
            f >= amount(p),
            amount(p) > f - 1 as real,
            amount(p) * s >= a - slack,
            amount(p) * s <= a + slack,
            s > 0 as real,
    ;
    assert(l * s <= b + slack && (l + 1 as real) * s > b - slack) by (nonlinear_arith)
        requires
            l <= amount(q),
            amount(q) < l + 1 as real,
            amount(q) * s >= b - slack,
            amount(q) * s <= b + slack,
            s > 0 as real,
    ;
    assert forall|k: int| 0 <= k < all.len() implies is_about(
        #[trigger] all[k],
        (first + k) as real * amount(step),
        2 as real * reach_of(Number::from_bits(ZERO), step, first + k),
    ) && is_step_between(lo, hi, step, first + k) by {
        let n = first + k;
        lemma_whole_steps(p.ceil(), step, first);
        lemma_whole_steps(Number::spec_from_int(n), step, n);
        let r = n as real;
        assert(r * s >= f * s && r * s <= l * s) by (nonlinear_arith)
            requires
                f <= r <= l,
                s > 0 as real,
        ;
    }
    (first, last)
}

/// How many steps a bound is from nothing.
proof fn lemma_step_count(x: Number, step: Number)
    requires
        within(x, 10),
        within(step, 10),
        amount(step) >= 1 as real / 128 as real,
    ensures
        ({
            let q = x.over(step);
            let slack = 1 as real / 1000000 as real;
            &&& q.is_finite() && distance(amount(q)) <= 200000 as real
            &&& amount(q) * amount(step) >= amount(x) - slack
            &&& amount(q) * amount(step) <= amount(x) + slack
        }),
{
    let q = x.over(step);
    let (v, s, w) = (amount(x), amount(step), amount(q));
    let (u, h) = (roundoff(), least());
    lemma2_to64();
    assert(pow2(10) == 1024 && pow2(7) == 128);
    assert(distance(s) == s) by {
        reveal(distance);
    }
    assert(beyond(step, 7));
    lemma_quotient_fits(x, step, 10, 7);
    lemma_over_accuracy(x, step);
    lemma_least_is_small();
    reveal(distance);
    assert(pow2(17) == 131072);
    let e = u * distance(w) + h;
    lemma_part(distance(w));
    assert(e <= 1 as real / 10000000000 as real);
    let g = v / s;
    assert(g * s == v) by (nonlinear_arith)
        requires
            g == v / s,
            s > 0 as real,
    ;
    assert(w * s - v <= e * s && v - w * s <= e * s) by (nonlinear_arith)
        requires
            g * s == v,
            w - g <= e,
            g - w <= e,
            s > 0 as real,
    ;
    assert(e * s <= 1 as real / 1000000 as real) by (nonlinear_arith)
        requires
            e <= 1 as real / 10000000000 as real,
            s <= 1024 as real,
            s > 0 as real,
    ;
}

} // verus!
