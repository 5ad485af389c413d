//! What extents hold: every value of theirs, and no more room than the values
//! take.
use vstd::prelude::*;

use crate::accuracy::amount;
use crate::approximation::{is_about, lemma_beside, size_of};
use crate::batch::Batch;
use crate::channel::{Channel, ChannelMap};
use crate::drawing::Point;
use crate::fits::within;
use crate::folds::{
    highest_from, lemma_highest, lemma_lowest, lemma_present_comes, lemma_present_holds,
    lowest_from, present,
};
use crate::geo_mark::box_around;
use crate::hexbin::hex_span;
use crate::infer::Range;
use crate::lattice::{centres_of, pitch};
use crate::number::{lemma_format, Number};
use crate::numerals::{INFINITY, NEG_INFINITY, ZERO};
use crate::ramp::fill_domain;
use crate::raster::{bin_span, draw_pitch, lattice_span};
use crate::rect::{channel_numbers, joint_extent};
use crate::regression::extent_of;

verus! {

/// Whether a column has a value.
pub open spec fn has_value(v: Seq<Option<Number>>, x: Number) -> bool {
    exists|i: int| 0 <= i < v.len() && #[trigger] v[i] == Some(x)
}

/// Whether a bound is one of a column's values and none lies below it.
pub open spec fn is_least(v: Seq<Option<Number>>, x: Number) -> bool {
    has_value(v, x) && forall|i: int|
        0 <= i < v.len() ==> ((#[trigger] v[i]) matches Some(y) ==> (!y.is_nan() ==> x.le(y)))
}

/// Whether a bound is one of a column's values and none lies above it.
pub open spec fn is_greatest(v: Seq<Option<Number>>, x: Number) -> bool {
    has_value(v, x) && forall|i: int|
        0 <= i < v.len() ==> ((#[trigger] v[i]) matches Some(y) ==> (!y.is_nan() ==> y.le(x)))
}

/// The finite least of a column.
proof fn lemma_least(v: Seq<Option<Number>>)
    ensures
        lowest_from(Number::from_bits(INFINITY), present(v)).is_finite() ==> is_least(
            v,
            lowest_from(Number::from_bits(INFINITY), present(v)),
        ),
{
    let up = Number::from_bits(INFINITY);
    let low = lowest_from(up, present(v));
    lemma_format();
    lemma_lowest(up, present(v));
    if low.is_finite() {
        lemma_present_comes(v, low);
        assert forall|i: int| 0 <= i < v.len() implies ((#[trigger] v[i]) matches Some(y)
            ==> (!y.is_nan() ==> low.le(y))) by {
            lemma_present_holds(v, i);
            if let Some(y) = v[i] {
                let k = choose|k: int| 0 <= k < present(v).len() && present(v)[k] == y;
                assert(present(v)[k] == y);
            }
        }
    }
}

/// The finite greatest of a column.
proof fn lemma_greatest(v: Seq<Option<Number>>)
    ensures
        highest_from(Number::from_bits(NEG_INFINITY), present(v)).is_finite() ==> is_greatest(
            v,
            highest_from(Number::from_bits(NEG_INFINITY), present(v)),
        ),
{
    let down = Number::from_bits(NEG_INFINITY);
    let high = highest_from(down, present(v));
    lemma_format();
    lemma_highest(down, present(v));
    if high.is_finite() {
        lemma_present_comes(v, high);
        assert forall|i: int| 0 <= i < v.len() implies ((#[trigger] v[i]) matches Some(y)
            ==> (!y.is_nan() ==> y.le(high))) by {
            lemma_present_holds(v, i);
            if let Some(y) = v[i] {
                let k = choose|k: int| 0 <= k < present(v).len() && present(v)[k] == y;
                assert(present(v)[k] == y);
            }
        }
    }
}

/// An extent reaches from the least value of one column to the greatest of
/// another.
pub proof fn an_extent_reaches_from_least_to_greatest(
    batch: Batch,
    min_col: Seq<char>,
    max_col: Seq<char>,
)
    ensures
        extent_of(batch, min_col, max_col) matches Some(e) ==> (batch.numbers(
            min_col,
        ) matches Some(a) && is_least(a, e.start)) && (batch.numbers(max_col) matches Some(b) && is_greatest(
            b,
            e.end,
        )),
{
    if let (Some(a), Some(b)) = (batch.numbers(min_col), batch.numbers(max_col)) {
        lemma_least(a);
        lemma_greatest(b);
    }
}

/// The domain of a ramp holds every value of the fill: it ends at the greatest,
/// and starts at nothing, or at the least where that is below.
pub proof fn a_ramp_holds_its_fill(batch: Batch, channel_map: ChannelMap)
    ensures
        fill_domain(batch, channel_map) matches Some(d) ==> (channel_numbers(
            batch,
            channel_map,
            Channel::Fill,
        ) matches Some(v) && {
            let zero = Number::from_bits(ZERO);
            &&& is_greatest(v, d.end)
            &&& d.start.le(zero)
            &&& d.start == zero || is_least(v, d.start)
            &&& forall|i: int|
                0 <= i < v.len() ==> ((#[trigger] v[i]) matches Some(y) ==> (!y.is_nan()
                    ==> d.start.le(y)))
        }),
{
    if let Some(v) = channel_numbers(batch, channel_map, Channel::Fill) {
        lemma_format();
        lemma_least(v);
        lemma_greatest(v);
    }
}

/// The joint extent of two columns holds every value of either, and both its
/// ends are values of one of them.
pub proof fn a_joint_extent_holds_both_columns(
    a: Seq<Option<Number>>,
    b: Seq<Option<Number>>,
    i: int,
)
    ensures
        joint_extent(Some(a), Some(b)) matches Some(e) ==> {
            &&& has_value(a, e.start) || has_value(b, e.start)
            &&& has_value(a, e.end) || has_value(b, e.end)
            &&& 0 <= i < a.len() ==> (a[i] matches Some(y) ==> (!y.is_nan() ==> e.start.le(y)
                && y.le(e.end)))
            &&& 0 <= i < b.len() ==> (b[i] matches Some(y) ==> (!y.is_nan() ==> e.start.le(y)
                && y.le(e.end)))
        },
{
    let (up, down) = (Number::from_bits(INFINITY), Number::from_bits(NEG_INFINITY));
    let (p, q) = (present(a), present(b));
    let (low, high) = (lowest_from(up, p), highest_from(down, p));
    lemma_format();
    lemma_lowest(up, p);
    lemma_highest(down, p);
    lemma_lowest(low, q);
    lemma_highest(high, q);
    if let Some(e) = joint_extent(Some(a), Some(b)) {
        if p.contains(e.start) {
            lemma_present_comes(a, e.start);
        }
        if q.contains(e.start) {
            lemma_present_comes(b, e.start);
        }
        if p.contains(e.end) {
            lemma_present_comes(a, e.end);
        }
        if q.contains(e.end) {
            lemma_present_comes(b, e.end);
        }
        if 0 <= i < a.len() {
            lemma_present_holds(a, i);
            if let Some(y) = a[i] {
                let k = choose|k: int| 0 <= k < p.len() && p[k] == y;
                assert(p[k] == y);
            }
        }
        if 0 <= i < b.len() {
            lemma_present_holds(b, i);
            if let Some(y) = b[i] {
                let k = choose|k: int| 0 <= k < q.len() && q[k] == y;
                assert(q[k] == y);
            }
        }
    }
}

/// The box round points holds every one of them, and each of its sides touches
/// one.
pub proof fn a_box_holds_its_points(points: Seq<Point>)
    ensures
        box_around(points) matches Some(r) ==> {
            &&& forall|i: int|
                0 <= i < points.len() ==> {
                    let p = #[trigger] points[i];
                    &&& !p.x.is_nan() ==> r.x0.le(p.x) && p.x.le(r.x1)
                    &&& !p.y.is_nan() ==> r.y0.le(p.y) && p.y.le(r.y1)
                }
            &&& exists|i: int| 0 <= i < points.len() && (#[trigger] points[i]).x == r.x0
            &&& exists|i: int| 0 <= i < points.len() && (#[trigger] points[i]).x == r.x1
            &&& exists|i: int| 0 <= i < points.len() && (#[trigger] points[i]).y == r.y0
            &&& exists|i: int| 0 <= i < points.len() && (#[trigger] points[i]).y == r.y1
        },
{
    let (up, down) = (Number::from_bits(INFINITY), Number::from_bits(NEG_INFINITY));
    let xs = points.map_values(|p: Point| p.x);
    let ys = points.map_values(|p: Point| p.y);
    lemma_format();
    lemma_lowest(up, xs);
    lemma_lowest(up, ys);
    lemma_highest(down, xs);
    lemma_highest(down, ys);
    if let Some(r) = box_around(points) {
        assert forall|i: int| 0 <= i < points.len() implies {
            let p = #[trigger] points[i];
            &&& !p.x.is_nan() ==> r.x0.le(p.x) && p.x.le(r.x1)
            &&& !p.y.is_nan() ==> r.y0.le(p.y) && p.y.le(r.y1)
        } by {
            assert(xs[i] == points[i].x && ys[i] == points[i].y);
        }
        let a = choose|a: int| 0 <= a < xs.len() && xs[a] == r.x0;
        let b = choose|b: int| 0 <= b < xs.len() && xs[b] == r.x1;
        let c = choose|c: int| 0 <= c < ys.len() && ys[c] == r.y0;
        let d = choose|d: int| 0 <= d < ys.len() && ys[d] == r.y1;
        assert(points[a].x == r.x0 && points[b].x == r.x1);
        assert(points[c].y == r.y0 && points[d].y == r.y1);
    }
}

/// Whether a range has half of a width to spare on either side of two ends.
pub open spec fn has_half_to_spare(first: Number, last: Number, width: Number, e: Range) -> bool {
    within(first, 200) && within(last, 200) && within(width, 200) ==> {
        &&& is_about(
            e.start,
            amount(first) - amount(width) / 2 as real,
            2 as real * size_of(first, width),
        )
        &&& is_about(
            e.end,
            amount(last) + amount(width) / 2 as real,
            2 as real * size_of(last, width),
        )
    }
}

/// The axes of a lattice reach half a cell past its outermost centres.
pub proof fn a_lattice_reaches_half_a_cell_past_its_centres(centres: Seq<Number>, step: Number)
    ensures
        lattice_span(centres, step) is Some <==> centres.len() > 0,
        lattice_span(centres, step) matches Some(e) ==> has_half_to_spare(
            centres[0],
            centres.last(),
            draw_pitch(centres, step),
            e,
        ),
{
    let w = draw_pitch(centres, step);
    if centres.len() > 0 {
        if within(centres[0], 200) && within(w, 200) {
            lemma_beside(centres[0], w);
        }
        if within(centres.last(), 200) && within(w, 200) {
            lemma_beside(centres.last(), w);
        }
    }
}

/// The axes of bins reach half a bin past the outermost centres.
pub proof fn bins_have_room_at_the_edges(values: Seq<Option<Number>>)
    ensures
        bin_span(Some(values)) matches Some(e) ==> {
            let centres = centres_of(present(values));
            &&& centres.len() > 0
            &&& pitch(centres) matches Some(step) && has_half_to_spare(
                centres[0],
                centres.last(),
                step,
                e,
            )
        },
{
    let centres = centres_of(present(values));
    if let Some(w) = pitch(centres) {
        if centres.len() > 0 {
            if within(centres[0], 200) && within(w, 200) {
                lemma_beside(centres[0], w);
            }
            if within(centres.last(), 200) && within(w, 200) {
                lemma_beside(centres.last(), w);
            }
        }
    }
}

/// The axes of hexagons reach half a hexagon past the outermost centres.
pub proof fn hexagons_have_room_at_the_edges(half: Number, e: Range)
    requires
        within(half, 200),
        within(e.start, 200),
        within(e.end, 200),
    ensures
        hex_span(Some(half), Some(e)) matches Some(r) && {
            &&& is_about(
                r.start,
                amount(e.start) - amount(half),
                2 as real * size_of(e.start, half),
            )
            &&& is_about(r.end, amount(e.end) + amount(half), 2 as real * size_of(e.end, half))
        },
{
    lemma_beside(e.start, half);
    lemma_beside(e.end, half);
}

} // verus!
