//! What lies a part of the way: from one place to another, and from the foot of
//! a bar to its tip.
use vstd::arithmetic::power2::{lemma2_to64, lemma2_to64_rest, lemma_pow2_pos};
use vstd::prelude::*;

use crate::accuracy::{
    amount, distance, lemma_amount_of_parts, lemma_amount_of_sign, lemma_amounts_in_order,
    lemma_distances, lemma_minus_accuracy, lemma_part, roundoff,
};
use crate::approximation::{
    is_about, is_ordinary, lemma_about, lemma_exactly_stands, lemma_ordinary_size,
    lemma_ordinary_sizes, lemma_stands_more, lemma_stands_product, lemma_stands_sum, size_of,
    stands_for,
};
use crate::bounds::{lemma_nothing_over, lemma_over_itself, lemma_over_keeps_order};
use crate::dash::{point_along, walkable};
use crate::dot::moved;
use crate::drawing::Point;
use crate::fits::within;
use crate::highlight::{tip_of_part, MIN_SELECTED_EXTENT_PX};
use crate::number::{lemma_format, Number};
use crate::numerals::{ONE, ZERO};
use crate::residual::lemma_one;

verus! {

/// Whether a number is a part of a whole: from nothing to one.
pub open spec fn is_part(t: Number) -> bool {
    t.is_finite() && 0 as real <= amount(t) <= 1 as real
}

/// Whether a place is a part of the way from one place to another.
pub open spec fn is_on_the_way(a: Number, b: Number, part: real, place: Number) -> bool {
    within(a, 200) && within(b, 200) ==> is_about(
        place,
        amount(a) + part * (amount(b) - amount(a)),
        4 as real * size_of(a, b),
    )
}

/// The sizes of moderate numbers are ordinary.
proof fn lemma_size(a: Number, b: Number)
    requires
        within(a, 200),
        within(b, 200),
    ensures
        is_ordinary(1 as real),
        ({
            let s = size_of(a, b);
            &&& is_ordinary(s)
            &&& is_ordinary(2 as real * s)
            &&& is_ordinary(4 as real * s)
            &&& s >= 1 as real
            &&& distance(amount(a)) <= s
            &&& distance(amount(b)) <= s
        }),
{
    lemma_pow2_pos(200);
    lemma_pow2_pos(399);
    lemma_ordinary_size(1 as real);
    lemma_distances(amount(a), amount(b));
    lemma_ordinary_sizes(size_of(a, b));
}

/// A part of the way between two moderate numbers.
proof fn lemma_part_way(a: Number, b: Number, t: Number)
    requires
        is_part(t),
    ensures
        is_on_the_way(a, b, amount(t), a.plus(b.minus(a).times(t))),
{
    if within(a, 200) && within(b, 200) {
        let s = size_of(a, b);
        let two = 2 as real * s;
        let (x, y, f) = (amount(a), amount(b), amount(t));
        lemma_size(a, b);
        lemma_exactly_stands(a, s);
        lemma_exactly_stands(b, s);
        lemma_stands_sum(b, y, s, a, x, s, 0);
        reveal(distance);
        lemma_exactly_stands(t, 1 as real);
        assert(two * 1 as real == two);
        let d = b.minus(a);
        lemma_stands_product(d, y - x, two, 8, t, f, 1 as real, 0);
        lemma_stands_more(a, x, s, 0, two, 16);
        assert((y - x) * f == f * (y - x)) by (nonlinear_arith);
        lemma_stands_sum(a, x, two, d.times(t), f * (y - x), two, 16);
        lemma_about(a.plus(d.times(t)), x + f * (y - x), 4 as real * s, 24);
    }
}

/// A dot that moves is a part of the way from where it was to where it goes, as
/// far across as up, and a dot that was not there before is where it goes.
pub proof fn a_moving_dot_is_a_part_of_the_way(
    places: Seq<Point>,
    t: Number,
    row: int,
    to: Point,
)
    requires
        is_part(t),
    ensures
        ({
            let at = moved(Some((places, t)), row, to);
            if 0 <= row < places.len() {
                &&& is_on_the_way(places[row].x, to.x, amount(t), at.x)
                &&& is_on_the_way(places[row].y, to.y, amount(t), at.y)
            } else {
                at == to
            }
        }),
{
    if 0 <= row < places.len() {
        lemma_part_way(places[row].x, to.x, t);
        lemma_part_way(places[row].y, to.y, t);
    }
}

/// Whether a point lies on a straight piece, a part of the way along it.
pub open spec fn is_along(a: Point, b: Point, part: real, p: Point) -> bool {
    is_on_the_way(a.x, b.x, part, p.x) && is_on_the_way(a.y, b.y, part, p.y)
}

/// A part of the way is as far across as up.
pub proof fn a_point_along_a_piece_lies_on_it(a: Point, b: Point, t: Number)
    requires
        is_part(t),
    ensures
        is_along(a, b, amount(t), point_along(a, b, t)),
{
    lemma_part_way(a.x, b.x, t);
    lemma_part_way(a.y, b.y, t);
}

/// How far a quarter of a pixel is.
proof fn lemma_quarter()
    ensures
        Number::from_bits(MIN_SELECTED_EXTENT_PX).is_finite(),
        amount(Number::from_bits(MIN_SELECTED_EXTENT_PX)) == 1 as real / 4 as real,
{
    lemma_format();
    lemma2_to64();
    lemma2_to64_rest();
    let x = Number::from_bits(MIN_SELECTED_EXTENT_PX);
    lemma_amount_of_parts(x, 54);
    assert(amount(x) * 18014398509481984 as real == 4503599627370496 as real);
}

/// A number has the sign of its exact value.
proof fn lemma_sign(x: Number)
    requires
        x.is_finite(),
    ensures
        x.negative() ==> amount(x) <= 0 as real,
        !x.negative() ==> amount(x) >= 0 as real,
{
    let zero = Number::from_bits(ZERO);
    lemma_format();
    lemma_amounts_in_order(x, zero);
    lemma_amounts_in_order(zero, zero);
    lemma_amount_of_sign(zero);
}

/// How far the selected part of a bar reaches from its foot: its fraction of
/// the way, but a quarter of a pixel at least, and never past the tip.
pub open spec fn is_reach(way: real, part: real, reach: real) -> bool {
    let quarter = 1 as real / 4 as real;
    let toward = if way < 0 as real {
        -quarter
    } else {
        quarter
    };
    &&& distance(way) <= quarter ==> reach == way
    &&& distance(way) > quarter && distance(part) <= quarter ==> reach == toward
    &&& distance(way) > quarter && distance(part) > quarter ==> reach == part
}

/// What is added to the foot of a bar is near the reach.
proof fn lemma_near_reach(way: real, part: real, d: real, drawn: real, x: real, e: real)
    requires
        e >= 0 as real,
        distance(d - way) <= 8 as real * e,
        distance(drawn - part) <= 16 as real * e,
        way >= 0 as real ==> 0 as real <= part <= way,
        way <= 0 as real ==> way <= part <= 0 as real,
        d > 0 as real ==> way > 0 as real,
        d < 0 as real ==> way < 0 as real,
        ({
            let quarter = 1 as real / 4 as real;
            let floor = if distance(d) < quarter {
                distance(d)
            } else {
                quarter
            };
            if floor <= distance(drawn) {
                x == drawn
            } else {
                distance(x) == floor && (d > 0 as real ==> x >= 0 as real) && (d < 0 as real ==> x
                    <= 0 as real)
            }
        }),
    ensures
        forall|reach: real|
            is_reach(way, part, reach) ==> #[trigger] distance(x - reach) <= 40 as real * e,
{
    reveal(distance);
}

/// The selected part of a bar reaches its fraction of the way from the foot to
/// the tip: at least a quarter of a pixel of it, and the whole of a bar that is
/// shorter than that.
pub proof fn a_selected_part_is_in_proportion(
    base: Number,
    tip: Number,
    fraction: Number,
    reach: real,
)
    requires
        within(base, 200),
        within(tip, 200),
        is_part(fraction),
        is_reach(
            amount(tip) - amount(base),
            amount(fraction) * (amount(tip) - amount(base)),
            reach,
        ),
    ensures
        is_about(
            tip_of_part(base, tip, fraction),
            amount(base) + reach,
            4 as real * size_of(base, tip),
        ),
{
    let s = size_of(base, tip);
    let two = 2 as real * s;
    let (b, t, f) = (amount(base), amount(tip), amount(fraction));
    let way = t - b;
    let part = f * way;
    let span = tip.minus(base);
    let drawn = span.times(fraction);
    let quarter = Number::from_bits(MIN_SELECTED_EXTENT_PX);
    let floor = quarter.min(span.abs());
    let least = floor.copysign(span);
    let x = if floor.le(drawn.abs()) {
        drawn
    } else {
        least
    };
    lemma_size(base, tip);
    lemma_exactly_stands(base, s);
    lemma_exactly_stands(tip, s);
    lemma_stands_sum(tip, t, s, base, b, s, 0);
    reveal(distance);
    lemma_exactly_stands(fraction, 1 as real);
    assert(two * 1 as real == two);
    lemma_stands_product(span, way, two, 8, fraction, f, 1 as real, 0);
    assert(way * f == part) by (nonlinear_arith)
        requires
            part == f * way,
    ;
    assert((way >= 0 as real ==> 0 as real <= part <= way) && (way <= 0 as real ==> way <= part
        <= 0 as real)) by (nonlinear_arith)
        requires
            part == f * way,
            0 as real <= f <= 1 as real,
    ;
    lemma_quarter();
    lemma_amount_of_sign(span);
    lemma_amount_of_sign(drawn);
    lemma_minus_accuracy(tip, base);
    let d = amount(span);
    lemma_part(distance(d));
    lemma_amounts_in_order(quarter, span.abs());
    lemma_amounts_in_order(span.abs(), quarter);
    lemma_amounts_in_order(floor, drawn.abs());
    lemma_format();
    assert(least.is_finite() && least.abs() == floor.abs());
    lemma_amount_of_sign(floor);
    lemma_amount_of_sign(least);
    lemma_sign(least);
    lemma_sign(span);
    let e = roundoff() * two;
    lemma_part(two);
    lemma_near_reach(way, part, d, amount(drawn), amount(x), e);
    assert(distance(amount(x) - reach) <= 40 as real * e);
    assert(stands_for(x, reach, two, 40));
    lemma_stands_more(base, b, s, 0, two, 40);
    lemma_stands_sum(base, b, two, x, reach, two, 40);
    let edge = base.plus(x);
    lemma_amounts_in_order(base, tip);
    lemma_amounts_in_order(tip, base);
    lemma_amounts_in_order(tip, edge);
    lemma_amounts_in_order(edge, tip);
    let r = tip_of_part(base, tip, fraction);
    assert(stands_for(r, b + reach, 4 as real * s, 48));
    lemma_about(r, b + reach, 4 as real * s, 48);
}

/// A walk along a piece is a part of its length, wherever it stands.
pub proof fn lemma_walked(s: Number, len: Number)
    requires
        walkable(len),
        s.is_finite(),
        0 as real <= amount(s) <= amount(len),
    ensures
        is_part(s.over(len)),
{
    let zero = Number::from_bits(ZERO);
    lemma_format();
    lemma_amount_of_sign(zero);
    lemma_amounts_in_order(zero, len);
    lemma_amounts_in_order(zero, s);
    lemma_amounts_in_order(s, len);
    lemma_one();
    lemma_over_keeps_order(zero, s, len);
    lemma_over_keeps_order(s, len, len);
    lemma_nothing_over(zero, len);
    lemma_over_itself(len);
    let q = s.over(len);
    lemma_amounts_in_order(zero, q);
    lemma_amounts_in_order(q, Number::from_bits(ONE));
}

} // verus!
