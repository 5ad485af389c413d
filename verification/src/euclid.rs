//! What a nearest-point search finds: the dot that is nearest in the plane.
use vstd::arithmetic::power2::{lemma2_to64, lemma2_to64_rest, pow2};
use vstd::prelude::*;

use crate::accuracy::{
    amount, distance, least, lemma_amount_of_parts, lemma_amount_of_sign, lemma_amounts_in_order,
    lemma_close, lemma_distance_of_product, lemma_distances, lemma_least_is_small,
    lemma_minus_accuracy, lemma_part, lemma_plus_accuracy, lemma_times_accuracy, lemma_triangle,
    roundoff, trip_roundoff,
};
use crate::batch::{value_at, Batch};
use crate::bounds::lemma_difference_keeps_order;
use crate::channel::{Channel, ChannelMap};
use crate::drawing::Point;
use crate::fits::{lemma_product_fits, lemma_sum_fits, within};
use crate::nearest::{
    distance_to, in_reach, is_nearest, none_in_reach, plotted, reach_of, NearestHit, NearestMode,
};
use crate::number::{lemma_format, Number};
use crate::numerals::ZERO;
use crate::root_accuracy::lemma_sqrt_accuracy;
use crate::scale_set::ScaleSet;
use crate::straight::{a_scale_draws_a_straight_line, lies_at};

verus! {

/// The exact way across from one number to another.
pub open spec fn across(from: Number, to: Number) -> real {
    amount(to) - amount(from)
}

/// The square of the exact distance of two points along the axes of a mode:
/// that of one axis, or the sum of both.
pub open spec fn squared_gap(a: Point, b: Point, mode: NearestMode) -> real {
    let wide = across(a.x, b.x) * across(a.x, b.x);
    let tall = across(a.y, b.y) * across(a.y, b.y);
    match mode {
        NearestMode::X => wide,
        NearestMode::Y => tall,
        NearestMode::XY => wide + tall,
    }
}

/// What rounding may change of a squared distance: a tiny part of it, and
/// almost nothing beside.
pub open spec fn gap_slack(square: real) -> real {
    trip_roundoff() * square + 8 as real * least()
}

/// Whether both coordinates of a point are finite.
pub open spec fn is_placed(p: Point) -> bool {
    p.x.is_finite() && p.y.is_finite()
}

/// Whether neither coordinate of a point is greater than two to the 200th.
pub open spec fn is_moderate(p: Point) -> bool {
    within(p.x, 200) && within(p.y, 200)
}

/// A point with its coordinates exchanged.
pub open spec fn turned(p: Point) -> Point {
    Point { x: p.y, y: p.x }
}

/// The mode that measures along the other axis.
pub open spec fn turned_mode(mode: NearestMode) -> NearestMode {
    match mode {
        NearestMode::X => NearestMode::Y,
        NearestMode::Y => NearestMode::X,
        NearestMode::XY => NearestMode::XY,
    }
}

/// A sum does not depend on the order of its parts.
pub proof fn lemma_plus_turns(a: Number, b: Number)
    ensures
        a.plus(b) == b.plus(a),
{
    reveal(Number::spec_plus);
    if a.is_infinite() && b.is_infinite() && a.negative() == b.negative() {
        assert(a == b);
    }
}

/// The square of a near number is near the square.
proof fn lemma_square_near(d: real, x: real)
    requires
        distance(d - x) <= roundoff() * distance(d),
    ensures
        distance(d * d - x * x) <= 6 as real * (roundoff() * (x * x)),
        d * d <= 4 as real * (x * x),
{
    let u = roundoff();
    lemma_close(d, x, 0 as real);
    let (a, b) = (distance(d), distance(x));
    lemma_distances(d, x);
    lemma_distance_of_product(d - x, d + x);
    lemma_distance_of_product(d, d);
    lemma_distance_of_product(x, x);
    assert((d - x) * (d + x) == d * d - x * x) by (nonlinear_arith);
    let (m, n) = (distance(d - x), distance(d + x));
    lemma_distances(d - x, d + x);
    let s = b * b;
    assert(m * n <= 6 as real * (u * s)) by (nonlinear_arith)
        requires
            0 as real <= m <= 2 as real * (u * b),
            0 as real <= n <= 3 as real * b,
            s == b * b,
            u >= 0 as real,
            b >= 0 as real,
    ;
    assert(a * a <= 4 as real * s) by (nonlinear_arith)
        requires
            0 as real <= a <= 2 as real * b,
            s == b * b,
    ;
    assert(x * x >= 0 as real && d * d >= 0 as real) by (nonlinear_arith);
    assert(distance(x * x) == x * x && distance(d * d) == d * d) by {
        reveal(distance);
    }
}

/// A rounded square of a rounded difference.
pub proof fn lemma_squared_difference(a: Number, b: Number)
    requires
        a.is_finite(),
        b.is_finite(),
        b.minus(a).times(b.minus(a)).is_finite(),
    ensures
        ({
            let d = b.minus(a);
            let f = d.times(d);
            let x = across(a, b);
            &&& d.is_finite()
            &&& distance(amount(f) - x * x) <= 32 as real * (roundoff() * (x * x)) + 2 as real
                * least()
            &&& amount(f) >= 0 as real
        }),
{
    let d = b.minus(a);
    let f = d.times(d);
    let x = across(a, b);
    let u = roundoff();
    assert(d.is_finite()) by {
        reveal(Number::spec_times);
        lemma_difference_keeps_order(b, a, a);
    }
    lemma_minus_accuracy(b, a);
    lemma_times_accuracy(d, d);
    lemma_least_is_small();
    let e = amount(d);
    let s = x * x;
    lemma_square_near(e, x);
    lemma_close(amount(f), e * e, least());
    lemma_triangle(amount(f), e * e, s);
    assert(e * e >= 0 as real && s >= 0 as real) by (nonlinear_arith)
        requires
            s == x * x,
    ;
    assert(distance(e * e) == e * e) by {
        reveal(distance);
    }
    assert(u * (e * e) <= 4 as real * (u * s)) by (nonlinear_arith)
        requires
            e * e <= 4 as real * s,
            u >= 0 as real,
    ;
    assert(amount(f) >= 0 as real) by {
        let zero = Number::from_bits(ZERO);
        reveal(Number::spec_times);
        lemma_format();
        lemma_amount_of_sign(zero);
        lemma_amounts_in_order(zero, f);
    }
}

/// The distance of a point from the cursor is that of the plane: its square is
/// the sum of the squares of the ways across and up, or the square of one of
/// them where one axis is measured, up to rounding.
pub proof fn a_distance_is_that_of_the_plane(cursor: Point, p: Point, mode: NearestMode)
    requires
        is_placed(cursor),
        is_placed(p),
    ensures
        is_moderate(cursor) && is_moderate(p) ==> distance_to(cursor, p, mode).is_finite(),
        distance_to(cursor, p, mode).is_finite() ==> {
            let d = amount(distance_to(cursor, p, mode));
            let square = squared_gap(cursor, p, mode);
            &&& d >= 0 as real
            &&& distance(d * d - square) <= gap_slack(square)
        },
{
    if is_moderate(cursor) && is_moderate(p) {
        lemma_distance_is_finite(cursor, p, mode);
    }
    if distance_to(cursor, p, mode).is_finite() {
        lemma_distance(cursor, p, mode);
    }
}

proof fn lemma_distance_is_finite(cursor: Point, p: Point, mode: NearestMode)
    requires
        is_moderate(cursor),
        is_moderate(p),
    ensures
        distance_to(cursor, p, mode).is_finite(),
{
    let (dx, dy) = (p.x.minus(cursor.x), p.y.minus(cursor.y));
    let (f, g) = (dx.times(dx), dy.times(dy));
    lemma_sum_fits(p.x, cursor.x, 200);
    lemma_sum_fits(p.y, cursor.y, 200);
    lemma_amount_of_sign(dx);
    lemma_amount_of_sign(dy);
    lemma_product_fits(dx, dx, 201, 201);
    lemma_product_fits(dy, dy, 201, 201);
    lemma_sum_fits(f, g, 402);
    lemma_squared_difference(cursor.x, p.x);
    lemma_squared_difference(cursor.y, p.y);
    lemma_plus_accuracy(f, g);
    lemma_close(amount(f.plus(g)), amount(f) + amount(g), 0 as real);
    lemma_part(amount(f) + amount(g));
    assert(amount(f.plus(g)) >= 0 as real) by {
        reveal(distance);
    }
    lemma_sqrt_accuracy(f.plus(g));
}

proof fn lemma_distance(cursor: Point, p: Point, mode: NearestMode)
    requires
        is_placed(cursor),
        is_placed(p),
        distance_to(cursor, p, mode).is_finite(),
    ensures
        ({
            let d = amount(distance_to(cursor, p, mode));
            let square = squared_gap(cursor, p, mode);
            &&& d >= 0 as real
            &&& distance(d * d - square) <= gap_slack(square)
        }),
{
    let (dx, dy) = (p.x.minus(cursor.x), p.y.minus(cursor.y));
    let d = distance_to(cursor, p, mode);
    let square = squared_gap(cursor, p, mode);
    let (x, y) = (across(cursor.x, p.x), across(cursor.y, p.y));
    let (h, u) = (least(), roundoff());
    lemma_least_is_small();
    assert(x * x >= 0 as real && y * y >= 0 as real) by (nonlinear_arith);
    lemma_part(square);
    assert(trip_roundoff() * square == 512 as real * (u * square)) by (nonlinear_arith)
        requires
            trip_roundoff() == 1 as real / 17592186044416 as real,
            u == 1 as real / 9007199254740992 as real,
    ;
    match mode {
        NearestMode::X => {
            lemma_one_axis(cursor.x, p.x);
        },
        NearestMode::Y => {
            lemma_one_axis(cursor.y, p.y);
        },
        NearestMode::XY => {
            let (f, g) = (dx.times(dx), dy.times(dy));
            let t = f.plus(g);
            assert(t.is_finite()) by {
                reveal(Number::spec_sqrt);
            }
            assert(f.is_finite() && g.is_finite()) by {
                reveal(Number::spec_times);
                reveal(Number::spec_plus);
            }
            lemma_squared_difference(cursor.x, p.x);
            lemma_squared_difference(cursor.y, p.y);
            lemma_plus_accuracy(f, g);
            let (a, b, s) = (amount(f), amount(g), amount(t));
            lemma_close(s, a + b, 0 as real);
            lemma_part(a + b);
            assert(s >= 0 as real) by {
                reveal(distance);
            }
            lemma_sqrt_accuracy(t);
            let r = amount(d);
            let q = r * r;
            assert(q >= 0 as real) by (nonlinear_arith)
                requires
                    q == r * r,
            ;
            lemma_part(q);
            lemma_part(s);
            lemma_part(x * x);
            lemma_part(y * y);
            lemma_part(h);
            assert(u * (x * x) + u * (y * y) == u * square) by (nonlinear_arith)
                requires
                    square == x * x + y * y,
            ;
            reveal(distance);
            assert(a + b <= 2 as real * square + 4 as real * h);
            assert(u * (a + b) <= 2 as real * (u * square) + 4 as real * (u * h))
                by (nonlinear_arith)
                requires
                    a + b <= 2 as real * square + 4 as real * h,
                    u >= 0 as real,
            ;
            assert(q <= 2 as real * s);
            assert(u * q <= 2 as real * (u * s)) by (nonlinear_arith)
                requires
                    q <= 2 as real * s,
                    u >= 0 as real,
            ;
            assert(u * s <= 2 as real * (u * (a + b))) by (nonlinear_arith)
                requires
                    s <= 2 as real * (a + b),
                    u >= 0 as real,
            ;
        },
    }
}

/// Along one axis.
proof fn lemma_one_axis(a: Number, b: Number)
    requires
        a.is_finite(),
        b.is_finite(),
        b.minus(a).abs().is_finite(),
    ensures
        ({
            let d = amount(b.minus(a).abs());
            let x = across(a, b);
            &&& d >= 0 as real
            &&& distance(d * d - x * x) <= 6 as real * (roundoff() * (x * x))
        }),
{
    let e = b.minus(a);
    let x = across(a, b);
    assert(e.is_finite());
    lemma_minus_accuracy(b, a);
    lemma_amount_of_sign(e);
    lemma_square_near(amount(e), x);
    lemma_distances(amount(e), x);
    let d = amount(e.abs());
    lemma_distance_of_product(amount(e), amount(e));
    assert(d * d == amount(e) * amount(e)) by {
        assert(amount(e) * amount(e) >= 0 as real) by (nonlinear_arith);
        reveal(distance);
    }
}

/// A point at the cursor is at no distance from it, and a point that is a
/// millionth of a millionth of a pixel away is at some distance.
pub proof fn only_a_point_at_the_cursor_is_at_no_distance(
    cursor: Point,
    p: Point,
    mode: NearestMode,
)
    requires
        is_placed(cursor),
        is_placed(p),
        distance_to(cursor, p, mode).is_finite(),
    ensures
        squared_gap(cursor, p, mode) == 0 as real ==> amount(distance_to(cursor, p, mode))
            * amount(distance_to(cursor, p, mode)) <= 8 as real * least(),
        squared_gap(cursor, p, mode) >= 1 as real / 1000000000000000000000000 as real ==> amount(
            distance_to(cursor, p, mode),
        ) > 0 as real,
{
    a_distance_is_that_of_the_plane(cursor, p, mode);
    lemma_least_is_small();
    let d = amount(distance_to(cursor, p, mode));
    let square = squared_gap(cursor, p, mode);
    assert(trip_roundoff() * square * 17592186044416 as real == square) by (nonlinear_arith)
        requires
            trip_roundoff() == 1 as real / 17592186044416 as real,
    ;
    reveal(distance);
    if d == 0 as real {
        assert(d * d == 0 as real) by (nonlinear_arith)
            requires
                d == 0 as real,
        ;
    }
}

/// Exchanging the axes of cursor and point leaves their distance as it is.
pub proof fn distances_do_not_prefer_an_axis(cursor: Point, p: Point, mode: NearestMode)
    ensures
        distance_to(turned(cursor), turned(p), turned_mode(mode)) == distance_to(cursor, p, mode),
{
    let (dx, dy) = (p.x.minus(cursor.x), p.y.minus(cursor.y));
    lemma_plus_turns(dx.times(dx), dy.times(dy));
}

/// A hit is the nearest dot: no row is drawn nearer to the cursor, up to
/// rounding.
pub proof fn a_hit_is_the_nearest_dot(
    point: spec_fn(int) -> Option<Point>,
    cursor: Point,
    mode: NearestMode,
    max: Number,
    rows: int,
    hit: NearestHit,
    row: int,
)
    requires
        is_nearest(point, cursor, mode, max, rows, hit),
        is_placed(cursor),
        is_placed(hit.point),
        hit.distance.is_finite(),
        0 <= row < rows,
        point(row) is Some,
        is_placed(point(row)->0),
        distance_to(cursor, point(row)->0, mode).is_finite(),
    ensures
        point(hit.row as int) == Some(hit.point),
        ({
            let near = squared_gap(cursor, hit.point, mode);
            let far = squared_gap(cursor, point(row)->0, mode);
            near - gap_slack(near) <= far + gap_slack(far)
        }),
        ({
            let near = squared_gap(cursor, hit.point, mode);
            distance(amount(hit.distance) * amount(hit.distance) - near) <= gap_slack(near)
        }),
{
    let p = point(row)->0;
    a_distance_is_that_of_the_plane(cursor, hit.point, mode);
    a_distance_is_that_of_the_plane(cursor, p, mode);
    let (d, e) = (hit.distance, distance_to(cursor, p, mode));
    assert(d.le(e)) by {
        if e.le(max) {
            assert(in_reach(point, cursor, mode, max, row));
        } else {
            assert(in_reach(point, cursor, mode, max, hit.row as int));
        }
    }
    lemma_amounts_in_order(d, e);
    let (a, b) = (amount(d), amount(e));
    assert(a * a <= b * b) by (nonlinear_arith)
        requires
            0 as real <= a <= b,
    ;
    reveal(distance);
}

/// A hit is within reach, and where there is none every dot is out of reach, up
/// to rounding. Where no reach is given it is fifty pixels.
pub proof fn what_is_in_reach_is_hit(
    point: spec_fn(int) -> Option<Point>,
    cursor: Point,
    mode: NearestMode,
    max: Number,
    rows: int,
    row: int,
)
    requires
        none_in_reach(point, cursor, mode, max, rows),
        is_placed(cursor),
        max.is_finite(),
        amount(max) >= 0 as real,
        0 <= row < rows,
        point(row) is Some,
        is_placed(point(row)->0),
        distance_to(cursor, point(row)->0, mode).is_finite(),
    ensures
        ({
            let far = squared_gap(cursor, point(row)->0, mode);
            amount(max) * amount(max) <= far + gap_slack(far)
        }),
        amount(reach_of(None)) == 50 as real,
{
    let p = point(row)->0;
    let e = distance_to(cursor, p, mode);
    assert(!in_reach(point, cursor, mode, max, row));
    a_distance_is_that_of_the_plane(cursor, p, mode);
    lemma_amounts_in_order(max, e);
    lemma_amounts_in_order(e, max);
    let (a, b) = (amount(max), amount(e));
    assert(a * a <= b * b) by (nonlinear_arith)
        requires
            0 as real <= a <= b,
    ;
    reveal(distance);
    lemma_fifty();
}

proof fn lemma_fifty()
    ensures
        amount(reach_of(None)) == 50 as real,
{
    let x = reach_of(None);
    lemma_format();
    lemma2_to64_rest();
    lemma_amount_of_parts(x, 47);
    lemma2_to64();
    assert(pow2(47) == 140737488355328);
    assert(amount(x) * 140737488355328 as real == 7036874417766400 as real);
}

/// A row's dot is where its values are drawn: across by the column of the x
/// channel and the x scale, and up by those of the y channel.
pub proof fn a_dot_is_drawn_at_its_values(
    batch: Batch,
    channel_map: ChannelMap,
    scales: ScaleSet,
    row: int,
)
    ensures
        plotted(batch, channel_map, scales) matches Some(point) ==> (point(row) matches Some(p)
            ==> {
            &&& channel_map.column(Channel::X) matches Some(x) && batch.numbers(x) matches Some(
                xs,
            ) && value_at(xs, row) matches Some(v) && lies_at(
                scales.at(Channel::X)->0,
                v,
                p.x,
            )
            &&& channel_map.column(Channel::Y) matches Some(y) && batch.numbers(y) matches Some(
                ys,
            ) && value_at(ys, row) matches Some(v) && lies_at(
                scales.at(Channel::Y)->0,
                v,
                p.y,
            )
        }),
{
    if let Some(point) = plotted(batch, channel_map, scales) {
        if let Some(p) = point(row) {
            let xs = batch.numbers(channel_map.column(Channel::X)->0)->0;
            let ys = batch.numbers(channel_map.column(Channel::Y)->0)->0;
            a_scale_draws_a_straight_line(scales.at(Channel::X)->0, value_at(xs, row)->0);
            a_scale_draws_a_straight_line(scales.at(Channel::Y)->0, value_at(ys, row)->0);
        }
    }
}

} // verus!
