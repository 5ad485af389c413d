//! What clipping leaves of a segment: a part of it, inside the rectangle, and
//! all of it where it was inside.
use vstd::arithmetic::power2::lemma_pow2_pos;
use vstd::prelude::*;

use crate::accuracy::{
    amount, distance, least, lemma_amount_of_sign, lemma_amounts_in_order, lemma_distances,
    lemma_least_is_small, lemma_over_accuracy, lemma_part, roundoff, trip_roundoff,
};
use crate::approximation::{
    is_about, is_ordinary, lemma_about, lemma_exactly_stands, lemma_ordinary_size,
    lemma_ordinary_sizes, lemma_stands_more, lemma_stands_product, lemma_stands_sum,
};
use crate::bounds::{
    lemma_difference_keeps_order, lemma_nothing_over, lemma_over_itself, lemma_over_keeps_order,
    lemma_plus_keeps_order,
};
use crate::drawing::{Point, Rect};
use crate::fits::{beyond, lemma_quotient_fits, lemma_sum_fits, within};
use crate::geo::{clipped, cut, portion_inside, rect_of_scales, Portion};
use crate::number::{lemma_format, lemma_rank_is_value_order, Number};
use crate::numerals::{ONE, ZERO};
use crate::residual::lemma_one;
use crate::rounding::size;
use crate::scale::ScaleModel;

verus! {

/// Whether a number is nothing, or not extremely small.
pub open spec fn is_clear(x: Number) -> bool {
    x.is_finite() && (x.magnitude() == 0 || beyond(x, 800))
}

/// Whether a segment and a rectangle are moderate.
pub open spec fn is_clippable(a: Point, b: Point, rect: Rect) -> bool {
    &&& within(a.x, 200) && within(a.y, 200) && within(b.x, 200) && within(b.y, 200)
    &&& within(rect.x0, 200) && within(rect.y0, 200)
    &&& within(rect.x1, 200) && within(rect.y1, 200)
    &&& is_clear(b.x.minus(a.x)) && is_clear(b.y.minus(a.y))
}

/// The size of the numbers of a clipped segment on one axis.
pub open spec fn clip_size(a: Number, b: Number, low: Number, high: Number) -> real {
    distance(amount(a)) + distance(amount(b)) + distance(amount(low)) + distance(amount(high))
        + 1 as real
}

/// Whether a part of a segment respects an edge, as `cut` measures it.
spec fn obeys(x: Number, p: Number, q: Number) -> bool {
    let zero = Number::from_bits(ZERO);
    &&& p.same(zero) ==> zero.le(q)
    &&& p.lt(zero) ==> q.over(p).le(x)
    &&& zero.lt(p) ==> x.le(q.over(p))
}

/// Whether a portion is one of a segment.
spec fn is_portion(t: Portion) -> bool {
    &&& t.from.is_finite() && t.to.is_finite()
    &&& Number::from_bits(ZERO).le(t.from) && t.to.le(Number::from_bits(ONE))
}

/// What one cut keeps.
proof fn lemma_cut(t: Portion, p: Number, q: Number)
    requires
        is_portion(t),
        p.is_finite(),
        q.is_finite(),
        p.magnitude() != 0 ==> q.over(p).is_finite(),
    ensures
        cut(Some(t), p, q) matches Some(n) ==> {
            &&& is_portion(n)
            &&& t.from.le(n.from) && n.to.le(t.to)
            &&& forall|x: Number| #[trigger] obeys(x, p, q) <== n.from.le(x) && x.le(n.to)
        },
{
    lemma_format();
}

/// The portion that four cuts leave respects the four edges, all of it.
proof fn lemma_portion(a: Point, b: Point, rect: Rect, x: Number)
    requires
        is_clippable(a, b, rect),
        portion_inside(a, b, rect) matches Some(t) && t.from.le(x) && x.le(t.to),
    ensures
        portion_inside(a, b, rect) matches Some(t) && is_portion(t) && t.from.le(t.to),
        x.is_finite(),
        Number::from_bits(ZERO).le(x),
        x.le(Number::from_bits(ONE)),
        obeys(x, b.x.minus(a.x).negated(), a.x.minus(rect.x0)),
        obeys(x, b.x.minus(a.x), rect.x1.minus(a.x)),
        obeys(x, b.y.minus(a.y).negated(), a.y.minus(rect.y0)),
        obeys(x, b.y.minus(a.y), rect.y1.minus(a.y)),
{
    let dx = b.x.minus(a.x);
    let dy = b.y.minus(a.y);
    let (nx, ny) = (dx.negated(), dy.negated());
    let whole = Portion { from: Number::from_bits(ZERO), to: Number::from_bits(ONE) };
    lemma_format();
    lemma_one();
    let (q1, q2) = (a.x.minus(rect.x0), rect.x1.minus(a.x));
    let (q3, q4) = (a.y.minus(rect.y0), rect.y1.minus(a.y));
    lemma_quotients(dx, q1, a.x, rect.x0);
    lemma_quotients(dx, q2, rect.x1, a.x);
    lemma_quotients(dy, q3, a.y, rect.y0);
    lemma_quotients(dy, q4, rect.y1, a.y);
    lemma_cut(whole, nx, q1);
    let t1 = cut(Some(whole), nx, q1);
    lemma_cut(t1->0, dx, q2);
    let t2 = cut(t1, dx, q2);
    lemma_cut(t2->0, ny, q3);
    let t3 = cut(t2, ny, q3);
    lemma_cut(t3->0, dy, q4);
}

/// The quotients of a cut are finite.
proof fn lemma_quotients(d: Number, q: Number, a: Number, b: Number)
    requires
        is_clear(d),
        within(a, 200),
        within(b, 200),
        q == a.minus(b),
    ensures
        d.negated().is_finite(),
        q.is_finite(),
        d.magnitude() != 0 ==> q.over(d).is_finite() && q.over(d.negated()).is_finite(),
        d.negated().magnitude() == d.magnitude(),
{
    lemma_format();
    lemma_sum_fits(a, b, 200);
    lemma_amount_of_sign(d);
    assert(within(q, 201));
    if d.magnitude() != 0 {
        reveal(distance);
        lemma_quotient_fits(q, d, 201, 800);
        lemma_quotient_fits(q, d.negated(), 201, 800);
    }
}

/// What respects an edge does not go past it, up to rounding.
proof fn lemma_obeys(x: Number, p: Number, q: Number)
    requires
        is_clear(p),
        q.is_finite(),
        p.magnitude() != 0 ==> q.over(p).is_finite(),
        x.is_finite(),
        0 as real <= amount(x) <= 1 as real,
        obeys(x, p, q),
    ensures
        amount(x) * amount(p) <= amount(q) + 4 as real * ((roundoff() + least()) * distance(
            amount(p),
        )),
{
    let zero = Number::from_bits(ZERO);
    let (t, s, w) = (amount(x), amount(p), amount(q));
    let (u, h) = (roundoff(), least());
    lemma_format();
    lemma_least_is_small();
    lemma_amount_of_sign(p);
    lemma_amount_of_sign(zero);
    lemma_amounts_in_order(p, zero);
    lemma_amounts_in_order(zero, p);
    lemma_amounts_in_order(zero, q);
    reveal(distance);
    let e = (u + h) * distance(s);
    assert(e >= 0 as real) by (nonlinear_arith)
        requires
            e == (u + h) * distance(s),
            u > 0 as real,
            h > 0 as real,
            distance(s) >= 0 as real,
    ;
    if s == 0 as real {
        assert(t * s == 0 as real);
    } else {
        let r = q.over(p);
        let v = amount(r);
        lemma_over_accuracy(q, p);
        lemma_amounts_in_order(r, x);
        lemma_amounts_in_order(x, r);
        let g = w / s;
        assert(g * s == w) by (nonlinear_arith)
            requires
                g == w / s,
                s != 0 as real,
        ;
        assert(distance(v - g) <= u * distance(v) + h);
        lemma_edge_in_reals(t, s, v, g, w);
    }
}

/// The same in exact numbers: `v` is near the quotient `g` of `w` by `s`.
proof fn lemma_edge_in_reals(t: real, s: real, v: real, g: real, w: real)
    requires
        0 as real <= t <= 1 as real,
        s != 0 as real,
        g * s == w,
        distance(v - g) <= roundoff() * distance(v) + least(),
        s < 0 as real ==> v <= t,
        s > 0 as real ==> t <= v,
    ensures
        t * s <= w + 4 as real * ((roundoff() + least()) * distance(s)),
{
    let (u, h) = (roundoff(), least());
    let e = u + h;
    lemma_least_is_small();
    reveal(distance);
    let uv = u * distance(v);
    // How far the part may lie on the wrong side of the exact quotient.
    if s < 0 as real {
        assert(g <= t + 4 as real * e) by {
            if v <= 0 as real {
                assert(uv == -(u * v)) by (nonlinear_arith)
                    requires
                        uv == u * distance(v),
                        distance(v) == -v,
                ;
                assert(g <= v - u * v + h);
                assert(v - u * v <= 0 as real) by (nonlinear_arith)
                    requires
                        v <= 0 as real,
                        u == 1 as real / 9007199254740992 as real,
                ;
            } else {
                assert(uv <= u) by (nonlinear_arith)
                    requires
                        uv == u * distance(v),
                        distance(v) == v,
                        v <= 1 as real,
                        u > 0 as real,
                ;
            }
        }
        assert(t * s <= w - 4 as real * (e * s)) by (nonlinear_arith)
            requires
                g <= t + 4 as real * e,
                g * s == w,
                s < 0 as real,
        ;
        assert(e * s == -(e * distance(s))) by (nonlinear_arith)
            requires
                distance(s) == -s,
        ;
    } else {
        assert(t <= g + 4 as real * e) by {
            if v <= 1 as real {
                assert(uv <= u) by (nonlinear_arith)
                    requires
                        uv == u * distance(v),
                        distance(v) == v,
                        0 as real <= v <= 1 as real,
                        u > 0 as real,
                ;
            } else {
                assert(uv == u * v) by (nonlinear_arith)
                    requires
                        uv == u * distance(v),
                        distance(v) == v,
                ;
                assert(g >= v - u * v - h);
                assert(v - u * v >= 1 as real - u) by (nonlinear_arith)
                    requires
                        v > 1 as real,
                        u == 1 as real / 9007199254740992 as real,
                ;
            }
        }
        assert(t * s <= w + 4 as real * (e * s)) by (nonlinear_arith)
            requires
                t <= g + 4 as real * e,
                g * s == w,
                s > 0 as real,
        ;
    }
}

/// Whether a place lies between two ends, up to rounding.
pub open spec fn is_between_ends(low: Number, high: Number, place: Number, size: real) -> bool {
    &&& place.is_finite()
    &&& amount(place) >= amount(low) - trip_roundoff() * size
    &&& amount(place) <= amount(high) + trip_roundoff() * size
}

/// One axis of a point of a clipped segment: a part of the way, and between the
/// edges.
proof fn lemma_axis(a: Number, b: Number, low: Number, high: Number, x: Number)
    requires
        within(a, 200),
        within(b, 200),
        within(low, 200),
        within(high, 200),
        is_clear(b.minus(a)),
        x.is_finite(),
        0 as real <= amount(x) <= 1 as real,
        obeys(x, b.minus(a).negated(), a.minus(low)),
        obeys(x, b.minus(a), high.minus(a)),
    ensures
        ({
            let place = a.plus(x.times(b.minus(a)));
            let size = 8 as real * clip_size(a, b, low, high);
            &&& is_between_ends(low, high, place, size)
            &&& is_about(place, amount(a) + amount(x) * (amount(b) - amount(a)), size)
        }),
{
    let d = b.minus(a);
    let n = d.negated();
    let s = clip_size(a, b, low, high);
    let (t, va, vb, l, h) = (amount(x), amount(a), amount(b), amount(low), amount(high));
    let place = a.plus(x.times(d));
    let (two, eight) = (2 as real * s, 8 as real * s);
    lemma_clip_size(a, b, low, high);
    lemma_quotients(d, a.minus(low), a, low);
    lemma_quotients(d, high.minus(a), high, a);
    lemma_amount_of_sign(d);
    assert(is_clear(n)) by {
        reveal(distance);
    }
    lemma_obeys(x, n, a.minus(low));
    lemma_obeys(x, d, high.minus(a));
    // Where the point is.
    lemma_exactly_stands(a, s);
    lemma_exactly_stands(b, s);
    lemma_stands_sum(b, vb, s, a, va, s, 0);
    assert(distance(t) <= 1 as real) by {
        reveal(distance);
    }
    lemma_exactly_stands(x, 1 as real);
    assert(1 as real * two == two);
    lemma_stands_product(x, t, 1 as real, 0, d, vb - va, two, 8);
    let way = t * (vb - va);
    let step = x.times(d);
    lemma_stands_more(a, va, s, 0, two, 16);
    lemma_stands_sum(a, va, two, step, way, two, 16);
    lemma_stands_more(place, va + way, 4 as real * s, 24, eight, 24);
    lemma_about(place, va + way, eight, 24);
    // Where the edges are.
    lemma_exactly_stands(low, s);
    lemma_exactly_stands(high, s);
    lemma_stands_sum(a, va, s, low, l, s, 0);
    lemma_stands_sum(high, h, s, a, va, s, 0);
    lemma_inside_in_reals(
        Inside {
            t,
            way,
            d: amount(d),
            exact: vb - va,
            place: amount(place),
            a: va,
            l,
            h,
            q: amount(a.minus(low)),
            r: amount(high.minus(a)),
            s,
        },
    );
}

/// The numbers of one axis of a clipped point.
struct Inside {
    t: real,
    way: real,
    d: real,
    exact: real,
    place: real,
    a: real,
    l: real,
    h: real,
    q: real,
    r: real,
    s: real,
}

/// The errors of one axis, added up.
proof fn lemma_inside_in_reals(i: Inside)
    requires
        i.s >= 1 as real,
        0 as real <= i.t <= 1 as real,
        i.way == i.t * i.exact,
        distance(i.d - i.exact) <= 8 as real * (roundoff() * (2 as real * i.s)),
        distance(i.exact) <= 2 as real * i.s,
        distance(i.place - (i.a + i.way)) <= 24 as real * (roundoff() * (4 as real * i.s)),
        distance(i.q - (i.a - i.l)) <= 8 as real * (roundoff() * (2 as real * i.s)),
        distance(i.r - (i.h - i.a)) <= 8 as real * (roundoff() * (2 as real * i.s)),
        i.t * (-i.d) <= i.q + 4 as real * ((roundoff() + least()) * distance(-i.d)),
        i.t * i.d <= i.r + 4 as real * ((roundoff() + least()) * distance(i.d)),
    ensures
        i.place >= i.l - trip_roundoff() * (8 as real * i.s),
        i.place <= i.h + trip_roundoff() * (8 as real * i.s),
{
    reveal(distance);
    lemma_least_is_small();
    let (u, h) = (roundoff(), least());
    let us = u * i.s;
    lemma_part(i.s);
    assert(u * (2 as real * i.s) == 2 as real * us) by (nonlinear_arith)
        requires
            us == u * i.s,
    ;
    assert(u * (4 as real * i.s) == 4 as real * us) by (nonlinear_arith)
        requires
            us == u * i.s,
    ;
    assert(trip_roundoff() * (8 as real * i.s) == 4096 as real * us) by (nonlinear_arith)
        requires
            us == u * i.s,
            trip_roundoff() == 1 as real / 17592186044416 as real,
            u == 1 as real / 9007199254740992 as real,
    ;
    let (ad, td) = (distance(i.d), i.t * i.d);
    assert(i.t * (-i.d) == -td) by (nonlinear_arith)
        requires
            td == i.t * i.d,
    ;
    assert(distance(-i.d) == ad);
    assert(ad <= 3 as real * i.s);
    assert((u + h) * ad <= 6 as real * us) by (nonlinear_arith)
        requires
            0 as real <= ad <= 3 as real * i.s,
            us == u * i.s,
            h > 0 as real,
            h <= u,
            u > 0 as real,
    ;
    assert(i.way - td <= 16 as real * us && td - i.way <= 16 as real * us) by (nonlinear_arith)
        requires
            i.way == i.t * i.exact,
            td == i.t * i.d,
            i.d - i.exact <= 16 as real * us,
            i.exact - i.d <= 16 as real * us,
            0 as real <= i.t <= 1 as real,
            us >= 0 as real,
    ;
}

/// The sizes of a clipped segment are ordinary.
proof fn lemma_clip_size(a: Number, b: Number, low: Number, high: Number)
    requires
        within(a, 200),
        within(b, 200),
        within(low, 200),
        within(high, 200),
    ensures
        ({
            let s = clip_size(a, b, low, high);
            &&& s >= 1 as real && is_ordinary(1 as real)
            &&& is_ordinary(s) && is_ordinary(2 as real * s) && is_ordinary(4 as real * s)
            &&& is_ordinary(8 as real * s)
            &&& distance(amount(a)) <= s && distance(amount(b)) <= s
            &&& distance(amount(low)) <= s && distance(amount(high)) <= s
        }),
{
    lemma_distances(amount(a), amount(b));
    lemma_distances(amount(low), amount(high));
    lemma_pow2_pos(200);
    lemma_pow2_pos(399);
    lemma_ordinary_sizes(clip_size(a, b, low, high));
    lemma_ordinary_size(1 as real);
}

/// Whether a point lies in a rectangle, and a part of the way along a segment.
pub open spec fn is_clipped_at(a: Point, b: Point, rect: Rect, part: Number, c: Point) -> bool {
    let across = 8 as real * clip_size(a.x, b.x, rect.x0, rect.x1);
    let down = 8 as real * clip_size(a.y, b.y, rect.y0, rect.y1);
    let t = amount(part);
    &&& part.is_finite() && 0 as real <= t <= 1 as real
    &&& is_between_ends(rect.x0, rect.x1, c.x, across)
    &&& is_between_ends(rect.y0, rect.y1, c.y, down)
    &&& is_about(c.x, amount(a.x) + t * (amount(b.x) - amount(a.x)), across)
    &&& is_about(c.y, amount(a.y) + t * (amount(b.y) - amount(a.y)), down)
}

/// What clipping leaves of a segment lies on the segment, in its direction, and
/// inside the rectangle.
pub proof fn a_clipped_segment_lies_inside(a: Point, b: Point, rect: Rect) -> (parts: (
    Number,
    Number,
))
    requires
        is_clippable(a, b, rect),
        clipped(a, b, rect) is Some,
    ensures
        ({
            let (c, d) = clipped(a, b, rect)->0;
            &&& is_clipped_at(a, b, rect, parts.0, c)
            &&& is_clipped_at(a, b, rect, parts.1, d)
            &&& amount(parts.0) <= amount(parts.1)
        }),
{
    let t = portion_inside(a, b, rect)->0;
    let (zero, one) = (Number::from_bits(ZERO), Number::from_bits(ONE));
    lemma_format();
    lemma_one();
    lemma_whole_portion(a, b, rect);
    lemma_portion(a, b, rect, t.from);
    lemma_portion(a, b, rect, t.to);
    lemma_amount_of_sign(zero);
    lemma_amounts_in_order(zero, t.from);
    lemma_amounts_in_order(t.from, t.to);
    lemma_amounts_in_order(t.to, one);
    lemma_axis(a.x, b.x, rect.x0, rect.x1, t.from);
    lemma_axis(a.y, b.y, rect.y0, rect.y1, t.from);
    lemma_axis(a.x, b.x, rect.x0, rect.x1, t.to);
    lemma_axis(a.y, b.y, rect.y0, rect.y1, t.to);
    (t.from, t.to)
}

/// A portion has its ends in order.
proof fn lemma_whole_portion(a: Point, b: Point, rect: Rect)
    requires
        is_clippable(a, b, rect),
        portion_inside(a, b, rect) is Some,
    ensures
        portion_inside(a, b, rect) matches Some(t) && is_portion(t) && t.from.le(t.to),
{
    let dx = b.x.minus(a.x);
    let dy = b.y.minus(a.y);
    let (nx, ny) = (dx.negated(), dy.negated());
    let whole = Portion { from: Number::from_bits(ZERO), to: Number::from_bits(ONE) };
    lemma_format();
    lemma_one();
    let (q1, q2) = (a.x.minus(rect.x0), rect.x1.minus(a.x));
    let (q3, q4) = (a.y.minus(rect.y0), rect.y1.minus(a.y));
    lemma_quotients(dx, q1, a.x, rect.x0);
    lemma_quotients(dx, q2, rect.x1, a.x);
    lemma_quotients(dy, q3, a.y, rect.y0);
    lemma_quotients(dy, q4, rect.y1, a.y);
    lemma_cut(whole, nx, q1);
    let t1 = cut(Some(whole), nx, q1);
    lemma_cut(t1->0, dx, q2);
    let t2 = cut(t1, dx, q2);
    lemma_cut(t2->0, ny, q3);
    let t3 = cut(t2, ny, q3);
    lemma_cut(t3->0, dy, q4);
}

/// A difference the other way round is its negation.
proof fn lemma_minus_turns(a: Number, b: Number)
    requires
        a.is_finite(),
        b.is_finite(),
        b.minus(a).is_finite(),
    ensures
        a.minus(b).is_finite(),
        a.minus(b).same(b.minus(a).negated()),
{
    lemma_format();
    reveal(Number::spec_plus);
    assert(a.negated().value() == -a.value());
    assert(b.negated().value() == -b.value());
    let exact = b.value() - a.value();
    assert(size(exact) == size(-exact));
}

/// A quotient of nothing or more by less than nothing is nothing or less.
proof fn lemma_quotient_of_signs(q: Number, p: Number)
    requires
        q.is_finite(),
        p.is_finite(),
        Number::from_bits(ZERO).le(q),
        p.lt(Number::from_bits(ZERO)),
    ensures
        q.over(p).le(Number::from_bits(ZERO)),
{
    lemma_format();
    if q.magnitude() == 0 {
        lemma_nothing_over(q, p);
    } else {
        reveal(Number::spec_over);
    }
}

/// A cut leaves a portion whole that starts inside an edge and does not reach
/// it.
proof fn lemma_cut_nothing(t: Portion, p: Number, q: Number)
    requires
        is_portion(t),
        t.from.magnitude() == 0,
        t.to.same(Number::from_bits(ONE)),
        p.is_finite(),
        q.is_finite(),
        Number::from_bits(ZERO).le(q),
        p.le(q),
    ensures
        cut(Some(t), p, q) matches Some(n) && is_portion(n) && n.from.magnitude() == 0
            && n.to.same(Number::from_bits(ONE)),
{
    let zero = Number::from_bits(ZERO);
    lemma_format();
    if p.lt(zero) {
        lemma_quotient_of_signs(q, p);
    } else if zero.lt(p) {
        lemma_over_keeps_order(p, q, p);
        lemma_over_itself(p);
    }
}

/// Whether a number lies between two others.
pub open spec fn lies_between(low: Number, x: Number, high: Number) -> bool {
    low.le(x) && x.le(high)
}

/// The edges of one axis are not reached from inside.
proof fn lemma_inside(a: Number, b: Number, low: Number, high: Number)
    requires
        within(a, 200),
        within(b, 200),
        within(low, 200),
        within(high, 200),
        lies_between(low, a, high),
        lies_between(low, b, high),
    ensures
        ({
            let d = b.minus(a);
            &&& d.is_finite() && d.negated().is_finite()
            &&& a.minus(low).is_finite() && high.minus(a).is_finite()
            &&& Number::from_bits(ZERO).le(a.minus(low)) && d.negated().le(a.minus(low))
            &&& Number::from_bits(ZERO).le(high.minus(a)) && d.le(high.minus(a))
        }),
{
    let zero = Number::from_bits(ZERO);
    lemma_format();
    lemma_sum_fits(b, a, 200);
    lemma_sum_fits(a, low, 200);
    lemma_sum_fits(high, a, 200);
    lemma_amount_of_sign(b.minus(a));
    lemma_amounts_in_order(low, a);
    lemma_amounts_in_order(a, high);
    lemma_rank_is_value_order(low, a);
    lemma_rank_is_value_order(a, high);
    lemma_difference_keeps_order(a, low, zero);
    lemma_difference_keeps_order(high, a, zero);
    lemma_plus_keeps_order(b, high, a.negated());
    lemma_minus_turns(a, b);
    assert(b.negated().le(low.negated()));
    lemma_plus_keeps_order(b.negated(), low.negated(), a);
}

/// A segment inside a rectangle is left as it is.
pub proof fn a_segment_inside_stays_whole(a: Point, b: Point, rect: Rect)
    requires
        is_clippable(a, b, rect),
        lies_between(rect.x0, a.x, rect.x1),
        lies_between(rect.x0, b.x, rect.x1),
        lies_between(rect.y0, a.y, rect.y1),
        lies_between(rect.y0, b.y, rect.y1),
    ensures
        clipped(a, b, rect) matches Some((c, d)) && {
            let across = 8 as real * clip_size(a.x, b.x, rect.x0, rect.x1);
            let down = 8 as real * clip_size(a.y, b.y, rect.y0, rect.y1);
            &&& is_about(c.x, amount(a.x), across) && is_about(c.y, amount(a.y), down)
            &&& is_about(d.x, amount(b.x), across) && is_about(d.y, amount(b.y), down)
        },
{
    let dx = b.x.minus(a.x);
    let dy = b.y.minus(a.y);
    let (zero, one) = (Number::from_bits(ZERO), Number::from_bits(ONE));
    let whole = Portion { from: zero, to: one };
    lemma_format();
    lemma_one();
    lemma_inside(a.x, b.x, rect.x0, rect.x1);
    lemma_inside(a.y, b.y, rect.y0, rect.y1);
    lemma_cut_nothing(whole, dx.negated(), a.x.minus(rect.x0));
    let t1 = cut(Some(whole), dx.negated(), a.x.minus(rect.x0));
    lemma_cut_nothing(t1->0, dx, rect.x1.minus(a.x));
    let t2 = cut(t1, dx, rect.x1.minus(a.x));
    lemma_cut_nothing(t2->0, dy.negated(), a.y.minus(rect.y0));
    let t3 = cut(t2, dy.negated(), a.y.minus(rect.y0));
    lemma_cut_nothing(t3->0, dy, rect.y1.minus(a.y));
    let t = cut(t3, dy, rect.y1.minus(a.y))->0;
    lemma_amount_of_sign(zero);
    lemma_amounts_in_order(t.from, zero);
    lemma_amounts_in_order(t.to, one);
    lemma_whole_portion(a, b, rect);
    lemma_portion(a, b, rect, t.from);
    lemma_portion(a, b, rect, t.to);
    lemma_axis(a.x, b.x, rect.x0, rect.x1, t.from);
    lemma_axis(a.y, b.y, rect.y0, rect.y1, t.from);
    lemma_axis(a.x, b.x, rect.x0, rect.x1, t.to);
    lemma_axis(a.y, b.y, rect.y0, rect.y1, t.to);
    let (wx, wy) = (amount(b.x) - amount(a.x), amount(b.y) - amount(a.y));
    assert(0 as real * wx == 0 as real && 0 as real * wy == 0 as real && 1 as real * wx == wx
        && 1 as real * wy == wy);
}

/// The rectangle of two linear scales spans their ranges, its corners in order
/// whichever way the ranges lead.
pub proof fn a_rectangle_of_scales_spans_their_ranges(x: ScaleModel, y: ScaleModel)
    ensures
        rect_of_scales(x, y) is Some <==> x is Linear && y is Linear,
        rect_of_scales(x, y) matches Some(r) ==> {
            &&& x.range_start().is_finite() && x.range_end().is_finite() ==> is_span(
                x.range_start(),
                x.range_end(),
                r.x0,
                r.x1,
            )
            &&& y.range_start().is_finite() && y.range_end().is_finite() ==> is_span(
                y.range_start(),
                y.range_end(),
                r.y0,
                r.y1,
            )
        },
{
    lemma_format();
}

/// Whether two numbers are two ends, the lesser first.
pub open spec fn is_span(a: Number, b: Number, low: Number, high: Number) -> bool {
    &&& low.le(high)
    &&& low.same(a) && high.same(b) || low.same(b) && high.same(a)
}

} // verus!
