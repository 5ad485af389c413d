//! How a mesh recovers the lattice of the hexagons beside it.
use vstd::prelude::*;

use crate::accuracy::{
    amount, distance, lemma_amount_of_sign, lemma_amounts_in_order, lemma_distance_of_product,
    lemma_distances, lemma_least_is_small, lemma_minus_accuracy, lemma_over_accuracy, lemma_part,
    lemma_plus_accuracy, lemma_times_accuracy, lemma_triangle, roundoff,
};
use crate::bounds::{lemma_difference_keeps_order, lemma_sum_keeps_order};
use crate::fitting::{lemma_tangible, lemma_two};
use crate::hexbin::hex_span;
use crate::hexgrid::{is_unit, sibling, ROOT_THREE};
use crate::infer::Range;
use crate::nearness::{
    around, lemma_around_back, lemma_around_beside, lemma_around_chain, lemma_around_double,
    lemma_around_more, lemma_around_scaled, lemma_around_share, lemma_exactly_around,
    lemma_normal_around, lemma_rounded_around,
};
use crate::number::{lemma_format, lemma_rank_is_value_order, Number, FRACTIONS, INFINITE};
use crate::numerals::{TWO, ZERO};
use crate::scale::ScaleModel;

verus! {

/// The steps from the extent that was binned to the one that is recovered, as
/// exact values of rounded results: the ends `lo` and `hi`, the half hexagon
/// `half` that widened them to `start` and `end`, the widened span, half a
/// hexagon `c` and the room in pixels, the widened room, the product and the
/// quotient that recover the half hexagon, its double, and what is recovered.
pub ghost struct Mesh {
    pub lo: real,
    pub hi: real,
    pub half: real,
    pub start: real,
    pub end: real,
    pub span: real,
    pub c: real,
    pub room: real,
    pub den: real,
    pub num: real,
    pub dx: real,
    pub twice: real,
    pub min: real,
    pub raw: real,
}

/// Whether every step is exact up to rounding.
pub open spec fn mesh_steps(m: Mesh) -> bool {
    let u = roundoff();
    &&& m.lo < m.hi
    &&& m.half >= 0 as real
    &&& m.c > 0 as real
    &&& m.room > 0 as real
    &&& m.end > m.start
    &&& distance(m.start - (m.lo - m.half)) <= u * distance(m.start)
    &&& distance(m.end - (m.hi + m.half)) <= u * distance(m.end)
    &&& around(m.span, m.end - m.start, 4 as real * u)
    &&& around(m.den, m.room + 2 as real * m.c, 64 as real * u)
    &&& around(m.num, m.c * m.span, 4 as real * u)
    &&& around(m.dx, m.num / m.den, 4 as real * u)
    &&& around(m.twice, 2 as real * m.dx, 4 as real * u)
    &&& distance(m.min - (m.start + m.dx)) <= u * distance(m.min)
    &&& distance(m.raw - (m.span - m.twice)) <= u * distance(m.raw)
}

/// The recovered half hexagon is near the exact one over the widened extent.
proof fn lemma_quotient_near(m: Mesh, v: real)
    requires
        mesh_steps(m),
        v == m.c / (m.room + 2 as real * m.c),
        v > 0 as real,
    ensures
        around(m.dx, v * (m.end - m.start), 584 as real * roundoff()),
{
    let u = roundoff();
    let wide = m.end - m.start;
    let d = m.room + 2 as real * m.c;
    let a = v * wide;
    let k = 1 as real / d;
    lemma_around_scaled(m.span, wide, v, 4 as real * u);
    assert(k > 0 as real) by (nonlinear_arith)
        requires
            k == 1 as real / d,
            d > 0 as real,
    ;
    lemma_around_scaled(m.num, m.c * m.span, k, 4 as real * u);
    let n = m.num * k;
    lemma_shares(m.num, d);
    lemma_shares(m.c, d);
    assert((m.c * m.span) * k == m.span * (m.c * k)) by (nonlinear_arith);
    assert(wide * v == a) by (nonlinear_arith)
        requires
            a == v * wide,
    ;
    lemma_around_chain(n, m.span * v, a, 4 as real * u, 4 as real * u);
    assert(n > 0 as real) by (nonlinear_arith)
        requires
            a > 0 as real,
            a - n <= 16 as real * u * a,
            16 as real * u <= 1 as real / 4 as real,
    ;
    assert(m.num > 0 as real) by (nonlinear_arith)
        requires
            n > 0 as real,
            n == m.num * k,
            k > 0 as real,
    ;
    lemma_around_share(m.num, m.den, d, 64 as real * u);
    lemma_around_chain(m.num / m.den, n, a, 128 as real * u, 16 as real * u);
    lemma_around_chain(m.dx, m.num / m.den, a, 4 as real * u, 288 as real * u);
}

/// A quotient is a product with the part.
proof fn lemma_shares(x: real, d: real)
    requires
        d > 0 as real,
    ensures
        x / d == x * (1 as real / d),
        (x / d) * d == x,
{
    assert(x / d == x * (1 as real / d)) by (nonlinear_arith)
        requires
            d > 0 as real,
    ;
    assert((x / d) * d == x) by (nonlinear_arith)
        requires
            d > 0 as real,
    ;
}

/// What is nothing times a positive number is nothing.
proof fn lemma_nothing(x: real, d: real)
    requires
        d > 0 as real,
        x * d == 0 as real,
    ensures
        x == 0 as real,
{
    assert(x == 0 as real) by (nonlinear_arith)
        requires
            d > 0 as real,
            x * d == 0 as real,
    ;
}

/// Over the exact widened extent the quotient is the half hexagon, but for its
/// own error.
proof fn lemma_ideal_quotient(m: Mesh, v: real, error: real)
    requires
        m.c > 0 as real,
        m.room > 0 as real,
        v == m.c / (m.room + 2 as real * m.c),
        distance(m.half - m.c * (m.hi - m.lo) / m.room) <= error,
    ensures
        distance(v * (m.hi - m.lo + 2 as real * m.half) - m.half) <= error,
{
    let s = m.hi - m.lo;
    let d = m.room + 2 as real * m.c;
    let ideal = s + 2 as real * m.half;
    let p = m.c * s / m.room;
    let off = m.half - p;
    let r = m.room / d;
    let f = v * ideal - m.half;
    lemma_shares(m.c, d);
    lemma_shares(m.c * s, m.room);
    lemma_shares(m.room, d);
    assert(r > 0 as real) by (nonlinear_arith)
        requires
            r * d == m.room,
            m.room > 0 as real,
            d > 0 as real,
    ;
    assert(r <= 1 as real) by (nonlinear_arith)
        requires
            r * d == m.room,
            m.room <= d,
            d > 0 as real,
    ;
    let both = m.c * m.half;
    assert(f * d == (v * d) * ideal - m.half * d) by (nonlinear_arith)
        requires
            f == v * ideal - m.half,
    ;
    assert(m.c * ideal == m.c * s + 2 as real * both) by (nonlinear_arith)
        requires
            ideal == s + 2 as real * m.half,
            both == m.c * m.half,
    ;
    assert(m.half * d == m.half * m.room + 2 as real * both) by (nonlinear_arith)
        requires
            d == m.room + 2 as real * m.c,
            both == m.c * m.half,
    ;
    assert(off * m.room == m.half * m.room - p * m.room) by (nonlinear_arith)
        requires
            off == m.half - p,
    ;
    assert(off * (r * d) == (off * r) * d) by (nonlinear_arith);
    assert((f + off * r) * d == f * d + (off * r) * d) by (nonlinear_arith);
    lemma_nothing(f + off * r, d);
    lemma_distance_of_product(off, r);
    let w = distance(off);
    lemma_distances(off, r);
    assert(w * r <= w) by (nonlinear_arith)
        requires
            r <= 1 as real,
            w >= 0 as real,
    ;
    reveal(distance);
}

/// The recovered half hexagon is near the one that widened the extent.
proof fn lemma_half_comes_back(m: Mesh, error: real)
    requires
        mesh_steps(m),
        error >= 0 as real,
        distance(m.half - m.c * (m.hi - m.lo) / m.room) <= error,
    ensures
        distance(m.dx - m.half) <= error + 320 as real * (roundoff() * (distance(m.start)
            + distance(m.end))),
        m.dx > 0 as real,
        m.dx <= distance(m.start) + distance(m.end),
{
    let u = roundoff();
    let wide = m.end - m.start;
    let d = m.room + 2 as real * m.c;
    let v = m.c / d;
    let a = v * wide;
    let ideal = m.hi - m.lo + 2 as real * m.half;
    let (x, y) = (distance(m.start), distance(m.end));
    let z = u * (x + y);
    lemma_distances(m.start, m.end);
    assert(wide <= x + y) by {
        reveal(distance);
    }
    lemma_shares(m.c, d);
    assert(v > 0 as real) by (nonlinear_arith)
        requires
            v * d == m.c,
            m.c > 0 as real,
            d > 0 as real,
    ;
    assert(2 as real * v <= 1 as real) by (nonlinear_arith)
        requires
            v * d == m.c,
            2 as real * m.c <= d,
            d > 0 as real,
    ;
    lemma_quotient_near(m, v);
    lemma_ideal_quotient(m, v, error);
    let t = u * a;
    assert(584 as real * u * a == 584 as real * t) by (nonlinear_arith)
        requires
            t == u * a,
    ;
    assert(a > 0 as real && 2 as real * a <= wide) by (nonlinear_arith)
        requires
            a == v * wide,
            v > 0 as real,
            2 as real * v <= 1 as real,
            wide > 0 as real,
    ;
    assert(2 as real * t <= z) by (nonlinear_arith)
        requires
            t == u * a,
            z == u * (x + y),
            2 as real * a <= x + y,
            u >= 0 as real,
    ;
    lemma_part(a);
    assert(u * x + u * y == z) by (nonlinear_arith)
        requires
            z == u * (x + y),
    ;
    let w = distance(wide - ideal);
    lemma_triangle(m.start, m.lo - m.half, 0 as real);
    assert(w <= z) by {
        lemma_distances(m.end - (m.hi + m.half), m.start - (m.lo - m.half));
        assert(wide - ideal == (m.end - (m.hi + m.half)) - (m.start - (m.lo - m.half)));
    }
    lemma_distance_of_product(v, wide - ideal);
    lemma_distances(wide - ideal, v);
    assert(distance(v) == v) by {
        reveal(distance);
    }
    assert(2 as real * (v * w) <= w) by (nonlinear_arith)
        requires
            2 as real * v <= 1 as real,
            w >= 0 as real,
    ;
    assert(v * (wide - ideal) == a - v * ideal) by (nonlinear_arith)
        requires
            a == v * wide,
    ;
    assert(distance(m.dx - a) <= 292 as real * z) by {
        reveal(distance);
    }
    lemma_triangle(m.dx, a, m.half);
    lemma_triangle(a, v * ideal, m.half);
}

/// The recovered extent is near the one that was binned.
proof fn lemma_extent_comes_back(m: Mesh, error: real)
    requires
        mesh_steps(m),
        error >= 0 as real,
        distance(m.half - m.c * (m.hi - m.lo) / m.room) <= error,
    ensures
        distance(m.min - m.lo) <= error + 512 as real * (roundoff() * (distance(m.start) + distance(
            m.end,
        ))),
        distance(m.raw - (m.hi - m.lo)) <= 2 as real * error + 1024 as real * (roundoff() * (
        distance(m.start) + distance(m.end))),
{
    let u = roundoff();
    let (x, y) = (distance(m.start), distance(m.end));
    let z = u * (x + y);
    let wide = m.end - m.start;
    lemma_half_comes_back(m, error);
    lemma_distances(m.start, m.end);
    lemma_distances(m.start, m.dx);
    lemma_distances(m.span, m.twice);
    assert(wide <= x + y && distance(m.dx) == m.dx) by {
        reveal(distance);
    }
    assert(u * x + u * y == z) by (nonlinear_arith)
        requires
            z == u * (x + y),
    ;
    lemma_part(x);
    lemma_part(y);
    lemma_part(distance(m.min));
    lemma_part(distance(m.raw));
    lemma_triangle(m.min, m.start + m.dx, 0 as real);
    lemma_distances(m.min, m.start + m.dx);
    let p = distance(m.min);
    assert(p <= 4 as real * (x + y));
    assert(u * p <= 4 as real * z) by (nonlinear_arith)
        requires
            p <= 4 as real * (x + y),
            z == u * (x + y),
            u >= 0 as real,
    ;
    let (f, g) = (u * wide, u * m.dx);
    lemma_part(wide);
    lemma_part(m.dx);
    assert(f <= z && g <= z) by (nonlinear_arith)
        requires
            f == u * wide,
            g == u * m.dx,
            wide <= x + y,
            m.dx <= x + y,
            z == u * (x + y),
            u >= 0 as real,
    ;
    assert(4 as real * u * wide == 4 as real * f && 4 as real * u * (2 as real * m.dx) == 8 as real
        * g) by (nonlinear_arith)
        requires
            f == u * wide,
            g == u * m.dx,
    ;
    assert(distance(m.span) <= 2 as real * (x + y) && distance(m.twice) <= 4 as real * (x + y)) by {
        reveal(distance);
    }
    lemma_triangle(m.raw, m.span - m.twice, 0 as real);
    lemma_distances(m.raw, m.span - m.twice);
    let q = distance(m.raw);
    assert(q <= 16 as real * (x + y));
    assert(u * q <= 16 as real * z) by (nonlinear_arith)
        requires
            q <= 16 as real * (x + y),
            z == u * (x + y),
            u >= 0 as real,
    ;
    lemma_recovered(m, error, z);
}

/// The errors of what is recovered, added up.
proof fn lemma_recovered(m: Mesh, error: real, z: real)
    requires
        z >= 0 as real,
        error >= 0 as real,
        distance(m.dx - m.half) <= error + 320 as real * z,
        distance(m.start - (m.lo - m.half)) <= z,
        distance(m.end - (m.hi + m.half)) <= z,
        distance(m.min - (m.start + m.dx)) <= 4 as real * z,
        m.span - (m.end - m.start) <= 4 as real * z,
        (m.end - m.start) - m.span <= 4 as real * z,
        m.twice - 2 as real * m.dx <= 8 as real * z,
        2 as real * m.dx - m.twice <= 8 as real * z,
        distance(m.raw - (m.span - m.twice)) <= 16 as real * z,
    ensures
        distance(m.min - m.lo) <= error + 512 as real * z,
        distance(m.raw - (m.hi - m.lo)) <= 2 as real * error + 1024 as real * z,
{
    reveal(distance);
}

/// What a mesh recovers along an axis from its widened domain: half a hexagon,
/// the start of the raw extent and its span. `c` is half a hexagon in pixels
/// and `den` the widened room.
pub open spec fn recovered(domain: Range, c: Number, den: Number) -> (Number, Number, Number) {
    let span = domain.end.minus(domain.start);
    let half = c.times(span).over(den);
    (half, domain.start.plus(half), span.minus(Number::from_bits(TWO).times(half)))
}

/// Whether a number is finite, positive and not near the smallest ones.
pub open spec fn ordinary(x: Number) -> bool {
    2 * FRACTIONS <= x.bits < INFINITE
}

/// Whether no step of a recovery overflows or underflows.
pub open spec fn regular_mesh(extent: Range, half: Number, c: Number, den: Number) -> bool {
    let domain = hex_span(Some(half), Some(extent))->0;
    let span = domain.end.minus(domain.start);
    let (dx, min, raw) = recovered(domain, c, den);
    &&& extent.start.is_finite() && extent.end.is_finite() && extent.start.lt(extent.end)
    &&& half.is_finite() && Number::from_bits(ZERO).le(half)
    &&& domain.start.is_finite() && domain.end.is_finite() && span.is_finite()
    &&& ordinary(c) && ordinary(c.times(span)) && ordinary(dx)
    &&& den.is_finite() && den.magnitude() != 0
    &&& Number::from_bits(TWO).times(dx).is_finite() && min.is_finite() && raw.is_finite()
}

/// The exact values of the steps of a recovery.
spec fn mesh_of(extent: Range, half: Number, c: Number, room: Number, den: Number) -> Mesh {
    let domain = hex_span(Some(half), Some(extent))->0;
    let span = domain.end.minus(domain.start);
    let (dx, min, raw) = recovered(domain, c, den);
    Mesh {
        lo: amount(extent.start),
        hi: amount(extent.end),
        half: amount(half),
        start: amount(domain.start),
        end: amount(domain.end),
        span: amount(span),
        c: amount(c),
        room: amount(room),
        den: amount(den),
        num: amount(c.times(span)),
        dx: amount(dx),
        twice: amount(Number::from_bits(TWO).times(dx)),
        min: amount(min),
        raw: amount(raw),
    }
}

/// The steps of a regular recovery are exact up to rounding.
proof fn lemma_mesh_steps(extent: Range, half: Number, c: Number, room: Number, den: Number)
    requires
        regular_mesh(extent, half, c, den),
        amount(room) > 0 as real,
        around(amount(den), amount(room) + 2 as real * amount(c), 64 as real * roundoff()),
    ensures
        mesh_steps(mesh_of(extent, half, c, room, den)),
{
    let zero = Number::from_bits(ZERO);
    let two = Number::from_bits(TWO);
    let (lo, hi) = (extent.start, extent.end);
    let domain = hex_span(Some(half), Some(extent))->0;
    let span = domain.end.minus(domain.start);
    let dx = recovered(domain, c, den).0;
    let m = mesh_of(extent, half, c, room, den);
    let u = roundoff();
    lemma_format();
    lemma_two();
    lemma_least_is_small();
    lemma_amounts_in_order(lo, hi);
    lemma_amounts_in_order(zero, half);
    lemma_amount_of_sign(zero);
    lemma_rank_is_value_order(zero, half);
    lemma_rank_is_value_order(half, zero);
    lemma_difference_keeps_order(lo, half, lo);
    lemma_sum_keeps_order(hi, half, hi);
    lemma_amounts_in_order(domain.start, lo);
    lemma_amounts_in_order(hi, domain.end);
    lemma_minus_accuracy(lo, half);
    lemma_plus_accuracy(hi, half);
    lemma_minus_accuracy(domain.end, domain.start);
    lemma_exactly_around(m.span, m.end - m.start);
    lemma_tangible(c);
    lemma_tangible(c.times(span));
    lemma_tangible(dx);
    lemma_times_accuracy(c, span);
    lemma_normal_around(m.num, m.c * m.span);
    lemma_over_accuracy(c.times(span), den);
    lemma_normal_around(m.dx, m.num / m.den);
    lemma_times_accuracy(two, dx);
    assert(u * (2 as real * m.dx) == 2 as real * (u * m.dx)) by (nonlinear_arith);
    lemma_rounded_around(m.twice, 2 as real * m.dx);
    lemma_plus_accuracy(domain.start, dx);
    lemma_minus_accuracy(span, two.times(dx));
}

/// The room of an axis widened by a hexagon's width.
proof fn lemma_room_across(w: Number, b: Number)
    requires
        w.is_finite(),
        b.is_finite(),
        amount(w) > 0 as real,
        ordinary(b.over(Number::from_bits(TWO))),
        w.plus(b).is_finite(),
        Number::from_bits(ZERO).lt(b),
    ensures
        around(
            amount(w.plus(b)),
            amount(w) + 2 as real * amount(b.over(Number::from_bits(TWO))),
            64 as real * roundoff(),
        ),
{
    let u = roundoff();
    let two = Number::from_bits(TWO);
    let c = b.over(two);
    let (x, y) = (amount(w), amount(b));
    lemma_format();
    lemma_two();
    lemma_least_is_small();
    lemma_tangible(c);
    lemma_amounts_in_order(Number::from_bits(ZERO), b);
    lemma_amount_of_sign(Number::from_bits(ZERO));
    lemma_over_accuracy(b, two);
    lemma_normal_around(amount(c), y / 2 as real);
    lemma_around_double(amount(c), y, 4 as real * u);
    lemma_around_back(2 as real * amount(c), y, 4 as real * u);
    lemma_around_beside(x, y, 2 as real * amount(c), 2 as real * (4 as real * u));
    lemma_plus_accuracy(w, b);
    lemma_exactly_around(amount(w.plus(b)), x + y);
    lemma_around_chain(
        amount(w.plus(b)),
        x + y,
        x + 2 as real * amount(c),
        4 as real * u,
        2 as real * (4 as real * u),
    );
    lemma_around_more(
        amount(w.plus(b)),
        x + 2 as real * amount(c),
        2 as real * (4 as real * u + 2 as real * (4 as real * u)),
        64 as real * u,
    );
}

/// The room of an axis widened by a hexagon's height.
proof fn lemma_room_upright(h: Number, size: Number)
    requires
        h.is_finite(),
        amount(h) > 0 as real,
        ordinary(size),
        Number::from_bits(TWO).times(size).is_finite(),
        h.plus(Number::from_bits(TWO).times(size)).is_finite(),
    ensures
        around(
            amount(h.plus(Number::from_bits(TWO).times(size))),
            amount(h) + 2 as real * amount(size),
            64 as real * roundoff(),
        ),
{
    let u = roundoff();
    let two = Number::from_bits(TWO);
    let t = two.times(size);
    let (x, y) = (amount(h), 2 as real * amount(size));
    lemma_format();
    lemma_two();
    lemma_least_is_small();
    lemma_tangible(size);
    lemma_times_accuracy(two, size);
    assert(u * y == 2 as real * (u * amount(size))) by (nonlinear_arith)
        requires
            y == 2 as real * amount(size),
    ;
    lemma_rounded_around(amount(t), y);
    lemma_around_beside(x, amount(t), y, 4 as real * u);
    lemma_plus_accuracy(h, t);
    lemma_exactly_around(amount(h.plus(t)), x + amount(t));
    lemma_around_chain(amount(h.plus(t)), x + amount(t), x + y, 4 as real * u, 4 as real * u);
    lemma_around_more(
        amount(h.plus(t)),
        x + y,
        2 as real * (4 as real * u + 4 as real * u),
        64 as real * u,
    );
}

/// How far apart the corners of a domain are from the origin.
pub open spec fn reach(domain: Range) -> real {
    distance(amount(domain.start)) + distance(amount(domain.end))
}

/// A mesh recovers the lattice of the hexagons beside it from the scales that
/// they widened by half a hexagon on each side: the start and the span of the
/// raw extent and half a hexagon, on both axes, up to rounding and to twice the
/// error of the half hexagons themselves. A half hexagon in data units is the
/// part of the extent that it is of the room in pixels.
pub proof fn a_mesh_recovers_the_raw_extent(
    bin_width: Number,
    x: Range,
    half_x: Number,
    x_range: Range,
    y: Range,
    half_y: Number,
    y_range: Range,
    error_x: real,
    error_y: real,
)
    requires
        ({
            let two = Number::from_bits(TWO);
            let (w, h) = (
                x_range.end.minus(x_range.start).abs(),
                y_range.end.minus(y_range.start).abs(),
            );
            let (c, size) = (bin_width.over(two), bin_width.over(Number::from_bits(ROOT_THREE)));
            &&& bin_width.is_finite() && Number::from_bits(ZERO).lt(bin_width)
            &&& w.is_finite() && w.magnitude() != 0
            &&& h.is_finite() && h.magnitude() != 0
            &&& two.times(size).is_finite()
            &&& regular_mesh(x, half_x, c, w.plus(bin_width))
            &&& regular_mesh(y, half_y, size, h.plus(two.times(size)))
            &&& error_x >= 0 as real && distance(
                amount(half_x) - amount(c) * (amount(x.end) - amount(x.start)) / amount(w),
            ) <= error_x
            &&& error_y >= 0 as real && distance(
                amount(half_y) - amount(size) * (amount(y.end) - amount(y.start)) / amount(h),
            ) <= error_y
        }),
        !(is_unit(hex_span(Some(half_x), Some(x))->0) && is_unit(
            hex_span(Some(half_y), Some(y))->0,
        )),
    ensures
        ({
            let xd = hex_span(Some(half_x), Some(x))->0;
            let yd = hex_span(Some(half_y), Some(y))->0;
            let (u, v) = (roundoff() * reach(xd), roundoff() * reach(yd));
            let found = sibling(bin_width, linear_over_domain(xd, x_range), linear_over_domain(
                yd,
                y_range,
            ));
            &&& found is Some
            &&& distance(amount(found->0.dx_data) - amount(half_x)) <= error_x + 320 as real * u
            &&& distance(amount(found->0.dy_data) - amount(half_y)) <= error_y + 320 as real * v
            &&& distance(amount(found->0.xmin_raw) - amount(x.start)) <= error_x + 512 as real * u
            &&& distance(amount(found->0.ymin_raw) - amount(y.start)) <= error_y + 512 as real * v
            &&& distance(amount(found->0.xspan_raw) - (amount(x.end) - amount(x.start))) <= 2 as real
                * error_x + 1024 as real * u
            &&& distance(amount(found->0.yspan_raw) - (amount(y.end) - amount(y.start))) <= 2 as real
                * error_y + 1024 as real * v
        }),
{
    let zero = Number::from_bits(ZERO);
    let two = Number::from_bits(TWO);
    let (w, h) = (x_range.end.minus(x_range.start).abs(), y_range.end.minus(y_range.start).abs());
    let (c, size) = (bin_width.over(two), bin_width.over(Number::from_bits(ROOT_THREE)));
    let xd = hex_span(Some(half_x), Some(x))->0;
    let yd = hex_span(Some(half_y), Some(y))->0;
    lemma_format();
    lemma_positive(w);
    lemma_positive(h);
    lemma_room_across(w, bin_width);
    lemma_room_upright(h, size);
    lemma_mesh_steps(x, half_x, c, w, w.plus(bin_width));
    lemma_mesh_steps(y, half_y, size, h, h.plus(two.times(size)));
    let (mx, my) = (
        mesh_of(x, half_x, c, w, w.plus(bin_width)),
        mesh_of(y, half_y, size, h, h.plus(two.times(size))),
    );
    lemma_half_comes_back(mx, error_x);
    lemma_half_comes_back(my, error_y);
    lemma_extent_comes_back(mx, error_x);
    lemma_extent_comes_back(my, error_y);
    lemma_positive_span(mx.span, mx.end - mx.start);
    lemma_positive_span(my.span, my.end - my.start);
    lemma_amount_of_sign(zero);
    lemma_amounts_in_order(zero, w);
    lemma_amounts_in_order(zero, h);
    lemma_amounts_in_order(zero, xd.end.minus(xd.start));
    lemma_amounts_in_order(zero, yd.end.minus(yd.start));
}

/// A linear scale over a domain and a range.
pub open spec fn linear_over_domain(domain: Range, range: Range) -> ScaleModel {
    ScaleModel::Linear {
        domain_min: domain.start,
        domain_max: domain.end,
        range_start: range.start,
        range_end: range.end,
    }
}

proof fn lemma_positive(x: Number)
    requires
        x.is_finite(),
        !x.negative(),
        x.magnitude() != 0,
    ensures
        amount(x) > 0 as real,
{
    let zero = Number::from_bits(ZERO);
    lemma_format();
    lemma_amount_of_sign(zero);
    lemma_amounts_in_order(zero, x);
}

proof fn lemma_positive_span(x: real, y: real)
    requires
        around(x, y, 4 as real * roundoff()),
    ensures
        x > 0 as real,
{
    let u = roundoff();
    lemma_part(y);
    assert(4 as real * u * y == 4 as real * (u * y)) by (nonlinear_arith);
}

} // verus!
