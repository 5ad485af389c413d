//! What every map keeps: west is the mirror of east, south is the mirror of
//! north, east is to the right and north is up.
use vstd::prelude::*;

use crate::accuracy::{lemma_amount_of_sign, lemma_amounts_in_order};
use crate::bounds::{lemma_over_keeps_order, lemma_plus_keeps_order, lemma_times_keeps_order};
use crate::cartography::{
    area_radius, azimuthal, conic, equal_earth, Trig, CONFORMAL_N, CONFORMAL_SOUTH, EQUAL_AREA_N,
    EQUIDISTANT_N, QUARTER_CIRCLE,
};
use crate::number::{lemma_format, Number};
use crate::numerals::{ONE, TWO, ZERO};
use crate::projection::{Projection, RADIANS_PER_DEGREE};
use crate::root_accuracy::lemma_sqrt_keeps_order;

verus! {

/// Whether two numbers are the same but for their signs, or neither is one.
pub open spec fn is_opposite(x: Number, y: Number) -> bool {
    x.is_nan() && y.is_nan() || !x.is_nan() && x == y.negated()
}

/// Whether two numbers are the same, or neither is one.
pub open spec fn is_alike(x: Number, y: Number) -> bool {
    x.is_nan() && y.is_nan() || x == y
}

/// A product turns with either of its parts.
proof fn lemma_times_turns(a: Number, b: Number, c: Number)
    requires
        is_opposite(a, b),
    ensures
        is_opposite(a.times(c), b.times(c)),
        is_opposite(c.times(a), c.times(b)),
{
    reveal(Number::spec_times);
    lemma_format();
}

/// A quotient turns with what is divided.
pub proof fn lemma_over_turns(a: Number, b: Number, c: Number)
    requires
        is_opposite(a, b),
    ensures
        is_opposite(a.over(c), b.over(c)),
{
    reveal(Number::spec_over);
    lemma_format();
}

/// Whether the values at one coordinate are those at another with the east and
/// the west turned round.
pub open spec fn is_turned_east(s: Trig, t: Trig) -> bool {
    &&& is_opposite(s.sin_lon, t.sin_lon)
    &&& is_opposite(s.sin_turn, t.sin_turn)
    &&& s == (Trig { sin_lon: s.sin_lon, sin_turn: s.sin_turn, ..t })
}

/// Whether the values at one coordinate are those at another with the north and
/// the south turned round.
pub open spec fn is_turned_north(s: Trig, t: Trig) -> bool {
    &&& is_opposite(s.sin_lat, t.sin_lat)
    &&& is_opposite(s.log, t.log)
    &&& s == (Trig { sin_lat: s.sin_lat, log: s.log, ..t })
}

/// Two coordinates as far east and west of the middle are drawn as far to the
/// right and to the left of it, and as high. The logarithm of the transverse
/// projection turns with the longitude, and it is left out here.
pub proof fn west_is_the_mirror_of_east(
    projection: Projection,
    lon: Number,
    west: Number,
    lat: Number,
    s: Trig,
    t: Trig,
)
    requires
        is_opposite(west, lon),
        is_turned_east(s, t),
        !(projection is TransverseMercator),
    ensures
        projection.planar(west, lat, s) is Some <==> projection.planar(lon, lat, t) is Some,
        projection.planar(lon, lat, t) matches Some(p) ==> (projection.planar(
            west,
            lat,
            s,
        ) matches Some(q) && is_opposite(q.x, p.x) && is_alike(q.y, p.y)),
{
    let unit = Number::from_bits(RADIANS_PER_DEGREE);
    lemma_format();
    lemma_times_turns(west, lon, unit);
    let (a, b) = (west.times(unit), lon.times(unit));
    lemma_times_turns(s.sin_lon, t.sin_lon, t.cos_lat);
    let (c, d) = (t.cos_lat.times(s.sin_lon), t.cos_lat.times(t.sin_lon));
    let k = t.cos_lon.times(t.cos_lat);
    let one = Number::from_bits(ONE);
    lemma_over_turns(c, d, k);
    lemma_over_turns(c, d, one.plus(k));
    lemma_radial(s, t);
    lemma_times_turns(a, b, t.cos_arc);
    lemma_earth(a, b, s, t);
    lemma_cone(s, t);
}

/// A point of a cone turns with its angle.
proof fn lemma_cone(s: Trig, t: Trig)
    requires
        is_turned_east(s, t),
    ensures
        forall|radius: Number, top: Number|
            {
                &&& is_opposite((#[trigger] conic(s, radius, top)).x, conic(t, radius, top).x)
                &&& conic(s, radius, top).y == conic(t, radius, top).y
            },
{
    assert forall|radius: Number, top: Number|
        {
            &&& is_opposite((#[trigger] conic(s, radius, top)).x, conic(t, radius, top).x)
            &&& conic(s, radius, top).y == conic(t, radius, top).y
        } by {
        lemma_times_turns(s.sin_turn, t.sin_turn, radius);
    }
}

/// A point of an azimuthal projection turns with its longitude.
proof fn lemma_radial(s: Trig, t: Trig)
    requires
        is_turned_east(s, t),
    ensures
        forall|k: Number|
            {
                &&& (#[trigger] azimuthal(s, k)) is Some <==> azimuthal(t, k) is Some
                &&& azimuthal(s, k) matches Some(q) ==> (azimuthal(t, k) matches Some(p)
                    && is_opposite(q.x, p.x) && q.y == p.y)
            },
{
    assert forall|k: Number|
        {
            &&& (#[trigger] azimuthal(s, k)) is Some <==> azimuthal(t, k) is Some
            &&& azimuthal(s, k) matches Some(q) ==> (azimuthal(t, k) matches Some(p) && is_opposite(
                q.x,
                p.x,
            ) && q.y == p.y)
        } by {
        lemma_times_turns(s.sin_lon, t.sin_lon, k.times(t.cos_lat));
    }
}

/// A point of the equal-earth projection turns with its longitude.
proof fn lemma_earth(a: Number, b: Number, s: Trig, t: Trig)
    requires
        is_opposite(a, b),
        is_turned_east(s, t),
    ensures
        ({
            let (q, p) = (equal_earth(a, s), equal_earth(b, t));
            is_opposite(q.x, p.x) && q.y == p.y
        }),
{
    lemma_times_turns(a, b, t.cos_arc);
    let (c, d) = (a.times(t.cos_arc), b.times(t.cos_arc));
    assert forall|m: Number| is_opposite(#[trigger] c.over(m), d.over(m)) by {
        lemma_over_turns(c, d, m);
    }
}

/// Whether a projection is even about the equator: the flat ones, Mercator's,
/// and those that look at the sphere from a point.
pub open spec fn is_even(projection: Projection) -> bool {
    match projection {
        Projection::Equirectangular
        | Projection::Identity
        | Projection::ReflectY
        | Projection::Mercator
        | Projection::Orthographic
        | Projection::Gnomonic
        | Projection::Stereographic
        | Projection::AzimuthalEqualArea
        | Projection::AzimuthalEquidistant => true,
        _ => false,
    }
}

/// Two coordinates as far north and south of the equator are drawn as far above
/// and below it, and as far across.
pub proof fn south_is_the_mirror_of_north(
    projection: Projection,
    lon: Number,
    lat: Number,
    south: Number,
    s: Trig,
    t: Trig,
)
    requires
        is_opposite(south, lat),
        is_turned_north(s, t),
        is_even(projection),
    ensures
        projection.planar(lon, south, s) is Some <==> projection.planar(lon, lat, t) is Some,
        projection.planar(lon, lat, t) matches Some(p) ==> (projection.planar(
            lon,
            south,
            s,
        ) matches Some(q) && is_alike(q.x, p.x) && is_opposite(q.y, p.y)),
{
    let k = t.cos_lon.times(t.cos_lat);
    let one = Number::from_bits(ONE);
    lemma_format();
    lemma_over_turns(s.sin_lat, t.sin_lat, k);
    lemma_over_turns(s.sin_lat, t.sin_lat, one.plus(k));
    assert forall|k: Number| is_opposite(#[trigger] k.times(s.sin_lat), k.times(t.sin_lat)) by {
        lemma_times_turns(s.sin_lat, t.sin_lat, k);
    }
    assert(south.abs() == lat.abs() || south.is_nan() && lat.is_nan());
}

/// A product of what is not negative is not negative.
pub proof fn lemma_forward(a: Number, b: Number)
    requires
        !a.negative(),
        !b.negative(),
    ensures
        !a.times(b).negative(),
        !a.over(b).negative(),
{
    reveal(Number::spec_times);
    reveal(Number::spec_over);
    lemma_format();
}

/// Whether a projection looks at the sphere from a point.
pub open spec fn is_viewed(projection: Projection) -> bool {
    match projection {
        Projection::Orthographic
        | Projection::Gnomonic
        | Projection::Stereographic => true,
        _ => false,
    }
}

/// Where a projection looks at the sphere from a point, what lies to the east of
/// it is drawn to the right, and what lies to the north of it is drawn above.
pub proof fn east_is_right_and_north_is_up(
    projection: Projection,
    lon: Number,
    lat: Number,
    t: Trig,
)
    requires
        is_viewed(projection),
        !t.cos_lat.negative(),
    ensures
        projection.planar(lon, lat, t) matches Some(p) ==> {
            &&& !t.sin_lon.negative() ==> !p.x.negative()
            &&& !t.sin_lat.negative() ==> !p.y.negative()
        },
{
    let one = Number::from_bits(ONE);
    let k = t.cos_lon.times(t.cos_lat);
    lemma_format();
    if projection.planar(lon, lat, t) is Some {
        if !t.sin_lon.negative() {
            lemma_forward(t.cos_lat, t.sin_lon);
            if !k.negative() {
                lemma_forward(t.cos_lat.times(t.sin_lon), k);
            }
            if !one.plus(k).negative() {
                lemma_forward(t.cos_lat.times(t.sin_lon), one.plus(k));
            }
        }
        if !t.sin_lat.negative() {
            if !k.negative() {
                lemma_forward(t.sin_lat, k);
            }
            if !one.plus(k).negative() {
                lemma_forward(t.sin_lat, one.plus(k));
            }
        }
    }
}

/// An azimuthal projection draws what lies to the east to the right, and what
/// lies to the north above, at any radius.
pub proof fn an_azimuthal_map_has_east_right_and_north_up(t: Trig, k: Number)
    requires
        !t.cos_lat.negative(),
        !k.negative(),
    ensures
        azimuthal(t, k) matches Some(p) ==> {
            &&& !t.sin_lon.negative() ==> !p.x.negative()
            &&& !t.sin_lat.negative() ==> !p.y.negative()
        },
{
    lemma_forward(k, t.cos_lat);
    if !t.sin_lon.negative() {
        lemma_forward(k.times(t.cos_lat), t.sin_lon);
    }
    if !t.sin_lat.negative() {
        lemma_forward(k, t.sin_lat);
    }
}

/// What is less leads to more where it is taken away.
proof fn lemma_less_taken(a: Number, b: Number, c: Number)
    requires
        a.le(b),
        c.is_finite(),
    ensures
        c.minus(b).le(c.minus(a)),
{
    lemma_format();
    assert(b.negated().le(a.negated()));
    lemma_plus_keeps_order(b.negated(), a.negated(), c);
}

/// On a cone, what lies farther north stands nearer to the tip, and is drawn no
/// lower on its meridian.
pub proof fn north_is_up_on_a_cone(s: Trig, t: Trig, n: Number, c: Number, top: Number)
    requires
        s.sin_lat.is_finite(),
        t.sin_lat.is_finite(),
        s.sin_lat.le(t.sin_lat),
        s.cos_turn == t.cos_turn,
        s.cos_turn.is_finite(),
        Number::from_bits(ZERO).lt(s.cos_turn),
        n.is_finite(),
        Number::from_bits(ZERO).lt(n),
        c.is_finite(),
        top.is_finite(),
        Number::from_bits(TWO).times(n).is_finite(),
        Number::from_bits(ZERO).lt(Number::from_bits(TWO).times(n)),
        c.minus(Number::from_bits(TWO).times(n).times(s.sin_lat)).is_finite(),
        c.minus(Number::from_bits(TWO).times(n).times(t.sin_lat)).is_finite(),
    ensures
        area_radius(t, n, c).le(area_radius(s, n, c)),
        conic(s, area_radius(s, n, c), top).y.le(conic(t, area_radius(t, n, c), top).y),
{
    let zero = Number::from_bits(ZERO);
    let m = Number::from_bits(TWO).times(n);
    let (a, b) = (m.times(s.sin_lat), m.times(t.sin_lat));
    lemma_format();
    lemma_times_keeps_order(s.sin_lat, t.sin_lat, m);
    lemma_less_taken(a, b, c);
    let (p, q) = (c.minus(b).max(zero), c.minus(a).max(zero));
    lemma_amounts_in_order(zero, p);
    lemma_amount_of_sign(zero);
    lemma_sqrt_keeps_order(p, q);
    lemma_over_keeps_order(p.sqrt(), q.sqrt(), n);
    let (f, g) = (area_radius(s, n, c), area_radius(t, n, c));
    lemma_times_keeps_order(g, f, s.cos_turn);
    lemma_less_taken(g.times(t.cos_turn), f.times(s.cos_turn), top);
}

/// The turn of a cone is odd: as far to the west as to the east. The cone of
/// Albers is turned about a meridian of its own.
pub proof fn a_cone_turns_as_far_west_as_east(projection: Projection, lon: Number, west: Number)
    requires
        is_opposite(west, lon),
        projection is ConicEqualArea || projection is ConicEquidistant
            || projection is ConicConformal,
    ensures
        is_opposite(projection.turn(west), projection.turn(lon)),
{
    let unit = Number::from_bits(RADIANS_PER_DEGREE);
    lemma_times_turns(west, lon, unit);
    let (a, b) = (west.times(unit), lon.times(unit));
    lemma_times_turns(a, b, Number::from_bits(EQUAL_AREA_N));
    lemma_times_turns(a, b, Number::from_bits(EQUIDISTANT_N));
    lemma_times_turns(a, b, Number::from_bits(CONFORMAL_N));
}

/// The half angle from the pole grows with the latitude.
pub proof fn a_half_angle_grows_with_the_latitude(projection: Projection, a: Number, b: Number)
    requires
        a.le(b),
    ensures
        projection.half_angle(a).le(projection.half_angle(b)),
{
    let unit = Number::from_bits(RADIANS_PER_DEGREE);
    let (quarter, two) = (Number::from_bits(QUARTER_CIRCLE), Number::from_bits(TWO));
    let south = Number::from_bits(CONFORMAL_SOUTH);
    lemma_format();
    lemma_times_keeps_order(a, b, unit);
    let (p, q) = (a.times(unit), b.times(unit));
    let (r, s) = match projection {
        Projection::ConicConformal => (p.max(south), q.max(south)),
        _ => (p, q),
    };
    assert(r.le(s));
    lemma_plus_keeps_order(r, s, quarter);
    lemma_over_keeps_order(quarter.plus(r), quarter.plus(s), two);
}

} // verus!
