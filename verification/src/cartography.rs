//! Forward map projections.
//!
//! The projections are written over the values that the elementary functions
//! take at a coordinate; those values are computed elsewhere and handed in as
//! a [`Trig`].
use vstd::arithmetic::power2::{lemma2_to64, lemma_pow2_adds, lemma_pow2_pos, pow2};
use vstd::prelude::*;

use crate::accuracy::{
    amount, distance, least, lemma_amounts_in_order, lemma_close, lemma_distance_of_product,
    lemma_distances, lemma_finite_parts, lemma_least_is_small, lemma_over_accuracy, lemma_part,
    lemma_times_accuracy, lemma_triangle, roundoff,
};
use crate::drawing::Point;
use crate::geo::MERCATOR_CLIP_LAT;
use crate::number::{lemma_format, lemma_worth_of_power, Number, DEPTH, FRACTIONS};
use crate::numerals::{HALF, ONE, SEVEN, THREE, TWO, ZERO};
use crate::projection::{Projection, RADIANS_PER_DEGREE};

verus! {

/// A quarter turn in radians.
pub const QUARTER_CIRCLE: u64 = 0x3ff9_21fb_5444_2d18;

/// The sine of the latitude beyond which Mercator has no position.
pub const CLIP_SINE: u64 = 0x3fef_e175_fa29_2810;

/// The margin by which a coordinate must lie on the near side of the horizon:
/// a millionth.
pub const HORIZON_EPS: u64 = 0x3eb0_c6f7_a0b5_ed8d;

/// The constants of the conic equal-area projection with the standard
/// parallels 0 and 60 degrees: the cone constant, the radicand and the radius
/// of the equator.
pub const EQUAL_AREA_N: u64 = 0x3fdb_b67a_e858_4cab;

pub const EQUAL_AREA_C: u64 = 0x3ff0_0000_0000_0000;

pub const EQUAL_AREA_R0: u64 = 0x4002_79a7_4590_331c;

/// The constants of the conic equidistant projection with the same parallels.
pub const EQUIDISTANT_N: u64 = 0x3fde_8ec8_a4ae_acc5;

pub const EQUIDISTANT_G: u64 = 0x4000_c152_382d_7365;

/// The constants of the conic conformal projection with both parallels at 30
/// degrees, and the southernmost latitude it takes, in radians.
pub const CONFORMAL_N: u64 = 0x3fdf_ffff_ffff_ffff;

pub const CONFORMAL_F: u64 = 0x4002_3c6e_3224_f9d0;

pub const CONFORMAL_SOUTH: u64 = 0xbff9_21fa_47d4_b30d;

/// The constants of the Albers projection with the parallels 29.5 and 45.5
/// degrees about 96 degrees west, 23 degrees north.
pub const ALBERS_N: u64 = 0x3fe3_4a70_d476_617f;

pub const ALBERS_C: u64 = 0x3ff5_9e9a_40a5_3e0e;

pub const ALBERS_R0: u64 = 0x3ff8_e64d_9465_ffbb;

pub const ALBERS_LON0: u64 = 0xbffa_cee9_f37b_ebd6;

/// Half the square root of three.
pub const EARTH_M: u64 = 0x3feb_b67a_e858_4caa;

/// The coefficients of the Equal Earth polynomial: 1.340264, -0.081106,
/// 0.000893 and 0.003796.
pub const EARTH_A1: u64 = 0x3ff5_71b8_aa00_192a;

pub const EARTH_A2: u64 = 0xbfb4_c35c_e182_6677;

pub const EARTH_A3: u64 = 0x3f4d_4306_e5cd_4ed3;

pub const EARTH_A4: u64 = 0x3f6f_18c9_fb61_34ce;

/// The number 9.
pub const NINE: u64 = 0x4022_0000_0000_0000;

/// What the elementary functions give at one coordinate.
#[derive(Debug, Clone, Copy, PartialEq, Eq, Structural)]
pub struct Trig {
    pub sin_lon: Number,
    pub cos_lon: Number,
    pub sin_lat: Number,
    pub cos_lat: Number,
    /// The logarithm of the tangent of [`Projection::half_angle`], or, for the
    /// transverse Mercator projection, of [`Projection::log_argument`].
    pub log: Number,
    /// The angle whose tangent is that of the latitude over the cosine of the
    /// longitude.
    pub angle: Number,
    /// The arc of [`Projection::arc_argument`], its sine and its cosine.
    pub arc: Number,
    pub sin_arc: Number,
    pub cos_arc: Number,
    /// The sine and the cosine of [`Projection::turn`].
    pub sin_turn: Number,
    pub cos_turn: Number,
    /// The tangent of [`Projection::half_angle`] to the power of
    /// [`CONFORMAL_N`].
    pub power: Number,
}

/// A coordinate at a factor `k` from the centre; none at the antipode, and
/// none where the factor is not finite.
pub open spec fn azimuthal(t: Trig, k: Number) -> Option<Point> {
    let one = Number::from_bits(ONE);
    if one.plus(t.cos_lon.times(t.cos_lat)).le(Number::from_bits(HORIZON_EPS)) || !k.is_finite() {
        None
    } else {
        Some(Point { x: k.times(t.cos_lat).times(t.sin_lon), y: k.times(t.sin_lat) })
    }
}

fn place_azimuthal(t: Trig, k: Number) -> (r: Option<Point>)
    ensures
        r == azimuthal(t, k),
{
    let one = Number::from_bits(ONE);
    if one.plus(t.cos_lon.times(t.cos_lat)).le(Number::from_bits(HORIZON_EPS)) || !k.is_finite() {
        None
    } else {
        Some(Point { x: k.times(t.cos_lat).times(t.sin_lon), y: k.times(t.sin_lat) })
    }
}

/// A coordinate seen in perspective, at a divisor `k`; none beyond the
/// horizon.
pub open spec fn perspective(t: Trig, k: Number) -> Option<Point> {
    if Number::from_bits(HORIZON_EPS).lt(k) {
        Some(Point { x: t.cos_lat.times(t.sin_lon).over(k), y: t.sin_lat.over(k) })
    } else {
        None
    }
}

fn place_perspective(t: Trig, k: Number) -> (r: Option<Point>)
    ensures
        r == perspective(t, k),
{
    if Number::from_bits(HORIZON_EPS).lt(k) {
        Some(Point { x: t.cos_lat.times(t.sin_lon).over(k), y: t.sin_lat.over(k) })
    } else {
        None
    }
}

/// A coordinate at a radius from the apex of a cone.
pub open spec fn conic(t: Trig, radius: Number, top: Number) -> Point {
    Point { x: radius.times(t.sin_turn), y: top.minus(radius.times(t.cos_turn)) }
}

fn place_conic(t: Trig, radius: Number, top: Number) -> (r: Point)
    ensures
        r == conic(t, radius, top),
{
    Point { x: radius.times(t.sin_turn), y: top.minus(radius.times(t.cos_turn)) }
}

/// The radius of a latitude on an equal-area cone.
pub open spec fn area_radius(t: Trig, n: Number, c: Number) -> Number {
    let squared = c.minus(Number::from_bits(TWO).times(n).times(t.sin_lat));
    squared.max(Number::from_bits(ZERO)).sqrt().over(n)
}

fn equal_area_radius(t: Trig, n: Number, c: Number) -> (r: Number)
    ensures
        r == area_radius(t, n, c),
{
    let squared = c.minus(Number::from_bits(TWO).times(n).times(t.sin_lat));
    squared.max(Number::from_bits(ZERO)).sqrt().over(n)
}

/// A coordinate on Equal Earth, `arc` standing for its parametric latitude.
pub open spec fn equal_earth(lam: Number, t: Trig) -> Point {
    let a1 = Number::from_bits(EARTH_A1);
    let a2 = Number::from_bits(EARTH_A2);
    let a3 = Number::from_bits(EARTH_A3);
    let a4 = Number::from_bits(EARTH_A4);
    let l = t.arc;
    let l2 = l.times(l);
    let l6 = l2.times(l2).times(l2);
    let slope = a1.plus(Number::from_bits(THREE).times(a2).times(l2)).plus(
        l6.times(
            Number::from_bits(SEVEN).times(a3).plus(Number::from_bits(NINE).times(a4).times(l2)),
        ),
    );
    Point {
        x: lam.times(t.cos_arc).over(Number::from_bits(EARTH_M).times(slope)),
        y: l.times(a1.plus(a2.times(l2)).plus(l6.times(a3.plus(a4.times(l2))))),
    }
}

fn place_equal_earth(lam: Number, t: Trig) -> (r: Point)
    ensures
        r == equal_earth(lam, t),
{
    let a1 = Number::from_bits(EARTH_A1);
    let a2 = Number::from_bits(EARTH_A2);
    let a3 = Number::from_bits(EARTH_A3);
    let a4 = Number::from_bits(EARTH_A4);
    let l = t.arc;
    let l2 = l.times(l);
    let l6 = l2.times(l2).times(l2);
    let slope = a1.plus(Number::from_bits(THREE).times(a2).times(l2)).plus(
        l6.times(
            Number::from_bits(SEVEN).times(a3).plus(Number::from_bits(NINE).times(a4).times(l2)),
        ),
    );
    Point {
        x: lam.times(t.cos_arc).over(Number::from_bits(EARTH_M).times(slope)),
        y: l.times(a1.plus(a2.times(l2)).plus(l6.times(a3.plus(a4.times(l2))))),
    }
}

impl Projection {
    pub open spec fn spec_turn(self, lon: Number) -> Number {
        let lam = lon.times(Number::from_bits(RADIANS_PER_DEGREE));
        match self {
            Projection::ConicEqualArea => Number::from_bits(EQUAL_AREA_N).times(lam),
            Projection::ConicEquidistant => Number::from_bits(EQUIDISTANT_N).times(lam),
            Projection::ConicConformal => Number::from_bits(CONFORMAL_N).times(lam),
            Projection::Albers => Number::from_bits(ALBERS_N).times(
                lam.minus(Number::from_bits(ALBERS_LON0)),
            ),
            _ => Number::from_bits(ZERO),
        }
    }

    /// The angle about the apex of a conic projection that a longitude in
    /// degrees is drawn at, in radians; zero for any other projection.
    #[must_use]
    #[verifier::when_used_as_spec(spec_turn)]
    pub fn turn(self, lon: Number) -> (r: Number)
        ensures
            r == self.spec_turn(lon),
    {
        let lam = lon.times(Number::from_bits(RADIANS_PER_DEGREE));
        match self {
            Projection::ConicEqualArea => Number::from_bits(EQUAL_AREA_N).times(lam),
            Projection::ConicEquidistant => Number::from_bits(EQUIDISTANT_N).times(lam),
            Projection::ConicConformal => Number::from_bits(CONFORMAL_N).times(lam),
            Projection::Albers => Number::from_bits(ALBERS_N).times(
                lam.minus(Number::from_bits(ALBERS_LON0)),
            ),
            _ => Number::from_bits(ZERO),
        }
    }

    pub open spec fn spec_half_angle(self, lat: Number) -> Number {
        let phi = lat.times(Number::from_bits(RADIANS_PER_DEGREE));
        let from_pole = match self {
            Projection::ConicConformal => phi.max(Number::from_bits(CONFORMAL_SOUTH)),
            _ => phi,
        };
        Number::from_bits(QUARTER_CIRCLE).plus(from_pole).over(Number::from_bits(TWO))
    }

    /// Half the angle from the south pole to a latitude in degrees, in radians.
    /// The conic conformal projection keeps off the pole itself.
    #[must_use]
    #[verifier::when_used_as_spec(spec_half_angle)]
    pub fn half_angle(self, lat: Number) -> (r: Number)
        ensures
            r == self.spec_half_angle(lat),
    {
        let phi = lat.times(Number::from_bits(RADIANS_PER_DEGREE));
        let from_pole = match self {
            Projection::ConicConformal => phi.max(Number::from_bits(CONFORMAL_SOUTH)),
            _ => phi,
        };
        Number::from_bits(QUARTER_CIRCLE).plus(from_pole).over(Number::from_bits(TWO))
    }

    pub open spec fn spec_arc_argument(self, t: Trig) -> Number {
        let one = Number::from_bits(ONE);
        match self {
            Projection::EqualEarth => Number::from_bits(EARTH_M).times(t.sin_lat),
            _ => t.cos_lon.times(t.cos_lat).clamp(one.negated(), one),
        }
    }

    /// What the arc of a coordinate is taken of: the arc's cosine for the
    /// azimuthal equidistant projection, its sine for Equal Earth.
    #[must_use]
    #[verifier::when_used_as_spec(spec_arc_argument)]
    pub fn arc_argument(self, t: Trig) -> (r: Number)
        ensures
            r == self.spec_arc_argument(t),
    {
        let one = Number::from_bits(ONE);
        match self {
            Projection::EqualEarth => Number::from_bits(EARTH_M).times(t.sin_lat),
            _ => t.cos_lon.times(t.cos_lat).clamp(one.negated(), one),
        }
    }

    pub open spec fn spec_log_argument(self, t: Trig) -> Number {
        let one = Number::from_bits(ONE);
        let b = t.cos_lat.times(t.sin_lon);
        one.plus(b).over(one.minus(b))
    }

    /// What the transverse Mercator projection takes the logarithm of.
    #[must_use]
    #[verifier::when_used_as_spec(spec_log_argument)]
    pub fn log_argument(self, t: Trig) -> (r: Number)
        ensures
            r == self.spec_log_argument(t),
    {
        let one = Number::from_bits(ONE);
        let b = t.cos_lat.times(t.sin_lon);
        one.plus(b).over(one.minus(b))
    }

    /// Where a coordinate in degrees lies on the plane, `y` increasing north.
    pub open spec fn planar(self, lon: Number, lat: Number, t: Trig) -> Option<Point> {
        let zero = Number::from_bits(ZERO);
        let one = Number::from_bits(ONE);
        let lam = lon.times(Number::from_bits(RADIANS_PER_DEGREE));
        let phi = lat.times(Number::from_bits(RADIANS_PER_DEGREE));
        match self {
            Projection::Equirectangular | Projection::Identity => Some(Point { x: lon, y: lat }),
            Projection::ReflectY => Some(Point { x: lon, y: lat.negated() }),
            Projection::Mercator => if lat.abs().lt(Number::from_bits(MERCATOR_CLIP_LAT)) {
                Some(Point { x: lam, y: t.log })
            } else {
                None
            },
            Projection::TransverseMercator => if t.cos_lat.times(t.sin_lon).abs().lt(
                Number::from_bits(CLIP_SINE),
            ) {
                Some(Point { x: Number::from_bits(HALF).times(t.log), y: t.angle })
            } else {
                None
            },
            Projection::Orthographic => if Number::from_bits(HORIZON_EPS).lt(
                t.cos_lon.times(t.cos_lat),
            ) {
                Some(Point { x: t.cos_lat.times(t.sin_lon), y: t.sin_lat })
            } else {
                None
            },
            Projection::Gnomonic => perspective(t, t.cos_lon.times(t.cos_lat)),
            Projection::Stereographic => perspective(t, one.plus(t.cos_lon.times(t.cos_lat))),
            Projection::AzimuthalEqualArea => azimuthal(
                t,
                Number::from_bits(TWO).over(one.plus(t.cos_lon.times(t.cos_lat))).sqrt(),
            ),
            Projection::AzimuthalEquidistant => azimuthal(
                t,
                if t.arc.same(zero) {
                    one
                } else {
                    t.arc.over(t.sin_arc)
                },
            ),
            Projection::EqualEarth => Some(equal_earth(lam, t)),
            Projection::ConicEqualArea => Some(
                conic(
                    t,
                    area_radius(
                        t,
                        Number::from_bits(EQUAL_AREA_N),
                        Number::from_bits(EQUAL_AREA_C),
                    ),
                    Number::from_bits(EQUAL_AREA_R0),
                ),
            ),
            Projection::ConicConformal => Some(
                conic(
                    t,
                    Number::from_bits(CONFORMAL_F).over(t.power),
                    Number::from_bits(CONFORMAL_F),
                ),
            ),
            Projection::ConicEquidistant => Some(
                conic(
                    t,
                    Number::from_bits(EQUIDISTANT_G).minus(phi),
                    Number::from_bits(EQUIDISTANT_G),
                ),
            ),
            Projection::Albers => Some(
                conic(
                    t,
                    area_radius(t, Number::from_bits(ALBERS_N), Number::from_bits(ALBERS_C)),
                    Number::from_bits(ALBERS_R0),
                ),
            ),
        }
    }

    /// Project a longitude and a latitude in degrees to the plane, `y`
    /// increasing north. None where the projection has no position for the
    /// coordinate: beyond the horizon, at the antipode, or past the latitude
    /// that Mercator ends at.
    #[must_use]
    pub fn project(self, lon: Number, lat: Number, t: Trig) -> (r: Option<Point>)
        ensures
            r == self.planar(lon, lat, t),
    {
        let zero = Number::from_bits(ZERO);
        let one = Number::from_bits(ONE);
        let lam = lon.times(Number::from_bits(RADIANS_PER_DEGREE));
        let phi = lat.times(Number::from_bits(RADIANS_PER_DEGREE));
        match self {
            Projection::Equirectangular | Projection::Identity => Some(Point { x: lon, y: lat }),
            Projection::ReflectY => Some(Point { x: lon, y: lat.negated() }),
            Projection::Mercator => if lat.abs().lt(Number::from_bits(MERCATOR_CLIP_LAT)) {
                Some(Point { x: lam, y: t.log })
            } else {
                None
            },
            Projection::TransverseMercator => if t.cos_lat.times(t.sin_lon).abs().lt(
                Number::from_bits(CLIP_SINE),
            ) {
                Some(Point { x: Number::from_bits(HALF).times(t.log), y: t.angle })
            } else {
                None
            },
            Projection::Orthographic => if Number::from_bits(HORIZON_EPS).lt(
                t.cos_lon.times(t.cos_lat),
            ) {
                Some(Point { x: t.cos_lat.times(t.sin_lon), y: t.sin_lat })
            } else {
                None
            },
            Projection::Gnomonic => place_perspective(t, t.cos_lon.times(t.cos_lat)),
            Projection::Stereographic => place_perspective(t, one.plus(t.cos_lon.times(t.cos_lat))),
            Projection::AzimuthalEqualArea => place_azimuthal(
                t,
                Number::from_bits(TWO).over(one.plus(t.cos_lon.times(t.cos_lat))).sqrt(),
            ),
            Projection::AzimuthalEquidistant => place_azimuthal(
                t,
                if t.arc.same(zero) {
                    one
                } else {
                    t.arc.over(t.sin_arc)
                },
            ),
            Projection::EqualEarth => Some(place_equal_earth(lam, t)),
            Projection::ConicEqualArea => Some(
                place_conic(
                    t,
                    equal_area_radius(
                        t,
                        Number::from_bits(EQUAL_AREA_N),
                        Number::from_bits(EQUAL_AREA_C),
                    ),
                    Number::from_bits(EQUAL_AREA_R0),
                ),
            ),
            Projection::ConicConformal => Some(
                place_conic(
                    t,
                    Number::from_bits(CONFORMAL_F).over(t.power),
                    Number::from_bits(CONFORMAL_F),
                ),
            ),
            Projection::ConicEquidistant => Some(
                place_conic(
                    t,
                    Number::from_bits(EQUIDISTANT_G).minus(phi),
                    Number::from_bits(EQUIDISTANT_G),
                ),
            ),
            Projection::Albers => Some(
                place_conic(
                    t,
                    equal_area_radius(t, Number::from_bits(ALBERS_N), Number::from_bits(ALBERS_C)),
                    Number::from_bits(ALBERS_R0),
                ),
            ),
        }
    }
}

/// Whether a projection gives every coordinate a position.
pub open spec fn is_total(projection: Projection) -> bool {
    match projection {
        Projection::Equirectangular
        | Projection::Identity
        | Projection::ReflectY
        | Projection::EqualEarth
        | Projection::ConicEqualArea
        | Projection::ConicConformal
        | Projection::ConicEquidistant
        | Projection::Albers => true,
        _ => false,
    }
}

/// The flat projections, Equal Earth and the conics give every coordinate a
/// position.
pub proof fn a_total_projection_loses_no_coordinate(
    projection: Projection,
    lon: Number,
    lat: Number,
    t: Trig,
)
    requires
        is_total(projection),
    ensures
        projection.planar(lon, lat, t) is Some,
{
}

/// A coordinate that a projection cannot represent has no position: the far
/// side of the globe, the antipode, and a latitude past the end of Mercator.
pub proof fn an_unrepresentable_coordinate_has_no_position(
    lon: Number,
    lat: Number,
    t: Trig,
)
    ensures
        !Number::from_bits(HORIZON_EPS).lt(t.cos_lon.times(t.cos_lat)) ==> {
            &&& Projection::Orthographic.planar(lon, lat, t) is None
            &&& Projection::Gnomonic.planar(lon, lat, t) is None
        },
        Number::from_bits(ONE).plus(t.cos_lon.times(t.cos_lat)).le(
            Number::from_bits(HORIZON_EPS),
        ) ==> {
            &&& Projection::Stereographic.planar(lon, lat, t) is None
            &&& Projection::AzimuthalEqualArea.planar(lon, lat, t) is None
            &&& Projection::AzimuthalEquidistant.planar(lon, lat, t) is None
        },
        !lat.abs().lt(Number::from_bits(MERCATOR_CLIP_LAT)) ==> Projection::Mercator.planar(
            lon,
            lat,
            t,
        ) is None,
{
}

/// Inverting a flat projection gives the coordinate back.
pub proof fn a_flat_projection_inverts_exactly(
    projection: Projection,
    lon: Number,
    lat: Number,
    t: Trig,
    gudermannian: Number,
)
    requires
        projection == Projection::Equirectangular || projection == Projection::Identity
            || projection == Projection::ReflectY,
    ensures
        projection.planar(lon, lat, t) matches Some(p) && projection.longitude_of(p.x) == Some(lon)
            && projection.latitude_of(p.y, gudermannian) == Some(lat),
{
    assert(lat.negated().negated() == lat);
}

/// Where a projection puts the coordinates of a path, given what the elementary
/// functions are at each. A coordinate for which nothing is given has no
/// position.
pub open spec fn path_planar(
    projection: Projection,
    coordinates: Seq<Point>,
    angles: Seq<Trig>,
) -> Seq<Option<Point>> {
    Seq::new(
        coordinates.len(),
        |k: int|
            if k < angles.len() {
                projection.planar(coordinates[k].x, coordinates[k].y, angles[k])
            } else {
                None
            },
    )
}

/// Project the coordinates of a path, each a longitude and a latitude in
/// degrees.
pub fn project_path(projection: Projection, coordinates: &Vec<Point>, angles: &Vec<Trig>) -> (out:
    Vec<Option<Point>>)
    ensures
        out@ == path_planar(projection, coordinates@, angles@),
{
    let ghost all = path_planar(projection, coordinates@, angles@);
    let mut out: Vec<Option<Point>> = Vec::new();
    let mut k: usize = 0;
    while k < coordinates.len()
        invariant
            k <= coordinates.len(),
            all == path_planar(projection, coordinates@, angles@),
            out@ == all.take(k as int),
        decreases coordinates.len() - k,
    {
        out.push(
            if k < angles.len() {
                projection.project(coordinates[k].x, coordinates[k].y, angles[k])
            } else {
                None
            },
        );
        k = k + 1;
        assert(out@ =~= all.take(k as int));
    }
    assert(out@ =~= all);
    out
}

/// A degree is between a 64th and a 32nd of a radian.
proof fn lemma_degree()
    ensures
        ({
            let k = amount(Number::from_bits(RADIANS_PER_DEGREE));
            &&& Number::from_bits(RADIANS_PER_DEGREE).is_finite()
            &&& Number::from_bits(RADIANS_PER_DEGREE).magnitude() != 0
            &&& k * 64 as real >= 1 as real
            &&& k * 32 as real <= 1 as real
        }),
{
    let degree = Number::from_bits(RADIANS_PER_DEGREE);
    let low = Number::from_bits(0x3f90_0000_0000_0000);
    let high = Number::from_bits(0x3fa0_0000_0000_0000);
    lemma_format();
    lemma_amounts_in_order(low, degree);
    lemma_amounts_in_order(degree, high);
    lemma_worth_of_power(1017);
    lemma_worth_of_power(1018);
    lemma_pow2_adds(1068, 6);
    lemma_pow2_adds(1069, 5);
    lemma_pow2_pos(1068);
    lemma_pow2_pos(1069);
    lemma2_to64();
    assert(0x3f90_0000_0000_0000 == 1017 * FRACTIONS && 0x3fa0_0000_0000_0000 == 1018 * FRACTIONS);
    let p = pow2(DEPTH as nat) as real;
    let (x, y) = (pow2(1068) as real, pow2(1069) as real);
    assert(p == x * 64 as real && p == y * 32 as real);
    assert(x / p * 64 as real == 1 as real && y / p * 32 as real == 1 as real)
        by (nonlinear_arith)
        requires
            p == x * 64 as real,
            p == y * 32 as real,
            x > 0 as real,
            y > 0 as real,
    ;
}

/// A quotient by a degree undoes a product with it, up to an error and
/// rounding.
proof fn lemma_degrees_come_back(x: real, k: real, g: real, w: real, e: real)
    requires
        k * 64 as real >= 1 as real,
        k * 32 as real <= 1 as real,
        e >= 0 as real,
        distance(g - x * k) <= e,
        distance(w - g / k) <= roundoff() * distance(w) + least(),
    ensures
        distance(w - x) <= 128 as real * e + 8 as real * (roundoff() * distance(x)) + 256 as real
            * least(),
{
    let h = least();
    let z = g / k;
    lemma_least_is_small();
    lemma_close(w, z, h);
    assert(z * k == g) by (nonlinear_arith)
        requires
            z == g / k,
            k > 0 as real,
    ;
    assert((z - x) * k == g - x * k) by (nonlinear_arith)
        requires
            z * k == g,
    ;
    lemma_distance_of_product(z - x, k);
    lemma_distances(k, z - x);
    let (a, b) = (distance(z - x), distance(k));
    assert(b == k) by {
        reveal(distance);
    }
    assert(a <= 64 as real * e) by (nonlinear_arith)
        requires
            a * b <= e,
            b * 64 as real >= 1 as real,
            a >= 0 as real,
    ;
    lemma_triangle(w, z, x);
    lemma_triangle(z, x, 0 as real);
    lemma_distances(z, x);
    lemma_part(distance(z));
    lemma_part(distance(x));
}

/// Mercator's inverses give back about the coordinate: the longitude up to
/// rounding, and the latitude up to rounding and to the error of the
/// Gudermannian that is handed in.
pub proof fn mercator_comes_back(
    lon: Number,
    lat: Number,
    t: Trig,
    gudermannian: Number,
    error: real,
)
    requires
        lon.is_finite(),
        lat.is_finite(),
        error >= 0 as real,
        gudermannian.is_finite(),
        distance(
            amount(gudermannian) - amount(lat) * amount(Number::from_bits(RADIANS_PER_DEGREE)),
        ) <= error,
        Projection::Mercator.planar(lon, lat, t) matches Some(p) && {
            &&& Projection::Mercator.longitude_of(p.x)->0.is_finite()
            &&& Projection::Mercator.latitude_of(p.y, gudermannian)->0.is_finite()
        },
    ensures
        Projection::Mercator.planar(lon, lat, t) matches Some(p) && {
            let back = Projection::Mercator.longitude_of(p.x);
            let up = Projection::Mercator.latitude_of(p.y, gudermannian);
            &&& back is Some && up is Some
            &&& distance(amount(back->0) - amount(lon)) <= 16 as real * (roundoff() * distance(
                amount(lon),
            )) + 1024 as real * least()
            &&& distance(amount(up->0) - amount(lat)) <= 128 as real * error + 8 as real * (
            roundoff() * distance(amount(lat))) + 256 as real * least()
        },
{
    let degree = Number::from_bits(RADIANS_PER_DEGREE);
    let k = amount(degree);
    let u = lon.times(degree);
    let back = u.over(degree);
    let up = gudermannian.over(degree);
    lemma_degree();
    lemma_finite_parts(u, degree);
    lemma_over_accuracy(u, degree);
    lemma_over_accuracy(gudermannian, degree);
    lemma_times_accuracy(lon, degree);
    lemma_degrees_come_back(amount(lat), k, amount(gudermannian), amount(up), error);
    // The longitude, in two steps.
    let (x, h) = (amount(lon), least());
    lemma_least_is_small();
    lemma_close(amount(u), x * k, h);
    let e = 2 as real * (roundoff() * distance(x * k)) + 2 as real * h;
    lemma_distance_of_product(x, k);
    lemma_distances(x, k);
    assert(distance(k) == k) by {
        reveal(distance);
    }
    lemma_part(distance(x * k));
    lemma_part(distance(x));
    let m = distance(x);
    assert(m * k * 32 as real <= m && m * k >= 0 as real) by (nonlinear_arith)
        requires
            m >= 0 as real,
            k > 0 as real,
            k * 32 as real <= 1 as real,
    ;
    lemma_degrees_come_back(x, k, amount(u), amount(back), e);
}

/// A projection whose axes invert separately gives its coordinates back: the
/// flat ones exactly, Mercator up to rounding and the error of the Gudermannian
/// that is handed in. No other projection has both inverses.
pub proof fn a_separable_projection_comes_back(
    projection: Projection,
    lon: Number,
    lat: Number,
    t: Trig,
    gudermannian: Number,
    error: real,
)
    requires
        lon.is_finite(),
        lat.is_finite(),
        error >= 0 as real,
        projection is Mercator ==> {
            &&& gudermannian.is_finite()
            &&& distance(
                amount(gudermannian) - amount(lat) * amount(Number::from_bits(RADIANS_PER_DEGREE)),
            ) <= error
        },
        projection.planar(lon, lat, t) matches Some(p) ==> {
            &&& projection.longitude_of(p.x) matches Some(x) ==> x.is_finite()
            &&& projection.latitude_of(p.y, gudermannian) matches Some(y) ==> y.is_finite()
        },
    ensures
        projection.planar(lon, lat, t) matches Some(p) ==> {
            let back = projection.longitude_of(p.x);
            let up = projection.latitude_of(p.y, gudermannian);
            &&& projection.separable() <==> back is Some && up is Some
            &&& projection.separable() ==> distance(amount(back->0) - amount(lon)) <= 16 as real * (
            roundoff() * distance(amount(lon))) + 1024 as real * least()
            &&& projection.separable() ==> distance(amount(up->0) - amount(lat)) <= 128 as real
                * error + 8 as real * (roundoff() * distance(amount(lat))) + 256 as real * least()
        },
{
    lemma_least_is_small();
    lemma_distances(amount(lon), amount(lat));
    lemma_part(distance(amount(lon)));
    lemma_part(distance(amount(lat)));
    if let Some(p) = projection.planar(lon, lat, t) {
        if projection is Mercator {
            mercator_comes_back(lon, lat, t, gudermannian, error);
        } else if projection.separable() {
            a_flat_projection_inverts_exactly(projection, lon, lat, t, gudermannian);
            assert(distance(0 as real) == 0 as real) by {
                reveal(distance);
            }
        }
    }
}

} // verus!
