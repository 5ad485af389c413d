//! Map projections.
use vstd::prelude::*;

use crate::number::Number;

verus! {

/// Degrees to radians, the circle constant over 180.
pub const RADIANS_PER_DEGREE: u64 = 0x3f91_df46_a252_9d39;

/// A map projection, from degrees to its own planar units.
#[derive(Clone, Copy, Debug, PartialEq, Eq, Structural)]
pub enum Projection {
    /// Longitude and latitude as they are. The default.
    Equirectangular,
    /// A planar passthrough.
    Identity,
    /// A planar passthrough with the latitude axis flipped.
    ReflectY,
    /// Spherical Mercator.
    Mercator,
    /// Transverse spherical Mercator.
    TransverseMercator,
    /// The globe seen from infinitely far away.
    Orthographic,
    /// Conformal azimuthal.
    Stereographic,
    /// Great circles draw straight.
    Gnomonic,
    /// Lambert azimuthal equal-area.
    AzimuthalEqualArea,
    /// Azimuthal equidistant.
    AzimuthalEquidistant,
    /// Equal Earth.
    EqualEarth,
    /// Albers conic equal-area.
    ConicEqualArea,
    /// Lambert conic conformal.
    ConicConformal,
    /// Conic equidistant.
    ConicEquidistant,
    /// Albers equal-area conic tuned to the United States.
    Albers,
}

impl Default for Projection {
    fn default() -> (r: Projection)
        ensures
            r == Projection::Equirectangular,
    {
        Projection::Equirectangular
    }
}

impl Projection {
    /// The longitude an x-axis planar `u` came from, for the projections whose
    /// `u` depends on the longitude alone.
    pub open spec fn longitude_of(self, u: Number) -> Option<Number> {
        match self {
            Projection::Equirectangular | Projection::Identity | Projection::ReflectY => Some(u),
            Projection::Mercator => Some(u.over(Number::from_bits(RADIANS_PER_DEGREE))),
            _ => None,
        }
    }

    /// The latitude a y-axis planar `v` came from, for the projections whose
    /// `v` depends on the latitude alone. `gudermannian` is twice the
    /// arctangent of the exponential of `v`, less a quarter turn, in radians.
    pub open spec fn latitude_of(self, v: Number, gudermannian: Number) -> Option<Number> {
        match self {
            Projection::Equirectangular | Projection::Identity => Some(v),
            Projection::ReflectY => Some(v.negated()),
            Projection::Mercator => Some(
                gudermannian.over(Number::from_bits(RADIANS_PER_DEGREE)),
            ),
            _ => None,
        }
    }

    /// The longitude an x-axis planar `u` came from, without knowing `v`.
    /// `None` for a projection whose `u` depends on the latitude as well.
    #[must_use]
    pub fn invert_lon(self, u: Number) -> (r: Option<Number>)
        ensures
            r == self.longitude_of(u),
    {
        match self {
            Projection::Equirectangular | Projection::Identity | Projection::ReflectY => Some(u),
            Projection::Mercator => Some(u.over(Number::from_bits(RADIANS_PER_DEGREE))),
            _ => None,
        }
    }

    /// The latitude a y-axis planar `v` came from, without knowing `u`. `None`
    /// for a projection whose `v` depends on the longitude as well. The
    /// Gudermannian of `v`, in radians, is the caller's to compute; only
    /// [`Projection::Mercator`] reads it.
    #[must_use]
    pub fn invert_lat(self, v: Number, gudermannian: Number) -> (r: Option<Number>)
        ensures
            r == self.latitude_of(v, gudermannian),
    {
        match self {
            Projection::Equirectangular | Projection::Identity => Some(v),
            Projection::ReflectY => Some(v.negated()),
            Projection::Mercator => Some(
                gudermannian.over(Number::from_bits(RADIANS_PER_DEGREE)),
            ),
            _ => None,
        }
    }

    pub open spec fn separable(self) -> bool {
        match self {
            Projection::Equirectangular
            | Projection::Identity
            | Projection::ReflectY
            | Projection::Mercator => true,
            _ => false,
        }
    }

    /// Whether both per-axis inverses exist.
    #[must_use]
    pub fn axes_invert_separately(self) -> (r: bool)
        ensures
            r == self.separable(),
    {
        match self {
            Projection::Equirectangular
            | Projection::Identity
            | Projection::ReflectY
            | Projection::Mercator => true,
            _ => false,
        }
    }
}

/// A projection is declared separable exactly where both of its per-axis
/// inverses exist, whatever planar coordinate they are asked for.
pub proof fn separability_is_the_claim_the_inverses_keep(
    projection: Projection,
    u: Number,
    v: Number,
    gudermannian: Number,
)
    ensures
        projection.separable() <==> projection.longitude_of(u) is Some && projection.latitude_of(
            v,
            gudermannian,
        ) is Some,
{
}

} // verus!
