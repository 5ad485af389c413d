//! Continuous colour schemes.
use vstd::prelude::*;

use crate::colour::{Rgba, OPAQUE};
use crate::single::Single;
use crate::words::same_text;

verus! {

/// A built-in continuous colour scheme. Wire names are lowercase, so that a
/// `colorScheme:` value stays portable across renderers.
#[derive(Debug, Clone, Copy, PartialEq, Eq, Structural)]
pub enum SequentialScheme {
    /// Perceptually uniform and safe for colour-blind readers. The default.
    Viridis,
    /// One hue from light to dark, the classic count map.
    Blues,
    /// A rainbow map.
    Turbo,
    /// The design system's own blue ramp.
    Meridian,
}

impl Default for SequentialScheme {
    fn default() -> (r: Self)
        ensures
            r == SequentialScheme::Viridis,
    {
        SequentialScheme::Viridis
    }
}

/// The name a scheme goes by.
pub open spec fn wire_text(scheme: SequentialScheme) -> Seq<char> {
    match scheme {
        SequentialScheme::Viridis => "viridis"@,
        SequentialScheme::Blues => "blues"@,
        SequentialScheme::Turbo => "turbo"@,
        SequentialScheme::Meridian => "meridian"@,
    }
}

/// The scheme a name stands for, letter for letter.
pub open spec fn scheme_named(name: Seq<char>) -> Option<SequentialScheme> {
    if name == "viridis"@ {
        Some(SequentialScheme::Viridis)
    } else if name == "blues"@ {
        Some(SequentialScheme::Blues)
    } else if name == "turbo"@ {
        Some(SequentialScheme::Turbo)
    } else if name == "meridian"@ {
        Some(SequentialScheme::Meridian)
    } else {
        None
    }
}

/// The scheme after a scheme in the colour cycle.
pub open spec fn scheme_after(scheme: SequentialScheme) -> SequentialScheme {
    match scheme {
        SequentialScheme::Viridis => SequentialScheme::Blues,
        SequentialScheme::Blues => SequentialScheme::Turbo,
        SequentialScheme::Turbo => SequentialScheme::Meridian,
        SequentialScheme::Meridian => SequentialScheme::Viridis,
    }
}

/// An opaque colour by the bit patterns of its channels.
pub open spec fn paint(r: u32, g: u32, b: u32) -> Rgba {
    Rgba {
        r: Single::from_bits(r),
        g: Single::from_bits(g),
        b: Single::from_bits(b),
        a: Single::from_bits(OPAQUE),
    }
}

fn solid(r: u32, g: u32, b: u32) -> (c: Rgba)
    ensures
        c == paint(r, g, b),
{
    Rgba {
        r: Single::from_bits(r),
        g: Single::from_bits(g),
        b: Single::from_bits(b),
        a: Single::from_bits(OPAQUE),
    }
}

/// Viridis control points, dark purple to bright yellow.
pub open spec fn viridis_stops() -> Seq<Rgba> {
    seq![
        paint(0x3e88_b439, 0x3b83_126f, 0x3ea8_72b0),
        paint(0x3e8e_5604, 0x3e34_3958, 0x3ef6_c8b4),
        paint(0x3e6c_8b44, 0x3ea4_dd2f, 0x3f0b_851f),
        paint(0x3e31_26e9, 0x3ee4_dd2f, 0x3f0e_978d),
        paint(0x3e04_1893, 0x3f11_a9fc, 0x3f0c_8b44),
        paint(0x3e20_c49c, 0x3f2e_978d, 0x3f00_8312),
        paint(0x3ebc_ed91, 0x3f49_ba5e, 0x3ec4_9ba6),
        paint(0x3f2d_9168, 0x3f5c_ed91, 0x3e40_8312),
        paint(0x3f7d_f3b6, 0x3f67_ef9e, 0x3e14_7ae1),
    ]
}

/// Blues control points, near-white to navy.
pub open spec fn blues_stops() -> Seq<Rgba> {
    seq![
        paint(0x3f78_1062, 0x3f7b_e76d, 0x3f80_0000),
        paint(0x3f5e_f9db, 0x3f6c_0831, 0x3f78_1062),
        paint(0x3f46_a7f0, 0x3f5b_e76d, 0x3f6f_df3b),
        paint(0x3f1e_b852, 0x3f4a_c083, 0x3f61_cac1),
        paint(0x3ed7_0a3d, 0x3f2e_978d, 0x3f56_c8b4),
        paint(0x3e84_9ba6, 0x3f12_b021, 0x3f46_a7f0),
        paint(0x3e04_1893, 0x3ee2_d0e5, 0x3f35_c28f),
        paint(0x3cfd_f3b6, 0x3ea2_9c78, 0x3f1c_ac08),
        paint(0x3cfd_f3b6, 0x3e40_8312, 0x3ed7_0a3d),
    ]
}

/// Turbo control points, purple through green and yellow to dark red.
pub open spec fn turbo_stops() -> Seq<Rgba> {
    seq![
        paint(0x3e42_8f5c, 0x3d93_74bc, 0x3e6d_9168),
        paint(0x3e7b_e76d, 0x3eca_3d71, 0x3f54_fdf4),
        paint(0x3e74_bc6a, 0x3f28_3127, 0x3f7c_28f6),
        paint(0x3e38_51ec, 0x3f66_e979, 0x3f44_dd2f),
        paint(0x3eda_9fbe, 0x3f7c_ed91, 0x3ef3_3333),
        paint(0x3f42_8f5c, 0x3f77_0a3d, 0x3e70_a3d7),
        paint(0x3f79_1687, 0x3f4c_49ba, 0x3e1e_b852),
        paint(0x3f75_c28f, 0x3ee4_5a1d, 0x3dd4_fdf4),
        paint(0x3ef5_c28f, 0x3c83_126f, 0x3c34_3958),
    ]
}

/// A scheme's control points, where the design system's ramp is `meridian`.
pub open spec fn scheme_stops(scheme: SequentialScheme, meridian: Seq<Rgba>) -> Seq<Rgba> {
    match scheme {
        SequentialScheme::Viridis => viridis_stops(),
        SequentialScheme::Blues => blues_stops(),
        SequentialScheme::Turbo => turbo_stops(),
        SequentialScheme::Meridian => meridian,
    }
}

fn viridis() -> (v: Vec<Rgba>)
    ensures
        v@ == viridis_stops(),
{
    let mut v: Vec<Rgba> = Vec::new();
    v.push(solid(0x3e88_b439, 0x3b83_126f, 0x3ea8_72b0));
    v.push(solid(0x3e8e_5604, 0x3e34_3958, 0x3ef6_c8b4));
    v.push(solid(0x3e6c_8b44, 0x3ea4_dd2f, 0x3f0b_851f));
    v.push(solid(0x3e31_26e9, 0x3ee4_dd2f, 0x3f0e_978d));
    v.push(solid(0x3e04_1893, 0x3f11_a9fc, 0x3f0c_8b44));
    v.push(solid(0x3e20_c49c, 0x3f2e_978d, 0x3f00_8312));
    v.push(solid(0x3ebc_ed91, 0x3f49_ba5e, 0x3ec4_9ba6));
    v.push(solid(0x3f2d_9168, 0x3f5c_ed91, 0x3e40_8312));
    v.push(solid(0x3f7d_f3b6, 0x3f67_ef9e, 0x3e14_7ae1));
    assert(v@ =~= viridis_stops());
    v
}

fn blues() -> (v: Vec<Rgba>)
    ensures
        v@ == blues_stops(),
{
    let mut v: Vec<Rgba> = Vec::new();
    v.push(solid(0x3f78_1062, 0x3f7b_e76d, 0x3f80_0000));
    v.push(solid(0x3f5e_f9db, 0x3f6c_0831, 0x3f78_1062));
    v.push(solid(0x3f46_a7f0, 0x3f5b_e76d, 0x3f6f_df3b));
    v.push(solid(0x3f1e_b852, 0x3f4a_c083, 0x3f61_cac1));
    v.push(solid(0x3ed7_0a3d, 0x3f2e_978d, 0x3f56_c8b4));
    v.push(solid(0x3e84_9ba6, 0x3f12_b021, 0x3f46_a7f0));
    v.push(solid(0x3e04_1893, 0x3ee2_d0e5, 0x3f35_c28f));
    v.push(solid(0x3cfd_f3b6, 0x3ea2_9c78, 0x3f1c_ac08));
    v.push(solid(0x3cfd_f3b6, 0x3e40_8312, 0x3ed7_0a3d));
    assert(v@ =~= blues_stops());
    v
}

fn turbo() -> (v: Vec<Rgba>)
    ensures
        v@ == turbo_stops(),
{
    let mut v: Vec<Rgba> = Vec::new();
    v.push(solid(0x3e42_8f5c, 0x3d93_74bc, 0x3e6d_9168));
    v.push(solid(0x3e7b_e76d, 0x3eca_3d71, 0x3f54_fdf4));
    v.push(solid(0x3e74_bc6a, 0x3f28_3127, 0x3f7c_28f6));
    v.push(solid(0x3e38_51ec, 0x3f66_e979, 0x3f44_dd2f));
    v.push(solid(0x3eda_9fbe, 0x3f7c_ed91, 0x3ef3_3333));
    v.push(solid(0x3f42_8f5c, 0x3f77_0a3d, 0x3e70_a3d7));
    v.push(solid(0x3f79_1687, 0x3f4c_49ba, 0x3e1e_b852));
    v.push(solid(0x3f75_c28f, 0x3ee4_5a1d, 0x3dd4_fdf4));
    v.push(solid(0x3ef5_c28f, 0x3c83_126f, 0x3c34_3958));
    assert(v@ =~= turbo_stops());
    v
}

impl SequentialScheme {
    /// The lowercase wire name.
    #[must_use]
    pub fn wire_name(self) -> (r: &'static str)
        ensures
            r@ == wire_text(self),
    {
        match self {
            SequentialScheme::Viridis => "viridis",
            SequentialScheme::Blues => "blues",
            SequentialScheme::Turbo => "turbo",
            SequentialScheme::Meridian => "meridian",
        }
    }

    /// The next scheme in the colour cycle.
    #[must_use]
    pub fn next(self) -> (r: Self)
        ensures
            r == scheme_after(self),
    {
        match self {
            SequentialScheme::Viridis => SequentialScheme::Blues,
            SequentialScheme::Blues => SequentialScheme::Turbo,
            SequentialScheme::Turbo => SequentialScheme::Meridian,
            SequentialScheme::Meridian => SequentialScheme::Viridis,
        }
    }

    /// Parse a wire name, letter for letter. `None` for a name that is no
    /// scheme's.
    #[must_use]
    pub fn from_wire(name: &str) -> (r: Option<Self>)
        ensures
            r == scheme_named(name@),
    {
        if same_text(name, "viridis") {
            Some(SequentialScheme::Viridis)
        } else if same_text(name, "blues") {
            Some(SequentialScheme::Blues)
        } else if same_text(name, "turbo") {
            Some(SequentialScheme::Turbo)
        } else if same_text(name, "meridian") {
            Some(SequentialScheme::Meridian)
        } else {
            None
        }
    }

    /// Evenly spaced control points, low to high. The design system's own ramp
    /// is handed in.
    #[must_use]
    pub fn stops(self, meridian: &Vec<Rgba>) -> (r: Vec<Rgba>)
        ensures
            r@ == scheme_stops(self, meridian@),
    {
        match self {
            SequentialScheme::Viridis => viridis(),
            SequentialScheme::Blues => blues(),
            SequentialScheme::Turbo => turbo(),
            SequentialScheme::Meridian => {
                let copy = meridian.clone();
                assert(copy@ =~= meridian@);
                copy
            },
        }
    }
}

/// Reading a scheme's wire name gives the scheme back, and only the four wire
/// names are read.
pub proof fn wire_names_round_trip(scheme: SequentialScheme, name: Seq<char>)
    ensures
        scheme_named(wire_text(scheme)) == Some(scheme),
        scheme_named(name) == Some(scheme) <==> name == wire_text(scheme),
{
    reveal_strlit("viridis");
    reveal_strlit("blues");
    reveal_strlit("turbo");
    reveal_strlit("meridian");
    assert("viridis"@.len() == 7 && "blues"@.len() == 5 && "turbo"@.len() == 5 && "meridian"@.len()
        == 8);
    assert("blues"@[0] == 'b' && "turbo"@[0] == 't');
}

/// The colour cycle visits all four schemes and then starts again.
pub proof fn schemes_cycle(scheme: SequentialScheme, other: SequentialScheme)
    ensures
        ({
            let one = scheme_after(scheme);
            let two = scheme_after(one);
            let three = scheme_after(two);
            &&& scheme_after(three) == scheme
            &&& other == scheme || other == one || other == two || other == three
        }),
{
}

} // verus!
