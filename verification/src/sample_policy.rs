//! Where the renderer stops drawing, and the sample rate that keeps a plot
//! under it.
//!
//! The renderer's buffers are fixed sizes. When one overflows, the render
//! succeeds and the frame comes back blank, not partial. So the only thing
//! that keeps a picture on the screen is drawing fewer primitives:
//! [`renders_complete`] is the boundary, and [`sample_exponent`] chooses the
//! smallest power-of-two modulus that brings a plot back under it.
use vstd::arithmetic::power2::{
    lemma2_to64, lemma2_to64_rest, lemma_pow2_adds, lemma_pow2_pos, pow2,
};
use vstd::prelude::*;

verus! {

/// The largest one-scatter dot count measured to ink a frame.
pub const MEASURED_INKED_MAX: u64 = 104_600;

/// The smallest one-scatter dot count measured to come back blank.
pub const MEASURED_BLANK_MIN: u64 = 104_800;

/// The second and exact ceiling: one element is used up per solid-colour draw.
pub const VELLO_BIN_DATA_ELEMENTS: u64 = 262_144;

/// Where that ceiling was first met: the elements less the 42 paths of frame,
/// grid and axis rule that a plot carries.
pub const VELLO_BIN_DATA_PANIC_DOTS: u64 = 262_102;

/// The measured numbers stand in order, and the second ceiling is two to the
/// eighteenth less the furniture.
pub proof fn ceilings_fit_together()
    ensures
        MEASURED_INKED_MAX < MEASURED_BLANK_MIN,
        VELLO_BIN_DATA_ELEMENTS == pow2(18),
        VELLO_BIN_DATA_ELEMENTS - 42 == VELLO_BIN_DATA_PANIC_DOTS,
        VELLO_BIN_DATA_PANIC_DOTS > MEASURED_BLANK_MIN,
{
    lemma2_to64();
}

/// How many of `primitives` a sample of one in two to the `exponent` draws.
pub open spec fn sampled(primitives: nat, exponent: nat) -> nat {
    primitives / pow2(exponent)
}

/// Whether a plot drawing `primitives` row-level primitives renders a picture.
///
/// At or below [`MEASURED_INKED_MAX`], because a plot drawing exactly that
/// many drew. Above it the frame is absent.
#[must_use]
pub fn renders_complete(primitives: u64) -> (r: bool)
    ensures
        r == (primitives <= MEASURED_INKED_MAX),
{
    primitives <= MEASURED_INKED_MAX
}

/// The sample exponent a plot estimated to draw `primitives` row-level
/// primitives needs, or `None` when it draws complete.
///
/// The answer is the smallest exponent whose sampled count renders, so the
/// picture keeps as many of its points as it can.
#[must_use]
pub fn sample_exponent(primitives: u64) -> (r: Option<u32>)
    ensures
        r is None <==> primitives <= MEASURED_INKED_MAX,
        r matches Some(e) ==> {
            &&& 1 <= e < 64
            &&& sampled(primitives as nat, e as nat) <= MEASURED_INKED_MAX
            &&& forall|smaller: nat|
                smaller < e ==> #[trigger] sampled(primitives as nat, smaller)
                    > MEASURED_INKED_MAX
        },
{
    if renders_complete(primitives) {
        return None;
    }
    let mut e: u32 = 0;
    let mut left: u64 = primitives;
    proof {
        lemma2_to64();
        lemma2_to64_rest();
        assert(pow2(0) == 1);
    }
    while !renders_complete(left)
        invariant
            e < 64,
            left == sampled(primitives as nat, e as nat),
            left < pow2((64 - e) as nat),
            left > MEASURED_INKED_MAX || e >= 1,
            forall|smaller: nat|
                smaller < e ==> #[trigger] sampled(primitives as nat, smaller)
                    > MEASURED_INKED_MAX,
            pow2(0) == 1,
            pow2(1) == 2,
        decreases left,
    {
        proof {
            lemma_pow2_pos(e as nat);
            lemma_pow2_adds(e as nat, 1);
            lemma_pow2_adds(1, (63 - e) as nat);
            vstd::arithmetic::div_mod::lemma_div_denominator(
                primitives as int,
                pow2(e as nat) as int,
                2,
            );
        }
        left = left / 2;
        e = e + 1;
    }
    Some(e)
}

/// Samples nest: what a coarser power-of-two sample keeps, every finer one
/// keeps too, so a later change of rate densifies the picture.
pub proof fn samples_nest(row_hash: nat, fine: nat, coarse: nat)
    requires
        fine <= coarse,
        row_hash % pow2(coarse) == 0,
    ensures
        row_hash % pow2(fine) == 0,
{
    let gap = (coarse - fine) as nat;
    lemma_pow2_adds(fine, gap);
    lemma_pow2_pos(fine);
    lemma_pow2_pos(gap);
    vstd::arithmetic::div_mod::lemma_small_mod(0, pow2(fine));
    vstd::arithmetic::div_mod::lemma_mod_mod(row_hash as int, pow2(fine) as int, pow2(gap) as int);
}

} // verus!
