//! The numbers that appear in formulas, by their bit patterns.
use vstd::prelude::*;

verus! {

/// 0.
pub const ZERO: u64 = 0;

/// 0.1.
pub const TENTH: u64 = 0x3fb9_9999_9999_999a;

/// 1.
pub const ONE: u64 = 0x3ff0_0000_0000_0000;

/// 2.
pub const TWO: u64 = 0x4000_0000_0000_0000;

/// 10.
pub const TEN: u64 = 0x4024_0000_0000_0000;

/// 100.
pub const HUNDRED: u64 = 0x4059_0000_0000_0000;

/// Positive infinity.
pub const INFINITY: u64 = 0x7ff0_0000_0000_0000;

/// Negative infinity.
pub const NEG_INFINITY: u64 = 0xfff0_0000_0000_0000;

/// The distance from one to the next larger number.
pub const EPSILON: u64 = 0x3cb0_0000_0000_0000;

/// The number 3.
pub const THREE: u64 = 0x4008_0000_0000_0000;

/// The number 4.
pub const FOUR: u64 = 0x4010_0000_0000_0000;

/// The number 6.
pub const SIX: u64 = 0x4018_0000_0000_0000;

/// The number 0.5.
pub const HALF: u64 = 0x3fe0_0000_0000_0000;

/// The number 0.000000001.
pub const BILLIONTH: u64 = 0x3e11_2e0b_e826_d695;

/// The number 0.000001.
pub const MILLIONTH: u64 = 0x3eb0_c6f7_a0b5_ed8d;

/// The number 7.
pub const SEVEN: u64 = 0x401c_0000_0000_0000;

} // verus!
