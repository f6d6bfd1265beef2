//! The numbers that the rules compare with and multiply by, as bit patterns.

use crate::double::Double;
use vstd::prelude::*;

verus! {

pub open spec fn spec_num(bits: u64) -> Double {
    Double { bits }
}

/// The number with the given bit pattern.
#[verifier::when_used_as_spec(spec_num)]
pub fn num(bits: u64) -> (r: Double)
    ensures
        r == spec_num(bits),
{
    Double { bits }
}

/// 0.0
pub const ZERO: u64 = 0x0000_0000_0000_0000;

/// 0.001
pub const THOUSANDTH: u64 = 0x3f50_624d_d2f1_a9fc;

/// 0.1
pub const TENTH: u64 = 0x3fb9_9999_9999_999a;

/// 0.15
pub const FIFTEEN_HUNDREDTHS: u64 = 0x3fc3_3333_3333_3333;

/// 0.2
pub const FIFTH: u64 = 0x3fc9_9999_9999_999a;

/// 0.25
pub const QUARTER: u64 = 0x3fd0_0000_0000_0000;

/// 0.3
pub const THREE_TENTHS: u64 = 0x3fd3_3333_3333_3333;

/// 0.4
pub const TWO_FIFTHS: u64 = 0x3fd9_9999_9999_999a;

/// 0.5
pub const HALF: u64 = 0x3fe0_0000_0000_0000;

/// 0.6
pub const THREE_FIFTHS: u64 = 0x3fe3_3333_3333_3333;

/// 0.7
pub const SEVEN_TENTHS: u64 = 0x3fe6_6666_6666_6666;

/// 0.9
pub const NINE_TENTHS: u64 = 0x3fec_cccc_cccc_cccd;

/// 1.0
pub const ONE: u64 = 0x3ff0_0000_0000_0000;

/// 1.5
pub const THREE_HALVES: u64 = 0x3ff8_0000_0000_0000;

/// 2.0
pub const TWO: u64 = 0x4000_0000_0000_0000;

/// 3.0
pub const THREE: u64 = 0x4008_0000_0000_0000;

/// 5.0
pub const FIVE: u64 = 0x4014_0000_0000_0000;

/// 100.0
pub const HUNDRED: u64 = 0x4059_0000_0000_0000;

/// 1000.0
pub const THOUSAND: u64 = 0x408f_4000_0000_0000;

/// 8000.0
pub const EIGHT_THOUSAND: u64 = 0x40bf_4000_0000_0000;

/// 20000.0
pub const TWENTY_THOUSAND: u64 = 0x40d3_8800_0000_0000;

/// 50000.0
pub const FIFTY_THOUSAND: u64 = 0x40e8_6a00_0000_0000;

/// 1000000.0
pub const MILLION: u64 = 0x412e_8480_0000_0000;

} // verus!
