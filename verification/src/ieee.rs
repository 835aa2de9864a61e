//! IEEE-754 values as bit patterns.
//!
//! A value is never held as a machine float: a lane is the unsigned integer
//! whose bits are the sign, the exponent field and the fraction field, and
//! every operation is integer arithmetic on those fields. The operations
//! behave as the architecture does in its default state: rounding to nearest
//! with ties to even, subnormal values kept, NaN payloads propagated.

pub mod binary32;
pub mod binary64;
pub mod convert;
pub mod estimate;
pub mod sqrt;
