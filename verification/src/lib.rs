//! A lane-exact model of the ARM64 NEON vector operations behind a portable
//! SIMD interface: byte-table lookup, horizontal reductions, boolean
//! reductions and the IEEE-754 operations, all on plain integer lanes.
//!
//! The operations are pure functions of their operands. None of them fails,
//! and none keeps state between calls.
//!
//! - [`vector`], [`sixty_four`], [`float`] and [`mask`] hold the vector types.
//! - [`ieee`] holds the floating-point arithmetic on single lanes.
//! - [`aarch64::neon`] holds the instructions, the capability traits and, in
//!   [`aarch64::neon::common`], the operations under their portable names.

pub mod aarch64;
pub mod float;
pub mod ieee;
pub mod mask;
pub mod sixty_four;
pub mod vector;

pub use float::f32x4;
pub use mask::{bool16ix8, bool32fx4, bool32ix4, bool8ix16};
pub use sixty_four::{bool64fx2, bool64ix2, f64x2, i64x2, u64x2};
pub use vector::{i8x16, u16x8, u32x4, u8x16};
