//! Operations of the 64-bit ARM architecture.

pub mod neon;
