//! Reconstruction of a time-ordered stream of market quote events from
//! captured network frames.
//!
//! The crate decodes fixed-layout quote records out of UDP payloads and
//! re-emits them in ascending order of their embedded accept time, delaying
//! each quote only long enough to absorb reordering bounded by a fixed
//! maximum skew.

pub mod codec;
pub mod emit;
pub mod net;
pub mod quote;
pub mod window;
