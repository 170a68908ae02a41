//! IEEE 754 arithmetic on bit patterns.
//!
//! Which frames of a video are picked depends on the last bit of a quotient, so
//! the arithmetic is written out on integers and proved against the definition
//! of rounding to the nearest representable number, ties to even.
pub mod rounding;
pub mod value;
pub mod engine;
pub mod binary64;
pub mod binary32;
pub mod display;
pub mod order;
pub mod laws;
