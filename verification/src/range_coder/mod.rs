//! The range coder: symbols become an interval of numbers that shrinks with each
//! of them, and the bytes name a number in it. Raw bits are kept apart, at the
//! other end of the bytes.

pub mod alphabet;
pub mod closing;
pub mod decoder;
pub mod encoder;
pub mod interval;
pub mod laws;
pub mod weights;
