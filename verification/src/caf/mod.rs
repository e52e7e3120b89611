//! Core Audio Format encapsulation of Opus streams.

pub mod arrangement;
pub mod chunk;
pub mod chunk_type;
pub mod format;
pub mod laws;
pub mod reader;
pub mod reading;
pub mod round_trip;
pub mod writer;
