//! Ogg encapsulation of Opus streams.

pub mod damage;
pub mod format;
pub mod header;
pub mod page;
pub mod reader;
pub mod resync;
pub mod round_trip;
pub mod writer;
