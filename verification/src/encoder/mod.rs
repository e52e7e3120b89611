//! The decisions an encoder makes for every packet: how it is laid out, in
//! which mode and bandwidth it is coded, and how many bytes each part may spend.

pub mod choices;
pub mod coding;
pub mod control;
pub mod duration;
pub mod emit;
pub mod frame;
pub mod input;
pub mod laws;
pub mod rates;
pub mod shares;
pub mod split;
pub mod timeline;
