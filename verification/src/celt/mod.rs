//! The transform layer: what it decides frame by frame, and how it spells that
//! out for the decoder.

pub mod bands;
pub mod behaviour;
pub mod decisions;
pub mod decoder;
pub mod dynalloc;
pub mod encoder;
pub mod header;
pub mod hints;
pub mod history;
pub mod pitch;
pub mod step;
pub mod tf;
pub mod tf_search;
pub mod vbr;
