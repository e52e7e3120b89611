//! Opus multistream (surround): several mono and stereo coders behind a channel
//! mapping, so that more than two channels can be coded as a set of ordinary
//! Opus streams, concatenated with the self-delimited framing.

pub mod channels;
pub mod head;
pub mod layout;
pub mod packet;
pub mod routing;
pub mod settings;
