//! The Opus codec's logic, verified: packets and their framing, the Ogg and Core
//! Audio containers, the encoder's decisions, multistream layouts, and the
//! entropy coding and state of the transform layer.
//!
//! - [`ogg`] and [`caf`] read and write `.opus` and `.caf` files in memory, and
//!   [`crossing`] states that packets cross between them as they are.
//! - [`toc`], [`packet`], [`framing`] and [`repacketizer`] take packets apart
//!   and put them together, and [`shortest`] states that no packet is shorter.
//! - [`encoder`] decides how a packet is coded and in how many bytes.
//! - [`multistream`] maps channels to streams and joins the streams' packets.
//! - [`range_coder`] codes symbols into bytes, and [`celt`] holds what the
//!   transform layer says through it and carries from frame to frame.
//! - [`analysis`] keeps the places of the signal analysis.

pub mod analysis;
pub mod bytes;
pub mod caf;
pub mod celt;
pub mod config;
pub mod crossing;
pub mod encoder;
pub mod error;
pub mod framing;
pub mod io;
pub mod math;
pub mod multistream;
pub mod ogg;
pub mod packet;
pub mod range_coder;
pub mod repacketizer;
pub mod shortest;
pub mod toc;

pub use crate::analysis::AnalysisReadPos;
pub use crate::caf::reader::CafOpusReader;
pub use crate::caf::writer::CafOpusWriter;
pub use crate::config::{Application, Bandwidth, OpusMode, RateControl, Signal};
pub use crate::encoder::control::{OpusEncoder, MAX_PACKET_BYTES};
pub use crate::error::Error;
pub use crate::multistream::layout::ChannelLayout;
pub use crate::multistream::settings::{OpusMSDecoder, OpusMSEncoder};
pub use crate::ogg::header::{OpusHead, OpusTags};
pub use crate::ogg::reader::{OggOpusReader, OggPacket};
pub use crate::ogg::writer::OggOpusWriter;
pub use crate::repacketizer::Repacketizer;
