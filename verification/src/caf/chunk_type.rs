//! Chunk types, as a Core Audio file spells them.

use vstd::prelude::*;

verus! {

/// `desc`, the stream's format.
pub const DESC: [u8; 4] = [0x64, 0x65, 0x73, 0x63];

/// `chan`, the channel layout.
pub const CHAN: [u8; 4] = [0x63, 0x68, 0x61, 0x6e];

/// `info`, key and value strings about the file.
pub const INFO: [u8; 4] = [0x69, 0x6e, 0x66, 0x6f];

/// `pakt`, the packet table.
pub const PAKT: [u8; 4] = [0x70, 0x61, 0x6b, 0x74];

/// `data`, the packets.
pub const DATA: [u8; 4] = [0x64, 0x61, 0x74, 0x61];

} // verus!
