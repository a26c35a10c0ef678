//! The atom types that the telemetry track is found, read and patched by.

use vstd::prelude::*;

verus! {

/// `moov`: the description of the movie.
pub const MOOV: [u8; 4] = [0x6d, 0x6f, 0x6f, 0x76];

/// `mdat`: sample data.
pub const MDAT: [u8; 4] = [0x6d, 0x64, 0x61, 0x74];

/// `trak`: one track of the movie.
pub const TRAK: [u8; 4] = [0x74, 0x72, 0x61, 0x6b];

/// `tkhd`: the header of a track.
pub const TKHD: [u8; 4] = [0x74, 0x6b, 0x68, 0x64];

/// `mdia`: the media of a track.
pub const MDIA: [u8; 4] = [0x6d, 0x64, 0x69, 0x61];

/// `minf`: the media information.
pub const MINF: [u8; 4] = [0x6d, 0x69, 0x6e, 0x66];

/// `stbl`: the sample table.
pub const STBL: [u8; 4] = [0x73, 0x74, 0x62, 0x6c];

/// `stsd`: the sample descriptions.
pub const STSD: [u8; 4] = [0x73, 0x74, 0x73, 0x64];

/// `stsc`: how many samples each chunk holds.
pub const STSC: [u8; 4] = [0x73, 0x74, 0x73, 0x63];

/// `stsz`: the sample sizes.
pub const STSZ: [u8; 4] = [0x73, 0x74, 0x73, 0x7a];

/// `stco`: the chunk offsets, in 32 bits.
pub const STCO: [u8; 4] = [0x73, 0x74, 0x63, 0x6f];

/// `co64`: the chunk offsets, in 64 bits.
pub const CO64: [u8; 4] = [0x63, 0x6f, 0x36, 0x34];

/// `aimd`: the sample description of AiM telemetry.
pub const AIMD: [u8; 4] = [0x61, 0x69, 0x6d, 0x64];

} // verus!
