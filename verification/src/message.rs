//! Errors in words.

use crate::error::{Mp4Error, SpliceError};
use crate::text::{decimal, push_decimal};
use vstd::prelude::*;
use vstd::utf8::{decode_utf8, valid_utf8};

verus! {

/// Some bytes as text: what `String::from_utf8_lossy` makes of them.
pub uninterp spec fn lossy_text(bytes: Seq<u8>) -> Seq<char>;

/// Calls `String::from_utf8_lossy`, which keeps valid UTF-8 as it is and puts the replacement
/// character in the place of what is not. The text is a function of the bytes alone; which bytes one
/// replacement character stands for is left unsaid.
#[verifier::external_body]
fn from_utf8_lossy(bytes: &[u8]) -> (text: String)
    ensures
        text@ == lossy_text(bytes@),
        valid_utf8(bytes@) ==> text@ == decode_utf8(bytes@),
{
    String::from_utf8_lossy(bytes).into_owned()
}

/// An atom type as text.
pub fn printable(kind: [u8; 4]) -> (text: String)
    ensures
        text@ == lossy_text(kind@),
        valid_utf8(kind@) ==> text@ == decode_utf8(kind@),
{
    from_utf8_lossy(&kind)
}

impl Mp4Error {
    /// The text of the error.
    pub open spec fn text(self) -> Seq<char> {
        match self {
            Mp4Error::InvalidAtomSize { at, kind, size, header, limit } => {
                "invalid MP4 atom size at "@ + decimal(at as nat) + " ("@ + lossy_text(kind@)
                    + ") size="@ + decimal(size as nat) + " header="@ + decimal(header as nat)
                    + " limit="@ + decimal(limit as nat)
            },
            Mp4Error::MissingChild { parent, child } => {
                "MP4 atom "@ + lossy_text(parent@) + " has no "@ + lossy_text(child@) + " child"@
            },
            Mp4Error::TruncatedHeader => "truncated MP4 atom header"@,
            Mp4Error::TruncatedExtendedHeader => "truncated extended MP4 atom header"@,
            Mp4Error::AtomTooLarge => "MP4 atom is too large"@,
            Mp4Error::AtomEndOverflow => "MP4 atom end overflow"@,
            Mp4Error::NoCompleteMoov => "source MP4 has no complete moov atom"@,
            Mp4Error::NoAimdTrack => "source MP4 has no AIMD track"@,
            Mp4Error::InvalidStsdEntry => "invalid MP4 stsd entry"@,
            Mp4Error::NoChunkOffsets => "AIMD track has no chunk offsets"@,
            Mp4Error::ChunkOffsetTooLarge => "AIMD chunk offset is too large"@,
            Mp4Error::NoStscEntries => "AIMD track has no stsc entries"@,
            Mp4Error::ChunksNotCovered => "AIMD stsc does not cover all chunks"@,
            Mp4Error::ChunkSizeOverflow => "AIMD chunk size overflow"@,
            Mp4Error::SampleIndexOverflow => "AIMD sample index overflow"@,
            Mp4Error::SampleCountMismatch => "AIMD stsc/stsz sample counts disagree"@,
            Mp4Error::OffsetTableCount =>
                "AIMD track has an unsupported number of chunk offset tables"@,
            Mp4Error::OffsetCountChanged => "AIMD chunk offset count changed during splicing"@,
            Mp4Error::OffsetExceedsStco => "spliced AIMD offset exceeds stco range"@,
            Mp4Error::MoovTooLarge => "output moov exceeds 4 GiB"@,
            Mp4Error::ExtendedMoov => "extended-size output moov is unsupported"@,
            Mp4Error::TruncatedAtom => "truncated atom"@,
            Mp4Error::TruncatedInteger => "truncated MP4 integer"@,
            Mp4Error::OutOfBounds => "index out of bounds in MP4 data"@,
        }
    }

    /// The error in words.
    pub fn message(&self) -> (message: String)
        ensures
            message@ == self.text(),
    {
        match self {
            Mp4Error::InvalidAtomSize { at, kind, size, header, limit } => {
                let mut message = String::from_str("invalid MP4 atom size at ");
                push_decimal(&mut message, *at as u64);
                message.append(" (");
                message.append(printable(*kind).as_str());
                message.append(") size=");
                push_decimal(&mut message, *size as u64);
                message.append(" header=");
                push_decimal(&mut message, *header as u64);
                message.append(" limit=");
                push_decimal(&mut message, *limit as u64);
                message
            },
            Mp4Error::MissingChild { parent, child } => {
                let mut message = String::from_str("MP4 atom ");
                message.append(printable(*parent).as_str());
                message.append(" has no ");
                message.append(printable(*child).as_str());
                message.append(" child");
                message
            },
            Mp4Error::TruncatedHeader => String::from_str("truncated MP4 atom header"),
            Mp4Error::TruncatedExtendedHeader => String::from_str(
                "truncated extended MP4 atom header",
            ),
            Mp4Error::AtomTooLarge => String::from_str("MP4 atom is too large"),
            Mp4Error::AtomEndOverflow => String::from_str("MP4 atom end overflow"),
            Mp4Error::NoCompleteMoov => String::from_str("source MP4 has no complete moov atom"),
            Mp4Error::NoAimdTrack => String::from_str("source MP4 has no AIMD track"),
            Mp4Error::InvalidStsdEntry => String::from_str("invalid MP4 stsd entry"),
            Mp4Error::NoChunkOffsets => String::from_str("AIMD track has no chunk offsets"),
            Mp4Error::ChunkOffsetTooLarge => String::from_str("AIMD chunk offset is too large"),
            Mp4Error::NoStscEntries => String::from_str("AIMD track has no stsc entries"),
            Mp4Error::ChunksNotCovered => String::from_str("AIMD stsc does not cover all chunks"),
            Mp4Error::ChunkSizeOverflow => String::from_str("AIMD chunk size overflow"),
            Mp4Error::SampleIndexOverflow => String::from_str("AIMD sample index overflow"),
            Mp4Error::SampleCountMismatch => String::from_str(
                "AIMD stsc/stsz sample counts disagree",
            ),
            Mp4Error::OffsetTableCount => String::from_str(
                "AIMD track has an unsupported number of chunk offset tables",
            ),
            Mp4Error::OffsetCountChanged => String::from_str(
                "AIMD chunk offset count changed during splicing",
            ),
            Mp4Error::OffsetExceedsStco => String::from_str(
                "spliced AIMD offset exceeds stco range",
            ),
            Mp4Error::MoovTooLarge => String::from_str("output moov exceeds 4 GiB"),
            Mp4Error::ExtendedMoov => String::from_str("extended-size output moov is unsupported"),
            Mp4Error::TruncatedAtom => String::from_str("truncated atom"),
            Mp4Error::TruncatedInteger => String::from_str("truncated MP4 integer"),
            Mp4Error::OutOfBounds => String::from_str("index out of bounds in MP4 data"),
        }
    }
}

impl SpliceError {
    /// The text of the error.
    pub open spec fn text(self) -> Seq<char> {
        match self {
            SpliceError::Mp4(error) => error.text(),
            SpliceError::OutputAtoms(error) => "parsing FFmpeg output atoms: "@ + error.text(),
            SpliceError::OutputNoMoov => "FFmpeg output has no moov atom"@,
            SpliceError::MoovNotLast =>
                "FFmpeg output moov is not the final atom; cannot safely splice AIMD offsets"@,
            SpliceError::PayloadOverflow => "AIMD payload size overflow"@,
            SpliceError::MdatOverflow => "AIMD mdat size overflow"@,
            SpliceError::PayloadTooLarge => "AIMD payload exceeds 4 GiB MP4 atom limit"@,
            SpliceError::ChunkOverflow => "source AIMD chunk offset overflow"@,
            SpliceError::ChunkOutside => "source AIMD chunk lies outside MP4"@,
            SpliceError::DestinationOverflow => "destination AIMD offset overflow"@,
        }
    }

    /// The error in words.
    pub fn message(&self) -> (message: String)
        ensures
            message@ == self.text(),
    {
        match self {
            SpliceError::Mp4(error) => error.message(),
            SpliceError::OutputAtoms(error) => String::from_str(
                "parsing FFmpeg output atoms: ",
            ).concat(error.message().as_str()),
            SpliceError::OutputNoMoov => String::from_str("FFmpeg output has no moov atom"),
            SpliceError::MoovNotLast => String::from_str(
                "FFmpeg output moov is not the final atom; cannot safely splice AIMD offsets",
            ),
            SpliceError::PayloadOverflow => String::from_str("AIMD payload size overflow"),
            SpliceError::MdatOverflow => String::from_str("AIMD mdat size overflow"),
            SpliceError::PayloadTooLarge => String::from_str(
                "AIMD payload exceeds 4 GiB MP4 atom limit",
            ),
            SpliceError::ChunkOverflow => String::from_str("source AIMD chunk offset overflow"),
            SpliceError::ChunkOutside => String::from_str("source AIMD chunk lies outside MP4"),
            SpliceError::DestinationOverflow => String::from_str(
                "destination AIMD offset overflow",
            ),
        }
    }
}

} // verus!
