use ffmpeg_aimd::error::{Mp4Error, SpliceError};
use ffmpeg_aimd::message::printable;

#[test]
fn atom_types_are_printed_as_text() {
    assert_eq!(printable(*b"moov"), "moov");
    assert_eq!(printable([0xff, b'a', b'b', b'c']), "\u{fffd}abc");
    assert_eq!(printable([0xc3, 0xa9, b'x', b'y']), "\u{e9}xy");
}

#[test]
fn mp4_errors_are_told_in_words() {
    let error = Mp4Error::InvalidAtomSize { at: 120, kind: *b"free", size: 7, header: 8, limit: 128 };
    assert_eq!(
        error.message(),
        "invalid MP4 atom size at 120 (free) size=7 header=8 limit=128"
    );
    let error = Mp4Error::MissingChild { parent: *b"trak", child: *b"mdia" };
    assert_eq!(error.message(), "MP4 atom trak has no mdia child");
    assert_eq!(Mp4Error::TruncatedHeader.message(), "truncated MP4 atom header");
    assert_eq!(Mp4Error::NoAimdTrack.message(), "source MP4 has no AIMD track");
    assert_eq!(
        Mp4Error::SampleCountMismatch.message(),
        "AIMD stsc/stsz sample counts disagree"
    );
}

#[test]
fn splice_errors_are_told_in_words() {
    assert_eq!(
        SpliceError::OutputAtoms(Mp4Error::TruncatedInteger).message(),
        "parsing FFmpeg output atoms: truncated MP4 integer"
    );
    assert_eq!(SpliceError::Mp4(Mp4Error::TruncatedAtom).message(), "truncated atom");
    assert_eq!(
        SpliceError::MoovNotLast.message(),
        "FFmpeg output moov is not the final atom; cannot safely splice AIMD offsets"
    );
    assert_eq!(
        SpliceError::PayloadTooLarge.message(),
        "AIMD payload exceeds 4 GiB MP4 atom limit"
    );
}
