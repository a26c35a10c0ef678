use ffmpeg_aimd::atoms::{parse_atoms, parse_top_until_moov, Atom};
use ffmpeg_aimd::error::{Mp4Error, SpliceError};
use ffmpeg_aimd::splice::splice_aimd_track;
use ffmpeg_aimd::track::{find_aimd_track, track_ids};

fn atom(kind: &[u8; 4], payload: &[u8]) -> Vec<u8> {
    let size = u32::try_from(payload.len() + 8).unwrap();
    [size.to_be_bytes().as_slice(), kind.as_slice(), payload].concat()
}

fn synthetic_aimd_mp4() -> Vec<u8> {
    let mut stsd_payload = vec![0; 8];
    stsd_payload[4..8].copy_from_slice(&1u32.to_be_bytes());
    stsd_payload.extend(atom(b"aimd", &[]));
    let mut stsc_payload = vec![0; 8];
    stsc_payload[4..8].copy_from_slice(&1u32.to_be_bytes());
    stsc_payload.extend(1u32.to_be_bytes());
    stsc_payload.extend(1u32.to_be_bytes());
    stsc_payload.extend(1u32.to_be_bytes());
    let mut stsz_payload = vec![0; 12];
    stsz_payload[8..12].copy_from_slice(&2u32.to_be_bytes());
    stsz_payload.extend(3u32.to_be_bytes());
    stsz_payload.extend(4u32.to_be_bytes());
    let mut stco_payload = vec![0; 8];
    stco_payload[4..8].copy_from_slice(&2u32.to_be_bytes());
    let stsd = atom(b"stsd", &stsd_payload);
    let stsc = atom(b"stsc", &stsc_payload);
    let stsz = atom(b"stsz", &stsz_payload);
    let mut stbl = [stsd, stsc, stsz].concat();
    let mdat_start = 12;
    let first_chunk = mdat_start + 8;
    stco_payload.extend((first_chunk as u32).to_be_bytes());
    stco_payload.extend(((first_chunk + 3) as u32).to_be_bytes());
    stbl.extend(atom(b"stco", &stco_payload));
    let stbl = atom(b"stbl", &stbl);
    let mdia = atom(b"mdia", &atom(b"minf", &stbl));
    let mut tkhd_payload = vec![0; 16];
    tkhd_payload[12..16].copy_from_slice(&7u32.to_be_bytes());
    let trak = atom(b"trak", &[atom(b"tkhd", &tkhd_payload), mdia].concat());
    let source_moov = atom(b"moov", &trak);
    [
        atom(b"ftyp", b"isom"),
        atom(b"mdat", b"abcdefg"),
        source_moov,
    ]
    .concat()
}

fn empty_output() -> Vec<u8> {
    [
        atom(b"ftyp", b"isom"),
        atom(b"mdat", b"video"),
        atom(b"moov", b""),
    ]
    .concat()
}

/// A `moov` atom that holds one track with the given ID, which is no telemetry track.
fn output_with_track(id: u32) -> Vec<u8> {
    let mut stsd_payload = vec![0; 8];
    stsd_payload[4..8].copy_from_slice(&1u32.to_be_bytes());
    stsd_payload.extend(atom(b"avc1", &[]));
    let stbl = atom(b"stbl", &atom(b"stsd", &stsd_payload));
    let mdia = atom(b"mdia", &atom(b"minf", &stbl));
    let mut tkhd_payload = vec![0; 16];
    tkhd_payload[12..16].copy_from_slice(&id.to_be_bytes());
    let trak = atom(b"trak", &[atom(b"tkhd", &tkhd_payload), mdia].concat());
    [
        atom(b"ftyp", b"isom"),
        atom(b"mdat", b"video"),
        atom(b"moov", &trak),
    ]
    .concat()
}

fn moov_of(data: &[u8]) -> Atom {
    parse_atoms(data, 0, data.len())
        .unwrap()
        .into_iter()
        .find(|atom| atom.kind == *b"moov")
        .unwrap()
}

#[test]
fn splices_aimd_chunks_and_rewrites_offsets() {
    let source = synthetic_aimd_mp4();
    let output = [
        atom(b"ftyp", b"isom"),
        atom(b"mdat", b"video"),
        atom(b"moov", b""),
    ]
    .concat();

    let result = splice_aimd_track(&source, &output).unwrap();
    let top = parse_atoms(&result, 0, result.len()).unwrap();
    let moov = top
        .iter()
        .find(|atom| atom.kind == *b"moov")
        .copied()
        .unwrap();
    let aimd = find_aimd_track(&result, moov).unwrap();
    assert_eq!(aimd.chunks.len(), 2);
    assert_eq!(&result[aimd.chunks[0].0..aimd.chunks[0].0 + 3], b"abc");
    assert_eq!(&result[aimd.chunks[1].0..aimd.chunks[1].0 + 4], b"defg");
}

#[test]
fn spliced_file_is_exact() {
    let source = synthetic_aimd_mp4();
    let output = empty_output();
    let result = splice_aimd_track(&source, &output).unwrap();
    // 12 bytes of ftyp, 13 of mdat, the new mdat with 7 bytes, then moov with the track.
    assert_eq!(result[..25], output[..25]);
    assert_eq!(&result[25..40], b"\x00\x00\x00\x0fmdatabcdefg");
    let aimd = find_aimd_track(&result, moov_of(&result)).unwrap();
    assert_eq!(aimd.chunks, vec![(33, 3), (36, 4)]);
    let source_track = find_aimd_track(&source, moov_of(&source)).unwrap();
    assert_eq!(source_track.chunks, vec![(20, 3), (23, 4)]);
    let length = source_track.atom.end - source_track.atom.start;
    assert_eq!(result.len(), 40 + 8 + length);
    assert_eq!(result[40..44], ((8 + length) as u32).to_be_bytes());
    assert_eq!(&result[44..48], b"moov");
}

#[test]
fn the_transcoded_streams_are_kept_and_the_telemetry_is_found_behind_them() {
    let source = synthetic_aimd_mp4();
    let output = output_with_track(4);
    let result = splice_aimd_track(&source, &output).unwrap();
    let old = moov_of(&output);
    let new = moov_of(&result);
    assert_eq!(new.end, result.len());
    assert_eq!(result[..old.start], output[..old.start]);
    let kept = old.end - old.payload;
    assert_eq!(
        result[new.payload..new.payload + kept],
        output[old.payload..old.end]
    );
    let children = parse_atoms(&result, new.payload, new.end).unwrap();
    assert_eq!(children.len(), 2);
    assert_eq!(children[0].start - new.payload, 0);
    assert_eq!(children[1].kind, *b"trak");
    let aimd = find_aimd_track(&result, new).unwrap();
    assert_eq!(aimd.atom, children[1]);
    assert_eq!(&result[aimd.chunks[0].0..][..aimd.chunks[0].1], b"abc");
    assert_eq!(&result[aimd.chunks[1].0..][..aimd.chunks[1].1], b"defg");
}

#[test]
fn the_telemetry_track_gets_the_next_id() {
    let source = synthetic_aimd_mp4();
    let result = splice_aimd_track(&source, &output_with_track(4)).unwrap();
    assert_eq!(track_ids(&result, moov_of(&result)).unwrap(), vec![4, 5]);
    let result = splice_aimd_track(&source, &empty_output()).unwrap();
    assert_eq!(track_ids(&result, moov_of(&result)).unwrap(), vec![1]);
    let result = splice_aimd_track(&source, &output_with_track(u32::MAX)).unwrap();
    assert_eq!(
        track_ids(&result, moov_of(&result)).unwrap(),
        vec![u32::MAX, u32::MAX]
    );
}

#[test]
fn a_spliced_file_can_be_a_source() {
    let source = synthetic_aimd_mp4();
    let first = splice_aimd_track(&source, &output_with_track(1)).unwrap();
    let second = splice_aimd_track(&first, &output_with_track(9)).unwrap();
    let aimd = find_aimd_track(&second, moov_of(&second)).unwrap();
    assert_eq!(&second[aimd.chunks[0].0..][..3], b"abc");
    assert_eq!(&second[aimd.chunks[1].0..][..4], b"defg");
    assert_eq!(track_ids(&second, moov_of(&second)).unwrap(), vec![9, 10]);
}

#[test]
fn the_source_may_be_cut_off_behind_its_moov() {
    let mut source = synthetic_aimd_mp4();
    source.extend(b"\x00\x00\xff\xffmdat");
    let top = parse_top_until_moov(&source).unwrap();
    assert_eq!(top.len(), 3);
    assert!(splice_aimd_track(&source, &empty_output()).is_ok());
}

#[test]
fn a_source_without_telemetry_is_refused() {
    let output = empty_output();
    assert_eq!(
        splice_aimd_track(&output_with_track(1), &output),
        Err(SpliceError::Mp4(Mp4Error::NoAimdTrack))
    );
    assert_eq!(
        splice_aimd_track(b"", &output),
        Err(SpliceError::Mp4(Mp4Error::NoCompleteMoov))
    );
}

#[test]
fn an_output_without_a_final_moov_is_refused() {
    let source = synthetic_aimd_mp4();
    assert_eq!(
        splice_aimd_track(&source, &atom(b"ftyp", b"isom")),
        Err(SpliceError::OutputNoMoov)
    );
    let early = [atom(b"moov", b""), atom(b"mdat", b"video")].concat();
    assert_eq!(
        splice_aimd_track(&source, &early),
        Err(SpliceError::MoovNotLast)
    );
    assert_eq!(
        splice_aimd_track(&source, b"\x00\x00\x00"),
        Err(SpliceError::OutputAtoms(Mp4Error::TruncatedHeader))
    );
}

#[test]
fn a_moov_with_an_extended_size_is_refused() {
    let source = synthetic_aimd_mp4();
    let output = b"\x00\x00\x00\x01moov\x00\x00\x00\x00\x00\x00\x00\x10";
    assert_eq!(
        splice_aimd_track(&source, output),
        Err(SpliceError::Mp4(Mp4Error::ExtendedMoov))
    );
}

#[test]
fn a_chunk_outside_the_source_is_refused() {
    let mut source = synthetic_aimd_mp4();
    let len = source.len();
    // The last entry of the offset table is the last thing in the file.
    source[len - 4..].copy_from_slice(&(len as u32 - 3).to_be_bytes());
    assert_eq!(
        splice_aimd_track(&source, &empty_output()),
        Err(SpliceError::ChunkOutside)
    );
}

#[test]
fn a_track_header_without_content_at_the_end_is_out_of_bounds() {
    let source = synthetic_aimd_mp4();
    let output = atom(b"moov", &atom(b"trak", &atom(b"tkhd", b"")));
    assert_eq!(
        splice_aimd_track(&source, &output),
        Err(SpliceError::Mp4(Mp4Error::OutOfBounds))
    );
}

/// A source whose telemetry track has the given `stsc`, `stsz` and `co64` words behind the version
/// word.
fn source_with_tables(stsc: &[u32], stsz: &[u32], co64: &[u32]) -> Vec<u8> {
    let words = |values: &[u32]| -> Vec<u8> {
        [0u32]
            .iter()
            .chain(values)
            .flat_map(|value| value.to_be_bytes())
            .collect()
    };
    let mut stsd_payload = vec![0, 0, 0, 0, 0, 0, 0, 1];
    stsd_payload.extend(atom(b"aimd", &[]));
    let stbl = [
        atom(b"stsd", &stsd_payload),
        atom(b"stsc", &words(stsc)),
        atom(b"stsz", &words(stsz)),
        atom(b"co64", &words(co64)),
    ]
    .concat();
    let mdia = atom(b"mdia", &atom(b"minf", &atom(b"stbl", &stbl)));
    atom(b"moov", &atom(b"trak", &[atom(b"tkhd", &[0; 16]), mdia].concat()))
}

#[test]
fn chunks_beyond_four_gigabytes_are_refused() {
    let source = source_with_tables(&[1, 1, 1, 1], &[0x8000_0000, 2], &[2, 0, 0, 0, 0]);
    assert_eq!(
        splice_aimd_track(&source, &empty_output()),
        Err(SpliceError::PayloadTooLarge)
    );
}

#[test]
fn a_chunk_past_all_addresses_is_refused() {
    let source = source_with_tables(&[1, 1, 1, 1], &[8, 1], &[1, u32::MAX, u32::MAX]);
    assert_eq!(
        splice_aimd_track(&source, &empty_output()),
        Err(SpliceError::ChunkOverflow)
    );
}

#[test]
fn wide_offsets_are_rewritten() {
    let source = source_with_tables(&[1, 1, 1, 1], &[4, 1], &[1, 0, 4]);
    let result = splice_aimd_track(&source, &empty_output()).unwrap();
    let aimd = find_aimd_track(&result, moov_of(&result)).unwrap();
    assert_eq!(aimd.chunks, vec![(33, 4)]);
    assert_eq!(&result[33..37], b"moov");
}

#[test]
fn the_track_is_copied_but_for_its_id_and_offsets() {
    let source = synthetic_aimd_mp4();
    let result = splice_aimd_track(&source, &output_with_track(4)).unwrap();
    let old = find_aimd_track(&source, moov_of(&source)).unwrap().atom;
    let new = find_aimd_track(&result, moov_of(&result)).unwrap().atom;
    let before = &source[old.start..old.end];
    let after = &result[new.start..new.end];
    assert_eq!(new.end, result.len());
    let end = before.len();
    assert_eq!(before[..28], after[..28]);
    assert_eq!(after[28..32], [0, 0, 0, 5]);
    assert_eq!(before[32..end - 8], after[32..end - 8]);
}

#[test]
fn the_top_level_up_to_moov_is_a_prefix_of_all_atoms() {
    let mut data = synthetic_aimd_mp4();
    data.extend(atom(b"free", b"more"));
    let all = parse_atoms(&data, 0, data.len()).unwrap();
    let top = parse_top_until_moov(&data).unwrap();
    assert_eq!(all.len(), 4);
    assert_eq!(top, all[..3]);
}

#[test]
fn track_ids_do_not_need_the_other_tables_in_place() {
    let mut stsd_payload = vec![0, 0, 0, 0, 0, 0, 0, 1];
    stsd_payload.extend(atom(b"aimd", &[]));
    let words = |values: &[u32]| -> Vec<u8> {
        values.iter().flat_map(|value| value.to_be_bytes()).collect()
    };
    // The one entry of the size table lies behind its atom: it is the size of the `free` atom.
    let stbl = [
        atom(b"stsd", &stsd_payload),
        atom(b"stsc", &words(&[0, 1, 1, 1, 1])),
        atom(b"stsz", &words(&[0, 0, 1])),
        atom(b"free", &[0; 4]),
        atom(b"stco", &words(&[0, 1, 0])),
    ]
    .concat();
    let mdia = atom(b"mdia", &atom(b"minf", &atom(b"stbl", &stbl)));
    let trak = atom(b"trak", &[atom(b"tkhd", &[0; 16]), mdia].concat());
    let source = atom(b"moov", &trak);
    let aimd = find_aimd_track(&source, moov_of(&source)).unwrap();
    assert_eq!(aimd.chunks, vec![(0, 12)]);
    let result = splice_aimd_track(&source, &output_with_track(4)).unwrap();
    assert_eq!(track_ids(&result, moov_of(&result)).unwrap(), vec![4, 5]);
}
