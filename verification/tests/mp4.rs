use ffmpeg_aimd::atoms::{atom_header_len, child, parse_atoms, parse_top_until_moov, Atom};
use ffmpeg_aimd::bytes::{read_u32, read_u64, write_u32, write_u64};
use ffmpeg_aimd::error::Mp4Error;
use ffmpeg_aimd::patch::{append_track, patch_chunk_offsets, patch_track_id};
use ffmpeg_aimd::track::{stsd_is_aimd, track_chunks, track_ids};

fn boxed_atom(kind: &[u8; 4], payload: &[u8]) -> Vec<u8> {
    let size = (payload.len() + 8) as u32;
    [size.to_be_bytes().as_slice(), kind.as_slice(), payload].concat()
}

fn words(values: &[u32]) -> Vec<u8> {
    values.iter().flat_map(|value| value.to_be_bytes()).collect()
}

fn whole(data: &[u8]) -> Atom {
    parse_atoms(data, 0, data.len()).unwrap()[0]
}

/// A sample table with the given `stsc`, `stsz` and `stco` words behind the version word.
fn sample_table(stsc: &[u32], stsz: &[u32], stco: &[u32]) -> Vec<u8> {
    let content = [
        boxed_atom(b"stsc", &[words(&[0]), words(stsc)].concat()),
        boxed_atom(b"stsz", &[words(&[0]), words(stsz)].concat()),
        boxed_atom(b"stco", &[words(&[0]), words(stco)].concat()),
    ]
    .concat();
    boxed_atom(b"stbl", &content)
}

fn track_with(stbl: &[u8]) -> Vec<u8> {
    let mdia = boxed_atom(b"mdia", &boxed_atom(b"minf", stbl));
    let mut header = vec![0; 16];
    header[15] = 9;
    boxed_atom(b"trak", &[boxed_atom(b"tkhd", &header), mdia].concat())
}

#[test]
fn integers_are_read_big_endian() {
    let data = [1, 2, 3, 4, 5, 6, 7, 8, 9];
    assert_eq!(read_u32(&data, 0), Ok(0x0102_0304));
    assert_eq!(read_u32(&data, 5), Ok(0x0607_0809));
    assert_eq!(read_u32(&data, 6), Err(Mp4Error::TruncatedInteger));
    assert_eq!(read_u64(&data, 1), Ok(0x0203_0405_0607_0809));
    assert_eq!(read_u64(&data, 2), Err(Mp4Error::TruncatedInteger));
    assert_eq!(read_u32(&data, usize::MAX), Err(Mp4Error::TruncatedInteger));
}

#[test]
fn integers_are_written_as_they_are_read() {
    let mut data = vec![0xff; 12];
    assert_eq!(write_u32(&mut data, 1, 0x0a0b_0c0d), Ok(()));
    assert_eq!(data[..6], [0xff, 0x0a, 0x0b, 0x0c, 0x0d, 0xff]);
    assert_eq!(read_u32(&data, 1), Ok(0x0a0b_0c0d));
    assert_eq!(write_u64(&mut data, 4, 0x0102_0304_0506_0708), Ok(()));
    assert_eq!(data[4..], [1, 2, 3, 4, 5, 6, 7, 8]);
    assert_eq!(read_u64(&data, 4), Ok(0x0102_0304_0506_0708));
    let before = data.clone();
    assert_eq!(write_u32(&mut data, 9, 1), Err(Mp4Error::TruncatedInteger));
    assert_eq!(write_u64(&mut data, 5, 1), Err(Mp4Error::TruncatedInteger));
    assert_eq!(data, before);
}

#[test]
fn atoms_follow_each_other_without_a_gap() {
    let data = [
        boxed_atom(b"ftyp", b"isom"),
        b"\x00\x00\x00\x01wide\x00\x00\x00\x00\x00\x00\x00\x12ab".to_vec(),
        b"\x00\x00\x00\x00mdatrest".to_vec(),
    ]
    .concat();
    let atoms = parse_atoms(&data, 0, data.len()).unwrap();
    assert_eq!(
        atoms,
        vec![
            Atom { start: 0, payload: 8, end: 12, kind: *b"ftyp" },
            Atom { start: 12, payload: 28, end: 30, kind: *b"wide" },
            Atom { start: 30, payload: 38, end: 42, kind: *b"mdat" },
        ]
    );
    assert_eq!(parse_atoms(&data, 12, 12), Ok(vec![]));
}

#[test]
fn broken_atoms_are_refused() {
    assert_eq!(
        parse_atoms(b"\x00\x00\x00\x08abc", 0, 7),
        Err(Mp4Error::TruncatedHeader)
    );
    assert_eq!(
        parse_atoms(b"\x00\x00\x00\x01abcd\x00\x00\x00\x00", 0, 12),
        Err(Mp4Error::TruncatedExtendedHeader)
    );
    assert_eq!(
        parse_atoms(b"\x00\x00\x00\x04abcd", 0, 8),
        Err(Mp4Error::InvalidAtomSize { at: 0, kind: *b"abcd", size: 4, header: 8, limit: 8 })
    );
    assert_eq!(
        parse_atoms(b"\x00\x00\x00\x09abcd", 0, 8),
        Err(Mp4Error::InvalidAtomSize { at: 0, kind: *b"abcd", size: 9, header: 8, limit: 8 })
    );
    assert_eq!(
        parse_atoms(
            b"\x00\x00\x00\x08free\x00\x00\x00\x01abcd\xff\xff\xff\xff\xff\xff\xff\xff",
            0,
            24
        ),
        Err(Mp4Error::AtomEndOverflow)
    );
    assert_eq!(parse_atoms(b"", 0, 8), Err(Mp4Error::TruncatedInteger));
    assert_eq!(parse_atoms(b"\x00\x00\x00\x08", 0, 8), Err(Mp4Error::OutOfBounds));
}

#[test]
fn the_top_level_is_read_up_to_moov() {
    let data = [
        boxed_atom(b"ftyp", b""),
        boxed_atom(b"moov", b"abc"),
        b"\x00\x00\x00\x03".to_vec(),
    ]
    .concat();
    let top = parse_top_until_moov(&data).unwrap();
    assert_eq!(top.len(), 2);
    assert_eq!(top[1], Atom { start: 8, payload: 16, end: 19, kind: *b"moov" });
    assert_eq!(
        parse_top_until_moov(&data[..18]),
        Err(Mp4Error::NoCompleteMoov)
    );
    assert_eq!(parse_top_until_moov(b""), Err(Mp4Error::NoCompleteMoov));
}

#[test]
fn the_first_child_of_a_type_is_found() {
    let data = boxed_atom(
        b"moov",
        &[boxed_atom(b"free", b""), boxed_atom(b"trak", b"1"), boxed_atom(b"trak", b"2")].concat(),
    );
    let moov = whole(&data);
    assert_eq!(
        child(&data, moov, b"trak"),
        Ok(Atom { start: 16, payload: 24, end: 25, kind: *b"trak" })
    );
    assert_eq!(
        child(&data, moov, b"mdia"),
        Err(Mp4Error::MissingChild { parent: *b"moov", child: *b"mdia" })
    );
}

#[test]
fn header_lengths_are_told_by_the_size() {
    assert_eq!(atom_header_len(b"\x00\x00\x00\x08free"), Ok(8));
    assert_eq!(atom_header_len(b"\x00\x00\x00\x01free"), Ok(16));
    assert_eq!(atom_header_len(b"\x00\x00\x00\x00fre"), Err(Mp4Error::TruncatedAtom));
}

#[test]
fn sample_descriptions_are_searched_for_aimd() {
    let two = boxed_atom(
        b"stsd",
        &[words(&[0, 2]), boxed_atom(b"text", b"xy"), boxed_atom(b"aimd", b"")].concat(),
    );
    assert_eq!(stsd_is_aimd(&two, whole(&two)), Ok(true));
    let other = boxed_atom(b"stsd", &[words(&[0, 1]), boxed_atom(b"text", b"")].concat());
    assert_eq!(stsd_is_aimd(&other, whole(&other)), Ok(false));
    let none = boxed_atom(b"stsd", &words(&[0, 0]));
    assert_eq!(stsd_is_aimd(&none, whole(&none)), Ok(false));
    let small = boxed_atom(b"stsd", &[words(&[0, 1, 7]), b"aimd".to_vec()].concat());
    assert_eq!(stsd_is_aimd(&small, whole(&small)), Err(Mp4Error::InvalidStsdEntry));
    let wide = boxed_atom(b"stsd", &[words(&[0, 1, 9]), b"text".to_vec()].concat());
    assert_eq!(stsd_is_aimd(&wide, whole(&wide)), Err(Mp4Error::InvalidStsdEntry));
}

#[test]
fn chunks_follow_from_the_sample_tables() {
    // Chunk 1 holds two samples, chunks 2 and 3 hold one each.
    let table = sample_table(
        &[2, 1, 2, 1, 2, 1, 1],
        &[0, 4, 10, 20, 30, 40],
        &[3, 100, 200, 300],
    );
    assert_eq!(
        track_chunks(&table, whole(&table)),
        Ok(vec![(100, 30), (200, 30), (300, 40)])
    );
    let uniform = sample_table(&[1, 1, 5, 1], &[8, 10], &[2, 100, 200]);
    assert_eq!(
        track_chunks(&uniform, whole(&uniform)),
        Ok(vec![(100, 40), (200, 40)])
    );
}

#[test]
fn wide_chunk_offsets_are_read() {
    let content = [
        boxed_atom(b"stsc", &words(&[0, 1, 1, 1, 1])),
        boxed_atom(b"stsz", &words(&[0, 6, 1])),
        boxed_atom(b"co64", &words(&[0, 1, 0, 77])),
    ]
    .concat();
    let table = boxed_atom(b"stbl", &content);
    assert_eq!(track_chunks(&table, whole(&table)), Ok(vec![(77, 6)]));
}

#[test]
fn sample_tables_that_disagree_are_refused() {
    let empty = sample_table(&[0], &[0, 0], &[0]);
    assert_eq!(track_chunks(&empty, whole(&empty)), Err(Mp4Error::NoStscEntries));
    let late = sample_table(&[1, 2, 1, 1], &[0, 1, 10], &[1, 100]);
    assert_eq!(track_chunks(&late, whole(&late)), Err(Mp4Error::ChunksNotCovered));
    let many = sample_table(&[1, 1, 2, 1], &[0, 1, 10], &[1, 100]);
    assert_eq!(track_chunks(&many, whole(&many)), Err(Mp4Error::SampleCountMismatch));
    let few = sample_table(&[1, 1, 1, 1], &[0, 2, 10, 10], &[1, 100]);
    assert_eq!(track_chunks(&few, whole(&few)), Err(Mp4Error::SampleCountMismatch));
    let fewer = sample_table(&[1, 1, 1, 1], &[4, 2], &[1, 100]);
    assert_eq!(track_chunks(&fewer, whole(&fewer)), Err(Mp4Error::SampleCountMismatch));
    let missing = boxed_atom(
        b"stbl",
        &[boxed_atom(b"stsc", &words(&[0, 0])), boxed_atom(b"stsz", &words(&[0, 0, 0]))].concat(),
    );
    assert_eq!(track_chunks(&missing, whole(&missing)), Err(Mp4Error::NoChunkOffsets));
}

#[test]
fn a_track_id_is_replaced_in_place() {
    let mut track = track_with(&sample_table(&[0], &[0, 0], &[0]));
    let before = track.clone();
    assert_eq!(patch_track_id(&mut track, 0x0102_0304), Ok(()));
    assert_eq!(track[28..32], [1, 2, 3, 4]);
    assert_eq!(track[..28], before[..28]);
    assert_eq!(track[32..], before[32..]);
    let movie = boxed_atom(b"moov", &track);
    assert_eq!(track_ids(&movie, whole(&movie)), Ok(vec![0x0102_0304]));

    let mut header = vec![0; 24];
    header[0] = 1;
    let mut wide = boxed_atom(b"trak", &boxed_atom(b"tkhd", &header));
    assert_eq!(patch_track_id(&mut wide, 5), Ok(()));
    assert_eq!(wide[36..40], [0, 0, 0, 5]);
    let mut bare = boxed_atom(b"trak", b"");
    assert_eq!(
        patch_track_id(&mut bare, 5),
        Err(Mp4Error::MissingChild { parent: *b"trak", child: *b"tkhd" })
    );
}

#[test]
fn chunk_offsets_are_replaced_in_place() {
    let mut track = track_with(&sample_table(&[0], &[0, 0], &[2, 100, 200]));
    let len = track.len();
    assert_eq!(patch_chunk_offsets(&mut track, &[7, 9]), Ok(()));
    assert_eq!(track[len - 8..], [0, 0, 0, 7, 0, 0, 0, 9]);
    assert_eq!(
        patch_chunk_offsets(&mut track, &[7]),
        Err(Mp4Error::OffsetCountChanged)
    );
    assert_eq!(
        patch_chunk_offsets(&mut track, &[7, 1 << 32]),
        Err(Mp4Error::OffsetExceedsStco)
    );
    let stbl = boxed_atom(
        b"stbl",
        &[boxed_atom(b"stco", &words(&[0, 0])), boxed_atom(b"co64", &words(&[0, 0]))].concat(),
    );
    let mut twice = track_with(&stbl);
    assert_eq!(patch_chunk_offsets(&mut twice, &[]), Err(Mp4Error::OffsetTableCount));
    let wide = boxed_atom(b"stbl", &boxed_atom(b"co64", &words(&[0, 1, 0, 0])));
    let mut track = track_with(&wide);
    let len = track.len();
    assert_eq!(patch_chunk_offsets(&mut track, &[0x1_0000_0002]), Ok(()));
    assert_eq!(track[len - 8..], [0, 0, 0, 1, 0, 0, 0, 2]);
}

#[test]
fn a_track_is_appended_and_counted_in_the_size() {
    let mut moov = boxed_atom(b"moov", b"xy");
    assert_eq!(append_track(&mut moov, b"trak"), Ok(()));
    assert_eq!(moov, b"\x00\x00\x00\x0emoovxytrak");
    let mut extended = b"\x00\x00\x00\x01moov\x00\x00\x00\x00\x00\x00\x00\x10".to_vec();
    assert_eq!(append_track(&mut extended, b"trak"), Err(Mp4Error::ExtendedMoov));
    let mut short = b"moov".to_vec();
    assert_eq!(append_track(&mut short, b"trak"), Err(Mp4Error::TruncatedAtom));
    assert_eq!(short, b"moov");
}

/// The sample table of a track that fills its bytes.
fn table_of(track: &[u8]) -> Atom {
    let mdia = child(track, whole(track), b"mdia").unwrap();
    let minf = child(track, mdia, b"minf").unwrap();
    child(track, minf, b"stbl").unwrap()
}

#[test]
fn new_chunk_offsets_are_read_with_the_old_sizes() {
    let stbl = sample_table(&[2, 1, 2, 1, 2, 1, 1], &[0, 3, 10, 20, 30], &[2, 100, 200]);
    let mut track = track_with(&stbl);
    let table = table_of(&track);
    assert_eq!(track_chunks(&track, table), Ok(vec![(100, 30), (200, 30)]));
    assert_eq!(patch_chunk_offsets(&mut track, &[7, 4_000_000_000]), Ok(()));
    assert_eq!(table_of(&track), table);
    assert_eq!(track_chunks(&track, table), Ok(vec![(7, 30), (4_000_000_000, 30)]));
}

#[test]
fn an_appended_track_is_the_last_child() {
    let mut track = track_with(&sample_table(&[0], &[0, 0], &[0]));
    let mut moov = boxed_atom(b"moov", &[boxed_atom(b"mvhd", b"abcd"), track.clone()].concat());
    let before = parse_atoms(&moov, 8, moov.len()).unwrap();
    let start = moov.len();
    assert_eq!(patch_track_id(&mut track, 10), Ok(()));
    assert_eq!(append_track(&mut moov, &track), Ok(()));
    let movie = whole(&moov);
    assert_eq!((movie.start, movie.payload, movie.end), (0, 8, moov.len()));
    let after = parse_atoms(&moov, 8, moov.len()).unwrap();
    assert_eq!(after[..2], before[..]);
    assert_eq!(
        after[2..],
        [Atom { start, payload: start + 8, end: moov.len(), kind: *b"trak" }]
    );
    assert_eq!(track_ids(&moov, movie), Ok(vec![9, 10]));
}
