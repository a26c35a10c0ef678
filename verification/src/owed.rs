//! When a track is spliced: what has to hold of the two files, and where the chunks go.

use crate::atoms::{
    atom_at, atoms_in, child_of, law_first_of_kind, law_header_read, top_until_moov, Atom,
};
use crate::bytes::{be32, be32_bytes, be64, law_u32_read_back, overwrite};
use crate::carried::{
    alone, entries_end, id_field, in_place, lemma_atom_alone, lemma_id_written, lemma_source_track,
    lemma_table_apart, lemma_telemetry_alone, lemma_track_renamed, telemetry,
};
use crate::error::{Mp4Error, SpliceError};
use crate::kinds::{CO64, MDIA, MOOV, STCO, STSC, TKHD};
use crate::moved::{
    all_moved, holds_at, lemma_atoms_moved, lemma_child_inside, lemma_integers_moved,
    lemma_sample_table_moved, moved, same_from,
};
use crate::patch::{
    offset_table_of, offset_tables, with_chunk_offsets, with_offsets, with_track, with_track_id,
};
use crate::patched::{
    entry_width, lemma_child_listed, lemma_only_table, lemma_sample_table_patched,
    lemma_with_offsets,
};
use crate::reread::whole_track;
use crate::splice::{
    carried_track, gather, highest, lemma_gather_len, lemma_output_moov_inside, lemma_payload_grows,
    mdat_atom, next_track_id, output_moov, payload_fits, source_track, spliced,
};
use crate::tables::{law_chunks_laid_out, lemma_lists_offsets, lists_narrow, lists_offsets};
use crate::track::{
    aimd_track_of, chunks_from, chunks_size, first_offset_table, lemma_collect_len, offset_entry,
    offset_reader, sample_table_of, sample_tables, track_ids_of, SampleTables,
};
use vstd::prelude::*;

verus! {

/// The highest of some IDs is one of them and none is higher; without any it is zero. The ID for one
/// more track is one above it, where there is room.
pub proof fn law_highest(ids: Seq<u32>)
    ensures
        ids.len() > 0 ==> ids.contains(highest(ids)),
        ids.len() == 0 ==> highest(ids) == 0,
        forall|i: int| 0 <= i < ids.len() ==> #[trigger] ids[i] <= highest(ids),
        highest(ids) < u32::MAX ==> next_track_id(ids) == highest(ids) + 1,
        highest(ids) == u32::MAX ==> next_track_id(ids) == u32::MAX,
    decreases ids.len(),
{
    if ids.len() > 0 {
        let front = ids.drop_last();
        law_highest(front);
        assert(ids.contains(ids[ids.len() - 1]));
        if front.len() > 0 {
            let k = choose|k: int| 0 <= k < front.len() && front[k] == highest(front);
            assert(ids[k] == highest(front));
        }
        assert forall|i: int| 0 <= i < ids.len() implies #[trigger] ids[i] <= highest(ids) by {
            if i < ids.len() - 1 {
                assert(front[i] == ids[i]);
            }
        }
    }
}

/// Chunks go in one atom exactly if they fit, with its header, in 32 bits.
pub proof fn law_payload_fits(size: int)
    requires
        0 <= size,
    ensures
        payload_fits(size) is Ok == (size + 8 <= u32::MAX),
        u32::MAX < size + 8 <= usize::MAX ==> payload_fits(size) == Err::<(), SpliceError>(
            SpliceError::PayloadTooLarge,
        ),
{
}

/// The chunks are packed in their order, without a gap: each stands where those in front of it end,
/// with the bytes that it has in the source.
pub proof fn law_packed(source: Seq<u8>, chunks: Seq<(usize, usize)>, place: int, i: int)
    requires
        0 <= place,
        0 <= i < chunks.len(),
        gather(source, chunks, place, chunks.len() as int) is Ok,
    ensures
        ({
            let (offsets, payload) = gather(source, chunks, place, chunks.len() as int)->Ok_0;
            let (offset, size) = chunks[i];
            let start = chunks_size(chunks.take(i));
            &&& offsets.len() == chunks.len()
            &&& payload.len() == chunks_size(chunks)
            &&& offsets[i] == place + start
            &&& offset + size <= source.len()
            &&& 0 <= start && start + size <= payload.len()
            &&& payload.subrange(start, start + size) == source.subrange(
                offset as int,
                offset + size,
            )
        }),
{
    lemma_packed(source, chunks, place, chunks.len() as int, i);
    assert(chunks.take(chunks.len() as int) =~= chunks);
    lemma_payload_grows(chunks, i);
}

proof fn lemma_packed(
    source: Seq<u8>,
    chunks: Seq<(usize, usize)>,
    place: int,
    count: int,
    i: int,
)
    requires
        0 <= place,
        0 <= i < count <= chunks.len(),
        gather(source, chunks, place, count) is Ok,
    ensures
        ({
            let (offsets, payload) = gather(source, chunks, place, count)->Ok_0;
            let (offset, size) = chunks[i];
            let start = chunks_size(chunks.take(i));
            &&& offsets.len() == count
            &&& payload.len() == chunks_size(chunks.take(count))
            &&& offsets[i] == place + start
            &&& offset + size <= source.len()
            &&& 0 <= start && start + size <= payload.len()
            &&& payload.subrange(start, start + size) == source.subrange(
                offset as int,
                offset + size,
            )
        }),
    decreases count,
{
    let (offsets, payload) = gather(source, chunks, place, count)->Ok_0;
    let (before, front) = gather(source, chunks, place, count - 1)->Ok_0;
    let (offset, size) = chunks[i];
    let start = chunks_size(chunks.take(i));
    lemma_gather_len(source, chunks, place, count);
    lemma_gather_len(source, chunks, place, count - 1);
    lemma_payload_grows(chunks, i);
    if i < count - 1 {
        lemma_packed(source, chunks, place, count - 1, i);
        assert(offsets[i] == before[i]);
        assert(payload.subrange(start, start + size) =~= front.subrange(start, start + size));
    } else {
        assert(chunks.take(count).drop_last() =~= chunks.take(i));
        assert(payload.subrange(start, start + size) =~= source.subrange(
            offset as int,
            offset + size,
        ));
    }
}

/// Chunks that lie inside the source are packed, wherever the places for them can be addressed.
pub proof fn law_packing_owed(source: Seq<u8>, chunks: Seq<(usize, usize)>, place: int, count: int)
    requires
        0 <= place,
        source.len() <= usize::MAX,
        0 <= count <= chunks.len(),
        forall|i: int|
            0 <= i < count ==> (#[trigger] chunks[i]).0 + chunks[i].1 <= source.len(),
        place + chunks_size(chunks.take(count)) <= usize::MAX,
    ensures
        gather(source, chunks, place, count) is Ok,
    decreases count,
{
    if count > 0 {
        assert(chunks.take(count).drop_last() =~= chunks.take(count - 1));
        law_packing_owed(source, chunks, place, count - 1);
        lemma_gather_len(source, chunks, place, count - 1);
        assert(chunks[count - 1].0 + chunks[count - 1].1 <= source.len());
    }
}

/// A chunk that reaches past the source is the reason why nothing is packed, if all in front of it
/// are packed.
pub proof fn law_packing_refused(source: Seq<u8>, chunks: Seq<(usize, usize)>, place: int, i: int)
    requires
        0 <= i < chunks.len(),
        gather(source, chunks, place, i) is Ok,
        source.len() < chunks[i].0 + chunks[i].1 <= usize::MAX,
    ensures
        gather(source, chunks, place, i + 1) == Err::<(Seq<usize>, Seq<u8>), SpliceError>(
            SpliceError::ChunkOutside,
        ),
{
}

/// The `mdat` atom holds its size, its type and the payload.
pub proof fn law_payload_framed(payload: Seq<u8>)
    requires
        payload.len() + 8 <= u32::MAX,
    ensures
        ({
            let atom = mdat_atom(payload);
            &&& atom.len() == payload.len() + 8
            &&& be32(atom, 0) == atom.len()
            &&& atom.subrange(4, 8) == seq![0x6du8, 0x64, 0x61, 0x74]
            &&& atom.subrange(8, atom.len() as int) == payload
        }),
{
    reveal(be32);
    let atom = mdat_atom(payload);
    assert(atom.subrange(4, 8) =~= seq![0x6du8, 0x64, 0x61, 0x74]);
    assert(atom.subrange(8, atom.len() as int) =~= payload);
}

/// The `moov` atom of a transcoded file is its first and has to be its last atom.
pub proof fn law_output_moov(transcoded: Seq<u8>)
    requires
        atoms_in(transcoded, 0, transcoded.len() as int) is Ok,
    ensures
        ({
            let atoms = atoms_in(transcoded, 0, transcoded.len() as int)->Ok_0;
            let name = [0x6du8, 0x6f, 0x6f, 0x76];
            match output_moov(transcoded) {
                Ok(moov) => moov.kind == name && moov.end == transcoded.len() && exists|k: int|
                    0 <= k < atoms.len() && #[trigger] atoms[k] == moov && forall|i: int|
                        0 <= i < k ==> (#[trigger] atoms[i]).kind != name,
                Err(SpliceError::OutputNoMoov) => forall|i: int|
                    0 <= i < atoms.len() ==> (#[trigger] atoms[i]).kind != name,
                Err(SpliceError::MoovNotLast) => exists|k: int|
                    0 <= k < atoms.len() && (#[trigger] atoms[k]).kind == name && atoms[k].end
                        != transcoded.len() && forall|i: int|
                        0 <= i < k ==> (#[trigger] atoms[i]).kind != name,
                Err(_) => false,
            }
        }),
{
    assert(MOOV =~= [0x6du8, 0x6f, 0x6f, 0x76]);
    law_first_of_kind(atoms_in(transcoded, 0, transcoded.len() as int)->Ok_0, MOOV);
}

/// A track takes an ID exactly if it has a track header with a place for it.
pub proof fn law_id_owed(track: Seq<u8>, id: u32)
    ensures
        with_track_id(track, id) is Ok == {
            let tkhd = child_of(track, whole_track(track), [0x74, 0x6b, 0x68, 0x64]);
            let at = tkhd->Ok_0.payload as int;
            &&& track.len() >= 8
            &&& tkhd is Ok
            &&& at < track.len()
            &&& at + (if track[at] == 1 {
                24int
            } else {
                16int
            }) <= track.len()
        },
{
    assert(TKHD =~= [0x74, 0x6b, 0x68, 0x64]);
}

proof fn lemma_offsets_owed(track: Seq<u8>, table: Atom, offsets: Seq<usize>, count: int)
    requires
        0 <= count <= offsets.len(),
    ensures
        with_offsets(track, table, offsets, count) is Ok <==> {
            &&& count == 0 || entries_end(table, count) <= track.len()
            &&& table.kind == STCO ==> forall|i: int|
                0 <= i < count ==> #[trigger] offsets[i] <= u32::MAX
        },
        with_offsets(track, table, offsets, count) matches Ok(after) ==> after.len() == track.len(),
    decreases count,
{
    if count > 0 {
        lemma_offsets_owed(track, table, offsets, count - 1);
        let width = entry_width(table);
        assert(count * width == (count - 1) * width + width) by (nonlinear_arith);
        assert((count - 1) * width >= 0) by (nonlinear_arith)
            requires
                count >= 1,
                width >= 0,
        ;
        if table.kind == STCO && offsets[count - 1] <= u32::MAX {
            assert((forall|i: int| 0 <= i < count - 1 ==> #[trigger] offsets[i] <= u32::MAX) ==> (
            forall|i: int| 0 <= i < count ==> #[trigger] offsets[i] <= u32::MAX));
        }
    }
}

/// A chunk offset table takes as many offsets as it counts, where its entries are there, and in
/// `stco` where each of them has 32 bits.
pub proof fn law_offsets_owed(track: Seq<u8>, offsets: Seq<usize>, table: Atom)
    requires
        offset_table_of(track) == Ok::<Atom, Mp4Error>(table),
        table.payload + 8 <= track.len(),
        offsets.len() > 0,
    ensures
        with_chunk_offsets(track, offsets) is Ok <==> {
            let count = offsets.len() as int;
            let narrow = table.kind@ == seq![0x73u8, 0x74, 0x63, 0x6f];
            &&& be32(track, table.payload + 4) == count
            &&& table.payload + 8 + count * (if narrow {
                4int
            } else {
                8int
            }) <= track.len()
            &&& narrow ==> forall|i: int| 0 <= i < count ==> #[trigger] offsets[i] <= u32::MAX
        },
{
    assert(STCO@ =~= seq![0x73u8, 0x74, 0x63, 0x6f]);
    if table.kind@ == STCO@ {
        assert(table.kind =~= STCO);
    }
    lemma_offsets_owed(track, table, offsets, offsets.len() as int);
}

/// A track is appended exactly if the `moov` atom has a header without a 64-bit size and both
/// together fit in 32 bits.
pub proof fn law_append_owed(moov: Seq<u8>, track: Seq<u8>)
    ensures
        with_track(moov, track) is Ok == {
            &&& moov.len() >= 8
            &&& be32(moov, 0) != 1
            &&& moov.len() + track.len() <= u32::MAX
        },
{
}

/// The chunk offset tables among some atoms are those of their parts, and an atom is one exactly if
/// it has the type `stco` or `co64`.
pub proof fn law_offset_tables(left: Seq<Atom>, right: Seq<Atom>, atom: Atom)
    ensures
        offset_tables(left + right) == offset_tables(left) + offset_tables(right),
        offset_tables(seq![atom]) == if lists_offsets(atom) {
            seq![atom]
        } else {
            Seq::empty()
        },
    decreases right.len(),
{
    lemma_lists_offsets(atom);
    assert(seq![atom].drop_last() =~= Seq::<Atom>::empty());
    assert(offset_tables(Seq::<Atom>::empty()) =~= Seq::<Atom>::empty());
    assert(Seq::<Atom>::empty().push(atom) =~= seq![atom]);
    if right.len() == 0 {
        assert(left + right =~= left);
        assert(offset_tables(left) + offset_tables(right) =~= offset_tables(left));
    } else {
        law_offset_tables(left, right.drop_last(), atom);
        assert((left + right).drop_last() =~= left + right.drop_last());
        assert(offset_tables(left + right) =~= offset_tables(left) + offset_tables(right));
    }
}

/// The chunk offset table of a track is the one of its sample table; where there are several, or
/// none, that is the reason why there is none.
pub proof fn law_only_offset_table(track: Seq<u8>, stbl: Atom)
    requires
        track.len() >= 8,
        sample_table_of(track, whole_track(track)) == Ok::<Atom, Mp4Error>(stbl),
        atoms_in(track, stbl.payload as int, stbl.end as int) is Ok,
    ensures
        ({
            let tables = offset_tables(
                atoms_in(track, stbl.payload as int, stbl.end as int)->Ok_0,
            );
            offset_table_of(track) == if tables.len() == 1 {
                Ok::<Atom, Mp4Error>(tables[0])
            } else {
                Err::<Atom, Mp4Error>(Mp4Error::OffsetTableCount)
            }
        }),
{
}

proof fn lemma_tables_moved(atoms: Seq<Atom>, by: int)
    ensures
        offset_tables(all_moved(atoms, by)) == all_moved(offset_tables(atoms), by),
    decreases atoms.len(),
{
    if atoms.len() > 0 {
        lemma_tables_moved(atoms.drop_last(), by);
        assert(all_moved(atoms, by).drop_last() =~= all_moved(atoms.drop_last(), by));
        assert(all_moved(atoms, by).last() == moved(atoms.last(), by));
    }
    assert(offset_tables(all_moved(atoms, by)) =~= all_moved(offset_tables(atoms), by));
}

/// What has to hold of the telemetry track of a recording so that it can be carried over to a place:
/// all that is replaced lies in its own atom, there is one chunk offset table, every chunk lies in
/// the recording, and the chunks fit at the place in an atom, and in the table.
#[verifier::opaque]
pub open spec fn carriable(source: Seq<u8>, place: int) -> bool {
    let (track, chunks) = source_track(source)->Ok_0;
    let stbl = sample_table_of(source, track)->Ok_0;
    let tables = offset_tables(atoms_in(source, stbl.payload as int, stbl.end as int)->Ok_0);
    &&& source_track(source) is Ok
    &&& in_place(source, track)
    &&& tables.len() == 1
    &&& forall|i: int|
        0 <= i < chunks.len() ==> (#[trigger] chunks[i]).0 + chunks[i].1 <= source.len()
    &&& chunks_size(chunks) + 8 <= u32::MAX
    &&& place + chunks_size(chunks) <= if lists_narrow(tables[0]) {
        u32::MAX as int
    } else {
        usize::MAX as int
    }
}

/// The track takes its new ID, and is a telemetry track with one chunk offset table as before.
proof fn lemma_rename_owed(source: Seq<u8>, id: u32)
    requires
        source.len() <= usize::MAX,
        source_track(source) is Ok,
        in_place(source, source_track(source)->Ok_0.0),
        ({
            let stbl = sample_table_of(source, source_track(source)->Ok_0.0)->Ok_0;
            offset_tables(
                atoms_in(source, stbl.payload as int, stbl.end as int)->Ok_0,
            ).len() == 1
        }),
    ensures
        ({
            let (track, chunks) = source_track(source)->Ok_0;
            let stbl = sample_table_of(source, track)->Ok_0;
            let bytes = source.subrange(track.start as int, track.end as int);
            let renamed = with_track_id(bytes, id)->Ok_0;
            let there = offset_tables(
                atoms_in(source, stbl.payload as int, stbl.end as int)->Ok_0,
            )[0];
            let table = offset_table_of(renamed)->Ok_0;
            &&& with_track_id(bytes, id) is Ok
            &&& renamed.len() == bytes.len() == track.end - track.start
            &&& offset_table_of(renamed) is Ok
            &&& table.kind == there.kind
            &&& table.payload + 8 <= renamed.len()
            &&& be32(renamed, table.payload + 4) == chunks.len()
            &&& entries_end(table, chunks.len() as int) <= renamed.len()
        }),
{
    let (track, chunks) = source_track(source)->Ok_0;
    let start = track.start as int;
    let bytes = source.subrange(start, track.end as int);
    let root = alone(track);
    let limit = lemma_source_track(source);
    lemma_atom_alone(source, track, limit);
    lemma_telemetry_alone(source, track, bytes);
    let far = sample_table_of(source, track)->Ok_0;
    let stbl = sample_table_of(bytes, root)->Ok_0;
    let tables = sample_tables(source, far)->Ok_0;
    let tkhd = child_of(bytes, root, TKHD)->Ok_0;
    let at = id_field(bytes, root);
    lemma_child_inside(bytes, root, TKHD);
    assert(with_track_id(bytes, id) is Ok);
    let renamed = with_track_id(bytes, id)->Ok_0;
    lemma_track_renamed(bytes, renamed, root, stbl, tables, id);
    lemma_sample_table_moved(source, start, bytes, root);
    assert(atoms_in(bytes, stbl.payload as int, stbl.end as int) is Ok) by {
        reveal(telemetry);
    }
    lemma_listed_tables(source, start, bytes, stbl);
    lemma_renamed_tables(bytes, renamed, root, stbl, tkhd, at, id);
    let list = atoms_in(bytes, stbl.payload as int, stbl.end as int)->Ok_0;
    lemma_only_table(list);
    law_header_read(renamed, renamed.len() as int);
    assert(offset_table_of(renamed) == Ok::<Atom, Mp4Error>(offset_tables(list)[0]));
    lemma_entries_inside(renamed, root, stbl, tables, offset_tables(list)[0], chunks);
}

/// The children of the sample table of a track, listed from the track alone.
proof fn lemma_listed_tables(
    source: Seq<u8>,
    start: int,
    bytes: Seq<u8>,
    stbl: Atom,
)
    requires
        holds_at(source, start, bytes),
        stbl.payload <= stbl.end <= bytes.len(),
        offset_tables(
            atoms_in(
                source,
                moved(stbl, start).payload as int,
                moved(stbl, start).end as int,
            )->Ok_0,
        ).len() == 1,
        atoms_in(bytes, stbl.payload as int, stbl.end as int) is Ok,
    ensures
        ({
            let near = offset_tables(atoms_in(bytes, stbl.payload as int, stbl.end as int)->Ok_0);
            let far = offset_tables(
                atoms_in(
                    source,
                    moved(stbl, start).payload as int,
                    moved(stbl, start).end as int,
                )->Ok_0,
            );
            near.len() == 1 && far[0].kind == near[0].kind
        }),
{
    lemma_atoms_moved(source, start, bytes, stbl.payload as int, stbl.end as int);
    let list = atoms_in(bytes, stbl.payload as int, stbl.end as int)->Ok_0;
    lemma_tables_moved(list, start);
    assert(all_moved(offset_tables(list), start)[0] == moved(offset_tables(list)[0], start));
}

/// A new ID leaves the children of the sample table where they were.
proof fn lemma_renamed_tables(
    bytes: Seq<u8>,
    renamed: Seq<u8>,
    root: Atom,
    stbl: Atom,
    tkhd: Atom,
    at: int,
    id: u32,
)
    requires
        bytes.len() <= usize::MAX,
        root.end <= bytes.len(),
        child_of(bytes, root, TKHD) == Ok::<Atom, Mp4Error>(tkhd),
        tkhd.payload <= at,
        at + 4 <= tkhd.end <= bytes.len(),
        renamed == overwrite(bytes, at, be32_bytes(id)),
        sample_table_of(bytes, root) == Ok::<Atom, Mp4Error>(stbl),
        atoms_in(bytes, stbl.payload as int, stbl.end as int) is Ok,
    ensures
        sample_table_of(renamed, root) == Ok::<Atom, Mp4Error>(stbl),
        atoms_in(renamed, stbl.payload as int, stbl.end as int) == atoms_in(
            bytes,
            stbl.payload as int,
            stbl.end as int,
        ),
{
    assert(TKHD[0] != MDIA[0]);
    lemma_child_listed(bytes, root, TKHD);
    lemma_child_inside(bytes, root, TKHD);
    lemma_id_written(bytes, at, id);
    lemma_sample_table_patched(bytes, renamed, at, at + 4, root, tkhd);
}

/// The entries of the chunk offset table of a telemetry track, one for each chunk, are there.
proof fn lemma_entries_inside(
    bytes: Seq<u8>,
    root: Atom,
    stbl: Atom,
    tables: SampleTables,
    table: Atom,
    chunks: Seq<(usize, usize)>,
)
    requires
        telemetry(bytes, root, stbl, tables),
        stbl.end <= bytes.len(),
        first_offset_table(atoms_in(bytes, stbl.payload as int, stbl.end as int)->Ok_0) == Some(
            table,
        ),
        chunks_from(tables) == Ok::<Seq<(usize, usize)>, Mp4Error>(chunks),
    ensures
        table.payload + 8 <= bytes.len(),
        be32(bytes, table.payload + 4) == chunks.len(),
        entries_end(table, chunks.len() as int) <= bytes.len(),
{
    reveal(telemetry);
    assert(STSC[2] != STCO[2] && STSC[0] != CO64[0]);
    lemma_table_apart(bytes, stbl, STSC);
    law_chunks_laid_out(tables);
    lemma_collect_len(be32(bytes, table.payload + 4) as int, offset_reader(bytes, table));
    let count = chunks.len() as int;
    let width = entry_width(table);
    assert(count * width == width * count && count * width >= 0) by (nonlinear_arith)
        requires
            count >= 0,
            width >= 0,
    ;
}

/// A telemetry track that is carried to a place where it fits is carried.
proof fn lemma_carry_owed(source: Seq<u8>, id: u32, place: int)
    requires
        source.len() <= usize::MAX,
        0 <= place,
        carriable(source, place),
    ensures
        ({
            let (track, chunks) = source_track(source)->Ok_0;
            let carried = carried_track(source, track, chunks, id, place);
            carried is Ok && carried->Ok_0.0.len() == track.end - track.start
        }),
{
    let (track, chunks) = source_track(source)->Ok_0;
    let count = chunks.len() as int;
    reveal(carriable);
    lemma_rename_owed(source, id);
    let bytes = source.subrange(track.start as int, track.end as int);
    let renamed = with_track_id(bytes, id)->Ok_0;
    assert(chunks.take(count) =~= chunks);
    lemma_payload_grows(chunks, 0);
    law_packing_owed(source, chunks, place, count);
    let (offsets, payload) = gather(source, chunks, place, count)->Ok_0;
    lemma_gather_len(source, chunks, place, count);
    let table = offset_table_of(renamed)->Ok_0;
    lemma_lists_offsets(table);
    assert(lists_narrow(table) ==> forall|i: int|
        0 <= i < count ==> #[trigger] offsets[i] <= u32::MAX) by {
        assert forall|i: int| lists_narrow(table) && 0 <= i < count implies #[trigger] offsets[i]
            <= u32::MAX by {
            law_packed(source, chunks, place, i);
        }
    }
    lemma_offsets_owed(renamed, table, offsets, count);
}

/// A recording is spliced into a transcoded file wherever its telemetry track can be carried to the
/// place in front of the `moov` atom, that atom is the last, has readable track IDs and a header
/// without a 64-bit size, and the track fits into it.
pub proof fn law_spliced_owed(source: Seq<u8>, transcoded: Seq<u8>, moov: Atom)
    requires
        source.len() <= usize::MAX,
        transcoded.len() <= usize::MAX,
        output_moov(transcoded) == Ok::<Atom, SpliceError>(moov),
        track_ids_of(transcoded, moov) is Ok,
        carriable(source, moov.start + 8),
        be32(transcoded, moov.start as int) != 1,
        moov.end - moov.start + (source_track(source)->Ok_0.0.end
            - source_track(source)->Ok_0.0.start) <= u32::MAX,
    ensures
        spliced(source, transcoded) is Ok,
{
    let ids = track_ids_of(transcoded, moov)->Ok_0;
    let (track, chunks) = source_track(source)->Ok_0;
    let carried = carried_track(source, track, chunks, next_track_id(ids), moov.start + 8);
    let movie = transcoded.subrange(moov.start as int, moov.end as int);
    assert(source_track(source) is Ok) by {
        reveal(carriable);
    }
    lemma_output_moov_inside(transcoded);
    assert(carried is Ok && carried->Ok_0.0.len() == track.end - track.start) by {
        lemma_carry_owed(source, next_track_id(ids), moov.start + 8);
    }
    assert(be32(movie, 0) == be32(transcoded, moov.start as int)) by {
        assert(holds_at(transcoded, moov.start as int, movie)) by {
            reveal(same_from);
        }
        lemma_integers_moved(transcoded, moov.start as int, movie, 0);
    }
    law_append_owed(movie, carried->Ok_0.0);
}

/// A new ID changes the four bytes of the ID and no other.
pub proof fn law_only_id_changed(track: Seq<u8>, id: u32)
    requires
        with_track_id(track, id) is Ok,
    ensures
        ({
            let after = with_track_id(track, id)->Ok_0;
            let at = child_of(
                track,
                whole_track(track),
                [0x74, 0x6b, 0x68, 0x64],
            )->Ok_0.payload as int;
            let place = at + if track[at] == 1 {
                20int
            } else {
                12int
            };
            &&& after.len() == track.len()
            &&& be32(after, place) == id
            &&& forall|i: int|
                0 <= i < track.len() && !(place <= i < place + 4) ==> #[trigger] after[i] == track[i]
        }),
{
    assert(TKHD =~= [0x74, 0x6b, 0x68, 0x64]);
    let at = child_of(track, whole_track(track), TKHD)->Ok_0.payload as int;
    let place = at + if track[at] == 1 {
        20int
    } else {
        12int
    };
    law_u32_read_back(track, place, id);
}

/// New chunk offsets change the entries of the chunk offset table and no other byte; each entry holds
/// its offset, in 32 bits in `stco` and in 64 bits in `co64`.
pub proof fn law_only_offsets_changed(track: Seq<u8>, offsets: Seq<usize>)
    requires
        track.len() <= usize::MAX,
        with_chunk_offsets(track, offsets) is Ok,
    ensures
        ({
            let after = with_chunk_offsets(track, offsets)->Ok_0;
            let table = offset_table_of(track)->Ok_0;
            let narrow = table.kind@ == seq![0x73u8, 0x74, 0x63, 0x6f];
            let width = if narrow {
                4int
            } else {
                8int
            };
            let from = table.payload + 8;
            &&& after.len() == track.len()
            &&& forall|i: int|
                0 <= i < track.len() && !(from <= i < from + offsets.len() * width)
                    ==> #[trigger] after[i] == track[i]
            &&& forall|i: int|
                0 <= i < offsets.len() ==> #[trigger] offsets[i] == if narrow {
                    be32(after, from + i * 4) as int
                } else {
                    be64(after, from + i * 8) as int
                }
        }),
{
    let after = with_chunk_offsets(track, offsets)->Ok_0;
    let table = offset_table_of(track)->Ok_0;
    lemma_lists_offsets(table);
    lemma_with_offsets(track, table, offsets, offsets.len() as int);
    assert forall|i: int| 0 <= i < offsets.len() implies #[trigger] offsets[i] == if lists_narrow(
        table,
    ) {
        be32(after, table.payload + 8 + i * 4) as int
    } else {
        be64(after, table.payload + 8 + i * 8) as int
    } by {
        assert(offset_entry(after, table, i) == Ok::<usize, Mp4Error>(offsets[i]));
    }
}

/// A recording whose telemetry track cannot be found is refused for the reason why, and else a
/// transcoded file without a `moov` atom at its end is, whatever else is wrong.
pub proof fn law_splicing_refused(source: Seq<u8>, transcoded: Seq<u8>)
    ensures
        source_track(source) matches Err(error) ==> spliced(source, transcoded) == Err::<
            Seq<u8>,
            SpliceError,
        >(SpliceError::Mp4(error)),
        source_track(source) is Ok && output_moov(transcoded) is Err ==> spliced(source, transcoded)
            == Err::<Seq<u8>, SpliceError>(output_moov(transcoded)->Err_0),
        atoms_in(transcoded, 0, transcoded.len() as int) matches Err(error) ==> output_moov(
            transcoded,
        ) == Err::<Atom, SpliceError>(SpliceError::OutputAtoms(error)),
{
}

/// The telemetry track of a recording is that of its first complete `moov` atom.
pub proof fn law_source_track(source: Seq<u8>)
    ensures
        match top_until_moov(source, 0) {
            Ok(top) => source_track(source) == aimd_track_of(source, top.last()),
            Err(_) => source_track(source) == Err::<(Atom, Seq<(usize, usize)>), Mp4Error>(
                Mp4Error::NoCompleteMoov,
            ),
        },
{
    lemma_no_moov(source, 0);
}

proof fn lemma_no_moov(data: Seq<u8>, at: int)
    requires
        0 <= at,
    ensures
        top_until_moov(data, at) matches Err(error) ==> error == Mp4Error::NoCompleteMoov,
    decreases data.len() - at,
{
    if let Ok(atom) = atom_at(data, at, data.len() as int) {
        if atom.kind != MOOV {
            lemma_no_moov(data, atom.end as int);
        }
    }
}

} // verus!
