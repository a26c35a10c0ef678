//! What is written into a track or a movie atom reads back.

use crate::atoms::{atom_at, atoms_in, child_of, header_len, law_atoms_tile, Atom};
use crate::bytes::{be32, be32_bytes, kind_at, law_u32_read_back, overwrite};
use crate::carried::{
    entries_end, id_field, id_in_place, lemma_fits_apart, lemma_id_written, lemma_layout_placed,
    lemma_offset_table_in, lemma_table_apart, lemma_tables_written, offset_table_in,
    offsets_in_place, placed, samples_apart, tables_in_place,
};
use crate::error::Mp4Error;
use crate::kinds::{CO64, MDIA, STCO, STSC, STSZ, TKHD};
use crate::moved::{
    all_moved, holds_at, lemma_child_inside, lemma_child_moved, lemma_integers_moved, moved,
    same_from,
};
use crate::patch::{offset_table_of, root_atom, with_chunk_offsets, with_track, with_track_id};
use crate::patched::{
    lemma_atoms_patched, lemma_child_listed, lemma_content_spares, lemma_integers_patched,
    lemma_only_table, lemma_sample_table_patched, spares_headers,
};
use crate::retention::{lemma_last_children, sized};
use crate::track::{
    chunks_of, header_track_id, ids_among, lemma_collect_len, offset_reader, sample_table_of,
    sample_tables, track_id_place, track_ids_of,
};
use vstd::prelude::*;

verus! {

/// The track that some bytes hold, whatever the length of its header.
pub open spec fn whole_track(track: Seq<u8>) -> Atom {
    root_atom(track, header_len(track)->Ok_0)
}

/// Whether the ID of a track touches the header of no child of the track.
pub open spec fn id_spares(track: Seq<u8>) -> bool {
    let root = whole_track(track);
    spares_headers(
        atoms_in(track, root.payload as int, root.end as int)->Ok_0,
        id_field(track, root),
        id_field(track, root) + 4,
    )
}

/// An ID inside its track header touches the header of no child of the track.
pub proof fn law_id_in_place_spares(track: Seq<u8>)
    requires
        id_in_place(track, whole_track(track)),
    ensures
        id_spares(track),
{
    let root = whole_track(track);
    lemma_child_listed(track, root, TKHD);
    law_atoms_tile(track, root.payload as int, root.end as int);
    lemma_content_spares(
        atoms_in(track, root.payload as int, root.end as int)->Ok_0,
        root.payload as int,
        root.end as int,
        child_of(track, root, TKHD)->Ok_0,
        id_field(track, root),
        id_field(track, root) + 4,
    );
}

/// The ID that was written into a track is the one that its track header reads.
pub proof fn law_id_read_back(track: Seq<u8>, id: u32)
    requires
        track.len() <= usize::MAX,
        with_track_id(track, id) is Ok,
        id_spares(track),
    ensures
        ({
            let root = whole_track(track);
            let after = with_track_id(track, id)->Ok_0;
            &&& after.len() == track.len()
            &&& whole_track(after) == root
            &&& child_of(after, root, TKHD) == child_of(track, root, TKHD)
            &&& child_of(after, root, TKHD) matches Ok(tkhd) && header_track_id(after, tkhd) == Ok::<
                u32,
                Mp4Error,
            >(id)
        }),
{
    let root = whole_track(track);
    let after = with_track_id(track, id)->Ok_0;
    let tkhd = child_of(track, root, TKHD)->Ok_0;
    let at = id_field(track, root);
    lemma_child_inside(track, root, TKHD);
    lemma_id_written(track, at, id);
    lemma_atoms_patched(track, after, at, at + 4, root.payload as int, root.end as int);
    lemma_integers_patched(track, after, at, at + 4, 0);
    assert(after[tkhd.payload as int] == track[tkhd.payload as int]);
}

/// A movie whose last child is a track with a new ID lists this ID behind those of its other tracks.
pub proof fn law_id_listed(
    track: Seq<u8>,
    id: u32,
    data: Seq<u8>,
    base: int,
    moov: Atom,
    front: Seq<Atom>,
)
    requires
        track.len() <= usize::MAX,
        with_track_id(track, id) is Ok,
        id_spares(track),
        holds_at(data, base, with_track_id(track, id)->Ok_0),
        atoms_in(data, moov.payload as int, moov.end as int) == Ok::<Seq<Atom>, Mp4Error>(
            front.push(moved(whole_track(track), base)),
        ),
        ids_among(data, front) is Ok,
    ensures
        track_ids_of(data, moov) == Ok::<Seq<u32>, Mp4Error>(
            ids_among(data, front)->Ok_0.push(id),
        ),
{
    let root = whole_track(track);
    let after = with_track_id(track, id)->Ok_0;
    let tkhd = child_of(track, root, TKHD)->Ok_0;
    let all = front.push(moved(root, base));
    law_id_read_back(track, id);
    lemma_child_inside(track, root, TKHD);
    lemma_child_moved(data, base, after, root, TKHD);
    assert(data[base + tkhd.payload] == after[tkhd.payload as int]) by {
        reveal(same_from);
    }
    lemma_integers_moved(
        data,
        base,
        after,
        tkhd.payload + track_id_place(after[tkhd.payload as int]),
    );
    assert(all.drop_last() =~= front);
    assert(all.last() == moved(root, base));
}

/// Whether the `count` entries of the chunk offset table of a track lie inside the table, and apart
/// from all that is read of the other sample tables.
pub open spec fn offsets_apart(track: Seq<u8>, root: Atom, count: int) -> bool {
    let stbl = sample_table_of(track, root)->Ok_0;
    let table = offset_table_in(track, root)->0;
    &&& offsets_in_place(track, root, count)
    &&& samples_apart(
        track,
        child_of(track, stbl, STSC)->Ok_0,
        child_of(track, stbl, STSZ)->Ok_0,
        table.payload + 8,
        entries_end(table, count),
    )
}

/// The chunk offset table whose entries are written is the one that is read.
proof fn lemma_written_table(track: Seq<u8>, offsets: Seq<usize>)
    requires
        track.len() <= usize::MAX,
        with_chunk_offsets(track, offsets) is Ok,
    ensures
        offset_table_in(track, whole_track(track)) == Some(offset_table_of(track)->Ok_0),
        be32(track, offset_table_of(track)->Ok_0.payload + 4) == offsets.len(),
{
    let stbl = sample_table_of(track, whole_track(track))->Ok_0;
    lemma_only_table(atoms_in(track, stbl.payload as int, stbl.end as int)->Ok_0);
}

/// The chunk offsets that were written into a track are the ones that it reads, and its chunks have
/// the sizes that they had.
pub proof fn law_offsets_read_back(track: Seq<u8>, offsets: Seq<usize>)
    requires
        track.len() <= usize::MAX,
        with_chunk_offsets(track, offsets) is Ok,
        chunks_of(track, sample_table_of(track, whole_track(track))->Ok_0) is Ok,
        offsets_apart(track, whole_track(track), offsets.len() as int),
    ensures
        ({
            let root = whole_track(track);
            let stbl = sample_table_of(track, root)->Ok_0;
            let chunks = chunks_of(track, stbl)->Ok_0;
            let after = with_chunk_offsets(track, offsets)->Ok_0;
            &&& after.len() == track.len()
            &&& whole_track(after) == root
            &&& sample_table_of(after, root) == sample_table_of(track, root)
            &&& chunks.len() == offsets.len()
            &&& chunks_of(after, stbl) == Ok::<Seq<(usize, usize)>, Mp4Error>(
                placed(chunks, offsets),
            )
        }),
{
    let root = whole_track(track);
    let stbl = sample_table_of(track, root)->Ok_0;
    let after = with_chunk_offsets(track, offsets)->Ok_0;
    let count = offsets.len() as int;
    lemma_written_table(track, offsets);
    let table = offset_table_of(track)->Ok_0;
    let from = table.payload + 8;
    let to = entries_end(table, count);
    assert(from <= to) by (nonlinear_arith)
        requires
            from == table.payload + 8,
            to == entries_end(table, count),
            count >= 0,
    ;
    let stsc = child_of(track, stbl, STSC)->Ok_0;
    let stsz = child_of(track, stbl, STSZ)->Ok_0;
    lemma_tables_written(track, after, stsc, stsz, table, offsets);
    assert(STSC[2] != STCO[2] && STSC[0] != CO64[0]);
    lemma_table_apart(track, stbl, STSC);
    lemma_sample_table_patched(track, after, from, to, root, table);
    let tables = sample_tables(track, stbl)->Ok_0;
    lemma_collect_len(count, offset_reader(track, table));
    lemma_layout_placed(tables, offsets, count);
    lemma_offset_table_in(track, root);
    lemma_child_inside(track, root, MDIA);
    lemma_integers_patched(track, after, from, to, 0);
}

/// The entries of a chunk offset table lie apart from the other sample tables where each table lies
/// inside its own atom.
pub proof fn law_tables_in_place_apart(track: Seq<u8>, offsets: Seq<usize>)
    requires
        track.len() <= usize::MAX,
        with_chunk_offsets(track, offsets) is Ok,
        tables_in_place(track, sample_table_of(track, whole_track(track))->Ok_0),
    ensures
        offsets_apart(track, whole_track(track), offsets.len() as int),
{
    let root = whole_track(track);
    let stbl = sample_table_of(track, root)->Ok_0;
    lemma_written_table(track, offsets);
    let table = offset_table_of(track)->Ok_0;
    assert(STSC[2] != STCO[2] && STSC[0] != CO64[0]);
    assert(STSZ[3] != STCO[3] && STSZ[0] != CO64[0]);
    lemma_table_apart(track, stbl, STSC);
    lemma_table_apart(track, stbl, STSZ);
    lemma_fits_apart(
        track,
        child_of(track, stbl, STSC)->Ok_0,
        child_of(track, stbl, STSZ)->Ok_0,
        table,
        offsets.len() as int,
    );
}

/// A `moov` atom with one more track is an atom that fills its bytes, with the children that it had
/// and the track behind them.
pub proof fn law_track_appended(moov: Seq<u8>, track: Seq<u8>, whole: Atom)
    requires
        moov.len() + track.len() <= usize::MAX,
        with_track(moov, track) is Ok,
        atoms_in(moov, 8, moov.len() as int) is Ok,
        sized(moov, atoms_in(moov, 8, moov.len() as int)->Ok_0),
        atom_at(track, 0, track.len() as int) == Ok::<Atom, Mp4Error>(whole),
        whole.end == track.len(),
    ensures
        ({
            let after = with_track(moov, track)->Ok_0;
            &&& atom_at(after, 0, after.len() as int) == Ok::<Atom, Mp4Error>(
                (Atom {
                    start: 0,
                    payload: 8,
                    end: after.len() as usize,
                    kind: kind_at(moov, 4),
                }),
            )
            &&& atoms_in(after, 8, after.len() as int) == Ok::<Seq<Atom>, Mp4Error>(
                atoms_in(moov, 8, moov.len() as int)->Ok_0.push(
                    moved(whole, moov.len() as int),
                ),
            )
            &&& after.subrange(4, moov.len() as int) == moov.subrange(4, moov.len() as int)
            &&& after.subrange(moov.len() as int, after.len() as int) == track
        }),
{
    let after = with_track(moov, track)->Ok_0;
    let joined = moov + track;
    let content = moov.subrange(8, moov.len() as int);
    let old = atoms_in(moov, 8, moov.len() as int)->Ok_0;
    let size = joined.len() as u32;
    assert(after == overwrite(joined, 0, be32_bytes(size)));
    law_u32_read_back(joined, 0, size);
    assert(holds_at(moov, 8, content) && holds_at(after, 8, content) && holds_at(
        after,
        moov.len() as int,
        track,
    )) by {
        reveal(same_from);
    }
    lemma_last_children(moov, 8, content, after, 8, track, whole);
    assert(all_moved(old, 0) + seq![moved(whole, moov.len() as int)] =~= old.push(
        moved(whole, moov.len() as int),
    ));
    assert(kind_at(after, 4) == kind_at(moov, 4)) by {
        reveal(kind_at);
    }
    assert(after.subrange(4, moov.len() as int) =~= moov.subrange(4, moov.len() as int));
    assert(after.subrange(moov.len() as int, after.len() as int) =~= track);
}

} // verus!
