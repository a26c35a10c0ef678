//! What a spliced file keeps: the transcoded streams as they were, and the telemetry of the source.

use crate::atoms::{
    atom_at, atoms_in, child_of, first_of_kind, law_atoms_tile, lemma_first_of_kind,
    lemma_listed_atom, top_until_moov, Atom,
};
use crate::bytes::{be32, be32_bytes, be64, kind_at, law_u32_read_back, overwrite};
use crate::carried::{
    alone, id_field, id_in_place, in_place, lemma_carried, lemma_carried_bytes, lemma_carried_id,
    lemma_carried_root, lemma_in_place_spares, offsets_in_place, offsets_spare_header, placed,
    replaced,
};
use crate::error::{Mp4Error, SpliceError};
use crate::kinds::{MDAT, MOOV, TKHD, TRAK};
use crate::moved::{
    all_moved, holds_at, inside, lemma_atom_moved, lemma_atoms_moved, lemma_child_moved,
    lemma_integers_moved, lemma_sample_table_moved, lemma_sample_tables_moved,
    lemma_track_is_aimd_moved, moved, same_from,
};
use crate::patch::{offset_table_of, with_track, with_track_id};
use crate::splice::{
    carried_track, gather, highest, lemma_gather_len, lemma_output_moov_inside, mdat_atom,
    next_track_id, output_moov, source_track, spliced,
};
use crate::track::{
    aimd_track_of, chunks_of, first_aimd, header_track_id, ids_among, sample_table_of,
    sample_tables, track_id_place, track_ids_of, track_is_aimd,
};
use vstd::prelude::*;

verus! {

/// Whether `bytes` is `transcoded` with `payload` in a `mdat` atom in front of its `moov` atom
/// and with the track `carried` at the end of its `moov` atom.
pub open spec fn is_splice(
    transcoded: Seq<u8>,
    moov: Atom,
    payload: Seq<u8>,
    carried: Seq<u8>,
    bytes: Seq<u8>,
) -> bool {
    &&& output_moov(transcoded) == Ok::<Atom, SpliceError>(moov)
    &&& payload.len() + 8 <= u32::MAX
    &&& bytes.len() <= usize::MAX
    &&& with_track(transcoded.subrange(moov.start as int, moov.end as int), carried) is Ok
    &&& bytes == transcoded.subrange(0, moov.start as int) + mdat_atom(payload) + with_track(
        transcoded.subrange(moov.start as int, moov.end as int),
        carried,
    )->Ok_0
}

/// The `moov` atom of a spliced file.
pub open spec fn new_moov(front: int, payload: Seq<u8>, bytes: Seq<u8>) -> Atom {
    Atom {
        start: (front + 8int + payload.len()) as usize,
        payload: (front + 16 + payload.len()) as usize,
        end: bytes.len() as usize,
        kind: MOOV,
    }
}

/// What stands where in a spliced file: the first `front` bytes of the transcoded file, a `mdat`
/// atom, and a `moov` atom with the old content and one more track.
pub open spec fn splice_layout(
    transcoded: Seq<u8>,
    front: int,
    payload: Seq<u8>,
    carried: Seq<u8>,
    bytes: Seq<u8>,
) -> bool {
    let content = transcoded.subrange(front + 8, transcoded.len() as int);
    let start = front + 8 + payload.len();
    &&& 0 <= front
    &&& front + 8 <= transcoded.len()
    &&& bytes.len() == start + 8 + content.len() + carried.len()
    &&& bytes.len() <= usize::MAX
    &&& payload.len() + 8 <= u32::MAX
    &&& 8 + content.len() + carried.len() <= u32::MAX
    &&& forall|i: int| 0 <= i < front ==> #[trigger] bytes[i] == transcoded[i]
    &&& be32(bytes, front) == payload.len() + 8
    &&& kind_at(bytes, front + 4) == MDAT
    &&& holds_at(bytes, front + 8, payload)
    &&& be32(bytes, start) == 8 + content.len() + carried.len()
    &&& kind_at(bytes, start + 4) == MOOV
    &&& holds_at(bytes, start + 8, content)
    &&& holds_at(bytes, start + 8 + content.len(), carried)
    &&& holds_at(transcoded, front + 8, content)
}

#[verifier::rlimit(40)]
proof fn lemma_splice_bytes(
    transcoded: Seq<u8>,
    moov: Atom,
    payload: Seq<u8>,
    carried: Seq<u8>,
    bytes: Seq<u8>,
)
    requires
        is_splice(transcoded, moov, payload, carried, bytes),
    ensures
        moov.kind == MOOV,
        moov.start + 8 == moov.payload,
        moov.end == transcoded.len(),
        splice_layout(transcoded, moov.start as int, payload, carried, bytes),
{
    reveal(same_from);
    reveal(be32);
    reveal(kind_at);
    lemma_output_moov_inside(transcoded);
    let front = transcoded.subrange(0, moov.start as int);
    let old = transcoded.subrange(moov.start as int, moov.end as int);
    let joined = old + carried;
    let size = joined.len() as u32;
    let movie = overwrite(joined, 0, be32_bytes(size));
    let content = transcoded.subrange(moov.start + 8, transcoded.len() as int);
    let start = moov.start + 8 + payload.len();
    let mdat = mdat_atom(payload);
    let length = (payload.len() + 8) as u32;
    assert(be32_bytes(length).len() == 4);
    assert(mdat.len() == payload.len() + 8);
    assert(movie.len() == joined.len());
    assert(bytes == front + mdat + movie);
    // The header of the old atom.
    lemma_moov_header(transcoded, moov);
    // The new `mdat` atom.
    law_u32_read_back(Seq::new(4, |i: int| 0u8), 0, length);
    let alone = overwrite(Seq::new(4, |i: int| 0u8), 0, be32_bytes(length));
    assert forall|i: int| 0 <= i < 4 implies bytes[moov.start + i] == be32_bytes(length)[i] by {
        assert(bytes[moov.start + i] == mdat[i]);
    }
    assert forall|i: int| 0 <= i < 4 implies alone[i] == be32_bytes(length)[i] by {}
    assert(bytes[moov.start + 0] == alone[0]);
    assert(bytes[moov.start + 1] == alone[1]);
    assert(bytes[moov.start + 2] == alone[2]);
    assert(bytes[moov.start + 3] == alone[3]);
    assert(be32(bytes, moov.start as int) == length);
    assert forall|i: int| 0 <= i < 4 implies bytes[moov.start + 4 + i] == MDAT[i] by {
        assert(bytes[moov.start + 4 + i] == mdat[4 + i]);
    }
    assert(kind_at(bytes, moov.start + 4) =~= MDAT) by {
        assert(bytes[moov.start + 4 + 0] == MDAT[0]);
        assert(bytes[moov.start + 4 + 1] == MDAT[1]);
        assert(bytes[moov.start + 4 + 2] == MDAT[2]);
        assert(bytes[moov.start + 4 + 3] == MDAT[3]);
    }
    assert forall|i: int| 0 <= i < payload.len() implies #[trigger] bytes[moov.start + 8 + i]
        == payload[i] by {
        assert(bytes[moov.start + 8 + i] == mdat[8 + i]);
    }
    // The new `moov` atom.
    law_u32_read_back(joined, 0, size);
    assert forall|i: int| 0 <= i < movie.len() implies #[trigger] bytes[start + i] == movie[i] by {}
    assert(be32(bytes, start) == be32(movie, 0)) by {
        assert(bytes[start + 0] == movie[0]);
        assert(bytes[start + 1] == movie[1]);
        assert(bytes[start + 2] == movie[2]);
        assert(bytes[start + 3] == movie[3]);
    }
    assert(kind_at(bytes, start + 4) =~= kind_at(transcoded, moov.start + 4)) by {
        assert(bytes[start + 4] == movie[4] == transcoded[moov.start + 4]);
        assert(bytes[start + 5] == movie[5] == transcoded[moov.start + 5]);
        assert(bytes[start + 6] == movie[6] == transcoded[moov.start + 6]);
        assert(bytes[start + 7] == movie[7] == transcoded[moov.start + 7]);
    }
    assert forall|i: int| 0 <= i < content.len() implies #[trigger] bytes[start + 8 + i]
        == content[i] by {
        assert(bytes[start + (8 + i)] == movie[8 + i]);
    }
    assert forall|i: int| 0 <= i < carried.len() implies #[trigger] bytes[start + 8 + content.len()
        + i] == carried[i] by {
        assert(bytes[start + (8 + content.len() + i)] == movie[8 + content.len() + i]);
    }
}

/// The header of the `moov` atom of a transcoded file.
proof fn lemma_moov_header(transcoded: Seq<u8>, moov: Atom)
    requires
        output_moov(transcoded) == Ok::<Atom, SpliceError>(moov),
        transcoded.len() <= usize::MAX,
    ensures
        kind_at(transcoded, moov.start + 4) == MOOV,
        moov.start + 8 <= transcoded.len(),
        be32(transcoded, moov.start as int) != 1 ==> moov.payload == moov.start + 8,
        be32(transcoded, moov.start as int) == be32(
            transcoded.subrange(moov.start as int, moov.end as int),
            0,
        ),
{
    reveal(be32);
    reveal(kind_at);
    lemma_output_moov_inside(transcoded);
    let atoms = atoms_in(transcoded, 0, transcoded.len() as int)->Ok_0;
    lemma_first_of_kind(atoms, MOOV);
    let i = choose|i: int| 0 <= i < atoms.len() && atoms[i] == moov;
    lemma_listed_atom(transcoded, 0, transcoded.len() as int, i);
    let old = transcoded.subrange(moov.start as int, moov.end as int);
    assert(old[0] == transcoded[moov.start as int]);
    assert(old[1] == transcoded[moov.start + 1]);
    assert(old[2] == transcoded[moov.start + 2]);
    assert(old[3] == transcoded[moov.start + 3]);
}

/// An atom with an explicit size reads the same in front of another limit.
proof fn lemma_atom_other_limit(data: Seq<u8>, other: Seq<u8>, at: int, end: int, limit: int)
    requires
        0 <= at,
        atom_at(data, at, end) is Ok,
        be32(data, at) != 0,
        atom_at(data, at, end)->Ok_0.end <= limit <= other.len() <= usize::MAX,
        atom_at(data, at, end)->Ok_0.end <= data.len(),
        forall|i: int|
            at <= i < atom_at(data, at, end)->Ok_0.payload ==> #[trigger] other[i] == data[i],
    ensures
        atom_at(other, at, limit) == atom_at(data, at, end),
{
    reveal(be32);
    reveal(be64);
    reveal(kind_at);
    assert(other[at] == data[at]);
    assert(other[at + 1] == data[at + 1]);
    assert(other[at + 2] == data[at + 2]);
    assert(other[at + 3] == data[at + 3]);
    assert(other[at + 4] == data[at + 4]);
    assert(other[at + 5] == data[at + 5]);
    assert(other[at + 6] == data[at + 6]);
    assert(other[at + 7] == data[at + 7]);
    assert(kind_at(other, at + 4) == kind_at(data, at + 4));
    if be32(data, at) == 1 {
        assert(other[at + 8] == data[at + 8]);
        assert(other[at + 9] == data[at + 9]);
        assert(other[at + 10] == data[at + 10]);
        assert(other[at + 11] == data[at + 11]);
        assert(other[at + 12] == data[at + 12]);
        assert(other[at + 13] == data[at + 13]);
        assert(other[at + 14] == data[at + 14]);
        assert(other[at + 15] == data[at + 15]);
        assert(be64(other, at + 8) == be64(data, at + 8));
    }
}

/// The two atoms that take the place of the old `moov` atom.
proof fn lemma_new_atoms(
    transcoded: Seq<u8>,
    front: int,
    payload: Seq<u8>,
    carried: Seq<u8>,
    bytes: Seq<u8>,
)
    requires
        splice_layout(transcoded, front, payload, carried, bytes),
    ensures
        ({
            let mdat = Atom {
                start: front as usize,
                payload: (front + 8) as usize,
                end: (front + 8int + payload.len()) as usize,
                kind: MDAT,
            };
            let movie = new_moov(front, payload, bytes);
            &&& MDAT != MOOV
            &&& atoms_in(bytes, front, bytes.len() as int) == Ok::<Seq<Atom>, Mp4Error>(
                seq![mdat, movie],
            )
            &&& top_until_moov(bytes, front) == Ok::<Seq<Atom>, Mp4Error>(seq![mdat, movie])
        }),
{
    let mdat = Atom {
        start: front as usize,
        payload: (front + 8) as usize,
        end: (front + 8int + payload.len()) as usize,
        kind: MDAT,
    };
    let movie = new_moov(front, payload, bytes);
    let end = bytes.len() as int;
    let start = front + 8 + payload.len();
    assert(MDAT[1] != MOOV[1]);
    assert(atom_at(bytes, front, end) == Ok::<Atom, Mp4Error>(mdat));
    assert(atom_at(bytes, start, end) == Ok::<Atom, Mp4Error>(movie));
    assert(atoms_in(bytes, end, end) == Ok::<Seq<Atom>, Mp4Error>(Seq::empty()));
    assert(seq![movie] + Seq::<Atom>::empty() =~= seq![movie]);
    assert(atoms_in(bytes, start, end) == Ok::<Seq<Atom>, Mp4Error>(seq![movie]));
    assert(seq![mdat] + seq![movie] =~= seq![mdat, movie]);
    assert(top_until_moov(bytes, start) == Ok::<Seq<Atom>, Mp4Error>(seq![movie]));
}

/// Whether the first `moov` atom from `at` on, to the end of a file, is found to be the given one.
pub open spec fn finds_moov(data: Seq<u8>, at: int, moov: Atom) -> bool {
    &&& atoms_in(data, at, data.len() as int) is Ok
    &&& first_of_kind(atoms_in(data, at, data.len() as int)->Ok_0, MOOV) == Some(moov)
    &&& top_until_moov(data, at) is Ok
    &&& top_until_moov(data, at)->Ok_0.len() > 0
    &&& top_until_moov(data, at)->Ok_0.last() == moov
}

/// An atom of another type is passed over.
proof fn lemma_finds_behind(data: Seq<u8>, at: int, moov: Atom)
    requires
        0 <= at < data.len(),
        atom_at(data, at, data.len() as int) is Ok,
        atom_at(data, at, data.len() as int)->Ok_0.kind != MOOV,
        finds_moov(data, atom_at(data, at, data.len() as int)->Ok_0.end as int, moov),
    ensures
        finds_moov(data, at, moov),
{
    let first = atom_at(data, at, data.len() as int)->Ok_0;
    let rest = atoms_in(data, first.end as int, data.len() as int)->Ok_0;
    assert((seq![first] + rest).drop_first() =~= rest);
    assert((seq![first] + rest)[0] == first);
    let top = top_until_moov(data, first.end as int)->Ok_0;
    assert((seq![first] + top).last() == top.last());
}

/// An atom in front of what was changed reads the same.
proof fn lemma_front_atom(transcoded: Seq<u8>, bytes: Seq<u8>, front: int, at: int)
    requires
        0 <= at,
        front < transcoded.len(),
        front <= bytes.len() <= usize::MAX,
        forall|i: int| 0 <= i < front ==> #[trigger] bytes[i] == transcoded[i],
        atom_at(transcoded, at, transcoded.len() as int) is Ok,
        atom_at(transcoded, at, transcoded.len() as int)->Ok_0.end <= front,
    ensures
        atom_at(bytes, at, bytes.len() as int) == atom_at(transcoded, at, transcoded.len() as int),
{
    lemma_atom_other_limit(transcoded, bytes, at, transcoded.len() as int, bytes.len() as int);
}

/// The `moov` atom of a spliced file is found at its new place, from any atom in front of it.
proof fn lemma_new_top(
    transcoded: Seq<u8>,
    moov: Atom,
    payload: Seq<u8>,
    carried: Seq<u8>,
    bytes: Seq<u8>,
    at: int,
)
    requires
        splice_layout(transcoded, moov.start as int, payload, carried, bytes),
        0 <= at <= moov.start,
        atoms_in(transcoded, at, transcoded.len() as int) is Ok,
        first_of_kind(atoms_in(transcoded, at, transcoded.len() as int)->Ok_0, MOOV) == Some(moov),
    ensures
        finds_moov(bytes, at, new_moov(moov.start as int, payload, bytes)),
    decreases moov.start - at,
{
    let movie = new_moov(moov.start as int, payload, bytes);
    let end = transcoded.len() as int;
    let first = atom_at(transcoded, at, end)->Ok_0;
    let rest = atoms_in(transcoded, first.end as int, end)->Ok_0;
    let list = seq![first] + rest;
    assert(list.drop_first() =~= rest);
    assert(list[0] == first);
    if first.kind == MOOV {
        lemma_new_atoms(transcoded, moov.start as int, payload, carried, bytes);
        let mdat = atoms_in(bytes, at, bytes.len() as int)->Ok_0[0];
        let new = seq![mdat, movie];
        assert(new.drop_first() =~= seq![movie]);
        assert(first_of_kind(seq![movie], MOOV) == Some(movie));
    } else {
        assert(first.end <= moov.start) by {
            lemma_first_of_kind(rest, MOOV);
            law_atoms_tile(transcoded, first.end as int, end);
        }
        lemma_front_atom(transcoded, bytes, moov.start as int, at);
        lemma_new_top(transcoded, moov, payload, carried, bytes, first.end as int);
        lemma_finds_behind(bytes, at, movie);
    }
}

/// Whether the header of each of some atoms gives its size, none of them only reaching to the end.
pub open spec fn sized(data: Seq<u8>, atoms: Seq<Atom>) -> bool {
    forall|i: int| 0 <= i < atoms.len() ==> be32(data, (#[trigger] atoms[i]).start as int) != 0
}

/// Whether an atom is anything but a telemetry track or a track of which that cannot be told.
#[verifier::opaque]
pub open spec fn not_aimd(data: Seq<u8>, atom: Atom) -> bool {
    atom.kind == TRAK ==> track_is_aimd(data, atom) == Ok::<bool, Mp4Error>(false)
}

/// Whether none of some atoms is a telemetry track, or a track of which that cannot be told.
pub open spec fn none_aimd(data: Seq<u8>, atoms: Seq<Atom>) -> bool {
    forall|i: int| 0 <= i < atoms.len() ==> #[trigger] not_aimd(data, atoms[i])
}

/// The first telemetry track among some atoms, with its chunks.
#[verifier::opaque]
spec fn found_among(data: Seq<u8>, atoms: Seq<Atom>) -> Result<
    (Atom, Seq<(usize, usize)>),
    Mp4Error,
> {
    first_aimd(data, atoms)
}

/// Whether a track holds telemetry in the given chunks.
#[verifier::opaque]
pub open spec fn holds_telemetry(data: Seq<u8>, track: Atom, chunks: Seq<(usize, usize)>) -> bool {
    let stbl = sample_table_of(data, track)->Ok_0;
    &&& track_is_aimd(data, track) == Ok::<bool, Mp4Error>(true)
    &&& sample_tables(data, stbl) is Ok
    &&& chunks_of(data, stbl) == Ok::<Seq<(usize, usize)>, Mp4Error>(chunks)
}

/// An atom of some content, as it is found where the content is followed by other bytes.
proof fn lemma_followed_atom(bytes: Seq<u8>, base: int, content: Seq<u8>, at: int)
    requires
        holds_at(bytes, base, content),
        0 <= at,
        atom_at(content, at, content.len() as int) is Ok,
        be32(content, at) != 0,
    ensures
        atom_at(bytes, base + at, bytes.len() as int) == Ok::<Atom, Mp4Error>(
            moved(atom_at(content, at, content.len() as int)->Ok_0, base),
        ),
        at < atom_at(content, at, content.len() as int)->Ok_0.end <= content.len(),
{
    let behind = base + content.len();
    assert(atom_at(bytes, base + at, behind) == Ok::<Atom, Mp4Error>(
        moved(atom_at(content, at, content.len() as int)->Ok_0, base),
    )) by {
        lemma_atom_moved(bytes, base, content, at, content.len() as int);
    }
    assert(be32(bytes, base + at) != 0) by {
        lemma_integers_moved(bytes, base, content, at);
    }
    lemma_atom_other_limit(bytes, bytes, base + at, behind, bytes.len() as int);
}

/// An atom that fills the last bytes of a file.
proof fn lemma_last_atom(bytes: Seq<u8>, behind: int, carried: Seq<u8>, whole: Atom)
    requires
        holds_at(bytes, behind, carried),
        behind + carried.len() == bytes.len(),
        atom_at(carried, 0, carried.len() as int) == Ok::<Atom, Mp4Error>(whole),
        whole.end == carried.len(),
    ensures
        atoms_in(bytes, behind, bytes.len() as int) == Ok::<Seq<Atom>, Mp4Error>(
            seq![moved(whole, behind)],
        ),
{
    let end = bytes.len() as int;
    assert(atom_at(bytes, behind, end) == Ok::<Atom, Mp4Error>(moved(whole, behind))) by {
        lemma_atom_moved(bytes, behind, carried, 0, carried.len() as int);
    }
    assert(atoms_in(bytes, end, end) == Ok::<Seq<Atom>, Mp4Error>(Seq::empty()));
    assert(seq![moved(whole, behind)] + Seq::<Atom>::empty() =~= seq![moved(whole, behind)]);
    assert(behind < end);
}

/// The atoms of some content that is followed by one more atom.
#[verifier::rlimit(40)]
proof fn lemma_new_children(
    bytes: Seq<u8>,
    base: int,
    content: Seq<u8>,
    carried: Seq<u8>,
    at: int,
    whole: Atom,
)
    requires
        holds_at(bytes, base, content),
        holds_at(bytes, base + content.len(), carried),
        base + content.len() + carried.len() == bytes.len(),
        0 <= at <= content.len(),
        atoms_in(content, at, content.len() as int) is Ok,
        sized(content, atoms_in(content, at, content.len() as int)->Ok_0),
        atom_at(carried, 0, carried.len() as int) == Ok::<Atom, Mp4Error>(whole),
        whole.end == carried.len(),
    ensures
        atoms_in(bytes, base + at, bytes.len() as int) == Ok::<Seq<Atom>, Mp4Error>(
            all_moved(atoms_in(content, at, content.len() as int)->Ok_0, base) + seq![
                moved(whole, base + content.len()),
            ],
        ),
    decreases content.len() - at,
{
    let behind = base + content.len();
    let last = moved(whole, behind);
    let list = atoms_in(content, at, content.len() as int)->Ok_0;
    if at == content.len() {
        lemma_last_atom(bytes, behind, carried, whole);
        assert(all_moved(list, base) + seq![last] =~= seq![last]);
    } else {
        let first = atom_at(content, at, content.len() as int)->Ok_0;
        let rest = atoms_in(content, first.end as int, content.len() as int)->Ok_0;
        assert(list == seq![first] + rest);
        assert(list[0] == first);
        assert(first.start == at);
        lemma_followed_atom(bytes, base, content, at);
        assert(sized(content, rest)) by {
            assert forall|i: int| 0 <= i < rest.len() implies be32(
                content,
                (#[trigger] rest[i]).start as int,
            ) != 0 by {
                assert(list[i + 1] == rest[i]);
            }
        }
        lemma_new_children(bytes, base, content, carried, first.end as int, whole);
        assert(seq![moved(first, base)] + (all_moved(rest, base) + seq![last]) =~= all_moved(
            list,
            base,
        ) + seq![last]);
    }
}

/// Atoms that are no telemetry tracks are passed over.
proof fn lemma_passed_over(data: Seq<u8>, atoms: Seq<Atom>, track: Atom)
    requires
        none_aimd(data, atoms),
    ensures
        found_among(data, atoms + seq![track]) == found_among(data, seq![track]),
    decreases atoms.len(),
{
    let all = atoms + seq![track];
    if atoms.len() == 0 {
        assert(all =~= seq![track]);
    } else {
        let rest = atoms.drop_first();
        assert(all[0] == atoms[0]);
        assert(all.drop_first() =~= rest + seq![track]);
        assert forall|i: int| 0 <= i < rest.len() implies #[trigger] not_aimd(data, rest[i]) by {
            assert(not_aimd(data, atoms[i + 1]));
        }
        lemma_passed_over(data, rest, track);
        assert(not_aimd(data, atoms[0]));
        assert(found_among(data, all) == found_among(data, all.drop_first())) by {
            reveal(found_among);
            reveal(not_aimd);
        }
    }
}

/// What stands behind what in the packed chunks.
proof fn lemma_gathered(
    source: Seq<u8>,
    chunks: Seq<(usize, usize)>,
    place: int,
    count: int,
    i: int,
)
    requires
        0 <= place,
        0 <= i < count <= chunks.len(),
        gather(source, chunks, place, count) is Ok,
    ensures
        ({
            let (offsets, payload) = gather(source, chunks, place, count)->Ok_0;
            let (offset, size) = chunks[i];
            let at = offsets[i] - place;
            &&& offsets.len() == count
            &&& offset + size <= source.len()
            &&& 0 <= at
            &&& at + size <= payload.len()
            &&& payload.subrange(at, at + size) == source.subrange(offset as int, offset + size)
        }),
    decreases count,
{
    lemma_gather_len(source, chunks, place, count);
    lemma_gather_len(source, chunks, place, count - 1);
    let (offsets, payload) = gather(source, chunks, place, count)->Ok_0;
    let (before, packed) = gather(source, chunks, place, count - 1)->Ok_0;
    let (offset, size) = chunks[i];
    if i < count - 1 {
        lemma_gathered(source, chunks, place, count - 1, i);
        let at = offsets[i] - place;
        assert(payload.subrange(at, at + size) =~= packed.subrange(at, at + size));
    } else {
        let at = offsets[i] - place;
        assert(at == packed.len());
        assert(payload.subrange(at, at + size) =~= source.subrange(offset as int, offset + size));
    }
}

/// What a spliced file is made of.
proof fn lemma_spliced_parts(source: Seq<u8>, transcoded: Seq<u8>)
    requires
        spliced(source, transcoded) is Ok,
        spliced(source, transcoded)->Ok_0.len() <= usize::MAX,
    ensures
        ({
            let bytes = spliced(source, transcoded)->Ok_0;
            let (track, chunks) = source_track(source)->Ok_0;
            let moov = output_moov(transcoded)->Ok_0;
            let ids = track_ids_of(transcoded, moov)->Ok_0;
            let id = next_track_id(ids);
            let (carried, payload) = carried_track(
                source,
                track,
                chunks,
                id,
                moov.start + 8,
            )->Ok_0;
            &&& source_track(source) is Ok
            &&& output_moov(transcoded) is Ok
            &&& track_ids_of(transcoded, moov) is Ok
            &&& carried_track(source, track, chunks, id, moov.start + 8) is Ok
            &&& gather(source, chunks, moov.start + 8, chunks.len() as int) is Ok
            &&& payload == gather(source, chunks, moov.start + 8, chunks.len() as int)->Ok_0.1
            &&& is_splice(transcoded, moov, payload, carried, bytes)
        }),
{
    let (track, chunks) = source_track(source)->Ok_0;
    let moov = output_moov(transcoded)->Ok_0;
    lemma_gather_len(source, chunks, moov.start + 8, chunks.len() as int);
    assert(chunks.take(chunks.len() as int) =~= chunks);
}

/// The atoms at the end of a file, listed by their places there and in the last bytes alone.
proof fn lemma_last_atoms(data: Seq<u8>, front: int, content: Seq<u8>)
    requires
        holds_at(data, front, content),
        front + content.len() == data.len(),
        atoms_in(data, front, data.len() as int) is Ok,
    ensures
        ({
            let list = atoms_in(content, 0, content.len() as int)->Ok_0;
            &&& atoms_in(content, 0, content.len() as int) is Ok
            &&& atoms_in(data, front, data.len() as int)->Ok_0 == all_moved(list, front)
            &&& forall|i: int|
                0 <= i < list.len() ==> inside(#[trigger] list[i], content) && list[i].start + 8
                    <= list[i].payload
        }),
{
    lemma_atoms_moved(data, front, content, 0, content.len() as int);
    law_atoms_tile(content, 0, content.len() as int);
}

proof fn lemma_last_sized(data: Seq<u8>, front: int, content: Seq<u8>)
    requires
        holds_at(data, front, content),
        front + content.len() == data.len(),
        atoms_in(data, front, data.len() as int) is Ok,
        sized(data, atoms_in(data, front, data.len() as int)->Ok_0),
    ensures
        sized(content, atoms_in(content, 0, content.len() as int)->Ok_0),
{
    lemma_last_atoms(data, front, content);
    let atoms = atoms_in(data, front, data.len() as int)->Ok_0;
    let list = atoms_in(content, 0, content.len() as int)->Ok_0;
    assert forall|i: int| 0 <= i < list.len() implies be32(
        content,
        (#[trigger] list[i]).start as int,
    ) != 0 by {
        assert(inside(list[i], content));
        assert(atoms[i] == moved(list[i], front));
        lemma_integers_moved(data, front, content, list[i].start as int);
    }
}

/// A track at the end of a file that is no telemetry track is none elsewhere.
proof fn lemma_not_aimd_moved(
    data: Seq<u8>,
    front: int,
    content: Seq<u8>,
    bytes: Seq<u8>,
    base: int,
    track: Atom,
)
    requires
        holds_at(data, front, content),
        front + content.len() == data.len(),
        holds_at(bytes, base, content),
        inside(track, content),
        not_aimd(data, moved(track, front)),
    ensures
        not_aimd(bytes, moved(track, base)),
{
    reveal(not_aimd);
    lemma_track_is_aimd_moved(data, front, content, track);
    lemma_track_is_aimd_moved(bytes, base, content, track);
}

/// Tracks at the end of a file that are no telemetry tracks are none elsewhere.
proof fn lemma_last_none(data: Seq<u8>, front: int, content: Seq<u8>, bytes: Seq<u8>, base: int)
    requires
        holds_at(data, front, content),
        front + content.len() == data.len(),
        holds_at(bytes, base, content),
        atoms_in(data, front, data.len() as int) is Ok,
        none_aimd(data, atoms_in(data, front, data.len() as int)->Ok_0),
    ensures
        none_aimd(bytes, all_moved(atoms_in(content, 0, content.len() as int)->Ok_0, base)),
{
    lemma_last_atoms(data, front, content);
    let atoms = atoms_in(data, front, data.len() as int)->Ok_0;
    let list = atoms_in(content, 0, content.len() as int)->Ok_0;
    let new = all_moved(list, base);
    assert forall|i: int| 0 <= i < new.len() implies #[trigger] not_aimd(bytes, new[i]) by {
        assert(not_aimd(data, atoms[i]));
        assert(atoms[i] == moved(list[i], front));
        assert(new[i] == moved(list[i], base));
        assert(inside(list[i], content));
        lemma_not_aimd_moved(data, front, content, bytes, base, list[i]);
    }
}

/// Some atoms moved twice.
proof fn lemma_moved_twice(atoms: Seq<Atom>, first: int, second: int, len: int)
    requires
        0 <= first,
        0 <= second,
        first + second + len <= usize::MAX,
        forall|i: int|
            0 <= i < atoms.len() ==> (#[trigger] atoms[i]).start <= len && atoms[i].payload <= len
                && atoms[i].end <= len,
    ensures
        all_moved(all_moved(atoms, first), second) == all_moved(atoms, first + second),
{
    assert(all_moved(all_moved(atoms, first), second) =~= all_moved(atoms, first + second));
}

/// The atoms at the end of a file, with other bytes in front of them and one more atom behind them.
pub proof fn lemma_last_children(
    data: Seq<u8>,
    front: int,
    content: Seq<u8>,
    bytes: Seq<u8>,
    base: int,
    carried: Seq<u8>,
    whole: Atom,
)
    requires
        holds_at(data, front, content),
        front + content.len() == data.len(),
        atoms_in(data, front, data.len() as int) is Ok,
        sized(data, atoms_in(data, front, data.len() as int)->Ok_0),
        front <= base,
        holds_at(bytes, base, content),
        holds_at(bytes, base + content.len(), carried),
        base + content.len() + carried.len() == bytes.len(),
        atom_at(carried, 0, carried.len() as int) == Ok::<Atom, Mp4Error>(whole),
        whole.end == carried.len(),
    ensures
        atoms_in(bytes, base, bytes.len() as int) == Ok::<Seq<Atom>, Mp4Error>(
            all_moved(atoms_in(data, front, data.len() as int)->Ok_0, base - front) + seq![
                moved(whole, bytes.len() - carried.len()),
            ],
        ),
{
    lemma_last_atoms(data, front, content);
    lemma_last_sized(data, front, content);
    let list = atoms_in(content, 0, content.len() as int)->Ok_0;
    law_atoms_tile(content, 0, content.len() as int);
    lemma_moved_twice(list, front, base - front, content.len() as int);
    lemma_new_children(bytes, base, content, carried, 0, whole);
}

/// The children of the `moov` atom of a transcoded file.
pub open spec fn old_children(transcoded: Seq<u8>) -> Seq<Atom> {
    let moov = output_moov(transcoded)->Ok_0;
    atoms_in(transcoded, moov.payload as int, moov.end as int)->Ok_0
}

/// What a spliced file is made of, and where its `moov` atom is found.
proof fn lemma_spliced_layout(source: Seq<u8>, transcoded: Seq<u8>)
    requires
        source.len() <= usize::MAX,
        spliced(source, transcoded) is Ok,
        spliced(source, transcoded)->Ok_0.len() <= usize::MAX,
    ensures
        ({
            let bytes = spliced(source, transcoded)->Ok_0;
            let (track, chunks) = source_track(source)->Ok_0;
            let moov = output_moov(transcoded)->Ok_0;
            let id = next_track_id(track_ids_of(transcoded, moov)->Ok_0);
            let (carried, payload) = carried_track(
                source,
                track,
                chunks,
                id,
                moov.start + 8,
            )->Ok_0;
            let movie = new_moov(moov.start as int, payload, bytes);
            &&& output_moov(transcoded) is Ok
            &&& moov.payload == moov.start + 8
            &&& moov.end == transcoded.len()
            &&& atoms_in(transcoded, moov.payload as int, moov.end as int) is Ok
            &&& splice_layout(transcoded, moov.start as int, payload, carried, bytes)
            &&& output_moov(bytes) == Ok::<Atom, SpliceError>(movie)
            &&& source_track(bytes) == aimd_track_of(bytes, movie)
            &&& carried.len() == track.end - track.start
            &&& track.start + 8 <= track.payload <= track.end
            &&& atom_at(carried, 0, carried.len() as int) == Ok::<Atom, Mp4Error>(alone(track))
        }),
{
    lemma_spliced_parts(source, transcoded);
    let bytes = spliced(source, transcoded)->Ok_0;
    let (track, chunks) = source_track(source)->Ok_0;
    let moov = output_moov(transcoded)->Ok_0;
    let id = next_track_id(track_ids_of(transcoded, moov)->Ok_0);
    let (carried, payload) = carried_track(source, track, chunks, id, moov.start + 8)->Ok_0;
    lemma_splice_bytes(transcoded, moov, payload, carried, bytes);
    lemma_new_top(transcoded, moov, payload, carried, bytes, 0);
    lemma_carried_root(source, id, moov.start + 8);
}

/// Splicing keeps the transcoded file: everything in front of the `moov` atom stays in its place,
/// and the content of the `moov` atom stays as it was, with one track behind it.
#[verifier::rlimit(40)]
pub proof fn law_transcoded_kept(source: Seq<u8>, transcoded: Seq<u8>)
    requires
        source.len() <= usize::MAX,
        spliced(source, transcoded) is Ok,
        spliced(source, transcoded)->Ok_0.len() <= usize::MAX,
    ensures
        ({
            let bytes = spliced(source, transcoded)->Ok_0;
            let moov = output_moov(transcoded)->Ok_0;
            let movie = output_moov(bytes)->Ok_0;
            let track = source_track(source)->Ok_0.0;
            let kept = moov.end - moov.payload;
            &&& output_moov(bytes) is Ok
            &&& bytes.subrange(0, moov.start as int) == transcoded.subrange(0, moov.start as int)
            &&& bytes.subrange(movie.payload as int, movie.payload + kept) == transcoded.subrange(
                moov.payload as int,
                moov.end as int,
            )
            &&& movie.payload + kept + (track.end - track.start) == movie.end == bytes.len()
        }),
{
    let bytes = spliced(source, transcoded)->Ok_0;
    let moov = output_moov(transcoded)->Ok_0;
    let movie = output_moov(bytes)->Ok_0;
    let kept = moov.end - moov.payload;
    let content = transcoded.subrange(moov.payload as int, moov.end as int);
    lemma_spliced_layout(source, transcoded);
    assert(bytes.subrange(0, moov.start as int) =~= transcoded.subrange(0, moov.start as int));
    assert(bytes.subrange(movie.payload as int, movie.payload + kept) == content) by {
        lemma_part_bytes(bytes, movie.payload as int, content, 0, kept);
        assert(content.subrange(0, kept) =~= content);
    }
}

/// The children of the `moov` atom of a spliced file.
proof fn lemma_children_of_splice(
    transcoded: Seq<u8>,
    moov: Atom,
    payload: Seq<u8>,
    carried: Seq<u8>,
    bytes: Seq<u8>,
    whole: Atom,
)
    requires
        splice_layout(transcoded, moov.start as int, payload, carried, bytes),
        moov.payload == moov.start + 8,
        moov.end == transcoded.len(),
        atoms_in(transcoded, moov.payload as int, moov.end as int) is Ok,
        sized(transcoded, atoms_in(transcoded, moov.payload as int, moov.end as int)->Ok_0),
        atom_at(carried, 0, carried.len() as int) == Ok::<Atom, Mp4Error>(whole),
        whole.end == carried.len(),
    ensures
        ({
            let movie = new_moov(moov.start as int, payload, bytes);
            let children = atoms_in(transcoded, moov.payload as int, moov.end as int)->Ok_0;
            atoms_in(bytes, movie.payload as int, movie.end as int) == Ok::<Seq<Atom>, Mp4Error>(
                all_moved(children, movie.payload - moov.payload) + seq![
                    moved(whole, bytes.len() - carried.len()),
                ],
            )
        }),
{
    let movie = new_moov(moov.start as int, payload, bytes);
    let content = transcoded.subrange(moov.payload as int, moov.end as int);
    lemma_last_children(
        transcoded,
        moov.payload as int,
        content,
        bytes,
        movie.payload as int,
        carried,
        whole,
    );
}

/// Splicing keeps every child of the `moov` atom, and adds one track behind them.
pub proof fn law_tracks_kept(source: Seq<u8>, transcoded: Seq<u8>)
    requires
        source.len() <= usize::MAX,
        spliced(source, transcoded) is Ok,
        spliced(source, transcoded)->Ok_0.len() <= usize::MAX,
        sized(transcoded, old_children(transcoded)),
    ensures
        ({
            let bytes = spliced(source, transcoded)->Ok_0;
            let moov = output_moov(transcoded)->Ok_0;
            let movie = output_moov(bytes)->Ok_0;
            let track = source_track(source)->Ok_0.0;
            &&& output_moov(bytes) is Ok
            &&& atoms_in(bytes, movie.payload as int, movie.end as int) == Ok::<
                Seq<Atom>,
                Mp4Error,
            >(
                all_moved(old_children(transcoded), movie.payload - moov.payload) + seq![
                    moved(alone(track), bytes.len() - (track.end - track.start)),
                ],
            )
        }),
{
    lemma_spliced_layout(source, transcoded);
    let bytes = spliced(source, transcoded)->Ok_0;
    let (track, chunks) = source_track(source)->Ok_0;
    let moov = output_moov(transcoded)->Ok_0;
    let movie = output_moov(bytes)->Ok_0;
    let id = next_track_id(track_ids_of(transcoded, moov)->Ok_0);
    let (carried, payload) = carried_track(source, track, chunks, id, moov.start + 8)->Ok_0;
    lemma_children_of_splice(transcoded, moov, payload, carried, bytes, alone(track));
}

/// A telemetry track reads the same wherever it stands.
proof fn lemma_last_found(
    bytes: Seq<u8>,
    behind: int,
    carried: Seq<u8>,
    whole: Atom,
    chunks: Seq<(usize, usize)>,
)
    requires
        holds_at(bytes, behind, carried),
        inside(whole, carried),
        whole.kind == TRAK,
        holds_telemetry(carried, whole, chunks),
    ensures
        found_among(bytes, seq![moved(whole, behind)]) == Ok::<
            (Atom, Seq<(usize, usize)>),
            Mp4Error,
        >((moved(whole, behind), chunks)),
{
    reveal(found_among);
    reveal(holds_telemetry);
    let last = moved(whole, behind);
    assert(track_is_aimd(bytes, last) == Ok::<bool, Mp4Error>(true)) by {
        lemma_track_is_aimd_moved(bytes, behind, carried, whole);
    }
    let stbl = sample_table_of(carried, whole)->Ok_0;
    assert(sample_table_of(bytes, last) == Ok::<Atom, Mp4Error>(moved(stbl, behind)) && inside(
        stbl,
        carried,
    )) by {
        lemma_sample_table_moved(bytes, behind, carried, whole);
    }
    assert(chunks_of(bytes, moved(stbl, behind)) == chunks_of(carried, stbl)) by {
        lemma_sample_tables_moved(bytes, behind, carried, stbl);
    }
    assert(seq![last][0] == last);
}

/// Tracks at the end of a file that are no telemetry tracks are passed over elsewhere too.
proof fn lemma_others_passed(
    data: Seq<u8>,
    front: int,
    content: Seq<u8>,
    bytes: Seq<u8>,
    base: int,
    last: Atom,
)
    requires
        holds_at(data, front, content),
        front + content.len() == data.len(),
        atoms_in(data, front, data.len() as int) is Ok,
        none_aimd(data, atoms_in(data, front, data.len() as int)->Ok_0),
        front <= base,
        holds_at(bytes, base, content),
    ensures
        found_among(
            bytes,
            all_moved(atoms_in(data, front, data.len() as int)->Ok_0, base - front) + seq![last],
        ) == found_among(bytes, seq![last]),
{
    let atoms = atoms_in(data, front, data.len() as int)->Ok_0;
    let list = atoms_in(content, 0, content.len() as int)->Ok_0;
    assert(all_moved(atoms, base - front) == all_moved(list, base)) by {
        lemma_last_atoms(data, front, content);
        lemma_moved_twice(list, front, base - front, content.len() as int);
    }
    lemma_last_none(data, front, content, bytes, base);
    lemma_passed_over(bytes, all_moved(list, base), last);
}

/// A telemetry track that was put behind other tracks is the one that is found.
proof fn lemma_found_behind(
    data: Seq<u8>,
    front: int,
    content: Seq<u8>,
    bytes: Seq<u8>,
    base: int,
    carried: Seq<u8>,
    whole: Atom,
    chunks: Seq<(usize, usize)>,
)
    requires
        holds_at(data, front, content),
        front + content.len() == data.len(),
        atoms_in(data, front, data.len() as int) is Ok,
        sized(data, atoms_in(data, front, data.len() as int)->Ok_0),
        none_aimd(data, atoms_in(data, front, data.len() as int)->Ok_0),
        front <= base,
        holds_at(bytes, base, content),
        holds_at(bytes, base + content.len(), carried),
        base + content.len() + carried.len() == bytes.len(),
        atom_at(carried, 0, carried.len() as int) == Ok::<Atom, Mp4Error>(whole),
        whole.end == carried.len(),
        whole.payload <= whole.end,
        whole.kind == TRAK,
        holds_telemetry(carried, whole, chunks),
    ensures
        atoms_in(bytes, base, bytes.len() as int) is Ok,
        found_among(bytes, atoms_in(bytes, base, bytes.len() as int)->Ok_0) == Ok::<
            (Atom, Seq<(usize, usize)>),
            Mp4Error,
        >((moved(whole, bytes.len() - carried.len()), chunks)),
{
    let behind = bytes.len() - carried.len();
    lemma_last_children(data, front, content, bytes, base, carried, whole);
    lemma_others_passed(data, front, content, bytes, base, moved(whole, behind));
    lemma_last_found(bytes, behind, carried, whole, chunks);
}

/// Bytes of a part that stands in a file, as they are found there.
proof fn lemma_part_bytes(data: Seq<u8>, base: int, part: Seq<u8>, at: int, size: int)
    requires
        holds_at(data, base, part),
        0 <= at,
        0 <= size,
        at + size <= part.len(),
    ensures
        data.subrange(base + at, base + at + size) == part.subrange(at, at + size),
{
    reveal(same_from);
    let there = data.subrange(base + at, base + at + size);
    assert forall|i: int| 0 <= i < size implies #[trigger] there[i] == part[at + i] by {
        assert(data[base + (at + i)] == part[at + i]);
    }
    assert(data.subrange(base + at, base + at + size) =~= part.subrange(at, at + size));
}

/// Whether chunk `i` of one file holds the same bytes as chunk `i` of another.
pub open spec fn same_chunk(
    left: Seq<u8>,
    chunks: Seq<(usize, usize)>,
    right: Seq<u8>,
    others: Seq<(usize, usize)>,
    i: int,
) -> bool {
    let (offset, size) = chunks[i];
    let (other, length) = others[i];
    &&& offset + size <= left.len()
    &&& other + length <= right.len()
    &&& left.subrange(offset as int, offset + size) == right.subrange(other as int, other + length)
}

/// The packed chunks of a source, as they are found in a file that holds them.
proof fn lemma_packed_chunks(
    source: Seq<u8>,
    chunks: Seq<(usize, usize)>,
    bytes: Seq<u8>,
    place: int,
)
    requires
        gather(source, chunks, place, chunks.len() as int) is Ok,
        holds_at(bytes, place, gather(source, chunks, place, chunks.len() as int)->Ok_0.1),
    ensures
        ({
            let offsets = gather(source, chunks, place, chunks.len() as int)->Ok_0.0;
            forall|i: int|
                0 <= i < chunks.len() ==> #[trigger] same_chunk(
                    source,
                    chunks,
                    bytes,
                    placed(chunks, offsets),
                    i,
                )
        }),
{
    let count = chunks.len() as int;
    let (offsets, payload) = gather(source, chunks, place, count)->Ok_0;
    assert forall|i: int| 0 <= i < chunks.len() implies #[trigger] same_chunk(
        source,
        chunks,
        bytes,
        placed(chunks, offsets),
        i,
    ) by {
        lemma_gathered(source, chunks, place, count, i);
        lemma_part_bytes(bytes, place, payload, offsets[i] - place, chunks[i].1 as int);
    }
}

/// The telemetry track of a spliced file is the carried one, and holds the packed chunks.
proof fn lemma_retained(
    source: Seq<u8>,
    chunks: Seq<(usize, usize)>,
    transcoded: Seq<u8>,
    moov: Atom,
    payload: Seq<u8>,
    carried: Seq<u8>,
    bytes: Seq<u8>,
    whole: Atom,
)
    requires
        splice_layout(transcoded, moov.start as int, payload, carried, bytes),
        moov.payload == moov.start + 8,
        moov.end == transcoded.len(),
        atoms_in(transcoded, moov.payload as int, moov.end as int) is Ok,
        sized(transcoded, atoms_in(transcoded, moov.payload as int, moov.end as int)->Ok_0),
        none_aimd(transcoded, atoms_in(transcoded, moov.payload as int, moov.end as int)->Ok_0),
        atom_at(carried, 0, carried.len() as int) == Ok::<Atom, Mp4Error>(whole),
        whole.end == carried.len(),
        whole.payload <= whole.end,
        whole.kind == TRAK,
        gather(source, chunks, moov.start + 8, chunks.len() as int) is Ok,
        payload == gather(source, chunks, moov.start + 8, chunks.len() as int)->Ok_0.1,
        holds_telemetry(
            carried,
            whole,
            placed(chunks, gather(source, chunks, moov.start + 8, chunks.len() as int)->Ok_0.0),
        ),
    ensures
        ({
            let found = aimd_track_of(bytes, new_moov(moov.start as int, payload, bytes));
            &&& found is Ok
            &&& found->Ok_0.1.len() == chunks.len()
            &&& forall|i: int|
                0 <= i < chunks.len() ==> #[trigger] same_chunk(
                    source,
                    chunks,
                    bytes,
                    found->Ok_0.1,
                    i,
                )
        }),
{
    let movie = new_moov(moov.start as int, payload, bytes);
    let content = transcoded.subrange(moov.payload as int, moov.end as int);
    lemma_found_behind(
        transcoded,
        moov.payload as int,
        content,
        bytes,
        movie.payload as int,
        carried,
        whole,
        placed(chunks, gather(source, chunks, moov.start + 8, chunks.len() as int)->Ok_0.0),
    );
    lemma_packed_chunks(source, chunks, bytes, moov.start + 8);
    reveal(found_among);
}

/// Whether the track that splicing carries over, read from its own bytes, holds telemetry in the
/// chunks of the source at their new places.
pub open spec fn carried_readable(source: Seq<u8>, transcoded: Seq<u8>) -> bool {
    let (track, chunks) = source_track(source)->Ok_0;
    let moov = output_moov(transcoded)->Ok_0;
    let id = next_track_id(track_ids_of(transcoded, moov)->Ok_0);
    let carried = carried_track(source, track, chunks, id, moov.start + 8)->Ok_0.0;
    let offsets = gather(source, chunks, moov.start + 8, chunks.len() as int)->Ok_0.0;
    holds_telemetry(carried, alone(track), placed(chunks, offsets))
}

/// Whether a file holds the telemetry of a source: its telemetry track is found, from the front as
/// well as through its last atom, has as many chunks as that of the source, and each of them holds
/// the bytes that it holds in the source.
pub open spec fn retains(source: Seq<u8>, bytes: Seq<u8>) -> bool {
    let chunks = source_track(source)->Ok_0.1;
    let retained = source_track(bytes)->Ok_0.1;
    &&& source_track(bytes) is Ok
    &&& output_moov(bytes) is Ok
    &&& aimd_track_of(bytes, output_moov(bytes)->Ok_0) == source_track(bytes)
    &&& retained.len() == chunks.len()
    &&& forall|i: int|
        0 <= i < chunks.len() ==> #[trigger] same_chunk(source, chunks, bytes, retained, i)
}

/// Splicing retains the telemetry of a source whose track can still be read when its ID and its
/// chunk offsets are replaced.
///
/// No track of the transcoded file may be a telemetry track, and none may end where the `moov` atom
/// ends without giving its size.
pub proof fn law_readable_telemetry_retained(source: Seq<u8>, transcoded: Seq<u8>)
    requires
        source.len() <= usize::MAX,
        spliced(source, transcoded) is Ok,
        spliced(source, transcoded)->Ok_0.len() <= usize::MAX,
        carried_readable(source, transcoded),
        sized(transcoded, old_children(transcoded)),
        none_aimd(transcoded, old_children(transcoded)),
    ensures
        retains(source, spliced(source, transcoded)->Ok_0),
{
    lemma_spliced_parts(source, transcoded);
    lemma_spliced_layout(source, transcoded);
    let bytes = spliced(source, transcoded)->Ok_0;
    let (track, chunks) = source_track(source)->Ok_0;
    let moov = output_moov(transcoded)->Ok_0;
    let id = next_track_id(track_ids_of(transcoded, moov)->Ok_0);
    let (carried, payload) = carried_track(source, track, chunks, id, moov.start + 8)->Ok_0;
    lemma_retained(source, chunks, transcoded, moov, payload, carried, bytes, alone(track));
}

/// Splicing retains the telemetry of a source whose track ID and sample tables lie inside their own
/// atoms.
///
/// No track of the transcoded file may be a telemetry track, and none may end where the `moov` atom
/// ends without giving its size.
pub proof fn law_telemetry_retained(source: Seq<u8>, transcoded: Seq<u8>)
    requires
        source.len() <= usize::MAX,
        spliced(source, transcoded) is Ok,
        spliced(source, transcoded)->Ok_0.len() <= usize::MAX,
        in_place(source, source_track(source)->Ok_0.0),
        sized(transcoded, old_children(transcoded)),
        none_aimd(transcoded, old_children(transcoded)),
    ensures
        retains(source, spliced(source, transcoded)->Ok_0),
{
    lemma_spliced_parts(source, transcoded);
    let moov = output_moov(transcoded)->Ok_0;
    let id = next_track_id(track_ids_of(transcoded, moov)->Ok_0);
    lemma_carried(source, id, moov.start + 8);
    assert(carried_readable(source, transcoded)) by {
        reveal(holds_telemetry);
    }
    law_readable_telemetry_retained(source, transcoded);
}

/// Splicing copies the telemetry track: it stands at the end of the spliced file, byte for byte as
/// in the source but for its ID and its chunk offsets.
pub proof fn law_track_copied(source: Seq<u8>, transcoded: Seq<u8>)
    requires
        source.len() <= usize::MAX,
        spliced(source, transcoded) is Ok,
        spliced(source, transcoded)->Ok_0.len() <= usize::MAX,
    ensures
        ({
            let bytes = spliced(source, transcoded)->Ok_0;
            let (track, chunks) = source_track(source)->Ok_0;
            let ids = track_ids_of(transcoded, output_moov(transcoded)->Ok_0)->Ok_0;
            let old = source.subrange(track.start as int, track.end as int);
            let start = bytes.len() - old.len();
            let id = id_field(old, alone(track));
            let table = offset_table_of(with_track_id(old, next_track_id(ids))->Ok_0)->Ok_0;
            &&& 0 <= start
            &&& forall|i: int|
                0 <= i < old.len() && !replaced(id, table, chunks.len() as int, i)
                    ==> #[trigger] bytes[start + i] == old[i]
        }),
{
    let bytes = spliced(source, transcoded)->Ok_0;
    let (track, chunks) = source_track(source)->Ok_0;
    let moov = output_moov(transcoded)->Ok_0;
    let next = next_track_id(track_ids_of(transcoded, moov)->Ok_0);
    let (carried, payload) = carried_track(source, track, chunks, next, moov.start + 8)->Ok_0;
    let old = source.subrange(track.start as int, track.end as int);
    let start = bytes.len() - old.len();
    let id = id_field(old, alone(track));
    let table = offset_table_of(with_track_id(old, next)->Ok_0)->Ok_0;
    assert(holds_at(bytes, start, carried) && carried.len() == old.len()) by {
        lemma_spliced_parts(source, transcoded);
        lemma_spliced_layout(source, transcoded);
        lemma_carried_bytes(source, next, moov.start + 8);
    }
    assert forall|i: int|
        0 <= i < old.len() && !replaced(id, table, chunks.len() as int, i) implies #[trigger] bytes[
    start + i] == old[i] by {
        assert(carried[i] == old[i]) by {
            lemma_spliced_parts(source, transcoded);
            lemma_carried_bytes(source, next, moov.start + 8);
        }
        assert(bytes[start + i] == carried[i]) by {
            reveal(same_from);
        }
    }
}

/// The ID of a track at the end of a file, read from the last bytes wherever they stand.
proof fn lemma_last_id(
    data: Seq<u8>,
    front: int,
    content: Seq<u8>,
    bytes: Seq<u8>,
    base: int,
    tkhd: Atom,
)
    requires
        holds_at(data, front, content),
        front + content.len() == data.len(),
        holds_at(bytes, base, content),
        inside(tkhd, content),
        header_track_id(data, moved(tkhd, front)) is Ok,
    ensures
        header_track_id(bytes, moved(tkhd, base)) == header_track_id(data, moved(tkhd, front)),
{
    let at = tkhd.payload as int;
    assert(data[front + at] == content[at] && bytes[base + at] == content[at]) by {
        reveal(same_from);
    }
    let place = at + track_id_place(content[at]);
    lemma_integers_moved(data, front, content, place);
    lemma_integers_moved(bytes, base, content, place);
}

/// The IDs of the tracks at the end of a file, read from the last bytes wherever they stand.
proof fn lemma_last_ids(
    data: Seq<u8>,
    front: int,
    content: Seq<u8>,
    bytes: Seq<u8>,
    base: int,
    list: Seq<Atom>,
)
    requires
        holds_at(data, front, content),
        front + content.len() == data.len(),
        holds_at(bytes, base, content),
        forall|i: int| 0 <= i < list.len() ==> inside(#[trigger] list[i], content),
        ids_among(data, all_moved(list, front)) is Ok,
    ensures
        ids_among(bytes, all_moved(list, base)) == ids_among(data, all_moved(list, front)),
    decreases list.len(),
{
    if list.len() > 0 {
        let last = list.last();
        assert(all_moved(list, front).drop_last() =~= all_moved(list.drop_last(), front));
        assert(all_moved(list, base).drop_last() =~= all_moved(list.drop_last(), base));
        assert(all_moved(list, front).last() == moved(last, front));
        assert(all_moved(list, base).last() == moved(last, base));
        assert(inside(list[list.len() - 1], content));
        assert forall|i: int| 0 <= i < list.drop_last().len() implies inside(
            #[trigger] list.drop_last()[i],
            content,
        ) by {
            assert(list.drop_last()[i] == list[i]);
        }
        lemma_last_ids(data, front, content, bytes, base, list.drop_last());
        lemma_child_moved(data, front, content, last, TKHD);
        lemma_child_moved(bytes, base, content, last, TKHD);
        if last.kind == TRAK && child_of(content, last, TKHD) is Ok {
            lemma_last_id(
                data,
                front,
                content,
                bytes,
                base,
                child_of(content, last, TKHD)->Ok_0,
            );
        }
    }
}

/// The ID of a track with its header in place, read wherever the track stands.
proof fn lemma_id_moved(bytes: Seq<u8>, base: int, carried: Seq<u8>, whole: Atom)
    requires
        holds_at(bytes, base, carried),
        inside(whole, carried),
        id_in_place(carried, whole),
    ensures
        child_of(bytes, moved(whole, base), TKHD) is Ok,
        header_track_id(bytes, child_of(bytes, moved(whole, base), TKHD)->Ok_0) == header_track_id(
            carried,
            child_of(carried, whole, TKHD)->Ok_0,
        ),
{
    lemma_child_moved(bytes, base, carried, whole, TKHD);
    let tkhd = child_of(carried, whole, TKHD)->Ok_0;
    assert(bytes[base + tkhd.payload] == carried[tkhd.payload as int]) by {
        reveal(same_from);
    }
    lemma_integers_moved(
        bytes,
        base,
        carried,
        tkhd.payload + track_id_place(carried[tkhd.payload as int]),
    );
}

/// The ID for one more track is not yet in use, unless an ID is the highest number there is.
pub proof fn law_track_id_unused(ids: Seq<u32>)
    requires
        highest(ids) < u32::MAX,
    ensures
        !ids.contains(next_track_id(ids)),
{
    lemma_highest(ids);
}

proof fn lemma_highest(ids: Seq<u32>)
    ensures
        forall|i: int| 0 <= i < ids.len() ==> #[trigger] ids[i] <= highest(ids),
    decreases ids.len(),
{
    if ids.len() > 0 {
        lemma_highest(ids.drop_last());
        assert forall|i: int| 0 <= i < ids.len() implies #[trigger] ids[i] <= highest(ids) by {
            if i < ids.len() - 1 {
                assert(ids.drop_last()[i] == ids[i]);
            }
        }
    }
}

/// Whether the track IDs of a spliced file are those of the transcoded file, and behind them that of
/// the telemetry track, one above the highest.
pub open spec fn ids_extended(transcoded: Seq<u8>, bytes: Seq<u8>) -> bool {
    let ids = track_ids_of(transcoded, output_moov(transcoded)->Ok_0)->Ok_0;
    &&& output_moov(bytes) is Ok
    &&& track_ids_of(bytes, output_moov(bytes)->Ok_0) == Ok::<Seq<u32>, Mp4Error>(
        ids.push(next_track_id(ids)),
    )
}

/// The tracks of a spliced file keep their IDs, and the telemetry track has the next one, if its ID
/// lies inside its track header and its chunk offsets touch neither that header nor the header of
/// another child of the track.
pub proof fn law_spared_track_ids(source: Seq<u8>, transcoded: Seq<u8>)
    requires
        source.len() <= usize::MAX,
        spliced(source, transcoded) is Ok,
        spliced(source, transcoded)->Ok_0.len() <= usize::MAX,
        id_in_place(source, source_track(source)->Ok_0.0),
        offsets_spare_header(
            source,
            source_track(source)->Ok_0.0,
            source_track(source)->Ok_0.1.len() as int,
        ),
        sized(transcoded, old_children(transcoded)),
    ensures
        ids_extended(transcoded, spliced(source, transcoded)->Ok_0),
{
    lemma_spliced_parts(source, transcoded);
    lemma_spliced_layout(source, transcoded);
    let bytes = spliced(source, transcoded)->Ok_0;
    let (track, chunks) = source_track(source)->Ok_0;
    let moov = output_moov(transcoded)->Ok_0;
    let id = next_track_id(track_ids_of(transcoded, moov)->Ok_0);
    let (carried, payload) = carried_track(source, track, chunks, id, moov.start + 8)->Ok_0;
    lemma_carried_id(source, id, moov.start + 8);
    lemma_ids_of_splice(transcoded, moov, payload, carried, bytes, alone(track), id);
}

/// The tracks of a spliced file keep their IDs, and the telemetry track has the next one, if its ID
/// lies inside its track header and its chunk offsets inside their table.
pub proof fn law_track_ids(source: Seq<u8>, transcoded: Seq<u8>)
    requires
        source.len() <= usize::MAX,
        spliced(source, transcoded) is Ok,
        spliced(source, transcoded)->Ok_0.len() <= usize::MAX,
        id_in_place(source, source_track(source)->Ok_0.0),
        offsets_in_place(
            source,
            source_track(source)->Ok_0.0,
            source_track(source)->Ok_0.1.len() as int,
        ),
        sized(transcoded, old_children(transcoded)),
    ensures
        ids_extended(transcoded, spliced(source, transcoded)->Ok_0),
{
    let (track, chunks) = source_track(source)->Ok_0;
    lemma_in_place_spares(source, track, chunks.len() as int);
    law_spared_track_ids(source, transcoded);
}

/// The track IDs of a spliced file.
proof fn lemma_ids_of_splice(
    transcoded: Seq<u8>,
    moov: Atom,
    payload: Seq<u8>,
    carried: Seq<u8>,
    bytes: Seq<u8>,
    whole: Atom,
    id: u32,
)
    requires
        splice_layout(transcoded, moov.start as int, payload, carried, bytes),
        moov.payload == moov.start + 8,
        moov.end == transcoded.len(),
        atoms_in(transcoded, moov.payload as int, moov.end as int) is Ok,
        sized(transcoded, atoms_in(transcoded, moov.payload as int, moov.end as int)->Ok_0),
        track_ids_of(transcoded, moov) is Ok,
        atom_at(carried, 0, carried.len() as int) == Ok::<Atom, Mp4Error>(whole),
        whole.end == carried.len(),
        whole.payload <= whole.end,
        whole.kind == TRAK,
        id_in_place(carried, whole),
        header_track_id(carried, child_of(carried, whole, TKHD)->Ok_0) == Ok::<u32, Mp4Error>(id),
    ensures
        track_ids_of(bytes, new_moov(moov.start as int, payload, bytes)) == Ok::<
            Seq<u32>,
            Mp4Error,
        >(track_ids_of(transcoded, moov)->Ok_0.push(id)),
{
    let front = moov.payload as int;
    let movie = new_moov(moov.start as int, payload, bytes);
    let content = transcoded.subrange(front, moov.end as int);
    lemma_children_of_splice(transcoded, moov, payload, carried, bytes, whole);
    lemma_new_ids(transcoded, front, content, bytes, movie.payload as int, carried, whole);
}

/// The track IDs where one more track stands behind the others.
#[verifier::rlimit(40)]
proof fn lemma_new_ids(
    data: Seq<u8>,
    front: int,
    content: Seq<u8>,
    bytes: Seq<u8>,
    base: int,
    carried: Seq<u8>,
    whole: Atom,
)
    requires
        holds_at(data, front, content),
        front + content.len() == data.len(),
        atoms_in(data, front, data.len() as int) is Ok,
        ids_among(data, atoms_in(data, front, data.len() as int)->Ok_0) is Ok,
        front <= base,
        holds_at(bytes, base, content),
        holds_at(bytes, base + content.len(), carried),
        base + content.len() + carried.len() == bytes.len(),
        inside(whole, carried),
        whole.kind == TRAK,
        id_in_place(carried, whole),
        header_track_id(carried, child_of(carried, whole, TKHD)->Ok_0) is Ok,
    ensures
        ids_among(
            bytes,
            all_moved(atoms_in(data, front, data.len() as int)->Ok_0, base - front) + seq![
                moved(whole, bytes.len() - carried.len()),
            ],
        ) == Ok::<Seq<u32>, Mp4Error>(
            ids_among(data, atoms_in(data, front, data.len() as int)->Ok_0)->Ok_0.push(
                header_track_id(carried, child_of(carried, whole, TKHD)->Ok_0)->Ok_0,
            ),
        ),
{
    let behind = bytes.len() - carried.len();
    let last = moved(whole, behind);
    lemma_last_atoms(data, front, content);
    let list = atoms_in(content, 0, content.len() as int)->Ok_0;
    law_atoms_tile(content, 0, content.len() as int);
    lemma_moved_twice(list, front, base - front, content.len() as int);
    lemma_last_ids(data, front, content, bytes, base, list);
    lemma_id_moved(bytes, behind, carried, whole);
    let all = all_moved(list, base) + seq![last];
    assert(all.drop_last() =~= all_moved(list, base));
    assert(all.last() == last);
}

} // verus!
