//! What the tables of a track say, byte by byte and entry by entry.

use crate::atoms::{atoms_in, child_of, Atom};
use crate::bytes::{be32, be64, kind_at};
use crate::error::Mp4Error;
use crate::kinds::{AIMD, CO64, MDIA, MINF, STBL, STCO, STSC, STSD, STSZ, TKHD, TRAK};
use crate::track::{
    aimd_track_of, chunk_layout, chunk_offsets, chunk_size, chunks_from, chunks_of, chunks_size,
    collect, describes_aimd, first_aimd, first_offset_table, header_track_id, ids_among,
    lemma_layout_error, lemma_total_nonnegative, offset_entry, offset_reader, sample_table_of,
    sample_tables, samples_in_chunk, size_reader, stsc_entries, stsc_entry, stsc_reader, stsd_aimd,
    total, track_ids_of, track_is_aimd, SampleTables,
};
use vstd::prelude::*;

verus! {

/// Whether a sample description starts at `at`: at least eight bytes that end in front of `end`.
pub open spec fn description_at(data: Seq<u8>, at: int, end: int) -> bool {
    &&& 0 <= at
    &&& at + 8 <= data.len()
    &&& 8 <= be32(data, at)
    &&& at + be32(data, at) <= end
}

/// Whether the sample description at `at` has the type `aimd`.
pub open spec fn says_aimd(data: Seq<u8>, at: int) -> bool {
    &&& data[at + 4] == 0x61
    &&& data[at + 5] == 0x69
    &&& data[at + 6] == 0x6d
    &&& data[at + 7] == 0x64
}

/// Whether sample descriptions start at the given places, the first at `from` and each behind the
/// one before, with one more place behind the last of them.
pub open spec fn descriptions(data: Seq<u8>, starts: Seq<int>, from: int, end: int) -> bool {
    &&& starts.len() > 0
    &&& starts[0] == from
    &&& forall|i: int|
        0 <= i < starts.len() - 1 ==> description_at(data, #[trigger] starts[i], end)
    &&& forall|i: int, k: int|
        0 <= i < k < starts.len() && k == i + 1 ==> #[trigger] starts[k] == (#[trigger] starts[i])
            + be32(data, starts[i])
}

proof fn lemma_says_aimd(data: Seq<u8>, at: int)
    ensures
        says_aimd(data, at) == (kind_at(data, at + 4) == AIMD),
{
    reveal(kind_at);
    if says_aimd(data, at) {
        assert(kind_at(data, at + 4) =~= AIMD);
    }
}

proof fn lemma_descriptions(data: Seq<u8>, starts: Seq<int>, end: int, count: int)
    requires
        descriptions(data, starts, starts[0], end),
        starts.len() - 1 <= count,
        forall|i: int| 0 <= i < starts.len() - 1 ==> !says_aimd(data, #[trigger] starts[i]),
    ensures
        describes_aimd(data, starts[0], end, count) == describes_aimd(
            data,
            starts.last(),
            end,
            count - (starts.len() - 1),
        ),
    decreases starts.len(),
{
    if starts.len() > 1 {
        let rest = starts.drop_first();
        lemma_says_aimd(data, starts[0]);
        assert(description_at(data, starts[0], end));
        assert(starts[1] == starts[0] + be32(data, starts[0]));
        assert forall|i: int| 0 <= i < rest.len() - 1 implies description_at(
            data,
            #[trigger] rest[i],
            end,
        ) by {
            assert(rest[i] == starts[i + 1]);
        }
        assert forall|i: int, k: int| 0 <= i < k < rest.len() && k == i + 1 implies #[trigger] rest[
        k] == (#[trigger] rest[i]) + be32(data, rest[i]) by {
            assert(rest[i] == starts[i + 1]);
            assert(rest[k] == starts[k + 1]);
        }
        assert forall|i: int| 0 <= i < rest.len() - 1 implies !says_aimd(
            data,
            #[trigger] rest[i],
        ) by {
            assert(rest[i] == starts[i + 1]);
        }
        lemma_descriptions(data, rest, end, count - 1);
        assert(rest[0] == starts[1]);
        assert(rest.last() == starts.last());
    }
}

/// Of sample descriptions, of which all but the last are sound and have another type than `aimd`,
/// the last one tells: it has the type `aimd`, or it is refused. Where the table counts no more
/// than those in front of it, the table has no `aimd` entry.
pub proof fn law_description_found(data: Seq<u8>, stsd: Atom, starts: Seq<int>)
    requires
        stsd.payload + 8 <= data.len(),
        descriptions(data, starts, stsd.payload + 8, stsd.end as int),
        starts.len() - 1 <= be32(data, stsd.payload + 4),
        forall|i: int| 0 <= i < starts.len() - 1 ==> !says_aimd(data, #[trigger] starts[i]),
    ensures
        ({
            let last = starts.last();
            let more = starts.len() - 1 < be32(data, stsd.payload + 4);
            &&& !more ==> stsd_aimd(data, stsd) == Ok::<bool, Mp4Error>(false)
            &&& more && description_at(data, last, stsd.end as int) && says_aimd(data, last)
                ==> stsd_aimd(data, stsd) == Ok::<bool, Mp4Error>(true)
            &&& more && last + 4 > data.len() ==> stsd_aimd(data, stsd) == Err::<bool, Mp4Error>(
                Mp4Error::TruncatedInteger,
            )
            &&& more && last + 4 <= data.len() && (be32(data, last) < 8 || last + be32(data, last)
                > stsd.end) ==> stsd_aimd(data, stsd) == Err::<bool, Mp4Error>(
                Mp4Error::InvalidStsdEntry,
            )
        }),
{
    let count = be32(data, stsd.payload + 4) as int;
    lemma_descriptions(data, starts, stsd.end as int, count);
    lemma_says_aimd(data, starts.last());
}

/// The places of the first descriptions, up to the first that has the type `aimd`.
proof fn lemma_first_said(data: Seq<u8>, starts: Seq<int>, count: int) -> (first: int)
    requires
        0 <= count,
    ensures
        0 <= first <= count,
        first < count ==> says_aimd(data, starts[first]),
        forall|i: int| 0 <= i < first ==> !says_aimd(data, #[trigger] starts[i]),
    decreases count,
{
    if count == 0 {
        0
    } else {
        let first = lemma_first_said(data, starts, count - 1);
        if first < count - 1 || says_aimd(data, starts[count - 1]) {
            first
        } else {
            count
        }
    }
}

/// A table of sound sample descriptions has an `aimd` entry exactly if one of the entries that it
/// counts has the type `aimd`.
pub proof fn law_aimd_entry(data: Seq<u8>, stsd: Atom, starts: Seq<int>)
    requires
        stsd.payload + 8 <= data.len(),
        descriptions(data, starts, stsd.payload + 8, stsd.end as int),
        starts.len() - 1 == be32(data, stsd.payload + 4),
    ensures
        stsd_aimd(data, stsd) == Ok::<bool, Mp4Error>(
            exists|i: int| 0 <= i < starts.len() - 1 && says_aimd(data, #[trigger] starts[i]),
        ),
{
    let count = starts.len() - 1;
    let first = lemma_first_said(data, starts, count);
    let front = starts.take(first + 1);
    assert(front.last() == starts[first]);
    assert forall|i: int, k: int| 0 <= i < k < front.len() && k == i + 1 implies #[trigger] front[k]
        == (#[trigger] front[i]) + be32(data, front[i]) by {
        assert(front[k] == starts[k]);
        assert(front[i] == starts[i]);
    }
    assert forall|i: int| 0 <= i < front.len() - 1 implies description_at(
        data,
        #[trigger] front[i],
        stsd.end as int,
    ) by {
        assert(front[i] == starts[i]);
    }
    assert forall|i: int| 0 <= i < front.len() - 1 implies !says_aimd(
        data,
        #[trigger] front[i],
    ) by {
        assert(front[i] == starts[i]);
    }
    if first < count {
        assert(description_at(data, starts[first], stsd.end as int));
    }
    law_description_found(data, stsd, front);
}

proof fn lemma_said(data: Seq<u8>, cursor: int, end: int, count: int) -> (starts: Seq<int>)
    requires
        0 <= cursor,
        describes_aimd(data, cursor, end, count) == Ok::<bool, Mp4Error>(true),
    ensures
        descriptions(data, starts, cursor, end),
        starts.len() <= count,
        description_at(data, starts.last(), end),
        says_aimd(data, starts.last()),
    decreases count,
{
    lemma_says_aimd(data, cursor);
    if says_aimd(data, cursor) {
        seq![cursor]
    } else {
        let next = cursor + be32(data, cursor);
        let rest = lemma_said(data, next, end, count - 1);
        let starts = seq![cursor] + rest;
        assert(starts.last() == rest.last());
        assert forall|i: int| 0 <= i < starts.len() - 1 implies description_at(
            data,
            #[trigger] starts[i],
            end,
        ) by {
            if i > 0 {
                assert(starts[i] == rest[i - 1]);
            }
        }
        assert forall|i: int, k: int| 0 <= i < k < starts.len() && k == i + 1 implies #[trigger] starts[
        k] == (#[trigger] starts[i]) + be32(data, starts[i]) by {
            assert(starts[k] == rest[k - 1]);
            if i > 0 {
                assert(starts[i] == rest[i - 1]);
            }
        }
        starts
    }
}

/// What is taken as a telemetry sample description table holds an entry of the type `aimd`, at the
/// end of a run of sound entries that the table counts.
pub proof fn law_aimd_said(data: Seq<u8>, stsd: Atom)
    requires
        stsd_aimd(data, stsd) == Ok::<bool, Mp4Error>(true),
    ensures
        exists|starts: Seq<int>|
            {
                &&& #[trigger] descriptions(data, starts, stsd.payload + 8, stsd.end as int)
                &&& starts.len() <= be32(data, stsd.payload + 4)
                &&& description_at(data, starts.last(), stsd.end as int)
                &&& says_aimd(data, starts.last())
            },
{
    let starts = lemma_said(
        data,
        stsd.payload + 8,
        stsd.end as int,
        be32(data, stsd.payload + 4) as int,
    );
    assert(descriptions(data, starts, stsd.payload + 8, stsd.end as int));
}

/// Whether each track among the first `count` atoms is known to hold no telemetry.
pub open spec fn passed_over(data: Seq<u8>, atoms: Seq<Atom>, count: int) -> bool {
    forall|i: int|
        0 <= i < count && (#[trigger] atoms[i]).kind@ == seq![0x74u8, 0x72, 0x61, 0x6b]
            ==> track_is_aimd(data, atoms[i]) == Ok::<bool, Mp4Error>(false)
}

/// Whether atom `k` is the first track that is not known to hold no telemetry.
pub open spec fn first_left(data: Seq<u8>, atoms: Seq<Atom>, k: int) -> bool {
    &&& 0 <= k < atoms.len()
    &&& passed_over(data, atoms, k)
    &&& atoms[k].kind@ == seq![0x74u8, 0x72, 0x61, 0x6b]
    &&& track_is_aimd(data, atoms[k]) != Ok::<bool, Mp4Error>(false)
}

/// What a track comes to that is the first not known to hold no telemetry: itself with the chunks of
/// its sample table if it holds telemetry, else the reason why that cannot be told.
pub open spec fn comes_to(
    data: Seq<u8>,
    track: Atom,
    result: Result<(Atom, Seq<(usize, usize)>), Mp4Error>,
) -> bool {
    match result {
        Ok((found, chunks)) => {
            &&& found == track
            &&& track_is_aimd(data, track) == Ok::<bool, Mp4Error>(true)
            &&& chunks_of(data, sample_table_of(data, track)->Ok_0) == Ok::<
                Seq<(usize, usize)>,
                Mp4Error,
            >(chunks)
        },
        Err(error) => {
            ||| track_is_aimd(data, track) == Err::<bool, Mp4Error>(error)
            ||| track_is_aimd(data, track) == Ok::<bool, Mp4Error>(true) && chunks_of(
                data,
                sample_table_of(data, track)->Ok_0,
            ) == Err::<Seq<(usize, usize)>, Mp4Error>(error)
        },
    }
}

/// The telemetry track is the first track whose sample descriptions say so, with the chunks of its
/// own sample table; a track in front of it says no, and where all tracks say no there is none.
pub proof fn law_telemetry_track(data: Seq<u8>, moov: Atom)
    requires
        atoms_in(data, moov.payload as int, moov.end as int) is Ok,
    ensures
        ({
            let children = atoms_in(data, moov.payload as int, moov.end as int)->Ok_0;
            ||| passed_over(data, children, children.len() as int) && aimd_track_of(data, moov)
                == Err::<(Atom, Seq<(usize, usize)>), Mp4Error>(Mp4Error::NoAimdTrack)
            ||| exists|k: int| #[trigger]
                first_left(data, children, k) && comes_to(
                    data,
                    children[k],
                    aimd_track_of(data, moov),
                )
        }),
{
    lemma_first_track(data, atoms_in(data, moov.payload as int, moov.end as int)->Ok_0);
}

/// One more atom in front that is passed over.
proof fn lemma_passed_over(data: Seq<u8>, atoms: Seq<Atom>, count: int)
    requires
        0 <= count < atoms.len(),
        passed_over(data, atoms.drop_first(), count),
        passed_over(data, atoms, 1),
    ensures
        passed_over(data, atoms, count + 1),
{
    let rest = atoms.drop_first();
    assert forall|i: int|
        0 <= i < count + 1 && (#[trigger] atoms[i]).kind@ == seq![
            0x74u8,
            0x72,
            0x61,
            0x6b,
        ] implies track_is_aimd(data, atoms[i]) == Ok::<bool, Mp4Error>(false) by {
        if i > 0 {
            assert(rest[i - 1] == atoms[i]);
        }
    }
}

proof fn lemma_track_kind(atom: Atom)
    ensures
        (atom.kind@ == seq![0x74u8, 0x72, 0x61, 0x6b]) == (atom.kind == TRAK),
{
    assert(TRAK@ =~= seq![0x74u8, 0x72, 0x61, 0x6b]);
    if atom.kind@ == TRAK@ {
        assert(atom.kind =~= TRAK);
    }
}

proof fn lemma_first_track(data: Seq<u8>, atoms: Seq<Atom>)
    ensures
        ({
            ||| passed_over(data, atoms, atoms.len() as int) && first_aimd(data, atoms) == Err::<
                (Atom, Seq<(usize, usize)>),
                Mp4Error,
            >(Mp4Error::NoAimdTrack)
            ||| exists|k: int| #[trigger]
                first_left(data, atoms, k) && comes_to(data, atoms[k], first_aimd(data, atoms))
        }),
    decreases atoms.len(),
{
    if atoms.len() > 0 {
        lemma_track_kind(atoms[0]);
        let rest = atoms.drop_first();
        if atoms[0].kind != TRAK || track_is_aimd(data, atoms[0]) == Ok::<bool, Mp4Error>(false) {
            assert(passed_over(data, atoms, 1));
            assert(first_aimd(data, atoms) == first_aimd(data, rest));
            lemma_first_track(data, rest);
            if passed_over(data, rest, rest.len() as int) && first_aimd(data, rest) == Err::<
                (Atom, Seq<(usize, usize)>),
                Mp4Error,
            >(Mp4Error::NoAimdTrack) {
                lemma_passed_over(data, atoms, rest.len() as int);
            } else {
                let k = choose|k: int| #[trigger]
                    first_left(data, rest, k) && comes_to(data, rest[k], first_aimd(data, rest));
                lemma_passed_over(data, atoms, k);
                assert(rest[k] == atoms[k + 1]);
                assert(first_left(data, atoms, k + 1));
            }
        } else {
            assert(first_left(data, atoms, 0));
        }
    }
}

/// What makes a track a telemetry track is the sample description table in the sample table in the
/// media information in the media of the track.
pub proof fn law_track_described(data: Seq<u8>, track: Atom)
    requires
        track_is_aimd(data, track) is Ok,
    ensures
        ({
            let mdia = child_of(data, track, [0x6d, 0x64, 0x69, 0x61]);
            let minf = child_of(data, mdia->Ok_0, [0x6d, 0x69, 0x6e, 0x66]);
            let stbl = child_of(data, minf->Ok_0, [0x73, 0x74, 0x62, 0x6c]);
            let stsd = child_of(data, stbl->Ok_0, [0x73, 0x74, 0x73, 0x64]);
            &&& mdia is Ok && minf is Ok && stbl is Ok && stsd is Ok
            &&& sample_table_of(data, track) == stbl
            &&& track_is_aimd(data, track) == stsd_aimd(data, stsd->Ok_0)
        }),
{
    assert(MDIA =~= [0x6d, 0x64, 0x69, 0x61]);
    assert(MINF =~= [0x6d, 0x69, 0x6e, 0x66]);
    assert(STBL =~= [0x73, 0x74, 0x62, 0x6c]);
    assert(STSD =~= [0x73, 0x74, 0x73, 0x64]);
}

/// A track all of whose sample descriptions have another type than `aimd` is never the telemetry
/// track.
pub proof fn law_other_tracks_left(data: Seq<u8>, moov: Atom, track: Atom, starts: Seq<int>)
    requires
        track_is_aimd(data, track) is Ok,
        ({
            let stbl = sample_table_of(data, track)->Ok_0;
            let stsd = child_of(data, stbl, [0x73, 0x74, 0x73, 0x64])->Ok_0;
            &&& stsd.payload + 8 <= data.len()
            &&& descriptions(data, starts, stsd.payload + 8, stsd.end as int)
            &&& starts.len() - 1 == be32(data, stsd.payload + 4)
        }),
        forall|i: int| 0 <= i < starts.len() - 1 ==> !says_aimd(data, #[trigger] starts[i]),
    ensures
        aimd_track_of(data, moov) matches Ok((found, _)) ==> found != track,
{
    law_track_described(data, track);
    let stbl = sample_table_of(data, track)->Ok_0;
    law_aimd_entry(data, child_of(data, stbl, [0x73, 0x74, 0x73, 0x64])->Ok_0, starts);
    if aimd_track_of(data, moov) is Ok {
        law_telemetry_track(data, moov);
    }
}

/// A list is read entry by entry, in order: it holds what each entry reads, and cannot be read for
/// the reason of the first entry that cannot.
pub proof fn law_collected<T>(count: int, read: spec_fn(int) -> Result<T, Mp4Error>)
    requires
        0 <= count,
    ensures
        match collect(count, read) {
            Ok(list) => list.len() == count && forall|i: int|
                0 <= i < count ==> #[trigger] read(i) == Ok::<T, Mp4Error>(list[i]),
            Err(error) => exists|k: int|
                0 <= k < count && #[trigger] read(k) == Err::<T, Mp4Error>(error) && forall|i: int|
                    0 <= i < k ==> #[trigger] read(i) is Ok,
        },
    decreases count,
{
    if count > 0 {
        law_collected(count - 1, read);
        match collect(count - 1, read) {
            Ok(front) => {
                if read(count - 1) is Ok {
                    let list = front.push(read(count - 1)->Ok_0);
                    assert forall|i: int| 0 <= i < count implies #[trigger] read(i) == Ok::<
                        T,
                        Mp4Error,
                    >(list[i]) by {
                        if i < count - 1 {
                            assert(list[i] == front[i]);
                        }
                    }
                }
            },
            Err(error) => {},
        }
    }
}

/// The chunk offset table of a sample table is the first `stco` or `co64` atom in it.
pub proof fn law_first_offset_table(atoms: Seq<Atom>)
    ensures
        match first_offset_table(atoms) {
            Some(table) => exists|k: int|
                0 <= k < atoms.len() && #[trigger] atoms[k] == table && lists_offsets(table)
                    && forall|i: int| 0 <= i < k ==> !lists_offsets(#[trigger] atoms[i]),
            None => forall|i: int| 0 <= i < atoms.len() ==> !lists_offsets(#[trigger] atoms[i]),
        },
    decreases atoms.len(),
{
    if atoms.len() > 0 {
        let rest = atoms.drop_first();
        lemma_lists_offsets(atoms[0]);
        if lists_offsets(atoms[0]) {
            assert(atoms[0] == first_offset_table(atoms)->0);
        } else {
            law_first_offset_table(rest);
            assert forall|n: int|
                0 <= n <= rest.len() && (forall|i: int|
                    0 <= i < n ==> !lists_offsets(#[trigger] rest[i])) implies #[trigger]
                none_up_to(atoms, n + 1) by {
                assert forall|i: int| 0 <= i < n + 1 implies !lists_offsets(
                    #[trigger] atoms[i],
                ) by {
                    if i > 0 {
                        assert(rest[i - 1] == atoms[i]);
                    }
                }
            }
            match first_offset_table(rest) {
                Some(table) => {
                    let k = choose|k: int|
                        0 <= k < rest.len() && #[trigger] rest[k] == table && lists_offsets(table)
                            && forall|i: int|
                            0 <= i < k ==> !lists_offsets(#[trigger] rest[i]);
                    assert(atoms[k + 1] == table);
                    assert(none_up_to(atoms, k + 1));
                },
                None => {
                    assert(none_up_to(atoms, rest.len() + 1int));
                },
            }
        }
    }
}

spec fn none_up_to(atoms: Seq<Atom>, count: int) -> bool {
    forall|i: int| 0 <= i < count ==> !lists_offsets(#[trigger] atoms[i])
}

/// Whether an atom has the type `stco`, whose offsets have 32 bits.
pub open spec fn lists_narrow(atom: Atom) -> bool {
    atom.kind@ == seq![0x73u8, 0x74, 0x63, 0x6f]
}

/// Whether an atom has the type `stco` or `co64`.
pub open spec fn lists_offsets(atom: Atom) -> bool {
    lists_narrow(atom) || atom.kind@ == seq![0x63u8, 0x6f, 0x36, 0x34]
}

pub proof fn lemma_lists_offsets(atom: Atom)
    ensures
        lists_narrow(atom) == (atom.kind == STCO),
        lists_offsets(atom) == (atom.kind == STCO || atom.kind == CO64),
{
    assert(STCO@ =~= seq![0x73u8, 0x74, 0x63, 0x6f]);
    assert(CO64@ =~= seq![0x63u8, 0x6f, 0x36, 0x34]);
    if atom.kind@ == STCO@ {
        assert(atom.kind =~= STCO);
    }
    if atom.kind@ == CO64@ {
        assert(atom.kind =~= CO64);
    }
}

/// The chunk offsets are the integers behind the count of the table, as many as it counts: of 32
/// bits in `stco`, of 64 bits in `co64`.
pub proof fn law_offsets_listed(data: Seq<u8>, table: Atom)
    requires
        chunk_offsets(data, table) is Ok,
    ensures
        ({
            let offsets = chunk_offsets(data, table)->Ok_0;
            &&& table.payload + 8 <= data.len()
            &&& offsets.len() == be32(data, table.payload + 4)
            &&& forall|i: int|
                0 <= i < offsets.len() ==> #[trigger] offsets[i] == if lists_narrow(table) {
                    be32(data, table.payload + 8 + 4 * i) as int
                } else {
                    be64(data, table.payload + 8 + 8 * i) as int
                }
        }),
{
    let read = offset_reader(data, table);
    lemma_lists_offsets(table);
    law_collected(be32(data, table.payload + 4) as int, read);
    let offsets = chunk_offsets(data, table)->Ok_0;
    assert forall|i: int| 0 <= i < offsets.len() implies #[trigger] offsets[i] == if lists_narrow(
        table,
    ) {
        be32(data, table.payload + 8 + 4 * i) as int
    } else {
        be64(data, table.payload + 8 + 8 * i) as int
    } by {
        assert(read(i) == offset_entry(data, table, i));
    }
}

/// The entries of the sample-to-chunk table are as many as it counts, at least one: of each twelve
/// bytes behind the count, the first integer is the chunk it starts with and the second the number
/// of samples.
pub proof fn law_runs_listed(data: Seq<u8>, stsc: Atom)
    requires
        stsc.payload + 8 <= data.len(),
    ensures
        stsc_entries(data, stsc) matches Ok(entries) ==> {
            &&& 0 < entries.len() == be32(data, stsc.payload + 4)
            &&& forall|i: int|
                0 <= i < entries.len() ==> #[trigger] entries[i] == (
                    be32(data, stsc.payload + 8 + 12 * i),
                    be32(data, stsc.payload + 12 + 12 * i),
                )
        },
        stsc_entries(data, stsc) is Ok == {
            let count = be32(data, stsc.payload + 4);
            0 < count && stsc.payload + 4 + 12 * count <= data.len()
        },
        be32(data, stsc.payload + 4) == 0 ==> stsc_entries(data, stsc) == Err::<
            Seq<(u32, u32)>,
            Mp4Error,
        >(Mp4Error::NoStscEntries),
{
    let read = stsc_reader(data, stsc);
    let count = be32(data, stsc.payload + 4) as int;
    law_collected(count, read);
    assert forall|i: int| #[trigger] read(i) == stsc_entry(data, stsc, i) by {}
    if count > 0 {
        assert(read(count - 1) == stsc_entry(data, stsc, count - 1));
        assert(stsc.payload + 12 + (count - 1) * 12 + 4 == stsc.payload + 4 + 12 * count);
    }
    if stsc_entries(data, stsc) is Ok {
        let entries = stsc_entries(data, stsc)->Ok_0;
        assert forall|i: int| 0 <= i < entries.len() implies #[trigger] entries[i] == (
            be32(data, stsc.payload + 8 + 12 * i),
            be32(data, stsc.payload + 12 + 12 * i),
        ) by {
            assert(read(i) == stsc_entry(data, stsc, i));
        }
    }
}

/// What the sample tables hold stands in the `stsc` atom, the `stsz` atom and the first chunk offset
/// table: the size of all samples, or zero and the size of each, behind the number of samples.
pub proof fn law_tables_read(data: Seq<u8>, stbl: Atom)
    requires
        sample_tables(data, stbl) is Ok,
    ensures
        ({
            let stsc = child_of(data, stbl, [0x73, 0x74, 0x73, 0x63]);
            let stsz = child_of(data, stbl, [0x73, 0x74, 0x73, 0x7a]);
            let atoms = atoms_in(data, stbl.payload as int, stbl.end as int)->Ok_0;
            let tables = sample_tables(data, stbl)->Ok_0;
            let at = stsz->Ok_0.payload as int;
            &&& stsc is Ok && stsz is Ok && first_offset_table(atoms) is Some
            &&& chunk_offsets(data, first_offset_table(atoms)->0) == Ok::<Seq<usize>, Mp4Error>(
                tables.offsets,
            )
            &&& stsc_entries(data, stsc->Ok_0) == Ok::<Seq<(u32, u32)>, Mp4Error>(tables.entries)
            &&& at + 12 <= data.len()
            &&& tables.default_size == be32(data, at + 4)
            &&& tables.sample_count == be32(data, at + 8)
            &&& tables.sizes.len() == if tables.default_size == 0 {
                tables.sample_count as int
            } else {
                0
            }
            &&& forall|i: int|
                0 <= i < tables.sizes.len() ==> #[trigger] tables.sizes[i] == be32(
                    data,
                    at + 12 + 4 * i,
                )
        }),
{
    assert(STSC =~= [0x73, 0x74, 0x73, 0x63]);
    assert(STSZ =~= [0x73, 0x74, 0x73, 0x7a]);
    let stsz = child_of(data, stbl, STSZ)->Ok_0;
    let tables = sample_tables(data, stbl)->Ok_0;
    let read = size_reader(data, stsz);
    let listed = if tables.default_size == 0 {
        tables.sample_count as int
    } else {
        0
    };
    law_collected(listed, read);
    assert forall|i: int| 0 <= i < tables.sizes.len() implies #[trigger] tables.sizes[i] == be32(
        data,
        stsz.payload + 12 + 4 * i,
    ) by {
        assert(read(i) == Ok::<u32, Mp4Error>(tables.sizes[i]));
    }
}

/// Whether entry `k` of a sample-to-chunk table is the one that a chunk falls under: it starts at or
/// before the chunk, and no later entry does.
pub open spec fn run_of(entries: Seq<(u32, u32)>, chunk: int, k: int) -> bool {
    &&& 0 <= k < entries.len()
    &&& entries[k].0 <= chunk
    &&& forall|j: int| k < j < entries.len() ==> (#[trigger] entries[j]).0 > chunk
}

/// The number of samples in a chunk is that of the last entry of the whole table that starts at or
/// before the chunk; there is none only where no entry does.
pub proof fn law_samples_in_chunk(entries: Seq<(u32, u32)>, chunk: int)
    ensures
        match samples_in_chunk(entries, chunk) {
            Some(samples) => exists|k: int| #[trigger]
                run_of(entries, chunk, k) && samples == entries[k].1,
            None => forall|j: int| 0 <= j < entries.len() ==> (#[trigger] entries[j]).0 > chunk,
        },
        forall|k: int| #[trigger]
            run_of(entries, chunk, k) ==> samples_in_chunk(entries, chunk) == Some(entries[k].1),
    decreases entries.len(),
{
    if entries.len() > 0 {
        let front = entries.drop_last();
        let last = entries.len() - 1;
        law_samples_in_chunk(front, chunk);
        if entries.last().0 <= chunk {
            assert(run_of(entries, chunk, last));
            assert forall|k: int| #[trigger] run_of(entries, chunk, k) implies k == last by {
                if k < last {
                    assert(entries[last].0 > chunk);
                }
            }
        } else {
            assert forall|k: int| #[trigger] run_of(entries, chunk, k) implies run_of(
                front,
                chunk,
                k,
            ) && front[k] == entries[k] by {
                assert forall|j: int| k < j < front.len() implies (#[trigger] front[j]).0
                    > chunk by {
                    assert(front[j] == entries[j]);
                }
            }
            if samples_in_chunk(front, chunk) is Some {
                let k = choose|k: int| #[trigger]
                    run_of(front, chunk, k) && samples_in_chunk(front, chunk)->0 == front[k].1;
                assert(front[k] == entries[k]);
                assert forall|j: int| k < j < entries.len() implies (#[trigger] entries[j]).0
                    > chunk by {
                    if j < last {
                        assert(front[j] == entries[j]);
                    }
                }
                assert(run_of(entries, chunk, k));
            } else {
                assert forall|j: int| 0 <= j < entries.len() implies (#[trigger] entries[j]).0
                    > chunk by {
                    if j < last {
                        assert(front[j] == entries[j]);
                    }
                }
            }
        }
    }
}

/// The sum of sample sizes is a sum: that of nothing is zero, that of one size is the size, and sums
/// of two lists add up.
pub proof fn law_total(left: Seq<u32>, right: Seq<u32>, size: u32)
    ensures
        total(Seq::empty()) == 0,
        total(seq![size]) == size,
        total(left + right) == total(left) + total(right),
    decreases right.len(),
{
    assert(seq![size].drop_last() =~= Seq::<u32>::empty());
    if right.len() == 0 {
        assert(left + right =~= left);
    } else {
        law_total(left, right.drop_last(), size);
        assert((left + right).drop_last() =~= left + right.drop_last());
    }
}

/// The size of some chunks together is the sum of their sizes.
pub proof fn law_chunks_size(left: Seq<(usize, usize)>, right: Seq<(usize, usize)>, chunk: (usize, usize))
    ensures
        chunks_size(Seq::empty()) == 0,
        chunks_size(seq![chunk]) == chunk.1,
        chunks_size(left + right) == chunks_size(left) + chunks_size(right),
    decreases right.len(),
{
    assert(seq![chunk].drop_last() =~= Seq::<(usize, usize)>::empty());
    if right.len() == 0 {
        assert(left + right =~= left);
    } else {
        law_chunks_size(left, right.drop_last(), chunk);
        assert((left + right).drop_last() =~= left + right.drop_last());
    }
}

/// Whether samples are dealt out to the first `count` chunks: chunk `i` holds the samples from number
/// `firsts[i]` up to number `firsts[i + 1]`, as many as the entry that it falls under says. Chunks
/// are counted from one in the sample-to-chunk table.
pub open spec fn dealt_out(entries: Seq<(u32, u32)>, firsts: Seq<int>, count: int) -> bool {
    &&& firsts.len() == count + 1
    &&& firsts[0] == 0
    &&& forall|i: int, j: int|
        0 <= i < count && j == i + 1 ==> in_run(
            entries,
            j,
            (#[trigger] firsts[j]) - #[trigger] firsts[i],
        )
}

/// Whether the entry that a chunk falls under gives it so many samples.
pub open spec fn in_run(entries: Seq<(u32, u32)>, chunk: int, samples: int) -> bool {
    exists|k: int| #[trigger] run_of(entries, chunk, k) && samples == entries[k].1
}

/// The size of the samples from number `from` up to number `to`.
pub open spec fn span_size(tables: SampleTables, from: int, to: int) -> int {
    if tables.default_size != 0 {
        (to - from) * tables.default_size
    } else {
        total(tables.sizes.subrange(from, to))
    }
}

/// Whether chunks lie at their offsets and are as large as the samples that are dealt out to them.
pub open spec fn laid_out(
    tables: SampleTables,
    firsts: Seq<int>,
    chunks: Seq<(usize, usize)>,
) -> bool {
    forall|i: int|
        0 <= i < chunks.len() ==> (#[trigger] chunks[i]).0 == tables.offsets[i] && chunks[i].1
            == span_size(tables, firsts[i], firsts[i + 1])
}

proof fn lemma_dealt(tables: SampleTables, count: int) -> (firsts: Seq<int>)
    requires
        0 <= count,
        chunk_layout(tables, count) is Ok,
    ensures
        dealt_out(tables.entries, firsts, count),
        chunk_layout(tables, count)->Ok_0.0.len() == count,
        chunk_layout(tables, count)->Ok_0.1 == firsts.last(),
        laid_out(tables, firsts, chunk_layout(tables, count)->Ok_0.0),
    decreases count,
{
    if count == 0 {
        seq![0int]
    } else {
        let before = lemma_dealt(tables, count - 1);
        let (front, first) = chunk_layout(tables, count - 1)->Ok_0;
        let (chunks, after) = chunk_layout(tables, count)->Ok_0;
        let samples = samples_in_chunk(tables.entries, count)->0;
        let firsts = before.push(after);
        law_samples_in_chunk(tables.entries, count);
        assert(in_run(tables.entries, count, samples as int));
        assert forall|i: int, j: int| 0 <= i < count && j == i + 1 implies in_run(
            tables.entries,
            j,
            (#[trigger] firsts[j]) - #[trigger] firsts[i],
        ) by {
            if j < count {
                assert(firsts[j] == before[j]);
            }
            assert(firsts[i] == before[i]);
        }
        assert forall|i: int| 0 <= i < chunks.len() implies (#[trigger] chunks[i]).0
            == tables.offsets[i] && chunks[i].1 == span_size(
            tables,
            firsts[i],
            firsts[i + 1],
        ) by {
            if i < count - 1 {
                assert(chunks[i] == front[i]);
                assert(firsts[i] == before[i] && firsts[i + 1] == before[i + 1]);
            } else {
                assert(firsts[i] == first && firsts[i + 1] == first + samples);
                assert(samples * tables.default_size == (firsts[i + 1] - firsts[i])
                    * tables.default_size);
                assert(samples * tables.default_size >= 0) by (nonlinear_arith)
                    requires
                        samples >= 0,
                        tables.default_size >= 0,
                ;
                lemma_total_nonnegative(tables.sizes.subrange(first, first + samples));
                assert(chunks[i] == (tables.offsets[i], chunk_size(tables, first, samples)->Ok_0));
            }
        }
        firsts
    }
}

/// The chunks of a track: one for each offset, at that offset, as large as the samples that it holds.
/// The samples are dealt out to the chunks in order, to each as many as the entry of the
/// sample-to-chunk table says that it falls under, and none is left.
pub proof fn law_chunks_laid_out(tables: SampleTables)
    requires
        chunks_from(tables) is Ok,
    ensures
        chunks_from(tables)->Ok_0.len() == tables.offsets.len(),
        exists|firsts: Seq<int>|
            {
                &&& #[trigger] dealt_out(tables.entries, firsts, tables.offsets.len() as int)
                &&& firsts.last() == tables.sample_count
                &&& laid_out(tables, firsts, chunks_from(tables)->Ok_0)
            },
{
    let firsts = lemma_dealt(tables, tables.offsets.len() as int);
    assert(dealt_out(tables.entries, firsts, tables.offsets.len() as int));
}

/// The numbers of samples, their sizes and the sizes of the chunks can be held.
pub open spec fn holdable(tables: SampleTables, firsts: Seq<int>) -> bool {
    forall|i: int, j: int|
        0 <= i < firsts.len() - 1 && j == i + 1 ==> {
            &&& 0 <= #[trigger] firsts[i] <= #[trigger] firsts[j] <= usize::MAX
            &&& tables.default_size == 0 ==> firsts[j] <= tables.sizes.len()
            &&& span_size(tables, firsts[i], firsts[j]) <= usize::MAX
        }
}

proof fn lemma_layout_owed(tables: SampleTables, firsts: Seq<int>, count: int)
    requires
        0 <= count < firsts.len(),
        dealt_out(tables.entries, firsts, firsts.len() - 1),
        holdable(tables, firsts),
    ensures
        chunk_layout(tables, count) is Ok,
        chunk_layout(tables, count)->Ok_0.1 == firsts[count],
    decreases count,
{
    if count > 0 {
        lemma_layout_owed(tables, firsts, count - 1);
        let samples = firsts[count] - firsts[count - 1];
        assert(in_run(tables.entries, count, samples));
        law_samples_in_chunk(tables.entries, count);
        let k = choose|k: int| #[trigger]
            run_of(tables.entries, count, k) && samples == tables.entries[k].1;
        assert(samples_in_chunk(tables.entries, count) == Some(tables.entries[k].1));
        assert(span_size(tables, firsts[count - 1], firsts[count]) <= usize::MAX);
        assert(samples * tables.default_size == tables.entries[k].1 * tables.default_size);
        assert(chunk_size(tables, firsts[count - 1], tables.entries[k].1) is Ok);
    }
}

/// Sample tables whose samples can be dealt out to their chunks without one being left are read,
/// unless a size or a number of samples cannot be held.
pub proof fn law_chunks_owed(tables: SampleTables, firsts: Seq<int>)
    requires
        dealt_out(tables.entries, firsts, tables.offsets.len() as int),
        firsts.last() == tables.sample_count,
        holdable(tables, firsts),
    ensures
        chunks_from(tables) is Ok,
{
    lemma_layout_owed(tables, firsts, tables.offsets.len() as int);
}

/// Why samples cannot be dealt out to the chunks: a chunk that falls under no entry, samples that are
/// left or that lack, or a size that cannot be held.
pub proof fn law_chunks_refused(tables: SampleTables, firsts: Seq<int>, count: int)
    requires
        0 <= count <= tables.offsets.len(),
        dealt_out(tables.entries, firsts, count),
        holdable(tables, firsts),
    ensures
        count < tables.offsets.len() && (forall|j: int|
            0 <= j < tables.entries.len() ==> (#[trigger] tables.entries[j]).0 > count + 1)
            ==> chunks_from(tables) == Err::<Seq<(usize, usize)>, Mp4Error>(
            Mp4Error::ChunksNotCovered,
        ),
        count == tables.offsets.len() && firsts.last() != tables.sample_count ==> chunks_from(tables)
            == Err::<Seq<(usize, usize)>, Mp4Error>(Mp4Error::SampleCountMismatch),
{
    lemma_layout_owed(tables, firsts, count);
    if count < tables.offsets.len() {
        law_samples_in_chunk(tables.entries, count + 1);
        if samples_in_chunk(tables.entries, count + 1) is None {
            lemma_layout_error(tables, count + 1, tables.offsets.len() as int);
        } else {
            let k = choose|k: int| #[trigger]
                run_of(tables.entries, count + 1, k) && samples_in_chunk(
                    tables.entries,
                    count + 1,
                )->0 == tables.entries[k].1;
            assert(tables.entries[k].0 <= count + 1);
        }
    }
}

/// The track IDs of a list of atoms are those of its parts, one behind the other.
pub proof fn law_ids_joined(data: Seq<u8>, left: Seq<Atom>, right: Seq<Atom>)
    requires
        ids_among(data, left) is Ok,
        ids_among(data, right) is Ok,
    ensures
        ids_among(data, left + right) == Ok::<Seq<u32>, Mp4Error>(
            ids_among(data, left)->Ok_0 + ids_among(data, right)->Ok_0,
        ),
    decreases right.len(),
{
    if right.len() == 0 {
        assert(left + right =~= left);
        assert(ids_among(data, left)->Ok_0 + ids_among(data, right)->Ok_0 =~= ids_among(
            data,
            left,
        )->Ok_0);
    } else {
        law_ids_joined(data, left, right.drop_last());
        assert((left + right).drop_last() =~= left + right.drop_last());
        assert((left + right).last() == right.last());
        let front = ids_among(data, left)->Ok_0;
        let ids = ids_among(data, right)->Ok_0;
        let before = ids_among(data, right.drop_last())->Ok_0;
        if ids.len() == before.len() {
            assert(ids =~= before);
        } else {
            assert(front + ids =~= (front + before).push(ids.last()));
        }
    }
}

/// A track has the ID that its track header holds: behind twelve bytes, and behind twenty where the
/// first byte of the header is one. An atom of another type has none, nor has a track without a track
/// header.
pub proof fn law_id_read(data: Seq<u8>, atom: Atom)
    ensures
        ({
            let tkhd = child_of(data, atom, [0x74, 0x6b, 0x68, 0x64]);
            let at = tkhd->Ok_0.payload as int;
            let place = at + if data[at] == 1 {
                20int
            } else {
                12int
            };
            let ids = ids_among(data, seq![atom]);
            &&& atom.kind@ != seq![0x74u8, 0x72, 0x61, 0x6b] || tkhd is Err ==> ids == Ok::<
                Seq<u32>,
                Mp4Error,
            >(Seq::empty())
            &&& atom.kind@ == seq![0x74u8, 0x72, 0x61, 0x6b] && tkhd is Ok && at < data.len() && place
                + 4 <= data.len() ==> ids == Ok::<Seq<u32>, Mp4Error>(seq![be32(data, place)])
            &&& atom.kind@ == seq![0x74u8, 0x72, 0x61, 0x6b] && tkhd is Ok && (at >= data.len()
                || place + 4 > data.len()) ==> ids is Err
        }),
{
    assert(TKHD =~= [0x74, 0x6b, 0x68, 0x64]);
    lemma_track_kind(atom);
    assert(seq![atom].drop_last() =~= Seq::<Atom>::empty());
    assert(ids_among(data, Seq::<Atom>::empty()) == Ok::<Seq<u32>, Mp4Error>(Seq::empty()));
    if atom.kind == TRAK && child_of(data, atom, TKHD) is Ok {
        let tkhd = child_of(data, atom, TKHD)->Ok_0;
        if header_track_id(data, tkhd) is Ok {
            let id = header_track_id(data, tkhd)->Ok_0;
            assert(Seq::<u32>::empty().push(id) =~= seq![id]);
        }
    }
}

/// The track IDs of a movie are those of its children.
pub proof fn law_movie_ids(data: Seq<u8>, moov: Atom)
    requires
        atoms_in(data, moov.payload as int, moov.end as int) is Ok,
    ensures
        track_ids_of(data, moov) == ids_among(
            data,
            atoms_in(data, moov.payload as int, moov.end as int)->Ok_0,
        ),
{
}

} // verus!
