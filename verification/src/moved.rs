//! A run of bytes reads the same wherever it stands in a file.

use crate::atoms::{
    atom_at, atoms_in, child_of, first_of_kind, law_atoms_tile, lemma_first_of_kind, Atom,
};
use crate::bytes::{be32, be64, kind_at, read32, read64};
use crate::error::Mp4Error;
use crate::kinds::{AIMD, CO64, MDIA, MINF, STBL, STCO, STSC, STSD, STSZ};
use crate::track::{
    chunk_offsets, chunks_of, collect, describes_aimd, first_offset_table, offset_entry,
    offset_reader, sample_table_of, sample_tables, size_reader, stsc_entries, stsc_entry,
    stsc_reader, stsd_aimd, tables_in, track_is_aimd,
};
use vstd::prelude::*;

verus! {

/// Whether the bytes of `data` from `base` on are those of `part`.
#[verifier::opaque]
pub open spec fn same_from(data: Seq<u8>, base: int, part: Seq<u8>) -> bool {
    forall|i: int| 0 <= i < part.len() ==> #[trigger] data[base + i] == part[i]
}

/// Whether `part` stands in `data` from `base` on, at places that can be addressed.
pub open spec fn holds_at(data: Seq<u8>, base: int, part: Seq<u8>) -> bool {
    &&& 0 <= base
    &&& base + part.len() <= data.len() <= usize::MAX
    &&& same_from(data, base, part)
}

/// An atom, `by` bytes further on.
pub open spec fn moved(atom: Atom, by: int) -> Atom {
    Atom {
        start: (atom.start + by) as usize,
        payload: (atom.payload + by) as usize,
        end: (atom.end + by) as usize,
        kind: atom.kind,
    }
}

/// Some atoms, each `by` bytes further on.
pub open spec fn all_moved(atoms: Seq<Atom>, by: int) -> Seq<Atom> {
    Seq::new(atoms.len(), |i: int| moved(atoms[i], by))
}

/// Whether an atom lies inside a run of bytes.
pub open spec fn inside(atom: Atom, part: Seq<u8>) -> bool {
    atom.payload <= atom.end <= part.len()
}

pub proof fn lemma_integers_moved(data: Seq<u8>, base: int, part: Seq<u8>, at: int)
    requires
        holds_at(data, base, part),
        0 <= at,
    ensures
        at + 4 <= part.len() ==> be32(data, base + at) == be32(part, at) && kind_at(data, base + at)
            == kind_at(part, at),
        at + 8 <= part.len() ==> be64(data, base + at) == be64(part, at),
        read32(part, at) is Ok || base + part.len() == data.len() ==> read32(data, base + at)
            == read32(part, at),
        read64(part, at) is Ok || base + part.len() == data.len() ==> read64(data, base + at)
            == read64(part, at),
{
    reveal(same_from);
    reveal(be32);
    reveal(be64);
    reveal(kind_at);
    if at + 4 <= part.len() {
        assert(data[base + at] == part[at]);
        assert(data[base + (at + 1)] == part[at + 1]);
        assert(data[base + (at + 2)] == part[at + 2]);
        assert(data[base + (at + 3)] == part[at + 3]);
    }
    if at + 8 <= part.len() {
        assert(data[base + (at + 4)] == part[at + 4]);
        assert(data[base + (at + 5)] == part[at + 5]);
        assert(data[base + (at + 6)] == part[at + 6]);
        assert(data[base + (at + 7)] == part[at + 7]);
    }
}

#[verifier::rlimit(40)]
pub proof fn lemma_atom_moved(data: Seq<u8>, base: int, part: Seq<u8>, at: int, end: int)
    requires
        holds_at(data, base, part),
        0 <= at,
        end <= part.len(),
    ensures
        atom_at(part, at, end) is Ok == atom_at(data, base + at, base + end) is Ok,
        atom_at(part, at, end) is Ok ==> atom_at(data, base + at, base + end) == Ok::<
            Atom,
            Mp4Error,
        >(moved(atom_at(part, at, end)->Ok_0, base)),
{
    lemma_integers_moved(data, base, part, at);
    lemma_integers_moved(data, base, part, at + 4);
    lemma_integers_moved(data, base, part, at + 8);
}

pub proof fn lemma_atoms_moved(data: Seq<u8>, base: int, part: Seq<u8>, at: int, end: int)
    requires
        holds_at(data, base, part),
        0 <= at,
        end <= part.len(),
    ensures
        atoms_in(part, at, end) is Ok == atoms_in(data, base + at, base + end) is Ok,
        atoms_in(part, at, end) is Ok ==> atoms_in(data, base + at, base + end) == Ok::<
            Seq<Atom>,
            Mp4Error,
        >(all_moved(atoms_in(part, at, end)->Ok_0, base)),
    decreases end - at,
{
    if at < end {
        lemma_atom_moved(data, base, part, at, end);
        if atom_at(part, at, end) is Ok {
            let atom = atom_at(part, at, end)->Ok_0;
            lemma_atoms_moved(data, base, part, atom.end as int, end);
            if atoms_in(part, at, end) is Ok {
                let rest = atoms_in(part, atom.end as int, end)->Ok_0;
                assert(all_moved(seq![atom] + rest, base) =~= seq![moved(atom, base)] + all_moved(
                    rest,
                    base,
                ));
            }
        }
    } else {
        assert(all_moved(Seq::<Atom>::empty(), base) =~= Seq::<Atom>::empty());
    }
}

pub proof fn lemma_first_moved(atoms: Seq<Atom>, base: int, kind: [u8; 4])
    ensures
        first_of_kind(all_moved(atoms, base), kind) == match first_of_kind(atoms, kind) {
            Some(atom) => Some(moved(atom, base)),
            None => None::<Atom>,
        },
    decreases atoms.len(),
{
    if atoms.len() > 0 {
        lemma_first_moved(atoms.drop_first(), base, kind);
        assert(all_moved(atoms, base).drop_first() =~= all_moved(atoms.drop_first(), base));
    }
}

/// A child lies inside its parent.
pub proof fn lemma_child_inside(data: Seq<u8>, parent: Atom, kind: [u8; 4])
    requires
        child_of(data, parent, kind) is Ok,
    ensures
        ({
            let child = child_of(data, parent, kind)->Ok_0;
            &&& child.kind == kind
            &&& parent.payload <= child.start
            &&& child.start + 8 <= child.payload <= child.end <= parent.end
        }),
{
    let atoms = atoms_in(data, parent.payload as int, parent.end as int)->Ok_0;
    law_atoms_tile(data, parent.payload as int, parent.end as int);
    lemma_first_of_kind(atoms, kind);
}

pub proof fn lemma_child_moved(
    data: Seq<u8>,
    base: int,
    part: Seq<u8>,
    parent: Atom,
    kind: [u8; 4],
)
    requires
        holds_at(data, base, part),
        inside(parent, part),
    ensures
        child_of(part, parent, kind) is Ok == child_of(data, moved(parent, base), kind) is Ok,
        child_of(part, parent, kind) is Ok ==> {
            let child = child_of(part, parent, kind)->Ok_0;
            &&& child_of(data, moved(parent, base), kind) == Ok::<Atom, Mp4Error>(
                moved(child, base),
            )
            &&& inside(child, part)
        },
{
    lemma_atoms_moved(data, base, part, parent.payload as int, parent.end as int);
    if atoms_in(part, parent.payload as int, parent.end as int) is Ok {
        let atoms = atoms_in(part, parent.payload as int, parent.end as int)->Ok_0;
        lemma_first_moved(atoms, base, kind);
        if first_of_kind(atoms, kind) is Some {
            lemma_child_inside(part, parent, kind);
        }
    }
}

pub proof fn lemma_sample_table_moved(data: Seq<u8>, base: int, part: Seq<u8>, track: Atom)
    requires
        holds_at(data, base, part),
        inside(track, part),
    ensures
        sample_table_of(part, track) is Ok == sample_table_of(data, moved(track, base)) is Ok,
        sample_table_of(part, track) is Ok ==> {
            let stbl = sample_table_of(part, track)->Ok_0;
            &&& sample_table_of(data, moved(track, base)) == Ok::<Atom, Mp4Error>(moved(stbl, base))
            &&& inside(stbl, part)
        },
{
    lemma_child_moved(data, base, part, track, MDIA);
    if child_of(part, track, MDIA) is Ok {
        let mdia = child_of(part, track, MDIA)->Ok_0;
        lemma_child_moved(data, base, part, mdia, MINF);
        if child_of(part, mdia, MINF) is Ok {
            let minf = child_of(part, mdia, MINF)->Ok_0;
            lemma_child_moved(data, base, part, minf, STBL);
        }
    }
}

pub proof fn lemma_descriptions_moved(
    data: Seq<u8>,
    base: int,
    part: Seq<u8>,
    cursor: int,
    end: int,
    count: int,
)
    requires
        holds_at(data, base, part),
        0 <= cursor,
        describes_aimd(part, cursor, end, count) is Ok || base + part.len() == data.len(),
    ensures
        describes_aimd(data, base + cursor, base + end, count) == describes_aimd(
            part,
            cursor,
            end,
            count,
        ),
    decreases count,
{
    if count > 0 {
        lemma_integers_moved(data, base, part, cursor);
        lemma_integers_moved(data, base, part, cursor + 4);
        if read32(part, cursor) is Ok {
            let size = read32(part, cursor)->Ok_0;
            if !(size < 8 || cursor + size > end || cursor + 8 > part.len() || kind_at(
                part,
                cursor + 4,
            ) == AIMD) {
                lemma_descriptions_moved(data, base, part, cursor + size, end, count - 1);
            }
        }
    }
}

pub proof fn lemma_stsd_moved(data: Seq<u8>, base: int, part: Seq<u8>, stsd: Atom)
    requires
        holds_at(data, base, part),
        inside(stsd, part),
        stsd_aimd(part, stsd) is Ok || base + part.len() == data.len(),
    ensures
        stsd_aimd(data, moved(stsd, base)) == stsd_aimd(part, stsd),
{
    lemma_integers_moved(data, base, part, stsd.payload + 4);
    if read32(part, stsd.payload + 4) is Ok {
        lemma_descriptions_moved(
            data,
            base,
            part,
            stsd.payload + 8,
            stsd.end as int,
            read32(part, stsd.payload + 4)->Ok_0 as int,
        );
    }
}

/// Whether a track holds telemetry does not depend on where it stands, as long as reading it does
/// not leave the run of bytes.
pub proof fn lemma_track_is_aimd_moved(data: Seq<u8>, base: int, part: Seq<u8>, track: Atom)
    requires
        holds_at(data, base, part),
        inside(track, part),
    ensures
        track_is_aimd(part, track) is Ok ==> track_is_aimd(data, moved(track, base))
            == track_is_aimd(part, track),
        base + part.len() == data.len() && track_is_aimd(data, moved(track, base)) is Ok
            ==> track_is_aimd(data, moved(track, base)) == track_is_aimd(part, track),
{
    lemma_sample_table_moved(data, base, part, track);
    if sample_table_of(part, track) is Ok {
        let stbl = sample_table_of(part, track)->Ok_0;
        lemma_child_moved(data, base, part, stbl, STSD);
        if child_of(part, stbl, STSD) is Ok {
            let stsd = child_of(part, stbl, STSD)->Ok_0;
            if stsd_aimd(part, stsd) is Ok || base + part.len() == data.len() {
                lemma_stsd_moved(data, base, part, stsd);
            }
        }
    }
}

/// Readers that agree wherever the first one succeeds collect the same list.
pub proof fn lemma_collect_same<T>(
    count: int,
    read: spec_fn(int) -> Result<T, Mp4Error>,
    other: spec_fn(int) -> Result<T, Mp4Error>,
)
    requires
        collect(count, read) is Ok,
        forall|i: int| 0 <= i < count && (#[trigger] read(i)) is Ok ==> other(i) == read(i),
    ensures
        collect(count, other) == collect(count, read),
    decreases count,
{
    if count > 0 {
        lemma_collect_same(count - 1, read, other);
        assert(read(count - 1) is Ok);
    }
}

pub proof fn lemma_offset_table_moved(atoms: Seq<Atom>, base: int)
    ensures
        first_offset_table(all_moved(atoms, base)) == match first_offset_table(atoms) {
            Some(atom) => Some(moved(atom, base)),
            None => None::<Atom>,
        },
        first_offset_table(atoms) matches Some(atom) ==> atoms.contains(atom) && (atom.kind == STCO
            || atom.kind == CO64),
    decreases atoms.len(),
{
    if atoms.len() > 0 {
        lemma_offset_table_moved(atoms.drop_first(), base);
        assert(all_moved(atoms, base).drop_first() =~= all_moved(atoms.drop_first(), base));
        if first_offset_table(atoms) is Some {
            let atom = first_offset_table(atoms)->0;
            if atom == atoms[0] {
                assert(atoms.contains(atoms[0]));
            } else {
                let i = choose|i: int|
                    0 <= i < atoms.drop_first().len() && atoms.drop_first()[i] == atom;
                assert(atoms[i + 1] == atom);
            }
        }
    }
}

pub proof fn lemma_chunk_offsets_moved(data: Seq<u8>, base: int, part: Seq<u8>, table: Atom)
    requires
        holds_at(data, base, part),
        inside(table, part),
        chunk_offsets(part, table) is Ok,
    ensures
        chunk_offsets(data, moved(table, base)) == chunk_offsets(part, table),
{
    let there = moved(table, base);
    lemma_integers_moved(data, base, part, table.payload + 4);
    let count = read32(part, table.payload + 4)->Ok_0;
    let read = offset_reader(part, table);
    let other = offset_reader(data, there);
    assert forall|i: int| 0 <= i < count && (#[trigger] read(i)) is Ok implies other(i) == read(
        i,
    ) by {
        lemma_integers_moved(data, base, part, table.payload + 8 + i * 4);
        lemma_integers_moved(data, base, part, table.payload + 8 + i * 8);
        assert(other(i) == offset_entry(data, there, i));
    }
    lemma_collect_same(count as int, read, other);
}

pub proof fn lemma_stsc_moved(data: Seq<u8>, base: int, part: Seq<u8>, stsc: Atom)
    requires
        holds_at(data, base, part),
        inside(stsc, part),
        stsc_entries(part, stsc) is Ok,
    ensures
        stsc_entries(data, moved(stsc, base)) == stsc_entries(part, stsc),
{
    let there = moved(stsc, base);
    lemma_integers_moved(data, base, part, stsc.payload + 4);
    let count = read32(part, stsc.payload + 4)->Ok_0;
    let read = stsc_reader(part, stsc);
    let other = stsc_reader(data, there);
    assert forall|i: int| 0 <= i < count && (#[trigger] read(i)) is Ok implies other(i) == read(
        i,
    ) by {
        lemma_integers_moved(data, base, part, stsc.payload + 8 + i * 12);
        lemma_integers_moved(data, base, part, stsc.payload + 12 + i * 12);
        assert(other(i) == stsc_entry(data, there, i));
    }
    lemma_collect_same(count as int, read, other);
}

pub proof fn lemma_sizes_moved(data: Seq<u8>, base: int, part: Seq<u8>, stsz: Atom, count: int)
    requires
        holds_at(data, base, part),
        inside(stsz, part),
        collect(count, size_reader(part, stsz)) is Ok,
    ensures
        collect(count, size_reader(data, moved(stsz, base))) == collect(
            count,
            size_reader(part, stsz),
        ),
{
    let there = moved(stsz, base);
    let read = size_reader(part, stsz);
    let other = size_reader(data, there);
    assert forall|i: int| 0 <= i < count && (#[trigger] read(i)) is Ok implies other(i) == read(
        i,
    ) by {
        lemma_integers_moved(data, base, part, stsz.payload + 12 + i * 4);
        assert(other(i) == read32(data, there.payload + 12 + i * 4));
    }
    lemma_collect_same(count, read, other);
}

/// The sample tables of a track do not depend on where it stands, as long as reading them does not
/// leave the run of bytes.
#[verifier::rlimit(40)]
pub proof fn lemma_sample_tables_moved(data: Seq<u8>, base: int, part: Seq<u8>, stbl: Atom)
    requires
        holds_at(data, base, part),
        inside(stbl, part),
        sample_tables(part, stbl) is Ok,
    ensures
        sample_tables(data, moved(stbl, base)) == sample_tables(part, stbl),
        chunks_of(data, moved(stbl, base)) == chunks_of(part, stbl),
{
    lemma_child_moved(data, base, part, stbl, STSC);
    lemma_child_moved(data, base, part, stbl, STSZ);
    let stsc = child_of(part, stbl, STSC)->Ok_0;
    let stsz = child_of(part, stbl, STSZ)->Ok_0;
    let atoms = atoms_in(part, stbl.payload as int, stbl.end as int)->Ok_0;
    lemma_atoms_moved(data, base, part, stbl.payload as int, stbl.end as int);
    law_atoms_tile(part, stbl.payload as int, stbl.end as int);
    lemma_offset_table_moved(atoms, base);
    let table = first_offset_table(atoms)->0;
    assert(inside(table, part));
    lemma_chunk_offsets_moved(data, base, part, table);
    lemma_stsc_moved(data, base, part, stsc);
    lemma_integers_moved(data, base, part, stsz.payload + 4);
    lemma_integers_moved(data, base, part, stsz.payload + 8);
    let default_size = read32(part, stsz.payload + 4)->Ok_0;
    let sample_count = read32(part, stsz.payload + 8)->Ok_0;
    lemma_sizes_moved(
        data,
        base,
        part,
        stsz,
        if default_size == 0 {
            sample_count as int
        } else {
            0
        },
    );
    assert(tables_in(data, moved(stsc, base), moved(stsz, base), moved(table, base)) == tables_in(
        part,
        stsc,
        stsz,
        table,
    ));
}

} // verus!
