//! What a change to some bytes of a track leaves as it was.

use crate::atoms::{atom_at, atoms_in, child_of, law_atoms_tile, lemma_first_of_kind, tile, Atom};
use crate::bytes::{be32, be64, kind_at, law_u32_read_back, law_u64_read_back, read32, read64};
use crate::error::Mp4Error;
use crate::kinds::{AIMD, CO64, MDIA, MINF, STBL, STCO};
use crate::moved::{lemma_child_inside, lemma_collect_same};
use crate::patch::{offset_tables, with_offset, with_offsets};
use crate::track::{
    collect, describes_aimd, first_offset_table, offset_entry, offset_reader, sample_table_of,
    size_reader, stsc_entries, stsc_entry, stsc_reader, stsd_aimd,
};
use vstd::prelude::*;

verus! {

/// Whether two runs of bytes are the same but for the bytes from `from` to `to`.
pub open spec fn same_but(data: Seq<u8>, other: Seq<u8>, from: int, to: int) -> bool {
    &&& data.len() == other.len()
    &&& data.len() <= usize::MAX
    &&& forall|i: int|
        0 <= i < data.len() && !(from <= i < to) ==> #[trigger] other[i] == data[i]
}

/// Whether the bytes from `from` to `to` touch the header of none of some atoms.
pub open spec fn spares_headers(atoms: Seq<Atom>, from: int, to: int) -> bool {
    forall|i: int|
        0 <= i < atoms.len() ==> to <= (#[trigger] atoms[i]).start || atoms[i].payload <= from
}

/// Bytes inside the content of one atom touch the header of none.
pub proof fn lemma_content_spares(
    atoms: Seq<Atom>,
    at: int,
    end: int,
    atom: Atom,
    from: int,
    to: int,
)
    requires
        tile(atoms, at, end),
        atoms.contains(atom),
        atom.payload <= from <= to <= atom.end,
    ensures
        spares_headers(atoms, from, to),
{
    let k = choose|k: int| 0 <= k < atoms.len() && atoms[k] == atom;
    assert forall|i: int| 0 <= i < atoms.len() implies to <= (#[trigger] atoms[i]).start
        || atoms[i].payload <= from by {
        if i < k {
            lemma_tile_order(atoms, at, end, i, k);
        } else if k < i {
            lemma_tile_order(atoms, at, end, k, i);
        }
    }
}

/// Of two atoms that tile a range the first ends before the second starts.
pub proof fn lemma_tile_order(atoms: Seq<Atom>, at: int, end: int, i: int, k: int)
    requires
        tile(atoms, at, end),
        0 <= i < k < atoms.len(),
    ensures
        atoms[i].end <= atoms[k].start,
    decreases k - i,
{
    assert(atoms[k].start == atoms[k - 1].end);
    if i < k - 1 {
        lemma_tile_order(atoms, at, end, i, k - 1);
    }
}

pub proof fn lemma_atom_same_header(data: Seq<u8>, other: Seq<u8>, at: int, end: int)
    requires
        0 <= at,
        data.len() == other.len(),
        end <= data.len(),
        atom_at(data, at, end) is Ok,
        forall|i: int|
            at <= i < atom_at(data, at, end)->Ok_0.payload ==> #[trigger] other[i] == data[i],
    ensures
        atom_at(other, at, end) == atom_at(data, at, end),
{
    reveal(be32);
    reveal(be64);
    reveal(kind_at);
    assert(other[at] == data[at]);
    assert(other[at + 1] == data[at + 1]);
    assert(other[at + 2] == data[at + 2]);
    assert(other[at + 3] == data[at + 3]);
    assert(other[at + 4] == data[at + 4]);
    assert(other[at + 5] == data[at + 5]);
    assert(other[at + 6] == data[at + 6]);
    assert(other[at + 7] == data[at + 7]);
    assert(kind_at(other, at + 4) == kind_at(data, at + 4));
    if be32(data, at) == 1 {
        assert(other[at + 8] == data[at + 8]);
        assert(other[at + 9] == data[at + 9]);
        assert(other[at + 10] == data[at + 10]);
        assert(other[at + 11] == data[at + 11]);
        assert(other[at + 12] == data[at + 12]);
        assert(other[at + 13] == data[at + 13]);
        assert(other[at + 14] == data[at + 14]);
        assert(other[at + 15] == data[at + 15]);
        assert(be64(other, at + 8) == be64(data, at + 8));
    }
}

pub proof fn lemma_atoms_patched(
    data: Seq<u8>,
    other: Seq<u8>,
    from: int,
    to: int,
    at: int,
    end: int,
)
    requires
        same_but(data, other, from, to),
        0 <= at,
        end <= data.len(),
        atoms_in(data, at, end) is Ok,
        spares_headers(atoms_in(data, at, end)->Ok_0, from, to),
    ensures
        atoms_in(other, at, end) == atoms_in(data, at, end),
    decreases end - at,
{
    if at < end {
        let atom = atom_at(data, at, end)->Ok_0;
        let rest = atoms_in(data, atom.end as int, end)->Ok_0;
        let all = seq![atom] + rest;
        assert(all[0] == atom);
        assert forall|i: int| at <= i < atom.payload implies #[trigger] other[i] == data[i] by {}
        lemma_atom_same_header(data, other, at, end);
        assert forall|i: int| 0 <= i < rest.len() implies to <= (#[trigger] rest[i]).start
            || rest[i].payload <= from by {
            assert(all[i + 1] == rest[i]);
        }
        lemma_atoms_patched(data, other, from, to, atom.end as int, end);
    }
}

/// A change inside one child, or outside the parent, leaves every child where it was.
pub proof fn lemma_children_patched(
    data: Seq<u8>,
    other: Seq<u8>,
    from: int,
    to: int,
    parent: Atom,
    child: Atom,
)
    requires
        same_but(data, other, from, to),
        from <= to,
        parent.end <= data.len(),
        atoms_in(data, parent.payload as int, parent.end as int) is Ok,
        to <= parent.payload || parent.end <= from || (atoms_in(
            data,
            parent.payload as int,
            parent.end as int,
        )->Ok_0.contains(child) && child.payload <= from && to <= child.end),
    ensures
        atoms_in(other, parent.payload as int, parent.end as int) == atoms_in(
            data,
            parent.payload as int,
            parent.end as int,
        ),
        forall|kind: [u8; 4]| #[trigger]
            child_of(other, parent, kind) == child_of(data, parent, kind),
{
    let atoms = atoms_in(data, parent.payload as int, parent.end as int)->Ok_0;
    law_atoms_tile(data, parent.payload as int, parent.end as int);
    if !(to <= parent.payload || parent.end <= from) {
        lemma_content_spares(
            atoms,
            parent.payload as int,
            parent.end as int,
            child,
            from,
            to,
        );
    }
    lemma_atoms_patched(
        data,
        other,
        from,
        to,
        parent.payload as int,
        parent.end as int,
    );
}

/// The child of a type is one of the children.
pub proof fn lemma_child_listed(data: Seq<u8>, parent: Atom, kind: [u8; 4])
    requires
        child_of(data, parent, kind) is Ok,
    ensures
        atoms_in(data, parent.payload as int, parent.end as int) is Ok,
        atoms_in(data, parent.payload as int, parent.end as int)->Ok_0.contains(
            child_of(data, parent, kind)->Ok_0,
        ),
{
    lemma_first_of_kind(
        atoms_in(data, parent.payload as int, parent.end as int)->Ok_0,
        kind,
    );
}

/// A change inside the content of one child of the sample table, or outside the media of a track,
/// leaves the sample table atom and its children where they were.
pub proof fn lemma_sample_table_patched(
    data: Seq<u8>,
    other: Seq<u8>,
    from: int,
    to: int,
    track: Atom,
    holder: Atom,
)
    requires
        same_but(data, other, from, to),
        from <= to,
        track.end <= data.len(),
        sample_table_of(data, track) is Ok,
        ({
            let stbl = sample_table_of(data, track)->Ok_0;
            atoms_in(data, stbl.payload as int, stbl.end as int) is Ok
        }),
        ({
            let stbl = sample_table_of(data, track)->Ok_0;
            let atoms = atoms_in(data, stbl.payload as int, stbl.end as int)->Ok_0;
            atoms.contains(holder) && holder.payload <= from && to <= holder.end
        }) || ({
            let mdia = child_of(data, track, MDIA)->Ok_0;
            let others = atoms_in(data, track.payload as int, track.end as int)->Ok_0;
            others.contains(holder) && holder.kind != MDIA && holder.payload <= from && to
                <= holder.end
        }),
    ensures
        ({
            let stbl = sample_table_of(data, track)->Ok_0;
            &&& sample_table_of(other, track) == sample_table_of(data, track)
            &&& atoms_in(other, stbl.payload as int, stbl.end as int) == atoms_in(
                data,
                stbl.payload as int,
                stbl.end as int,
            )
            &&& forall|kind: [u8; 4]| #[trigger]
                child_of(other, stbl, kind) == child_of(data, stbl, kind)
        }),
{
    let mdia = child_of(data, track, MDIA)->Ok_0;
    let minf = child_of(data, mdia, MINF)->Ok_0;
    let stbl = child_of(data, minf, STBL)->Ok_0;
    lemma_child_listed(data, track, MDIA);
    lemma_child_listed(data, mdia, MINF);
    lemma_child_listed(data, minf, STBL);
    lemma_child_inside(data, track, MDIA);
    lemma_child_inside(data, mdia, MINF);
    lemma_child_inside(data, minf, STBL);
    let atoms = atoms_in(data, stbl.payload as int, stbl.end as int)->Ok_0;
    law_atoms_tile(data, stbl.payload as int, stbl.end as int);
    if atoms.contains(holder) && holder.payload <= from && to <= holder.end {
        lemma_children_patched(data, other, from, to, track, mdia);
        lemma_children_patched(data, other, from, to, mdia, minf);
        lemma_children_patched(data, other, from, to, minf, stbl);
        lemma_children_patched(data, other, from, to, stbl, holder);
    } else {
        let others = atoms_in(data, track.payload as int, track.end as int)->Ok_0;
        law_atoms_tile(data, track.payload as int, track.end as int);
        lemma_apart(others, track.payload as int, track.end as int, holder, mdia);
        lemma_children_patched(data, other, from, to, track, holder);
        lemma_children_patched(data, other, from, to, mdia, minf);
        lemma_children_patched(data, other, from, to, minf, stbl);
        lemma_children_patched(data, other, from, to, stbl, holder);
    }
}

/// Atoms of different types that tile a range lie apart.
pub proof fn lemma_apart(atoms: Seq<Atom>, at: int, end: int, left: Atom, right: Atom)
    requires
        tile(atoms, at, end),
        atoms.contains(left),
        atoms.contains(right),
        left.kind != right.kind,
    ensures
        left.end <= right.start || right.end <= left.start,
{
    let i = choose|i: int| 0 <= i < atoms.len() && atoms[i] == left;
    let k = choose|k: int| 0 <= k < atoms.len() && atoms[k] == right;
    if i < k {
        lemma_tile_order(atoms, at, end, i, k);
    } else {
        lemma_tile_order(atoms, at, end, k, i);
    }
}

/// Integers outside the changed bytes read the same.
pub proof fn lemma_integers_patched(data: Seq<u8>, other: Seq<u8>, from: int, to: int, at: int)
    requires
        same_but(data, other, from, to),
        0 <= at,
    ensures
        at + 4 <= from || to <= at ==> read32(other, at) == read32(data, at),
        at + 4 <= data.len() && (at + 4 <= from || to <= at) ==> kind_at(other, at) == kind_at(
            data,
            at,
        ),
        at + 8 <= from || to <= at ==> read64(other, at) == read64(data, at),
{
    reveal(be32);
    reveal(be64);
    reveal(kind_at);
    if at + 4 <= data.len() && (at + 4 <= from || to <= at) {
        assert(other[at] == data[at]);
        assert(other[at + 1] == data[at + 1]);
        assert(other[at + 2] == data[at + 2]);
        assert(other[at + 3] == data[at + 3]);
    }
    if at + 8 <= data.len() && (at + 8 <= from || to <= at) {
        assert(other[at + 4] == data[at + 4]);
        assert(other[at + 5] == data[at + 5]);
        assert(other[at + 6] == data[at + 6]);
        assert(other[at + 7] == data[at + 7]);
    }
}

pub proof fn lemma_stsc_patched(data: Seq<u8>, other: Seq<u8>, from: int, to: int, stsc: Atom)
    requires
        same_but(data, other, from, to),
        stsc_entries(data, stsc) is Ok,
        stsc.payload + 8 + 12 * be32(data, stsc.payload + 4) <= from || to <= stsc.payload + 4,
    ensures
        stsc_entries(other, stsc) == stsc_entries(data, stsc),
{
    lemma_integers_patched(data, other, from, to, stsc.payload + 4);
    let count = read32(data, stsc.payload + 4)->Ok_0;
    let read = stsc_reader(data, stsc);
    let new = stsc_reader(other, stsc);
    assert forall|i: int| 0 <= i < count && (#[trigger] read(i)) is Ok implies new(i) == read(
        i,
    ) by {
        lemma_integers_patched(data, other, from, to, stsc.payload + 8 + i * 12);
        lemma_integers_patched(data, other, from, to, stsc.payload + 12 + i * 12);
        assert(new(i) == stsc_entry(other, stsc, i));
    }
    lemma_collect_same(count as int, read, new);
}

pub proof fn lemma_sizes_patched(
    data: Seq<u8>,
    other: Seq<u8>,
    from: int,
    to: int,
    stsz: Atom,
    count: int,
)
    requires
        same_but(data, other, from, to),
        collect(count, size_reader(data, stsz)) is Ok,
        stsz.payload + 12 + 4 * count <= from || to <= stsz.payload + 12,
    ensures
        collect(count, size_reader(other, stsz)) == collect(count, size_reader(data, stsz)),
{
    let read = size_reader(data, stsz);
    let new = size_reader(other, stsz);
    assert forall|i: int| 0 <= i < count && (#[trigger] read(i)) is Ok implies new(i) == read(
        i,
    ) by {
        lemma_integers_patched(data, other, from, to, stsz.payload + 12 + i * 4);
        assert(new(i) == read32(other, stsz.payload + 12 + i * 4));
    }
    lemma_collect_same(count, read, new);
}

pub proof fn lemma_descriptions_patched(
    data: Seq<u8>,
    other: Seq<u8>,
    from: int,
    to: int,
    cursor: int,
    end: int,
    count: int,
)
    requires
        same_but(data, other, from, to),
        0 <= cursor,
        describes_aimd(data, cursor, end, count) is Ok,
        end <= from || to <= cursor,
    ensures
        describes_aimd(other, cursor, end, count) == describes_aimd(data, cursor, end, count),
    decreases count,
{
    if count > 0 {
        lemma_integers_patched(data, other, from, to, cursor);
        lemma_integers_patched(data, other, from, to, cursor + 4);
        let size = read32(data, cursor)->Ok_0;
        if kind_at(data, cursor + 4) != AIMD {
            lemma_descriptions_patched(data, other, from, to, cursor + size, end, count - 1);
        }
    }
}

/// A telemetry sample description outside the changed bytes stays one.
pub proof fn lemma_stsd_patched(data: Seq<u8>, other: Seq<u8>, from: int, to: int, stsd: Atom)
    requires
        same_but(data, other, from, to),
        stsd_aimd(data, stsd) == Ok::<bool, Mp4Error>(true),
        stsd.end <= from || to <= stsd.payload,
    ensures
        stsd_aimd(other, stsd) == stsd_aimd(data, stsd),
{
    let count = read32(data, stsd.payload + 4)->Ok_0;
    assert(count > 0);
    assert(stsd.payload + 16 <= stsd.end);
    lemma_integers_patched(data, other, from, to, stsd.payload + 4);
    lemma_descriptions_patched(
        data,
        other,
        from,
        to,
        stsd.payload + 8,
        stsd.end as int,
        count as int,
    );
}

/// The first offset table of a list with one more atom at its end.
proof fn lemma_first_table_push(atoms: Seq<Atom>)
    requires
        atoms.len() > 0,
    ensures
        first_offset_table(atoms) == match first_offset_table(atoms.drop_last()) {
            Some(table) => Some(table),
            None => if atoms.last().kind == STCO || atoms.last().kind == CO64 {
                Some(atoms.last())
            } else {
                None::<Atom>
            },
        },
    decreases atoms.len(),
{
    if atoms.len() == 1 {
        assert(atoms.drop_first().len() == 0);
        assert(atoms.drop_last().len() == 0);
    } else {
        lemma_first_table_push(atoms.drop_first());
        assert(atoms.drop_first().drop_last() =~= atoms.drop_last().drop_first());
        assert(atoms.drop_first().last() == atoms.last());
        assert(atoms.drop_last()[0] == atoms[0]);
    }
}

/// The first of all offset tables is the first one that is found.
pub proof fn lemma_only_table(atoms: Seq<Atom>)
    ensures
        first_offset_table(atoms) == if offset_tables(atoms).len() == 0 {
            None::<Atom>
        } else {
            Some(offset_tables(atoms)[0])
        },
    decreases atoms.len(),
{
    if atoms.len() > 0 {
        lemma_only_table(atoms.drop_last());
        lemma_first_table_push(atoms);
    }
}

/// The width of an entry of a chunk offset table.
pub open spec fn entry_width(table: Atom) -> int {
    if table.kind == STCO {
        4
    } else {
        8
    }
}

/// Setting entry `index` changes no byte outside it, and the entry reads as what was set.
proof fn lemma_with_offset(track: Seq<u8>, table: Atom, index: int, offset: usize)
    requires
        track.len() <= usize::MAX,
        0 <= index,
        with_offset(track, table, index, offset) is Ok,
    ensures
        ({
            let after = with_offset(track, table, index, offset)->Ok_0;
            let at = table.payload + 8 + index * entry_width(table);
            &&& same_but(track, after, at, at + entry_width(table))
            &&& offset_entry(after, table, index) == Ok::<usize, Mp4Error>(offset)
        }),
{
    let at = table.payload + 8 + index * entry_width(table);
    if table.kind == STCO {
        law_u32_read_back(track, at, offset as u32);
    } else {
        law_u64_read_back(track, at, offset as u64);
    }
}

/// Setting the entries of a chunk offset table changes no byte outside them, and they read as what
/// was set.
pub proof fn lemma_with_offsets(track: Seq<u8>, table: Atom, offsets: Seq<usize>, count: int)
    requires
        track.len() <= usize::MAX,
        0 <= count <= offsets.len(),
        with_offsets(track, table, offsets, count) is Ok,
    ensures
        ({
            let after = with_offsets(track, table, offsets, count)->Ok_0;
            let from = table.payload + 8;
            &&& same_but(track, after, from, from + count * entry_width(table))
            &&& forall|i: int|
                0 <= i < count ==> #[trigger] offset_entry(after, table, i) == Ok::<
                    usize,
                    Mp4Error,
                >(offsets[i])
        }),
    decreases count,
{
    if count > 0 {
        let before = with_offsets(track, table, offsets, count - 1)->Ok_0;
        let after = with_offsets(track, table, offsets, count)->Ok_0;
        let from = table.payload + 8;
        let width = entry_width(table);
        lemma_with_offsets(track, table, offsets, count - 1);
        lemma_with_offset(before, table, count - 1, offsets[count - 1]);
        let at = from + (count - 1) * width;
        assert(count * width == (count - 1) * width + width) by (nonlinear_arith);
        assert forall|i: int| 0 <= i < count implies #[trigger] offset_entry(after, table, i)
            == Ok::<usize, Mp4Error>(offsets[i]) by {
            if i < count - 1 {
                assert((i + 1) * width <= (count - 1) * width) by (nonlinear_arith)
                    requires
                        i + 1 <= count - 1,
                        width == 4 || width == 8,
                ;
                assert((i + 1) * width == i * width + width) by (nonlinear_arith);
                lemma_integers_patched(before, after, at, at + width, from + i * width);
                assert(offset_entry(before, table, i) == Ok::<usize, Mp4Error>(offsets[i]));
            }
        }
    }
}

/// The entries that were set are what the table lists.
pub proof fn lemma_offsets_read_back(track: Seq<u8>, table: Atom, offsets: Seq<usize>, count: int)
    requires
        0 <= count <= offsets.len(),
        forall|i: int|
            0 <= i < count ==> #[trigger] offset_entry(track, table, i) == Ok::<usize, Mp4Error>(
                offsets[i],
            ),
    ensures
        collect(count, offset_reader(track, table)) == Ok::<Seq<usize>, Mp4Error>(
            offsets.take(count),
        ),
    decreases count,
{
    let read = offset_reader(track, table);
    if count > 0 {
        lemma_offsets_read_back(track, table, offsets, count - 1);
        assert(read(count - 1) == offset_entry(track, table, count - 1));
        assert(offsets.take(count - 1).push(offsets[count - 1]) =~= offsets.take(count));
    } else {
        assert(offsets.take(0) =~= Seq::<usize>::empty());
    }
}

} // verus!
