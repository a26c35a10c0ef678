//! The telemetry track before and after its ID and its chunk offsets are replaced.

use crate::atoms::{
    atom_at, atoms_in, child_of, header_len, law_atoms_tile, lemma_listed_atom, lemma_top_moov,
    top_until_moov, Atom,
};
use crate::bytes::{be32, be32_bytes, kind_at, law_u32_read_back, overwrite, read32};
use crate::error::Mp4Error;
use crate::kinds::{AIMD, CO64, MDIA, MINF, STBL, STCO, STSC, STSD, STSZ, TKHD, TRAK};
use crate::moved::{
    holds_at, inside, lemma_atom_moved, lemma_atoms_moved, lemma_child_inside, lemma_child_moved,
    lemma_collect_same, lemma_integers_moved, lemma_offset_table_moved, lemma_sample_table_moved,
    moved, same_from,
};
use crate::patch::{offset_table_of, root_atom, with_chunk_offsets, with_offsets, with_track_id};
use crate::patched::{
    entry_width, lemma_apart, lemma_atom_same_header, lemma_atoms_patched, lemma_child_listed,
    lemma_children_patched, lemma_content_spares, lemma_integers_patched, lemma_offsets_read_back,
    lemma_only_table, lemma_sample_table_patched, lemma_sizes_patched, lemma_stsc_patched,
    lemma_stsd_patched, lemma_with_offsets, same_but, spares_headers,
};
use crate::splice::{carried_track, gather, lemma_gather_len, source_track};
use crate::track::{
    chunk_layout, chunk_offsets, chunk_size, chunks_from, chunks_of, collect, describes_aimd,
    first_aimd, first_offset_table, header_track_id, offset_entry, offset_reader, sample_table_of,
    sample_tables, samples_in_chunk, size_reader, stsc_entries, stsc_entry, stsc_reader, stsd_aimd,
    tables_in, track_id_place, track_is_aimd, SampleTables,
};
use vstd::prelude::*;

verus! {

/// Whether the sample tables of a track lie inside their own atoms.
pub open spec fn tables_in_place(data: Seq<u8>, stbl: Atom) -> bool {
    let atoms = atoms_in(data, stbl.payload as int, stbl.end as int)->Ok_0;
    &&& child_of(data, stbl, STSC) is Ok
    &&& child_of(data, stbl, STSZ) is Ok
    &&& first_offset_table(atoms) is Some
    &&& fits_atoms(
        data,
        child_of(data, stbl, STSC)->Ok_0,
        child_of(data, stbl, STSZ)->Ok_0,
        first_offset_table(atoms)->0,
    )
}

/// Whether the ID of a track lies inside its track header.
pub open spec fn id_in_place(data: Seq<u8>, track: Atom) -> bool {
    let tkhd = child_of(data, track, TKHD)->Ok_0;
    &&& child_of(data, track, TKHD) is Ok
    &&& tkhd.payload + track_id_place(data[tkhd.payload as int]) + 4 <= tkhd.end
}

/// Whether everything that splicing reads or replaces in a track lies inside its own atom.
pub open spec fn in_place(data: Seq<u8>, track: Atom) -> bool {
    &&& id_in_place(data, track)
    &&& sample_table_of(data, track) is Ok
    &&& tables_in_place(data, sample_table_of(data, track)->Ok_0)
}

proof fn lemma_offsets_inside(data: Seq<u8>, base: int, part: Seq<u8>, table: Atom)
    requires
        holds_at(data, base, part),
        inside(table, part),
        chunk_offsets(data, moved(table, base)) is Ok,
        table.payload + 8 + entry_width(table) * be32(data, base + table.payload + 4) <= table.end,
    ensures
        chunk_offsets(part, table) == chunk_offsets(data, moved(table, base)),
        be32(part, table.payload + 4) == be32(data, base + table.payload + 4),
{
    let there = moved(table, base);
    lemma_integers_moved(data, base, part, table.payload + 4);
    let count = read32(data, there.payload + 4)->Ok_0;
    let read = offset_reader(data, there);
    let new = offset_reader(part, table);
    assert forall|i: int| 0 <= i < count && (#[trigger] read(i)) is Ok implies new(i) == read(
        i,
    ) by {
        let width = entry_width(table);
        assert((i + 1) * width <= count * width) by (nonlinear_arith)
            requires
                i + 1 <= count,
                width == 4 || width == 8,
        ;
        assert((i + 1) * width == i * width + width) by (nonlinear_arith);
        lemma_integers_moved(data, base, part, table.payload + 8 + i * 4);
        lemma_integers_moved(data, base, part, table.payload + 8 + i * 8);
        assert(new(i) == offset_entry(part, table, i));
        assert(read(i) == offset_entry(data, there, i));
    }
    lemma_collect_same(count as int, read, new);
}

proof fn lemma_stsc_inside(data: Seq<u8>, base: int, part: Seq<u8>, stsc: Atom)
    requires
        holds_at(data, base, part),
        inside(stsc, part),
        stsc_entries(data, moved(stsc, base)) is Ok,
        stsc.payload + 8 + 12 * be32(data, base + stsc.payload + 4) <= stsc.end,
    ensures
        stsc_entries(part, stsc) == stsc_entries(data, moved(stsc, base)),
        be32(part, stsc.payload + 4) == be32(data, base + stsc.payload + 4),
{
    let there = moved(stsc, base);
    lemma_integers_moved(data, base, part, stsc.payload + 4);
    let count = read32(data, there.payload + 4)->Ok_0;
    let read = stsc_reader(data, there);
    let new = stsc_reader(part, stsc);
    assert forall|i: int| 0 <= i < count && (#[trigger] read(i)) is Ok implies new(i) == read(
        i,
    ) by {
        lemma_integers_moved(data, base, part, stsc.payload + 8 + i * 12);
        lemma_integers_moved(data, base, part, stsc.payload + 12 + i * 12);
        assert(new(i) == stsc_entry(part, stsc, i));
        assert(read(i) == stsc_entry(data, there, i));
    }
    lemma_collect_same(count as int, read, new);
}

proof fn lemma_sizes_inside(data: Seq<u8>, base: int, part: Seq<u8>, stsz: Atom, count: int)
    requires
        holds_at(data, base, part),
        inside(stsz, part),
        collect(count, size_reader(data, moved(stsz, base))) is Ok,
        stsz.payload + 12 + 4 * count <= stsz.end,
    ensures
        collect(count, size_reader(part, stsz)) == collect(
            count,
            size_reader(data, moved(stsz, base)),
        ),
{
    let there = moved(stsz, base);
    let read = size_reader(data, there);
    let new = size_reader(part, stsz);
    assert forall|i: int| 0 <= i < count && (#[trigger] read(i)) is Ok implies new(i) == read(
        i,
    ) by {
        lemma_integers_moved(data, base, part, stsz.payload + 12 + i * 4);
        assert(new(i) == read32(part, stsz.payload + 12 + i * 4));
        assert(read(i) == read32(data, there.payload + 12 + i * 4));
    }
    lemma_collect_same(count, read, new);
}

/// Whether the tables in the given atoms lie inside these atoms.
pub open spec fn fits_atoms(data: Seq<u8>, stsc: Atom, stsz: Atom, table: Atom) -> bool {
    &&& stsc.payload + 8 + 12 * be32(data, stsc.payload + 4) <= stsc.end
    &&& stsz.payload + 12 + (if be32(data, stsz.payload + 4) == 0 {
        4 * be32(data, stsz.payload + 8)
    } else {
        0
    }) <= stsz.end
    &&& table.payload + 8 + entry_width(table) * be32(data, table.payload + 4) <= table.end
}

/// Tables inside the given atoms read the same from the track alone.
proof fn lemma_fits_inside(
    data: Seq<u8>,
    base: int,
    part: Seq<u8>,
    stsc: Atom,
    stsz: Atom,
    table: Atom,
)
    requires
        holds_at(data, base, part),
        inside(stsc, part),
        inside(stsz, part),
        inside(table, part),
        fits_atoms(data, moved(stsc, base), moved(stsz, base), moved(table, base)),
        tables_in(data, moved(stsc, base), moved(stsz, base), moved(table, base)) is Ok,
    ensures
        fits_atoms(part, stsc, stsz, table),
        tables_in(part, stsc, stsz, table) == tables_in(
            data,
            moved(stsc, base),
            moved(stsz, base),
            moved(table, base),
        ),
{
    lemma_offsets_inside(data, base, part, table);
    lemma_stsc_inside(data, base, part, stsc);
    lemma_integers_moved(data, base, part, stsz.payload + 4);
    lemma_integers_moved(data, base, part, stsz.payload + 8);
    let default_size = read32(part, stsz.payload + 4)->Ok_0;
    let sample_count = read32(part, stsz.payload + 8)->Ok_0;
    lemma_sizes_inside(
        data,
        base,
        part,
        stsz,
        if default_size == 0 {
            sample_count as int
        } else {
            0
        },
    );
}

/// The atoms of the sample tables stand at the same places of the track alone.
proof fn lemma_table_atoms_moved(data: Seq<u8>, base: int, part: Seq<u8>, stbl: Atom)
    requires
        holds_at(data, base, part),
        inside(stbl, part),
    ensures
        child_of(data, moved(stbl, base), STSC) is Ok ==> {
            let stsc = child_of(part, stbl, STSC)->Ok_0;
            &&& child_of(part, stbl, STSC) is Ok
            &&& inside(stsc, part)
            &&& child_of(data, moved(stbl, base), STSC)->Ok_0 == moved(stsc, base)
        },
        child_of(data, moved(stbl, base), STSZ) is Ok ==> {
            let stsz = child_of(part, stbl, STSZ)->Ok_0;
            &&& child_of(part, stbl, STSZ) is Ok
            &&& inside(stsz, part)
            &&& child_of(data, moved(stbl, base), STSZ)->Ok_0 == moved(stsz, base)
        },
        atoms_in(data, base + stbl.payload, base + stbl.end) is Ok ==> {
            let atoms = atoms_in(part, stbl.payload as int, stbl.end as int)->Ok_0;
            let there = atoms_in(data, base + stbl.payload, base + stbl.end)->Ok_0;
            &&& atoms_in(part, stbl.payload as int, stbl.end as int) is Ok
            &&& first_offset_table(there) is Some ==> {
                &&& first_offset_table(atoms) is Some
                &&& first_offset_table(there)->0 == moved(first_offset_table(atoms)->0, base)
                &&& inside(first_offset_table(atoms)->0, part)
            }
        },
{
    lemma_child_moved(data, base, part, stbl, STSC);
    lemma_child_moved(data, base, part, stbl, STSZ);
    lemma_atoms_moved(data, base, part, stbl.payload as int, stbl.end as int);
    if atoms_in(part, stbl.payload as int, stbl.end as int) is Ok {
        let atoms = atoms_in(part, stbl.payload as int, stbl.end as int)->Ok_0;
        law_atoms_tile(part, stbl.payload as int, stbl.end as int);
        lemma_offset_table_moved(atoms, base);
    }
}

/// Sample tables that lie in place read the same from the track alone.
proof fn lemma_tables_inside(data: Seq<u8>, base: int, part: Seq<u8>, stbl: Atom)
    requires
        holds_at(data, base, part),
        inside(stbl, part),
        tables_in_place(data, moved(stbl, base)),
        sample_tables(data, moved(stbl, base)) is Ok,
    ensures
        sample_tables(part, stbl) == sample_tables(data, moved(stbl, base)),
        tables_in_place(part, stbl),
{
    lemma_table_atoms_moved(data, base, part, stbl);
    let atoms = atoms_in(part, stbl.payload as int, stbl.end as int)->Ok_0;
    let stsc = child_of(part, stbl, STSC)->Ok_0;
    let stsz = child_of(part, stbl, STSZ)->Ok_0;
    let table = first_offset_table(atoms)->0;
    lemma_fits_inside(data, base, part, stsc, stsz, table);
}

/// Telemetry sample descriptions read the same from the track alone.
proof fn lemma_descriptions_inside(
    data: Seq<u8>,
    base: int,
    part: Seq<u8>,
    cursor: int,
    end: int,
    count: int,
)
    requires
        holds_at(data, base, part),
        0 <= cursor,
        end <= part.len(),
        describes_aimd(data, base + cursor, base + end, count) is Ok,
    ensures
        describes_aimd(part, cursor, end, count) == describes_aimd(
            data,
            base + cursor,
            base + end,
            count,
        ),
    decreases count,
{
    if count > 0 {
        lemma_integers_moved(data, base, part, cursor);
        lemma_integers_moved(data, base, part, cursor + 4);
        let size = read32(data, base + cursor)->Ok_0;
        assert(cursor + size <= end);
        assert(read32(part, cursor) == Ok::<u32, Mp4Error>(size));
        if kind_at(part, cursor + 4) != AIMD {
            assert(base + cursor + size == base + (cursor + size));
            lemma_descriptions_inside(data, base, part, cursor + size, end, count - 1);
        }
    }
}

/// A telemetry track is one when it is read from its own bytes alone.
proof fn lemma_is_aimd_inside(data: Seq<u8>, base: int, part: Seq<u8>, track: Atom)
    requires
        holds_at(data, base, part),
        inside(track, part),
        track_is_aimd(data, moved(track, base)) == Ok::<bool, Mp4Error>(true),
    ensures
        track_is_aimd(part, track) == Ok::<bool, Mp4Error>(true),
{
    lemma_sample_table_moved(data, base, part, track);
    let stbl = sample_table_of(part, track)->Ok_0;
    lemma_child_moved(data, base, part, stbl, STSD);
    let stsd = child_of(part, stbl, STSD)->Ok_0;
    lemma_stsd_inside(data, base, part, stsd);
}

proof fn lemma_stsd_inside(data: Seq<u8>, base: int, part: Seq<u8>, stsd: Atom)
    requires
        holds_at(data, base, part),
        inside(stsd, part),
        stsd_aimd(data, moved(stsd, base)) == Ok::<bool, Mp4Error>(true),
    ensures
        stsd_aimd(part, stsd) == Ok::<bool, Mp4Error>(true),
{
    let count = read32(data, base + stsd.payload + 4)->Ok_0;
    assert(moved(stsd, base).payload + 4 == base + stsd.payload + 4);
    assert(moved(stsd, base).payload + 8 == base + (stsd.payload + 8));
    assert(count > 0);
    assert(stsd.payload + 16 <= stsd.end);
    lemma_integers_moved(data, base, part, stsd.payload + 4);
    lemma_descriptions_inside(
        data,
        base,
        part,
        stsd.payload + 8,
        stsd.end as int,
        count as int,
    );
}

/// Whether a track holds telemetry, with the given sample tables in the given sample table atom.
#[verifier::opaque]
pub open spec fn telemetry(data: Seq<u8>, track: Atom, stbl: Atom, tables: SampleTables) -> bool {
    &&& sample_table_of(data, track) == Ok::<Atom, Mp4Error>(stbl)
    &&& track_is_aimd(data, track) == Ok::<bool, Mp4Error>(true)
    &&& tables_in_place(data, stbl)
    &&& sample_tables(data, stbl) == Ok::<SampleTables, Mp4Error>(tables)
}

/// Whether the content of an atom lies outside the bytes from `from` to `to`.
pub open spec fn spared(atom: Atom, from: int, to: int) -> bool {
    atom.end <= from || to <= atom.payload
}

proof fn lemma_offsets_spared(data: Seq<u8>, other: Seq<u8>, from: int, to: int, table: Atom)
    requires
        same_but(data, other, from, to),
        chunk_offsets(data, table) is Ok,
        table.payload + 8 + entry_width(table) * be32(data, table.payload + 4) <= table.end,
        spared(table, from, to),
    ensures
        chunk_offsets(other, table) == chunk_offsets(data, table),
        be32(other, table.payload + 4) == be32(data, table.payload + 4),
{
    lemma_integers_patched(data, other, from, to, table.payload + 4);
    let count = read32(data, table.payload + 4)->Ok_0;
    let read = offset_reader(data, table);
    let new = offset_reader(other, table);
    assert forall|i: int| 0 <= i < count && (#[trigger] read(i)) is Ok implies new(i) == read(
        i,
    ) by {
        let width = entry_width(table);
        assert((i + 1) * width <= count * width) by (nonlinear_arith)
            requires
                i + 1 <= count,
                width == 4 || width == 8,
        ;
        assert((i + 1) * width == i * width + width) by (nonlinear_arith);
        lemma_integers_patched(data, other, from, to, table.payload + 8 + i * width);
        assert(new(i) == offset_entry(other, table, i));
        assert(read(i) == offset_entry(data, table, i));
    }
    lemma_collect_same(count as int, read, new);
}

/// Whether all that is read of the tables of samples lies outside the bytes from `from` to `to`.
pub open spec fn samples_apart(data: Seq<u8>, stsc: Atom, stsz: Atom, from: int, to: int) -> bool {
    &&& stsc.payload + 8 + 12 * be32(data, stsc.payload + 4) <= from || to <= stsc.payload + 4
    &&& stsz.payload + 12 + (if be32(data, stsz.payload + 4) == 0 {
        4 * be32(data, stsz.payload + 8)
    } else {
        0
    }) <= from || to <= stsz.payload + 4
}

/// What the sample tables say apart from the chunk offsets.
proof fn lemma_samples_spared(
    data: Seq<u8>,
    other: Seq<u8>,
    from: int,
    to: int,
    stsc: Atom,
    stsz: Atom,
    table: Atom,
)
    requires
        same_but(data, other, from, to),
        tables_in(data, stsc, stsz, table) is Ok,
        samples_apart(data, stsc, stsz, from, to),
    ensures
        stsc_entries(other, stsc) == stsc_entries(data, stsc),
        be32(other, stsc.payload + 4) == be32(data, stsc.payload + 4),
        read32(other, stsz.payload + 4) == read32(data, stsz.payload + 4),
        read32(other, stsz.payload + 8) == read32(data, stsz.payload + 8),
        ({
            let listed = if be32(data, stsz.payload + 4) == 0 {
                be32(data, stsz.payload + 8) as int
            } else {
                0
            };
            collect(listed, size_reader(other, stsz)) == collect(listed, size_reader(data, stsz))
        }),
{
    lemma_stsc_patched(data, other, from, to, stsc);
    lemma_integers_patched(data, other, from, to, stsc.payload + 4);
    lemma_integers_patched(data, other, from, to, stsz.payload + 4);
    lemma_integers_patched(data, other, from, to, stsz.payload + 8);
    let listed = if be32(data, stsz.payload + 4) == 0 {
        be32(data, stsz.payload + 8) as int
    } else {
        0
    };
    lemma_sizes_patched(data, other, from, to, stsz, listed);
}

/// Tables outside the changed bytes read the same.
proof fn lemma_tables_spared(
    data: Seq<u8>,
    other: Seq<u8>,
    from: int,
    to: int,
    stsc: Atom,
    stsz: Atom,
    table: Atom,
)
    requires
        same_but(data, other, from, to),
        tables_in(data, stsc, stsz, table) is Ok,
        fits_atoms(data, stsc, stsz, table),
        spared(stsc, from, to),
        spared(stsz, from, to),
        spared(table, from, to),
    ensures
        tables_in(other, stsc, stsz, table) == tables_in(data, stsc, stsz, table),
        fits_atoms(other, stsc, stsz, table),
{
    lemma_samples_spared(data, other, from, to, stsc, stsz, table);
    lemma_offsets_spared(data, other, from, to, table);
}

/// Another track ID leaves the telemetry as it was.
proof fn lemma_renamed(
    data: Seq<u8>,
    other: Seq<u8>,
    track: Atom,
    stbl: Atom,
    tables: SampleTables,
    tkhd: Atom,
    at: int,
)
    requires
        telemetry(data, track, stbl, tables),
        track.end <= data.len(),
        child_of(data, track, TKHD) == Ok::<Atom, Mp4Error>(tkhd),
        tkhd.payload <= at,
        at + 4 <= tkhd.end,
        same_but(data, other, at, at + 4),
    ensures
        telemetry(other, track, stbl, tables),
        child_of(other, track, TKHD) == Ok::<Atom, Mp4Error>(tkhd),
{
    reveal(telemetry);
    assert(TKHD[0] != MDIA[0]);
    lemma_child_listed(data, track, TKHD);
    lemma_child_inside(data, track, TKHD);
    lemma_sample_table_patched(data, other, at, at + 4, track, tkhd);
    lemma_children_patched(data, other, at, at + 4, track, tkhd);
    lemma_sample_table_apart(data, track, tkhd);
    let stsd = child_of(data, stbl, STSD)->Ok_0;
    let stsc = child_of(data, stbl, STSC)->Ok_0;
    let stsz = child_of(data, stbl, STSZ)->Ok_0;
    let atoms = atoms_in(data, stbl.payload as int, stbl.end as int)->Ok_0;
    let table = first_offset_table(atoms)->0;
    lemma_child_inside(data, stbl, STSD);
    lemma_child_inside(data, stbl, STSC);
    lemma_child_inside(data, stbl, STSZ);
    law_atoms_tile(data, stbl.payload as int, stbl.end as int);
    lemma_offset_table_moved(atoms, 0);
    lemma_stsd_patched(data, other, at, at + 4, stsd);
    lemma_tables_spared(data, other, at, at + 4, stsc, stsz, table);
}

/// The sample table of a track lies apart from any child of the track but the media.
proof fn lemma_sample_table_apart(data: Seq<u8>, track: Atom, child: Atom)
    requires
        sample_table_of(data, track) is Ok,
        atoms_in(data, track.payload as int, track.end as int)->Ok_0.contains(child),
        child.kind != MDIA,
    ensures
        ({
            let stbl = sample_table_of(data, track)->Ok_0;
            &&& stbl.start <= stbl.payload
            &&& stbl.end <= child.start || child.end <= stbl.start
        }),
{
    let mdia = child_of(data, track, MDIA)->Ok_0;
    let minf = child_of(data, mdia, MINF)->Ok_0;
    lemma_child_listed(data, track, MDIA);
    lemma_child_inside(data, track, MDIA);
    lemma_child_inside(data, mdia, MINF);
    lemma_child_inside(data, minf, STBL);
    let others = atoms_in(data, track.payload as int, track.end as int)->Ok_0;
    law_atoms_tile(data, track.payload as int, track.end as int);
    lemma_apart(others, track.payload as int, track.end as int, child, mdia);
}

/// The sample table atoms of a track lie apart from its chunk offset table.
pub proof fn lemma_table_apart(data: Seq<u8>, stbl: Atom, kind: [u8; 4])
    requires
        child_of(data, stbl, kind) is Ok,
        kind != STCO,
        kind != CO64,
        first_offset_table(atoms_in(data, stbl.payload as int, stbl.end as int)->Ok_0) is Some,
    ensures
        ({
            let atom = child_of(data, stbl, kind)->Ok_0;
            let atoms = atoms_in(data, stbl.payload as int, stbl.end as int)->Ok_0;
            let table = first_offset_table(atoms)->0;
            &&& atoms.contains(table)
            &&& table.kind == STCO || table.kind == CO64
            &&& table.start + 8 <= table.payload <= table.end <= stbl.end
            &&& atom.start + 8 <= atom.payload <= atom.end
            &&& atom.end <= table.start || table.end <= atom.start
        }),
{
    let atoms = atoms_in(data, stbl.payload as int, stbl.end as int)->Ok_0;
    lemma_offset_table_moved(atoms, 0);
    lemma_child_listed(data, stbl, kind);
    lemma_child_inside(data, stbl, kind);
    law_atoms_tile(data, stbl.payload as int, stbl.end as int);
    lemma_apart(
        atoms,
        stbl.payload as int,
        stbl.end as int,
        child_of(data, stbl, kind)->Ok_0,
        first_offset_table(atoms)->0,
    );
}

/// Other chunk offsets change nothing else of the tables in the given atoms.
pub proof fn lemma_tables_written(
    data: Seq<u8>,
    other: Seq<u8>,
    stsc: Atom,
    stsz: Atom,
    table: Atom,
    offsets: Seq<usize>,
)
    requires
        data.len() <= usize::MAX,
        tables_in(data, stsc, stsz, table) is Ok,
        be32(data, table.payload + 4) == offsets.len(),
        with_offsets(data, table, offsets, offsets.len() as int) == Ok::<
            Seq<u8>,
            (Seq<u8>, Mp4Error),
        >(other),
        samples_apart(
            data,
            stsc,
            stsz,
            table.payload + 8,
            entries_end(table, offsets.len() as int),
        ),
    ensures
        same_but(data, other, table.payload + 8, entries_end(table, offsets.len() as int)),
        be32(other, stsc.payload + 4) == be32(data, stsc.payload + 4),
        be32(other, stsz.payload + 4) == be32(data, stsz.payload + 4),
        be32(other, stsz.payload + 8) == be32(data, stsz.payload + 8),
        be32(other, table.payload + 4) == be32(data, table.payload + 4),
        tables_in(other, stsc, stsz, table) == Ok::<SampleTables, Mp4Error>(
            SampleTables { offsets, ..tables_in(data, stsc, stsz, table)->Ok_0 },
        ),
{
    let count = offsets.len() as int;
    let from = table.payload + 8;
    let to = entries_end(table, count);
    lemma_with_offsets(data, table, offsets, count);
    lemma_samples_spared(data, other, from, to, stsc, stsz, table);
    lemma_integers_patched(data, other, from, to, table.payload + 4);
    lemma_offsets_read_back(other, table, offsets, count);
    assert(offsets.take(count) =~= offsets);
}

/// Other chunk offsets in a table inside its atom leave the other tables inside theirs.
proof fn lemma_tables_placed(
    data: Seq<u8>,
    other: Seq<u8>,
    stsc: Atom,
    stsz: Atom,
    table: Atom,
    offsets: Seq<usize>,
)
    requires
        data.len() <= usize::MAX,
        tables_in(data, stsc, stsz, table) is Ok,
        fits_atoms(data, stsc, stsz, table),
        be32(data, table.payload + 4) == offsets.len(),
        with_offsets(data, table, offsets, offsets.len() as int) == Ok::<
            Seq<u8>,
            (Seq<u8>, Mp4Error),
        >(other),
        spared(stsc, table.payload as int, table.end as int),
        spared(stsz, table.payload as int, table.end as int),
    ensures
        same_but(data, other, table.payload as int, table.end as int),
        fits_atoms(other, stsc, stsz, table),
        tables_in(other, stsc, stsz, table) == Ok::<SampleTables, Mp4Error>(
            SampleTables { offsets, ..tables_in(data, stsc, stsz, table)->Ok_0 },
        ),
{
    let count = offsets.len() as int;
    assert(count * entry_width(table) == entry_width(table) * count) by (nonlinear_arith);
    lemma_fits_apart(data, stsc, stsz, table, count);
    lemma_tables_written(data, other, stsc, stsz, table, offsets);
}

/// Tables inside their own atoms lie apart from the entries of the chunk offset table.
pub proof fn lemma_fits_apart(data: Seq<u8>, stsc: Atom, stsz: Atom, table: Atom, count: int)
    requires
        fits_atoms(data, stsc, stsz, table),
        count == be32(data, table.payload + 4),
        spared(stsc, table.payload as int, table.end as int),
        spared(stsz, table.payload as int, table.end as int),
    ensures
        entries_end(table, count) <= table.end,
        samples_apart(data, stsc, stsz, table.payload + 8, entries_end(table, count)),
{
    assert(count * entry_width(table) == entry_width(table) * count) by (nonlinear_arith);
}

/// Other chunk offsets leave the rest of the telemetry as it was.
proof fn lemma_placed(
    data: Seq<u8>,
    other: Seq<u8>,
    track: Atom,
    stbl: Atom,
    tables: SampleTables,
    table: Atom,
    offsets: Seq<usize>,
)
    requires
        telemetry(data, track, stbl, tables),
        track.end <= data.len() <= usize::MAX,
        first_offset_table(atoms_in(data, stbl.payload as int, stbl.end as int)->Ok_0) == Some(
            table,
        ),
        be32(data, table.payload + 4) == offsets.len(),
        with_offsets(data, table, offsets, offsets.len() as int) == Ok::<
            Seq<u8>,
            (Seq<u8>, Mp4Error),
        >(other),
    ensures
        same_but(data, other, table.payload as int, table.end as int),
        telemetry(other, track, stbl, SampleTables { offsets, ..tables }),
{
    reveal(telemetry);
    let from = table.payload as int;
    let to = table.end as int;
    let stsd = child_of(data, stbl, STSD)->Ok_0;
    let stsc = child_of(data, stbl, STSC)->Ok_0;
    let stsz = child_of(data, stbl, STSZ)->Ok_0;
    assert(STSD[3] != STCO[3] && STSD[0] != CO64[0]);
    assert(STSC[2] != STCO[2] && STSC[0] != CO64[0]);
    assert(STSZ[3] != STCO[3] && STSZ[0] != CO64[0]);
    lemma_table_apart(data, stbl, STSD);
    lemma_table_apart(data, stbl, STSC);
    lemma_table_apart(data, stbl, STSZ);
    lemma_tables_placed(data, other, stsc, stsz, table, offsets);
    lemma_sample_table_patched(data, other, from, to, track, table);
    lemma_stsd_patched(data, other, from, to, stsd);
}

/// What a telemetry track that was found among some atoms is.
proof fn lemma_first_aimd(data: Seq<u8>, atoms: Seq<Atom>)
    requires
        first_aimd(data, atoms) is Ok,
    ensures
        ({
            let (track, chunks) = first_aimd(data, atoms)->Ok_0;
            &&& atoms.contains(track)
            &&& track.kind == TRAK
            &&& track_is_aimd(data, track) == Ok::<bool, Mp4Error>(true)
            &&& sample_table_of(data, track) is Ok
            &&& chunks_of(data, sample_table_of(data, track)->Ok_0) == Ok::<
                Seq<(usize, usize)>,
                Mp4Error,
            >(chunks)
        }),
    decreases atoms.len(),
{
    if atoms[0].kind == TRAK && track_is_aimd(data, atoms[0]) == Ok::<bool, Mp4Error>(true) {
        assert(atoms.contains(atoms[0]));
    } else {
        lemma_first_aimd(data, atoms.drop_first());
        let track = first_aimd(data, atoms)->Ok_0.0;
        let i = choose|i: int| 0 <= i < atoms.drop_first().len() && atoms.drop_first()[i] == track;
        assert(atoms[i + 1] == track);
    }
}

/// A `trak` atom, as it stands in its own bytes.
pub open spec fn alone(track: Atom) -> Atom {
    Atom {
        start: 0,
        payload: (track.payload - track.start) as usize,
        end: (track.end - track.start) as usize,
        kind: TRAK,
    }
}

/// What the telemetry track of a recording is.
pub proof fn lemma_source_track(source: Seq<u8>) -> (limit: int)
    requires
        source_track(source) is Ok,
    ensures
        ({
            let (track, chunks) = source_track(source)->Ok_0;
            &&& track.start + 8 <= track.payload <= track.end <= limit <= source.len()
            &&& track.kind == TRAK
            &&& atom_at(source, track.start as int, limit) == Ok::<Atom, Mp4Error>(track)
            &&& track_is_aimd(source, track) == Ok::<bool, Mp4Error>(true)
            &&& chunks_of(source, sample_table_of(source, track)->Ok_0) == Ok::<
                Seq<(usize, usize)>,
                Mp4Error,
            >(chunks)
        }),
{
    let (track, chunks) = source_track(source)->Ok_0;
    let moov = top_until_moov(source, 0)->Ok_0.last();
    lemma_top_moov(source, 0);
    let atoms = atoms_in(source, moov.payload as int, moov.end as int)->Ok_0;
    lemma_first_aimd(source, atoms);
    let i = choose|i: int| 0 <= i < atoms.len() && atoms[i] == track;
    lemma_listed_atom(source, moov.payload as int, moov.end as int, i);
    law_atoms_tile(source, moov.payload as int, moov.end as int);
    moov.end as int
}

/// An atom reads the same with nothing allowed past its own end.
pub proof fn lemma_own_limit(data: Seq<u8>, at: int, limit: int)
    requires
        0 <= at,
        atom_at(data, at, limit) is Ok,
    ensures
        ({
            let atom = atom_at(data, at, limit)->Ok_0;
            &&& atom_at(data, at, atom.end as int) == Ok::<Atom, Mp4Error>(atom)
            &&& atom.start == at
            &&& atom.payload == at + (if be32(data, at) == 1 {
                16int
            } else {
                8int
            })
        }),
{
}

/// An atom that stands in a file, read from its own bytes.
#[verifier::rlimit(40)]
pub proof fn lemma_atom_alone(source: Seq<u8>, track: Atom, limit: int)
    requires
        limit <= source.len() <= usize::MAX,
        atom_at(source, track.start as int, limit) == Ok::<Atom, Mp4Error>(track),
        track.kind == TRAK,
        track.start + 8 <= track.payload <= track.end <= limit,
    ensures
        ({
            let bytes = source.subrange(track.start as int, track.end as int);
            &&& track == moved(alone(track), track.start as int)
            &&& holds_at(source, track.start as int, bytes)
            &&& header_len(bytes) == Ok::<int, Mp4Error>(track.payload - track.start)
            &&& root_atom(bytes, track.payload - track.start) == alone(track)
            &&& atom_at(bytes, 0, bytes.len() as int) == Ok::<Atom, Mp4Error>(alone(track))
        }),
{
    let start = track.start as int;
    let bytes = source.subrange(start, track.end as int);
    assert(holds_at(source, start, bytes)) by {
        reveal(same_from);
    }
    lemma_own_limit(source, start, limit);
    assert(be32(source, start) == be32(bytes, 0)) by {
        lemma_integers_moved(source, start, bytes, 0);
    }
    assert(atom_at(bytes, 0, bytes.len() as int) is Ok && moved(
        atom_at(bytes, 0, bytes.len() as int)->Ok_0,
        start,
    ) == track) by {
        lemma_atom_moved(source, start, bytes, 0, bytes.len() as int);
    }
    lemma_own_limit(bytes, 0, bytes.len() as int);
}

/// Some chunks of the same sizes at other offsets.
pub open spec fn placed(chunks: Seq<(usize, usize)>, offsets: Seq<usize>) -> Seq<(usize, usize)> {
    Seq::new(chunks.len(), |i: int| (offsets[i], chunks[i].1))
}

/// Chunk offsets do not bear on the sizes of the chunks.
pub proof fn lemma_layout_placed(tables: SampleTables, offsets: Seq<usize>, count: int)
    requires
        chunk_layout(tables, count) is Ok,
        0 <= count,
    ensures
        ({
            let (chunks, samples) = chunk_layout(tables, count)->Ok_0;
            &&& chunks.len() == count
            &&& chunk_layout(SampleTables { offsets, ..tables }, count) == Ok::<
                (Seq<(usize, usize)>, int),
                Mp4Error,
            >((placed(chunks, offsets), samples))
        }),
    decreases count,
{
    let (chunks, samples) = chunk_layout(tables, count)->Ok_0;
    if count > 0 {
        lemma_layout_placed(tables, offsets, count - 1);
        let (front, before) = chunk_layout(tables, count - 1)->Ok_0;
        let new = SampleTables { offsets, ..tables };
        assert(chunk_size(new, before, samples_in_chunk(tables.entries, count)->0) == chunk_size(
            tables,
            before,
            samples_in_chunk(tables.entries, count)->0,
        ));
        assert(placed(front, offsets).push((offsets[count - 1], chunks.last().1)) =~= placed(
            chunks,
            offsets,
        ));
    } else {
        assert(placed(chunks, offsets) =~= chunks);
    }
}

/// The telemetry of a track that lies in place, read from the bytes of the track alone.
pub proof fn lemma_telemetry_alone(source: Seq<u8>, track: Atom, bytes: Seq<u8>)
    requires
        holds_at(source, track.start as int, bytes),
        bytes.len() == track.end - track.start,
        track.start + 8 <= track.payload <= track.end,
        track == moved(alone(track), track.start as int),
        in_place(source, track),
        track_is_aimd(source, track) == Ok::<bool, Mp4Error>(true),
        sample_tables(source, sample_table_of(source, track)->Ok_0) is Ok,
    ensures
        sample_table_of(bytes, alone(track)) is Ok,
        telemetry(
            bytes,
            alone(track),
            sample_table_of(bytes, alone(track))->Ok_0,
            sample_tables(source, sample_table_of(source, track)->Ok_0)->Ok_0,
        ),
        id_in_place(bytes, alone(track)),
{
    reveal(telemetry);
    let start = track.start as int;
    let root = alone(track);
    lemma_sample_table_moved(source, start, bytes, root);
    let stbl = sample_table_of(bytes, root)->Ok_0;
    assert(track_is_aimd(bytes, root) == Ok::<bool, Mp4Error>(true)) by {
        lemma_is_aimd_inside(source, start, bytes, root);
    }
    lemma_tables_inside(source, start, bytes, stbl);
    lemma_child_moved(source, start, bytes, root, TKHD);
    let tkhd = child_of(bytes, root, TKHD)->Ok_0;
    assert(source[start + tkhd.payload] == bytes[tkhd.payload as int]) by {
        reveal(same_from);
    }
}

/// A change behind the header of an atom leaves the atom where it was.
proof fn lemma_root_kept(bytes: Seq<u8>, other: Seq<u8>, from: int, to: int, root: Atom)
    requires
        same_but(bytes, other, from, to),
        root.payload <= from,
        atom_at(bytes, 0, bytes.len() as int) == Ok::<Atom, Mp4Error>(root),
    ensures
        atom_at(other, 0, other.len() as int) == Ok::<Atom, Mp4Error>(root),
{
    lemma_atom_same_header(bytes, other, 0, bytes.len() as int);
}

pub proof fn lemma_id_written(bytes: Seq<u8>, at: int, id: u32)
    requires
        0 <= at,
        at + 4 <= bytes.len() <= usize::MAX,
    ensures
        same_but(bytes, overwrite(bytes, at, be32_bytes(id)), at, at + 4),
        read32(overwrite(bytes, at, be32_bytes(id)), at) == Ok::<u32, Mp4Error>(id),
{
    law_u32_read_back(bytes, at, id);
}

/// What a new ID makes of a track.
pub proof fn lemma_track_renamed(
    bytes: Seq<u8>,
    renamed: Seq<u8>,
    root: Atom,
    stbl: Atom,
    tables: SampleTables,
    id: u32,
)
    requires
        bytes.len() <= usize::MAX,
        header_len(bytes) == Ok::<int, Mp4Error>(root.payload as int),
        root == root_atom(bytes, root.payload as int),
        atom_at(bytes, 0, bytes.len() as int) == Ok::<Atom, Mp4Error>(root),
        telemetry(bytes, root, stbl, tables),
        id_in_place(bytes, root),
        with_track_id(bytes, id) == Ok::<Seq<u8>, (Seq<u8>, Mp4Error)>(renamed),
    ensures
        renamed.len() == bytes.len(),
        atom_at(renamed, 0, renamed.len() as int) == Ok::<Atom, Mp4Error>(root),
        telemetry(renamed, root, stbl, tables),
{
    let tkhd = child_of(bytes, root, TKHD)->Ok_0;
    let at = tkhd.payload + track_id_place(bytes[tkhd.payload as int]);
    assert(root.payload + 8 <= tkhd.payload && tkhd.end <= bytes.len()) by {
        lemma_child_inside(bytes, root, TKHD);
    }
    lemma_id_written(bytes, at, id);
    assert(renamed == overwrite(bytes, at, be32_bytes(id)));
    assert(atom_at(renamed, 0, renamed.len() as int) == Ok::<Atom, Mp4Error>(root)) by {
        lemma_root_kept(bytes, renamed, at, at + 4, root);
    }
    lemma_renamed(bytes, renamed, root, stbl, tables, tkhd, at);
}

/// The one chunk offset table of a telemetry track.
proof fn lemma_table_found(bytes: Seq<u8>, root: Atom, stbl: Atom, tables: SampleTables)
    requires
        root == root_atom(bytes, root.payload as int),
        bytes.len() <= usize::MAX,
        atom_at(bytes, 0, bytes.len() as int) == Ok::<Atom, Mp4Error>(root),
        telemetry(bytes, root, stbl, tables),
        offset_table_of(bytes) is Ok,
    ensures
        first_offset_table(atoms_in(bytes, stbl.payload as int, stbl.end as int)->Ok_0) == Some(
            offset_table_of(bytes)->Ok_0,
        ),
{
    reveal(telemetry);
    lemma_own_limit(bytes, 0, bytes.len() as int);
    assert(header_len(bytes) == Ok::<int, Mp4Error>(root.payload as int));
    lemma_only_table(atoms_in(bytes, stbl.payload as int, stbl.end as int)->Ok_0);
}

/// What new chunk offsets make of a track.
proof fn lemma_track_placed(
    bytes: Seq<u8>,
    moved_on: Seq<u8>,
    root: Atom,
    stbl: Atom,
    tables: SampleTables,
    offsets: Seq<usize>,
)
    requires
        root == root_atom(bytes, root.payload as int),
        bytes.len() <= usize::MAX,
        atom_at(bytes, 0, bytes.len() as int) == Ok::<Atom, Mp4Error>(root),
        telemetry(bytes, root, stbl, tables),
        with_chunk_offsets(bytes, offsets) == Ok::<Seq<u8>, (Seq<u8>, Mp4Error)>(moved_on),
    ensures
        moved_on.len() == bytes.len(),
        atom_at(moved_on, 0, moved_on.len() as int) == Ok::<Atom, Mp4Error>(root),
        telemetry(moved_on, root, stbl, SampleTables { offsets, ..tables }),
{
    lemma_table_found(bytes, root, stbl, tables);
    let table = offset_table_of(bytes)->Ok_0;
    assert(root.payload <= table.payload) by {
        reveal(telemetry);
        assert(offset_table_in(bytes, root) == Some(table));
        lemma_offset_table_in(bytes, root);
        lemma_child_inside(bytes, root, MDIA);
    }
    lemma_placed(bytes, moved_on, root, stbl, tables, table, offsets);
    lemma_root_kept(bytes, moved_on, table.payload as int, table.end as int, root);
}

/// The carried track is a telemetry track with the chunks of the source, in their new places.
pub proof fn lemma_carried(source: Seq<u8>, id: u32, place: int)
    requires
        source.len() <= usize::MAX,
        source_track(source) is Ok,
        in_place(source, source_track(source)->Ok_0.0),
        carried_track(
            source,
            source_track(source)->Ok_0.0,
            source_track(source)->Ok_0.1,
            id,
            place,
        ) is Ok,
    ensures
        ({
            let (track, chunks) = source_track(source)->Ok_0;
            let (carried, payload) = carried_track(source, track, chunks, id, place)->Ok_0;
            let offsets = gather(source, chunks, place, chunks.len() as int)->Ok_0.0;
            let root = alone(track);
            let stbl = sample_table_of(carried, root)->Ok_0;
            &&& carried.len() == track.end - track.start
            &&& atom_at(carried, 0, carried.len() as int) == Ok::<Atom, Mp4Error>(root)
            &&& sample_table_of(carried, root) is Ok
            &&& track_is_aimd(carried, root) == Ok::<bool, Mp4Error>(true)
            &&& sample_tables(carried, stbl) is Ok
            &&& chunks_of(carried, stbl) == Ok::<Seq<(usize, usize)>, Mp4Error>(
                placed(chunks, offsets),
            )
        }),
{
    let (track, chunks) = source_track(source)->Ok_0;
    let bytes = source.subrange(track.start as int, track.end as int);
    let root = alone(track);
    let limit = lemma_source_track(source);
    lemma_atom_alone(source, track, limit);
    lemma_telemetry_alone(source, track, bytes);
    let stbl = sample_table_of(bytes, root)->Ok_0;
    let tables = sample_tables(source, sample_table_of(source, track)->Ok_0)->Ok_0;
    let renamed = with_track_id(bytes, id)->Ok_0;
    lemma_track_renamed(bytes, renamed, root, stbl, tables, id);
    let (offsets, payload) = gather(source, chunks, place, chunks.len() as int)->Ok_0;
    let (carried, _) = carried_track(source, track, chunks, id, place)->Ok_0;
    lemma_track_placed(renamed, carried, root, stbl, tables, offsets);
    assert(chunks_from(tables) == Ok::<Seq<(usize, usize)>, Mp4Error>(chunks));
    lemma_layout_placed(tables, offsets, tables.offsets.len() as int);
    lemma_gather_len(source, chunks, place, chunks.len() as int);
    reveal(telemetry);
}

/// A new ID is written behind the header of the track.
proof fn lemma_renamed_root(bytes: Seq<u8>, root: Atom, id: u32)
    requires
        bytes.len() <= usize::MAX,
        root == root_atom(bytes, root.payload as int),
        atom_at(bytes, 0, bytes.len() as int) == Ok::<Atom, Mp4Error>(root),
        with_track_id(bytes, id) is Ok,
    ensures
        ({
            let renamed = with_track_id(bytes, id)->Ok_0;
            &&& renamed.len() == bytes.len()
            &&& atom_at(renamed, 0, renamed.len() as int) == Ok::<Atom, Mp4Error>(root)
        }),
{
    lemma_own_limit(bytes, 0, bytes.len() as int);
    let tkhd = child_of(bytes, root, TKHD)->Ok_0;
    let at = tkhd.payload + track_id_place(bytes[tkhd.payload as int]);
    lemma_child_inside(bytes, root, TKHD);
    lemma_id_written(bytes, at, id);
    lemma_root_kept(bytes, with_track_id(bytes, id)->Ok_0, at, at + 4, root);
}

/// New chunk offsets are written behind the header of the track.
proof fn lemma_placed_root(bytes: Seq<u8>, root: Atom, offsets: Seq<usize>)
    requires
        bytes.len() <= usize::MAX,
        root == root_atom(bytes, root.payload as int),
        atom_at(bytes, 0, bytes.len() as int) == Ok::<Atom, Mp4Error>(root),
        with_chunk_offsets(bytes, offsets) is Ok,
    ensures
        ({
            let after = with_chunk_offsets(bytes, offsets)->Ok_0;
            &&& after.len() == bytes.len()
            &&& atom_at(after, 0, after.len() as int) == Ok::<Atom, Mp4Error>(root)
        }),
{
    lemma_own_limit(bytes, 0, bytes.len() as int);
    let stbl = sample_table_of(bytes, root)->Ok_0;
    let mdia = child_of(bytes, root, MDIA)->Ok_0;
    let minf = child_of(bytes, mdia, MINF)->Ok_0;
    lemma_child_inside(bytes, root, MDIA);
    lemma_child_inside(bytes, mdia, MINF);
    lemma_child_inside(bytes, minf, STBL);
    let atoms = atoms_in(bytes, stbl.payload as int, stbl.end as int)->Ok_0;
    lemma_only_table(atoms);
    lemma_offset_table_moved(atoms, 0);
    law_atoms_tile(bytes, stbl.payload as int, stbl.end as int);
    let table = offset_table_of(bytes)->Ok_0;
    let count = offsets.len() as int;
    lemma_with_offsets(bytes, table, offsets, count);
    let from = table.payload + 8;
    lemma_root_kept(
        bytes,
        with_chunk_offsets(bytes, offsets)->Ok_0,
        from,
        from + count * entry_width(table),
        root,
    );
}

/// The carried track is one atom, as long as the track of the source.
pub proof fn lemma_carried_root(source: Seq<u8>, id: u32, place: int)
    requires
        source.len() <= usize::MAX,
        source_track(source) is Ok,
        carried_track(
            source,
            source_track(source)->Ok_0.0,
            source_track(source)->Ok_0.1,
            id,
            place,
        ) is Ok,
    ensures
        ({
            let (track, chunks) = source_track(source)->Ok_0;
            let (carried, payload) = carried_track(source, track, chunks, id, place)->Ok_0;
            &&& track.start + 8 <= track.payload <= track.end <= source.len()
            &&& carried.len() == track.end - track.start
            &&& atom_at(carried, 0, carried.len() as int) == Ok::<Atom, Mp4Error>(alone(track))
        }),
{
    let (track, chunks) = source_track(source)->Ok_0;
    let bytes = source.subrange(track.start as int, track.end as int);
    let root = alone(track);
    let limit = lemma_source_track(source);
    lemma_atom_alone(source, track, limit);
    lemma_renamed_root(bytes, root, id);
    let (offsets, payload) = gather(source, chunks, place, chunks.len() as int)->Ok_0;
    lemma_placed_root(with_track_id(bytes, id)->Ok_0, root, offsets);
}

/// Where the ID of a track stands.
pub open spec fn id_field(bytes: Seq<u8>, track: Atom) -> int {
    let tkhd = child_of(bytes, track, TKHD)->Ok_0;
    tkhd.payload + track_id_place(bytes[tkhd.payload as int])
}

/// Whether a byte belongs to the ID of a track, which stands at `id`, or to one of the `count`
/// entries of its chunk offset table.
pub open spec fn replaced(id: int, table: Atom, count: int, i: int) -> bool {
    ||| id <= i < id + 4
    ||| table.payload + 8 <= i < table.payload + 8 + count * entry_width(table)
}

/// The carried track is that of the source, but for its ID and its chunk offsets.
pub proof fn lemma_carried_bytes(source: Seq<u8>, id: u32, place: int)
    requires
        source.len() <= usize::MAX,
        source_track(source) is Ok,
        carried_track(
            source,
            source_track(source)->Ok_0.0,
            source_track(source)->Ok_0.1,
            id,
            place,
        ) is Ok,
    ensures
        ({
            let (track, chunks) = source_track(source)->Ok_0;
            let (carried, payload) = carried_track(source, track, chunks, id, place)->Ok_0;
            let bytes = source.subrange(track.start as int, track.end as int);
            let at = id_field(bytes, alone(track));
            let table = offset_table_of(with_track_id(bytes, id)->Ok_0)->Ok_0;
            &&& carried.len() == bytes.len()
            &&& forall|i: int|
                0 <= i < bytes.len() && !replaced(at, table, chunks.len() as int, i)
                    ==> #[trigger] carried[i] == bytes[i]
        }),
{
    let (track, chunks) = source_track(source)->Ok_0;
    let bytes = source.subrange(track.start as int, track.end as int);
    let root = alone(track);
    let limit = lemma_source_track(source);
    lemma_atom_alone(source, track, limit);
    lemma_renamed_root(bytes, root, id);
    let renamed = with_track_id(bytes, id)->Ok_0;
    lemma_child_inside(bytes, root, TKHD);
    lemma_id_written(bytes, id_field(bytes, root), id);
    let (offsets, payload) = gather(source, chunks, place, chunks.len() as int)->Ok_0;
    lemma_gather_len(source, chunks, place, chunks.len() as int);
    let table = offset_table_of(renamed)->Ok_0;
    lemma_with_offsets(renamed, table, offsets, offsets.len() as int);
}

/// The chunk offset table of a track.
pub open spec fn offset_table_in(data: Seq<u8>, track: Atom) -> Option<Atom> {
    match sample_table_of(data, track) {
        Err(_) => None,
        Ok(stbl) => match atoms_in(data, stbl.payload as int, stbl.end as int) {
            Err(_) => None,
            Ok(atoms) => first_offset_table(atoms),
        },
    }
}

/// Where the first `count` entries of a chunk offset table end.
pub open spec fn entries_end(table: Atom, count: int) -> int {
    table.payload + 8 + count * entry_width(table)
}

/// Whether `count` entries of the chunk offset table of a track lie inside the table.
pub open spec fn offsets_in_place(data: Seq<u8>, track: Atom, count: int) -> bool {
    offset_table_in(data, track) matches Some(table) && entries_end(table, count) <= table.end
}

/// Whether `count` entries of the chunk offset table of a track touch neither the header of a child
/// of the track nor the content of the track header.
pub open spec fn offsets_spare_header(data: Seq<u8>, track: Atom, count: int) -> bool {
    &&& offset_table_in(data, track) matches Some(table)
    &&& atoms_in(data, track.payload as int, track.end as int) matches Ok(children)
    &&& child_of(data, track, TKHD) matches Ok(tkhd)
    &&& spares_headers(children, table.payload + 8, entries_end(table, count))
    &&& spared(tkhd, table.payload + 8, entries_end(table, count))
}

/// Where the chunk offset table of a track lies.
pub proof fn lemma_offset_table_in(data: Seq<u8>, track: Atom)
    requires
        offset_table_in(data, track) is Some,
    ensures
        ({
            let table = offset_table_in(data, track)->0;
            let mdia = child_of(data, track, MDIA)->Ok_0;
            &&& child_of(data, track, MDIA) is Ok
            &&& mdia.payload + 8 <= table.payload <= table.end <= mdia.end
        }),
{
    let mdia = child_of(data, track, MDIA)->Ok_0;
    let minf = child_of(data, mdia, MINF)->Ok_0;
    let stbl = child_of(data, minf, STBL)->Ok_0;
    lemma_child_inside(data, track, MDIA);
    lemma_child_inside(data, mdia, MINF);
    lemma_child_inside(data, minf, STBL);
    lemma_offset_table_moved(atoms_in(data, stbl.payload as int, stbl.end as int)->Ok_0, 0);
    law_atoms_tile(data, stbl.payload as int, stbl.end as int);
}

/// Entries inside their table touch nothing else of the track.
pub proof fn lemma_in_place_spares(data: Seq<u8>, track: Atom, count: int)
    requires
        0 <= count,
        offsets_in_place(data, track, count),
        child_of(data, track, TKHD) is Ok,
    ensures
        offsets_spare_header(data, track, count),
{
    let table = offset_table_in(data, track)->0;
    let mdia = child_of(data, track, MDIA)->Ok_0;
    let tkhd = child_of(data, track, TKHD)->Ok_0;
    let children = atoms_in(data, track.payload as int, track.end as int)->Ok_0;
    assert(count * entry_width(table) >= 0) by (nonlinear_arith)
        requires
            count >= 0,
            entry_width(table) >= 0,
    ;
    assert(TKHD[0] != MDIA[0]);
    lemma_offset_table_in(data, track);
    lemma_child_listed(data, track, MDIA);
    lemma_child_listed(data, track, TKHD);
    lemma_child_inside(data, track, MDIA);
    lemma_child_inside(data, track, TKHD);
    law_atoms_tile(data, track.payload as int, track.end as int);
    lemma_apart(children, track.payload as int, track.end as int, tkhd, mdia);
    lemma_content_spares(
        children,
        track.payload as int,
        track.end as int,
        mdia,
        table.payload + 8,
        entries_end(table, count),
    );
}

/// The chunk offset table of a track stands at the same place of the track alone.
proof fn lemma_offset_table_alone(data: Seq<u8>, base: int, part: Seq<u8>, track: Atom)
    requires
        holds_at(data, base, part),
        inside(track, part),
        offset_table_in(data, moved(track, base)) is Some,
    ensures
        offset_table_in(part, track) is Some,
        offset_table_in(data, moved(track, base))->0 == moved(
            offset_table_in(part, track)->0,
            base,
        ),
        inside(offset_table_in(part, track)->0, part),
{
    lemma_sample_table_moved(data, base, part, track);
    lemma_table_atoms_moved(data, base, part, sample_table_of(part, track)->Ok_0);
}

/// What entries touch of a track does not depend on where the track stands.
proof fn lemma_spare_alone(data: Seq<u8>, base: int, part: Seq<u8>, track: Atom, count: int)
    requires
        holds_at(data, base, part),
        inside(track, part),
        offsets_spare_header(data, moved(track, base), count),
    ensures
        offsets_spare_header(part, track, count),
{
    lemma_offset_table_alone(data, base, part, track);
    lemma_child_moved(data, base, part, track, TKHD);
    lemma_atoms_moved(data, base, part, track.payload as int, track.end as int);
    let there = atoms_in(data, base + track.payload, base + track.end)->Ok_0;
    let children = atoms_in(part, track.payload as int, track.end as int)->Ok_0;
    law_atoms_tile(part, track.payload as int, track.end as int);
    let table = offset_table_in(part, track)->0;
    let from = table.payload + 8;
    let to = entries_end(table, count);
    assert forall|i: int| 0 <= i < children.len() implies to <= (#[trigger] children[i]).start
        || children[i].payload <= from by {
        assert(there[i] == moved(children[i], base));
    }
}

/// A new ID leaves the chunk offset table where it was.
proof fn lemma_spare_renamed(bytes: Seq<u8>, renamed: Seq<u8>, root: Atom, id: u32, count: int)
    requires
        bytes.len() <= usize::MAX,
        header_len(bytes) == Ok::<int, Mp4Error>(root.payload as int),
        root == root_atom(bytes, root.payload as int),
        id_in_place(bytes, root),
        offsets_spare_header(bytes, root, count),
        with_track_id(bytes, id) == Ok::<Seq<u8>, (Seq<u8>, Mp4Error)>(renamed),
    ensures
        renamed.len() == bytes.len(),
        id_in_place(renamed, root),
        offsets_spare_header(renamed, root, count),
        offset_table_in(renamed, root) == offset_table_in(bytes, root),
        header_track_id(renamed, child_of(renamed, root, TKHD)->Ok_0) == Ok::<u32, Mp4Error>(id),
{
    let tkhd = child_of(bytes, root, TKHD)->Ok_0;
    let at = tkhd.payload + track_id_place(bytes[tkhd.payload as int]);
    lemma_child_inside(bytes, root, TKHD);
    lemma_child_listed(bytes, root, TKHD);
    lemma_id_written(bytes, at, id);
    assert(renamed == overwrite(bytes, at, be32_bytes(id)));
    assert(TKHD[0] != MDIA[0]);
    lemma_sample_table_patched(bytes, renamed, at, at + 4, root, tkhd);
    lemma_children_patched(bytes, renamed, at, at + 4, root, tkhd);
    assert(child_of(renamed, root, TKHD) == child_of(bytes, root, TKHD));
    assert(renamed[tkhd.payload as int] == bytes[tkhd.payload as int]);
}

/// Entries that touch nothing of the track header leave the ID as it was.
proof fn lemma_spare_placed(bytes: Seq<u8>, after: Seq<u8>, root: Atom, offsets: Seq<usize>)
    requires
        bytes.len() <= usize::MAX,
        header_len(bytes) == Ok::<int, Mp4Error>(root.payload as int),
        root == root_atom(bytes, root.payload as int),
        id_in_place(bytes, root),
        offsets_spare_header(bytes, root, offsets.len() as int),
        with_chunk_offsets(bytes, offsets) == Ok::<Seq<u8>, (Seq<u8>, Mp4Error)>(after),
    ensures
        id_in_place(after, root),
        header_track_id(after, child_of(after, root, TKHD)->Ok_0) == header_track_id(
            bytes,
            child_of(bytes, root, TKHD)->Ok_0,
        ),
{
    let table = offset_table_in(bytes, root)->0;
    let stbl = sample_table_of(bytes, root)->Ok_0;
    let count = offsets.len() as int;
    lemma_only_table(atoms_in(bytes, stbl.payload as int, stbl.end as int)->Ok_0);
    assert(offset_table_of(bytes) == Ok::<Atom, Mp4Error>(table));
    lemma_with_offsets(bytes, table, offsets, count);
    let from = table.payload + 8;
    let to = entries_end(table, count);
    let tkhd = child_of(bytes, root, TKHD)->Ok_0;
    lemma_child_inside(bytes, root, TKHD);
    lemma_atoms_patched(bytes, after, from, to, root.payload as int, root.end as int);
    assert(child_of(after, root, TKHD) == child_of(bytes, root, TKHD));
    assert(after[tkhd.payload as int] == bytes[tkhd.payload as int]);
    lemma_integers_patched(
        bytes,
        after,
        from,
        to,
        tkhd.payload + track_id_place(bytes[tkhd.payload as int]),
    );
}

/// The carried track has the ID that it was given.
pub proof fn lemma_carried_id(source: Seq<u8>, id: u32, place: int)
    requires
        source.len() <= usize::MAX,
        source_track(source) is Ok,
        id_in_place(source, source_track(source)->Ok_0.0),
        offsets_spare_header(
            source,
            source_track(source)->Ok_0.0,
            source_track(source)->Ok_0.1.len() as int,
        ),
        carried_track(
            source,
            source_track(source)->Ok_0.0,
            source_track(source)->Ok_0.1,
            id,
            place,
        ) is Ok,
    ensures
        ({
            let (track, chunks) = source_track(source)->Ok_0;
            let (carried, payload) = carried_track(source, track, chunks, id, place)->Ok_0;
            &&& id_in_place(carried, alone(track))
            &&& header_track_id(carried, child_of(carried, alone(track), TKHD)->Ok_0) == Ok::<
                u32,
                Mp4Error,
            >(id)
        }),
{
    let (track, chunks) = source_track(source)->Ok_0;
    let start = track.start as int;
    let bytes = source.subrange(start, track.end as int);
    let root = alone(track);
    let count = chunks.len() as int;
    let limit = lemma_source_track(source);
    lemma_atom_alone(source, track, limit);
    lemma_spare_alone(source, start, bytes, root, count);
    assert(id_in_place(bytes, root)) by {
        lemma_child_moved(source, start, bytes, root, TKHD);
        let tkhd = child_of(bytes, root, TKHD)->Ok_0;
        assert(source[start + tkhd.payload] == bytes[tkhd.payload as int]) by {
            reveal(same_from);
        }
    }
    let renamed = with_track_id(bytes, id)->Ok_0;
    lemma_spare_renamed(bytes, renamed, root, id, count);
    lemma_renamed_root(bytes, root, id);
    lemma_own_limit(renamed, 0, renamed.len() as int);
    let (offsets, payload) = gather(source, chunks, place, count)->Ok_0;
    lemma_gather_len(source, chunks, place, count);
    let (carried, _) = carried_track(source, track, chunks, id, place)->Ok_0;
    lemma_spare_placed(renamed, carried, root, offsets);
}

} // verus!
