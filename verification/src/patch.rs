//! Changes to the bytes of a track and of a movie atom.

use crate::atoms::{atom_header_len, atoms_in, child, child_of, header_len, parse_atoms, Atom};
use crate::bytes::{
    be32_bytes, be64_bytes, entry_place, overwrite, read32, read_u32_after, same_kind, write_u32,
    write_u64,
};
use crate::error::Mp4Error;
use crate::kinds::{CO64, MDIA, MINF, STBL, STCO, TKHD, TRAK};
use crate::track::{sample_table_of, track_id_place};
use vstd::prelude::*;

verus! {

/// The outcome of a change: the new bytes, or what the bytes had become when an error stopped it.
pub type Patched = Result<Seq<u8>, (Seq<u8>, Mp4Error)>;

/// Whether a call turned some bytes into what the outcome says and returned its error.
pub open spec fn carries_out(
    patched: Patched,
    after: Seq<u8>,
    result: Result<(), Mp4Error>,
) -> bool {
    match patched {
        Ok(bytes) => result is Ok && after == bytes,
        Err((bytes, error)) => result == Err::<(), Mp4Error>(error) && after == bytes,
    }
}

/// A track whose `trak` atom fills `track`, behind a header of `header` bytes.
pub open spec fn root_atom(track: Seq<u8>, header: int) -> Atom {
    Atom { start: 0, payload: header as usize, end: track.len() as usize, kind: TRAK }
}

/// `track` with another track ID.
pub open spec fn with_track_id(track: Seq<u8>, id: u32) -> Patched {
    match header_len(track) {
        Err(error) => Err((track, error)),
        Ok(header) => match child_of(track, root_atom(track, header), TKHD) {
            Err(error) => Err((track, error)),
            Ok(tkhd) => if tkhd.payload >= track.len() {
                Err((track, Mp4Error::OutOfBounds))
            } else {
                let at = tkhd.payload + track_id_place(track[tkhd.payload as int]);
                if at + 4 > track.len() {
                    Err((track, Mp4Error::TruncatedInteger))
                } else {
                    Ok(overwrite(track, at, be32_bytes(id)))
                }
            },
        },
    }
}

/// The chunk offset tables among some atoms.
pub open spec fn offset_tables(atoms: Seq<Atom>) -> Seq<Atom>
    decreases atoms.len(),
{
    if atoms.len() == 0 {
        Seq::empty()
    } else if atoms.last().kind == STCO || atoms.last().kind == CO64 {
        offset_tables(atoms.drop_last()).push(atoms.last())
    } else {
        offset_tables(atoms.drop_last())
    }
}

/// `track` with entry `index` of a chunk offset table set to `offset`.
pub open spec fn with_offset(track: Seq<u8>, table: Atom, index: int, offset: usize) -> Patched {
    if table.kind == STCO {
        let at = table.payload + 8 + index * 4;
        if offset > u32::MAX {
            Err((track, Mp4Error::OffsetExceedsStco))
        } else if at + 4 > track.len() {
            Err((track, Mp4Error::TruncatedInteger))
        } else {
            Ok(overwrite(track, at, be32_bytes(offset as u32)))
        }
    } else {
        let at = table.payload + 8 + index * 8;
        if at + 8 > track.len() {
            Err((track, Mp4Error::TruncatedInteger))
        } else {
            Ok(overwrite(track, at, be64_bytes(offset as u64)))
        }
    }
}

/// `track` with the first `count` entries of a chunk offset table replaced, in their order.
pub open spec fn with_offsets(track: Seq<u8>, table: Atom, offsets: Seq<usize>, count: int) -> Patched
    decreases count,
{
    if count <= 0 {
        Ok(track)
    } else {
        match with_offsets(track, table, offsets, count - 1) {
            Err(stopped) => Err(stopped),
            Ok(bytes) => with_offset(bytes, table, count - 1, offsets[count - 1]),
        }
    }
}

/// The one chunk offset table of a track.
pub open spec fn offset_table_of(track: Seq<u8>) -> Result<Atom, Mp4Error> {
    match header_len(track) {
        Err(error) => Err(error),
        Ok(header) => match sample_table_of(track, root_atom(track, header)) {
            Err(error) => Err(error),
            Ok(stbl) => match atoms_in(track, stbl.payload as int, stbl.end as int) {
                Err(error) => Err(error),
                Ok(atoms) => if offset_tables(atoms).len() != 1 {
                    Err(Mp4Error::OffsetTableCount)
                } else {
                    Ok(offset_tables(atoms)[0])
                },
            },
        },
    }
}

/// `track` with other chunk offsets.
pub open spec fn with_chunk_offsets(track: Seq<u8>, offsets: Seq<usize>) -> Patched {
    match offset_table_of(track) {
        Err(error) => Err((track, error)),
        Ok(table) => match read32(track, table.payload + 4) {
            Err(error) => Err((track, error)),
            Ok(count) => if count != offsets.len() {
                Err((track, Mp4Error::OffsetCountChanged))
            } else {
                with_offsets(track, table, offsets, count as int)
            },
        },
    }
}

/// A `moov` atom with one more track at its end.
pub open spec fn with_track(moov: Seq<u8>, track: Seq<u8>) -> Patched {
    let joined = moov + track;
    match header_len(moov) {
        Err(error) => Err((moov, error)),
        Ok(header) => if joined.len() > u32::MAX {
            Err((joined, Mp4Error::MoovTooLarge))
        } else {
            let sized = overwrite(joined, 0, be32_bytes(joined.len() as u32));
            if header != 8 {
                Err((sized, Mp4Error::ExtendedMoov))
            } else {
                Ok(sized)
            }
        },
    }
}

/// Gives a track another ID.
pub fn patch_track_id(track: &mut [u8], id: u32) -> (result: Result<(), Mp4Error>)
    ensures
        carries_out(with_track_id(old(track)@, id), final(track)@, result),
{
    let root = Atom { start: 0, payload: atom_header_len(track)?, end: track.len(), kind: TRAK };
    let tkhd = child(track, root, &TKHD)?;
    if tkhd.payload >= track.len() {
        return Err(Mp4Error::OutOfBounds);
    }
    let place: usize = if track[tkhd.payload] == 1 {
        20
    } else {
        12
    };
    let at: usize = tkhd.payload.saturating_add(place);
    write_u32(track, at, id)
}

/// Finds the one chunk offset table of a track.
fn find_only_offset_table(track: &[u8]) -> (result: Result<Atom, Mp4Error>)
    ensures
        result == offset_table_of(track@),
{
    let root = Atom { start: 0, payload: atom_header_len(track)?, end: track.len(), kind: TRAK };
    let mdia = child(track, root, &MDIA)?;
    let minf = child(track, mdia, &MINF)?;
    let stbl = child(track, minf, &STBL)?;
    let atoms = parse_atoms(track, stbl.payload, stbl.end)?;
    let mut tables: Vec<Atom> = Vec::new();
    let mut index: usize = 0;
    while index < atoms.len()
        invariant
            index <= atoms@.len(),
            tables@ == offset_tables(atoms@.take(index as int)),
        decreases atoms@.len() - index,
    {
        let atom = atoms[index];
        proof {
            assert(atoms@.take(index + 1).drop_last() =~= atoms@.take(index as int));
            assert(atoms@.take(index + 1).last() == atom);
        }
        if same_kind(&atom.kind, &STCO) || same_kind(&atom.kind, &CO64) {
            tables.push(atom);
        }
        index += 1;
    }
    proof {
        assert(atoms@.take(index as int) =~= atoms@);
    }
    if tables.len() != 1 {
        return Err(Mp4Error::OffsetTableCount);
    }
    Ok(tables[0])
}

proof fn lemma_offsets_error(track: Seq<u8>, table: Atom, offsets: Seq<usize>, some: int, all: int)
    requires
        some <= all,
        with_offsets(track, table, offsets, some) is Err,
    ensures
        with_offsets(track, table, offsets, all) == with_offsets(track, table, offsets, some),
    decreases all - some,
{
    if some < all {
        lemma_offsets_error(track, table, offsets, some, all - 1);
    }
}

/// Sets entry `index` of a chunk offset table.
fn write_offset(track: &mut [u8], table: Atom, index: usize, offset: usize) -> (result: Result<
    (),
    Mp4Error,
>)
    ensures
        carries_out(
            with_offset(old(track)@, table, index as int, offset),
            final(track)@,
            result,
        ),
{
    proof {
        assert(track@.len() == track.len());
    }
    if same_kind(&table.kind, &STCO) {
        if offset as u64 > u32::MAX as u64 {
            return Err(Mp4Error::OffsetExceedsStco);
        }
        write_u32(track, entry_place(table.payload, 8, index, 4), offset as u32)
    } else {
        write_u64(track, entry_place(table.payload, 8, index, 8), offset as u64)
    }
}

/// Sets the entries of a chunk offset table.
fn write_offsets(track: &mut [u8], table: Atom, offsets: &[usize]) -> (result: Result<(), Mp4Error>)
    ensures
        carries_out(
            with_offsets(old(track)@, table, offsets@, offsets@.len() as int),
            final(track)@,
            result,
        ),
{
    let ghost before = track@;
    let mut index: usize = 0;
    while index < offsets.len()
        invariant
            before == old(track)@,
            index <= offsets@.len(),
            with_offsets(before, table, offsets@, index as int) == Ok::<
                Seq<u8>,
                (Seq<u8>, Mp4Error),
            >(track@),
        decreases offsets@.len() - index,
    {
        match write_offset(track, table, index, offsets[index]) {
            Ok(_) => {},
            Err(error) => {
                proof {
                    lemma_offsets_error(before, table, offsets@, index + 1, offsets@.len() as int);
                }
                return Err(error);
            },
        }
        index += 1;
    }
    Ok(())
}

/// Gives a track other chunk offsets.
pub fn patch_chunk_offsets(track: &mut [u8], offsets: &[usize]) -> (result: Result<(), Mp4Error>)
    ensures
        carries_out(with_chunk_offsets(old(track)@, offsets@), final(track)@, result),
{
    let table = find_only_offset_table(track)?;
    let count: u32 = read_u32_after(track, table.payload, 4)?;
    if count as usize != offsets.len() {
        return Err(Mp4Error::OffsetCountChanged);
    }
    write_offsets(track, table, offsets)
}

/// Adds a track at the end of a `moov` atom.
pub fn append_track(moov: &mut Vec<u8>, track: &[u8]) -> (result: Result<(), Mp4Error>)
    ensures
        carries_out(with_track(old(moov)@, track@), final(moov)@, result),
{
    let header: usize = atom_header_len(moov)?;
    moov.extend_from_slice(track);
    proof {
        assert(moov@ =~= old(moov)@ + track@);
    }
    if moov.len() as u64 > u32::MAX as u64 {
        return Err(Mp4Error::MoovTooLarge);
    }
    let size: u32 = moov.len() as u32;
    write_u32(moov, 0, size)?;
    if header != 8 {
        return Err(Mp4Error::ExtendedMoov);
    }
    Ok(())
}

} // verus!
