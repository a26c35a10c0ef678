//! Carrying the telemetry track of a recording over to a transcoded file.

use crate::atoms::{
    atoms_in, find_kind, first_of_kind, law_atoms_tile, lemma_first_of_kind, lemma_top_moov,
    parse_atoms, parse_top_until_moov, top_until_moov, Atom,
};
use crate::bytes::be32_bytes;
use crate::error::{Mp4Error, SpliceError};
use crate::kinds::{MDAT, MOOV};
use crate::patch::{
    append_track, patch_chunk_offsets, patch_track_id, with_chunk_offsets, with_track, with_track_id,
};
use crate::track::{
    aimd_track_of, chunks_size, find_aimd_track, first_aimd, track_ids, track_ids_of, AimdTrack,
};
use vstd::prelude::*;

verus! {

/// The telemetry track of a recording, found through its first complete `moov` atom.
pub open spec fn source_track(source: Seq<u8>) -> Result<(Atom, Seq<(usize, usize)>), Mp4Error> {
    match top_until_moov(source, 0) {
        Err(error) => Err(error),
        Ok(top) => aimd_track_of(source, top.last()),
    }
}

/// The first `moov` atom of a transcoded file, which has to be its last atom.
pub open spec fn output_moov(transcoded: Seq<u8>) -> Result<Atom, SpliceError> {
    match atoms_in(transcoded, 0, transcoded.len() as int) {
        Err(error) => Err(SpliceError::OutputAtoms(error)),
        Ok(atoms) => match first_of_kind(atoms, MOOV) {
            None => Err(SpliceError::OutputNoMoov),
            Some(moov) => if moov.end != transcoded.len() {
                Err(SpliceError::MoovNotLast)
            } else {
                Ok(moov)
            },
        },
    }
}

/// The highest of some track IDs, zero if there are none.
pub open spec fn highest(ids: Seq<u32>) -> u32
    decreases ids.len(),
{
    if ids.len() == 0 {
        0
    } else if highest(ids.drop_last()) < ids.last() {
        ids.last()
    } else {
        highest(ids.drop_last())
    }
}

/// The ID for one more track: one above the highest, as far as there is room.
pub open spec fn next_track_id(ids: Seq<u32>) -> u32 {
    if highest(ids) == u32::MAX {
        u32::MAX
    } else {
        (highest(ids) + 1) as u32
    }
}

/// Whether chunks of a total size fit in one atom with a 32-bit size.
pub open spec fn payload_fits(size: int) -> Result<(), SpliceError> {
    if size > usize::MAX {
        Err(SpliceError::PayloadOverflow)
    } else if size + 8 > usize::MAX {
        Err(SpliceError::MdatOverflow)
    } else if size + 8 > u32::MAX {
        Err(SpliceError::PayloadTooLarge)
    } else {
        Ok(())
    }
}

/// The first `count` chunks packed one behind the other: the offset of each when the first one is
/// placed at `place`, and their bytes.
pub open spec fn gather(
    source: Seq<u8>,
    chunks: Seq<(usize, usize)>,
    place: int,
    count: int,
) -> Result<(Seq<usize>, Seq<u8>), SpliceError>
    decreases count,
{
    if count <= 0 {
        Ok((Seq::empty(), Seq::empty()))
    } else {
        match gather(source, chunks, place, count - 1) {
            Err(error) => Err(error),
            Ok((offsets, payload)) => {
                let (offset, size) = chunks[count - 1];
                if offset + size > usize::MAX {
                    Err(SpliceError::ChunkOverflow)
                } else if offset + size > source.len() {
                    Err(SpliceError::ChunkOutside)
                } else if place + payload.len() + size > usize::MAX {
                    Err(SpliceError::DestinationOverflow)
                } else {
                    Ok(
                        (
                            offsets.push((place + payload.len()) as usize),
                            payload + source.subrange(offset as int, offset + size),
                        ),
                    )
                }
            },
        }
    }
}

/// A `mdat` atom that holds `payload`.
pub open spec fn mdat_atom(payload: Seq<u8>) -> Seq<u8> {
    be32_bytes((payload.len() + 8) as u32) + MDAT@ + payload
}

/// The track bytes for the new file: a new ID, and chunk offsets that point to the packed chunks.
pub open spec fn carried_track(
    source: Seq<u8>,
    track: Atom,
    chunks: Seq<(usize, usize)>,
    id: u32,
    place: int,
) -> Result<(Seq<u8>, Seq<u8>), SpliceError> {
    match with_track_id(source.subrange(track.start as int, track.end as int), id) {
        Err((_, error)) => Err(SpliceError::Mp4(error)),
        Ok(renamed) => match payload_fits(chunks_size(chunks)) {
            Err(error) => Err(error),
            Ok(_) => match gather(source, chunks, place, chunks.len() as int) {
                Err(error) => Err(error),
                Ok((offsets, payload)) => match with_chunk_offsets(renamed, offsets) {
                    Err((_, error)) => Err(SpliceError::Mp4(error)),
                    Ok(carried) => Ok((carried, payload)),
                },
            },
        },
    }
}

/// The transcoded file with the telemetry of the source: in front of the `moov` atom a `mdat` atom
/// with the chunks, and in the `moov` atom one more track.
pub open spec fn spliced(source: Seq<u8>, transcoded: Seq<u8>) -> Result<Seq<u8>, SpliceError> {
    match source_track(source) {
        Err(error) => Err(SpliceError::Mp4(error)),
        Ok((track, chunks)) => match output_moov(transcoded) {
            Err(error) => Err(error),
            Ok(moov) => match track_ids_of(transcoded, moov) {
                Err(error) => Err(SpliceError::Mp4(error)),
                Ok(ids) => match carried_track(
                    source,
                    track,
                    chunks,
                    next_track_id(ids),
                    moov.start + 8,
                ) {
                    Err(error) => Err(error),
                    Ok((carried, payload)) => match with_track(
                        transcoded.subrange(moov.start as int, moov.end as int),
                        carried,
                    ) {
                        Err((_, error)) => Err(SpliceError::Mp4(error)),
                        Ok(movie) => Ok(
                            transcoded.subrange(0, moov.start as int) + mdat_atom(payload) + movie,
                        ),
                    },
                },
            },
        },
    }
}

/// The telemetry track that is found among some atoms is one of them.
proof fn lemma_first_aimd_among(data: Seq<u8>, atoms: Seq<Atom>)
    requires
        first_aimd(data, atoms) is Ok,
    ensures
        atoms.contains(first_aimd(data, atoms)->Ok_0.0),
    decreases atoms.len(),
{
    if first_aimd(data, atoms)->Ok_0.0 == atoms[0] {
        assert(atoms.contains(atoms[0]));
    } else {
        lemma_first_aimd_among(data, atoms.drop_first());
        let atom = first_aimd(data, atoms)->Ok_0.0;
        let i = choose|i: int| 0 <= i < atoms.drop_first().len() && atoms.drop_first()[i] == atom;
        assert(atoms[i + 1] == atom);
    }
}

/// The telemetry track of a recording lies inside it.
pub proof fn lemma_source_track_inside(source: Seq<u8>)
    requires
        source_track(source) is Ok,
    ensures
        ({
            let track = source_track(source)->Ok_0.0;
            track.start + 8 <= track.payload <= track.end <= source.len()
        }),
{
    let moov = top_until_moov(source, 0)->Ok_0.last();
    lemma_top_moov(source, 0);
    law_atoms_tile(source, moov.payload as int, moov.end as int);
    lemma_first_aimd_among(
        source,
        atoms_in(source, moov.payload as int, moov.end as int)->Ok_0,
    );
}

/// The `moov` atom of a transcoded file lies inside it.
pub proof fn lemma_output_moov_inside(transcoded: Seq<u8>)
    requires
        output_moov(transcoded) is Ok,
    ensures
        ({
            let moov = output_moov(transcoded)->Ok_0;
            &&& moov.kind == MOOV
            &&& moov.start + 8 <= moov.payload <= moov.end == transcoded.len()
        }),
{
    let atoms = atoms_in(transcoded, 0, transcoded.len() as int)->Ok_0;
    law_atoms_tile(transcoded, 0, transcoded.len() as int);
    lemma_first_of_kind(atoms, MOOV);
}

/// The ID for one more track.
fn choose_track_id(ids: &Vec<u32>) -> (id: u32)
    ensures
        id == next_track_id(ids@),
{
    let mut high: u32 = 0;
    let mut index: usize = 0;
    while index < ids.len()
        invariant
            index <= ids@.len(),
            high == highest(ids@.take(index as int)),
        decreases ids@.len() - index,
    {
        proof {
            assert(ids@.take(index + 1).drop_last() =~= ids@.take(index as int));
        }
        if high < ids[index] {
            high = ids[index];
        }
        index += 1;
    }
    proof {
        assert(ids@.take(index as int) =~= ids@);
    }
    high.saturating_add(1)
}

pub proof fn lemma_payload_grows(chunks: Seq<(usize, usize)>, count: int)
    requires
        0 <= count <= chunks.len(),
    ensures
        0 <= chunks_size(chunks.take(count)) <= chunks_size(chunks),
    decreases chunks.len() - count,
{
    lemma_payload_nonnegative(chunks.take(count));
    if count < chunks.len() {
        lemma_payload_grows(chunks, count + 1);
        assert(chunks.take(count + 1).drop_last() =~= chunks.take(count));
    } else {
        assert(chunks.take(count) =~= chunks);
    }
}

proof fn lemma_payload_nonnegative(chunks: Seq<(usize, usize)>)
    ensures
        0 <= chunks_size(chunks),
    decreases chunks.len(),
{
    if chunks.len() > 0 {
        lemma_payload_nonnegative(chunks.drop_last());
    }
}

/// Checks that all chunks fit in one atom.
fn check_payload(chunks: &Vec<(usize, usize)>) -> (result: Result<(), SpliceError>)
    ensures
        result == payload_fits(chunks_size(chunks@)),
{
    let mut size: usize = 0;
    let mut index: usize = 0;
    while index < chunks.len()
        invariant
            index <= chunks@.len(),
            size == chunks_size(chunks@.take(index as int)),
        decreases chunks@.len() - index,
    {
        proof {
            assert(chunks@.take(index + 1).drop_last() =~= chunks@.take(index as int));
            lemma_payload_grows(chunks@, index + 1);
        }
        size = match size.checked_add(chunks[index].1) {
            Some(size) => size,
            None => {
                return Err(SpliceError::PayloadOverflow);
            },
        };
        index += 1;
    }
    proof {
        assert(chunks@.take(index as int) =~= chunks@);
    }
    match size.checked_add(8) {
        None => Err(SpliceError::MdatOverflow),
        Some(size) => if size as u64 > u32::MAX as u64 {
            Err(SpliceError::PayloadTooLarge)
        } else {
            Ok(())
        },
    }
}

proof fn lemma_gather_error(
    source: Seq<u8>,
    chunks: Seq<(usize, usize)>,
    place: int,
    some: int,
    all: int,
)
    requires
        some <= all,
        gather(source, chunks, place, some) is Err,
    ensures
        gather(source, chunks, place, all) == gather(source, chunks, place, some),
    decreases all - some,
{
    if some < all {
        lemma_gather_error(source, chunks, place, some, all - 1);
    }
}

/// Packs the chunks one behind the other.
fn pack_chunks(source: &[u8], chunks: &Vec<(usize, usize)>, place: usize) -> (result: Result<
    (Vec<usize>, Vec<u8>),
    SpliceError,
>)
    ensures
        match result {
            Ok((offsets, payload)) => gather(source@, chunks@, place as int, chunks@.len() as int)
                == Ok::<(Seq<usize>, Seq<u8>), SpliceError>((offsets@, payload@)),
            Err(error) => gather(source@, chunks@, place as int, chunks@.len() as int) == Err::<
                (Seq<usize>, Seq<u8>),
                SpliceError,
            >(error),
        },
{
    let mut offsets: Vec<usize> = Vec::new();
    let mut payload: Vec<u8> = Vec::new();
    let mut destination: usize = place;
    let mut index: usize = 0;
    while index < chunks.len()
        invariant
            index <= chunks@.len(),
            gather(source@, chunks@, place as int, index as int) == Ok::<
                (Seq<usize>, Seq<u8>),
                SpliceError,
            >((offsets@, payload@)),
            destination == place + payload@.len(),
        decreases chunks@.len() - index,
    {
        let (offset, size) = chunks[index];
        let end: usize = match offset.checked_add(size) {
            Some(end) => end,
            None => {
                proof {
                    lemma_gather_error(source@, chunks@, place as int, index + 1, chunks@.len() as int);
                }
                return Err(SpliceError::ChunkOverflow);
            },
        };
        if end > source.len() {
            proof {
                lemma_gather_error(source@, chunks@, place as int, index + 1, chunks@.len() as int);
            }
            return Err(SpliceError::ChunkOutside);
        }
        let next: usize = match destination.checked_add(size) {
            Some(next) => next,
            None => {
                proof {
                    lemma_gather_error(source@, chunks@, place as int, index + 1, chunks@.len() as int);
                }
                return Err(SpliceError::DestinationOverflow);
            },
        };
        offsets.push(destination);
        let ghost before = payload@;
        payload.extend_from_slice(&source[offset..end]);
        proof {
            assert(payload@ =~= before + source@.subrange(offset as int, end as int));
        }
        destination = next;
        index += 1;
    }
    Ok((offsets, payload))
}

/// Finds the telemetry track of a recording.
fn find_source_track(source: &[u8]) -> (result: Result<AimdTrack, Mp4Error>)
    ensures
        match result {
            Ok(track) => source_track(source@) == Ok::<(Atom, Seq<(usize, usize)>), Mp4Error>(
                (track.atom, track.chunks@),
            ),
            Err(error) => source_track(source@) == Err::<(Atom, Seq<(usize, usize)>), Mp4Error>(
                error,
            ),
        },
{
    let top = parse_top_until_moov(source)?;
    proof {
        lemma_top_moov(source@, 0);
    }
    let moov = top[top.len() - 1];
    find_aimd_track(source, moov)
}

/// Finds the `moov` atom of a transcoded file.
fn find_output_moov(transcoded: &[u8]) -> (result: Result<Atom, SpliceError>)
    ensures
        result == output_moov(transcoded@),
{
    let atoms = match parse_atoms(transcoded, 0, transcoded.len()) {
        Ok(atoms) => atoms,
        Err(error) => {
            return Err(SpliceError::OutputAtoms(error));
        },
    };
    match find_kind(&atoms, &MOOV) {
        None => Err(SpliceError::OutputNoMoov),
        Some(moov) => if moov.end != transcoded.len() {
            Err(SpliceError::MoovNotLast)
        } else {
            Ok(moov)
        },
    }
}

/// The track bytes for the new file and the packed chunks.
fn carry_track(source: &[u8], track: &AimdTrack, id: u32, place: usize) -> (result: Result<
    (Vec<u8>, Vec<u8>),
    SpliceError,
>)
    requires
        track.atom.start <= track.atom.end <= source@.len(),
    ensures
        match result {
            Ok((carried, payload)) => carried_track(
                source@,
                track.atom,
                track.chunks@,
                id,
                place as int,
            ) == Ok::<(Seq<u8>, Seq<u8>), SpliceError>((carried@, payload@)),
            Err(error) => carried_track(source@, track.atom, track.chunks@, id, place as int)
                == Err::<(Seq<u8>, Seq<u8>), SpliceError>(error),
        },
{
    let mut carried: Vec<u8> = Vec::new();
    carried.extend_from_slice(&source[track.atom.start..track.atom.end]);
    proof {
        assert(carried@ =~= source@.subrange(track.atom.start as int, track.atom.end as int));
    }
    match patch_track_id(&mut carried, id) {
        Ok(_) => {},
        Err(error) => {
            return Err(SpliceError::Mp4(error));
        },
    }
    check_payload(&track.chunks)?;
    let (offsets, payload) = pack_chunks(source, &track.chunks, place)?;
    match patch_chunk_offsets(&mut carried, &offsets) {
        Ok(_) => {},
        Err(error) => {
            return Err(SpliceError::Mp4(error));
        },
    }
    Ok((carried, payload))
}

/// Writes a `mdat` atom that holds `payload` behind `bytes`.
fn push_mdat(bytes: &mut Vec<u8>, payload: &Vec<u8>)
    requires
        payload@.len() + 8 <= u32::MAX,
    ensures
        final(bytes)@ == old(bytes)@ + mdat_atom(payload@),
{
    let size: u32 = (payload.len() + 8) as u32;
    bytes.push((size / 0x100_0000) as u8);
    bytes.push((size / 0x1_0000 % 0x100) as u8);
    bytes.push((size / 0x100 % 0x100) as u8);
    bytes.push((size % 0x100) as u8);
    bytes.push(MDAT[0]);
    bytes.push(MDAT[1]);
    bytes.push(MDAT[2]);
    bytes.push(MDAT[3]);
    bytes.extend_from_slice(payload);
    proof {
        assert(bytes@ =~= old(bytes)@ + mdat_atom(payload@));
    }
}

/// The packed chunks are as long as the chunks together.
pub proof fn lemma_gather_len(
    source: Seq<u8>,
    chunks: Seq<(usize, usize)>,
    place: int,
    count: int,
)
    requires
        0 <= count <= chunks.len(),
        gather(source, chunks, place, count) is Ok,
    ensures
        gather(source, chunks, place, count)->Ok_0.0.len() == count,
        gather(source, chunks, place, count)->Ok_0.1.len() == chunks_size(chunks.take(count)),
    decreases count,
{
    if count > 0 {
        lemma_gather_len(source, chunks, place, count - 1);
        assert(chunks.take(count).drop_last() =~= chunks.take(count - 1));
    }
}

/// Adds the telemetry track of `source` to `transcoded`.
pub fn splice_aimd_track(source: &[u8], transcoded: &[u8]) -> (result: Result<Vec<u8>, SpliceError>)
    ensures
        match result {
            Ok(bytes) => spliced(source@, transcoded@) == Ok::<Seq<u8>, SpliceError>(bytes@),
            Err(error) => spliced(source@, transcoded@) == Err::<Seq<u8>, SpliceError>(error),
        },
{
    let track = match find_source_track(source) {
        Ok(track) => track,
        Err(error) => {
            return Err(SpliceError::Mp4(error));
        },
    };
    let moov = find_output_moov(transcoded)?;
    proof {
        lemma_source_track_inside(source@);
        lemma_output_moov_inside(transcoded@);
    }
    let ids = match track_ids(transcoded, moov) {
        Ok(ids) => ids,
        Err(error) => {
            return Err(SpliceError::Mp4(error));
        },
    };
    let (carried, payload) = carry_track(source, &track, choose_track_id(&ids), moov.start + 8)?;
    proof {
        lemma_gather_len(source@, track.chunks@, moov.start + 8, track.chunks@.len() as int);
        assert(track.chunks@.take(track.chunks@.len() as int) =~= track.chunks@);
    }
    let mut movie: Vec<u8> = Vec::new();
    movie.extend_from_slice(&transcoded[moov.start..moov.end]);
    proof {
        assert(movie@ =~= transcoded@.subrange(moov.start as int, moov.end as int));
    }
    match append_track(&mut movie, &carried) {
        Ok(_) => {},
        Err(error) => {
            return Err(SpliceError::Mp4(error));
        },
    }
    let mut bytes: Vec<u8> = Vec::new();
    bytes.extend_from_slice(&transcoded[0..moov.start]);
    proof {
        assert(bytes@ =~= transcoded@.subrange(0, moov.start as int));
    }
    push_mdat(&mut bytes, &payload);
    bytes.extend_from_slice(&movie);
    proof {
        assert(bytes@ =~= transcoded@.subrange(0, moov.start as int) + mdat_atom(payload@) + movie@);
    }
    Ok(bytes)
}

} // verus!
