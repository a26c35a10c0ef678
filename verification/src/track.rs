//! The telemetry track of a file: how it is recognised and where its samples lie.

use crate::atoms::{atoms_in, child, child_of, lists, parse_atoms, Atom};
use crate::bytes::{
    kind_at, read32, read64, read_u32, read_u32_after, read_u32_entry, read_u64_entry, same_kind,
};
use crate::error::Mp4Error;
use crate::kinds::{AIMD, CO64, MDIA, MINF, STBL, STCO, STSC, STSD, STSZ, TKHD, TRAK};
use vstd::prelude::*;

verus! {

/// The telemetry track: its `trak` atom and the offset and size of each of its chunks.
#[derive(Debug)]
pub struct AimdTrack {
    pub atom: Atom,
    pub chunks: Vec<(usize, usize)>,
}

/// The results of `read` for 0, 1, .., `count - 1`, or the first error among them.
pub open spec fn collect<T>(count: int, read: spec_fn(int) -> Result<T, Mp4Error>) -> Result<
    Seq<T>,
    Mp4Error,
>
    decreases count,
{
    if count <= 0 {
        Ok(Seq::empty())
    } else {
        match collect(count - 1, read) {
            Ok(front) => match read(count - 1) {
                Ok(item) => Ok(front.push(item)),
                Err(error) => Err(error),
            },
            Err(error) => Err(error),
        }
    }
}

proof fn lemma_collect_error<T>(some: int, all: int, read: spec_fn(int) -> Result<T, Mp4Error>)
    requires
        some <= all,
        collect(some, read) is Err,
    ensures
        collect(all, read) == collect(some, read),
    decreases all - some,
{
    if some < all {
        lemma_collect_error(some, all - 1, read);
    }
}

/// Whether one of `count` sample descriptions from `cursor` on, none past `end`, is `aimd`.
pub open spec fn describes_aimd(data: Seq<u8>, cursor: int, end: int, count: int) -> Result<
    bool,
    Mp4Error,
>
    decreases count,
{
    if count <= 0 {
        Ok(false)
    } else {
        match read32(data, cursor) {
            Ok(size) => if size < 8 || cursor + size > end {
                Err(Mp4Error::InvalidStsdEntry)
            } else if cursor + 8 > data.len() {
                Err(Mp4Error::OutOfBounds)
            } else if kind_at(data, cursor + 4) == AIMD {
                Ok(true)
            } else {
                describes_aimd(data, cursor + size, end, count - 1)
            },
            Err(error) => Err(error),
        }
    }
}

/// Whether a sample description table has an `aimd` entry.
pub open spec fn stsd_aimd(data: Seq<u8>, stsd: Atom) -> Result<bool, Mp4Error> {
    match read32(data, stsd.payload + 4) {
        Ok(count) => describes_aimd(data, stsd.payload + 8, stsd.end as int, count as int),
        Err(error) => Err(error),
    }
}

/// The first chunk offset table, of either width.
pub open spec fn first_offset_table(atoms: Seq<Atom>) -> Option<Atom>
    decreases atoms.len(),
{
    if atoms.len() == 0 {
        None
    } else if atoms[0].kind == STCO || atoms[0].kind == CO64 {
        Some(atoms[0])
    } else {
        first_offset_table(atoms.drop_first())
    }
}

/// Entry `index` of a chunk offset table: 32 bits wide in `stco`, 64 bits in `co64`.
pub open spec fn offset_entry(data: Seq<u8>, table: Atom, index: int) -> Result<usize, Mp4Error> {
    if table.kind == STCO {
        match read32(data, table.payload + 8 + index * 4) {
            Ok(offset) => Ok(offset as usize),
            Err(error) => Err(error),
        }
    } else {
        match read64(data, table.payload + 8 + index * 8) {
            Ok(offset) => if offset > usize::MAX {
                Err(Mp4Error::ChunkOffsetTooLarge)
            } else {
                Ok(offset as usize)
            },
            Err(error) => Err(error),
        }
    }
}

/// The entries of a chunk offset table.
pub open spec fn offset_reader(data: Seq<u8>, table: Atom) -> spec_fn(int) -> Result<
    usize,
    Mp4Error,
> {
    |index: int| offset_entry(data, table, index)
}

/// The chunk offsets that a table lists.
pub open spec fn chunk_offsets(data: Seq<u8>, table: Atom) -> Result<Seq<usize>, Mp4Error> {
    match read32(data, table.payload + 4) {
        Ok(count) => collect(count as int, offset_reader(data, table)),
        Err(error) => Err(error),
    }
}

/// Entry `index` of a sample-to-chunk table: the first chunk it is about and the number of samples
/// in each chunk.
pub open spec fn stsc_entry(data: Seq<u8>, stsc: Atom, index: int) -> Result<
    (u32, u32),
    Mp4Error,
> {
    match read32(data, stsc.payload + 8 + index * 12) {
        Ok(first_chunk) => match read32(data, stsc.payload + 12 + index * 12) {
            Ok(samples) => Ok((first_chunk, samples)),
            Err(error) => Err(error),
        },
        Err(error) => Err(error),
    }
}

/// The entries of a sample-to-chunk table.
pub open spec fn stsc_reader(data: Seq<u8>, stsc: Atom) -> spec_fn(int) -> Result<
    (u32, u32),
    Mp4Error,
> {
    |index: int| stsc_entry(data, stsc, index)
}

/// The sample-to-chunk table, which must not be empty.
pub open spec fn stsc_entries(data: Seq<u8>, stsc: Atom) -> Result<Seq<(u32, u32)>, Mp4Error> {
    match read32(data, stsc.payload + 4) {
        Ok(count) => match collect(count as int, stsc_reader(data, stsc)) {
            Ok(entries) => if count == 0 {
                Err(Mp4Error::NoStscEntries)
            } else {
                Ok(entries)
            },
            Err(error) => Err(error),
        },
        Err(error) => Err(error),
    }
}

/// The entries of a sample size table.
pub open spec fn size_reader(data: Seq<u8>, stsz: Atom) -> spec_fn(int) -> Result<u32, Mp4Error> {
    |index: int| read32(data, stsz.payload + 12 + index * 4)
}

/// The tables that say where the samples of a track lie.
pub struct SampleTables {
    pub offsets: Seq<usize>,
    pub entries: Seq<(u32, u32)>,
    /// The size of every sample, or zero where each has its own.
    pub default_size: u32,
    pub sample_count: u32,
    /// The size of each sample, where `default_size` is zero.
    pub sizes: Seq<u32>,
}

/// The sample tables in the given atoms.
pub open spec fn tables_in(data: Seq<u8>, stsc: Atom, stsz: Atom, table: Atom) -> Result<
    SampleTables,
    Mp4Error,
> {
    match chunk_offsets(data, table) {
        Err(error) => Err(error),
        Ok(offsets) => match stsc_entries(data, stsc) {
            Err(error) => Err(error),
            Ok(entries) => match read32(data, stsz.payload + 4) {
                Err(error) => Err(error),
                Ok(default_size) => match read32(data, stsz.payload + 8) {
                    Err(error) => Err(error),
                    Ok(sample_count) => {
                        let listed = if default_size == 0 {
                            sample_count as int
                        } else {
                            0
                        };
                        match collect(listed, size_reader(data, stsz)) {
                            Err(error) => Err(error),
                            Ok(sizes) => Ok(
                                SampleTables { offsets, entries, default_size, sample_count, sizes },
                            ),
                        }
                    },
                },
            },
        },
    }
}

/// The number of samples in a chunk: what the last entry that starts at or before it says.
pub open spec fn samples_in_chunk(entries: Seq<(u32, u32)>, chunk: int) -> Option<u32>
    decreases entries.len(),
{
    if entries.len() == 0 {
        None
    } else if entries.last().0 <= chunk {
        Some(entries.last().1)
    } else {
        samples_in_chunk(entries.drop_last(), chunk)
    }
}

/// The sum of some sample sizes.
pub open spec fn total(sizes: Seq<u32>) -> int
    decreases sizes.len(),
{
    if sizes.len() == 0 {
        0
    } else {
        total(sizes.drop_last()) + sizes.last()
    }
}

/// The size of a chunk that holds `samples` samples, the first of them number `first`.
pub open spec fn chunk_size(tables: SampleTables, first: int, samples: u32) -> Result<
    usize,
    Mp4Error,
> {
    if tables.default_size != 0 {
        if samples * tables.default_size > usize::MAX {
            Err(Mp4Error::ChunkSizeOverflow)
        } else {
            Ok((samples * tables.default_size) as usize)
        }
    } else if first + samples > usize::MAX {
        Err(Mp4Error::SampleIndexOverflow)
    } else if first + samples > tables.sizes.len() {
        Err(Mp4Error::SampleCountMismatch)
    } else if total(tables.sizes.subrange(first, first + samples)) > usize::MAX {
        Err(Mp4Error::ChunkSizeOverflow)
    } else {
        Ok(total(tables.sizes.subrange(first, first + samples)) as usize)
    }
}

/// The offsets and sizes of the first `count` chunks, and the number of samples in them.
pub open spec fn chunk_layout(tables: SampleTables, count: int) -> Result<
    (Seq<(usize, usize)>, int),
    Mp4Error,
>
    decreases count,
{
    if count <= 0 {
        Ok((Seq::empty(), 0int))
    } else {
        match chunk_layout(tables, count - 1) {
            Err(error) => Err(error),
            Ok((chunks, first)) => match samples_in_chunk(tables.entries, count) {
                None => Err(Mp4Error::ChunksNotCovered),
                Some(samples) => match chunk_size(tables, first, samples) {
                    Err(error) => Err(error),
                    Ok(size) => Ok(
                        (chunks.push((tables.offsets[count - 1], size)), first + samples),
                    ),
                },
            },
        }
    }
}

/// The chunks that some sample tables describe; every sample must lie in a chunk.
pub open spec fn chunks_from(tables: SampleTables) -> Result<Seq<(usize, usize)>, Mp4Error> {
    match chunk_layout(tables, tables.offsets.len() as int) {
        Err(error) => Err(error),
        Ok((chunks, samples)) => if samples != tables.sample_count {
            Err(Mp4Error::SampleCountMismatch)
        } else {
            Ok(chunks)
        },
    }
}

/// The sample tables of a sample table atom.
pub open spec fn sample_tables(data: Seq<u8>, stbl: Atom) -> Result<SampleTables, Mp4Error> {
    match child_of(data, stbl, STSC) {
        Err(error) => Err(error),
        Ok(stsc) => match child_of(data, stbl, STSZ) {
            Err(error) => Err(error),
            Ok(stsz) => match atoms_in(data, stbl.payload as int, stbl.end as int) {
                Err(error) => Err(error),
                Ok(atoms) => match first_offset_table(atoms) {
                    None => Err(Mp4Error::NoChunkOffsets),
                    Some(table) => tables_in(data, stsc, stsz, table),
                },
            },
        },
    }
}

/// The chunks of a sample table atom.
pub open spec fn chunks_of(data: Seq<u8>, stbl: Atom) -> Result<Seq<(usize, usize)>, Mp4Error> {
    match sample_tables(data, stbl) {
        Err(error) => Err(error),
        Ok(tables) => chunks_from(tables),
    }
}

/// The sample table atom of a track.
pub open spec fn sample_table_of(data: Seq<u8>, track: Atom) -> Result<Atom, Mp4Error> {
    match child_of(data, track, MDIA) {
        Err(error) => Err(error),
        Ok(mdia) => match child_of(data, mdia, MINF) {
            Err(error) => Err(error),
            Ok(minf) => child_of(data, minf, STBL),
        },
    }
}

/// Whether a track holds telemetry.
pub open spec fn track_is_aimd(data: Seq<u8>, track: Atom) -> Result<bool, Mp4Error> {
    match sample_table_of(data, track) {
        Err(error) => Err(error),
        Ok(stbl) => match child_of(data, stbl, STSD) {
            Err(error) => Err(error),
            Ok(stsd) => stsd_aimd(data, stsd),
        },
    }
}

/// The first telemetry track among some atoms, with its chunks.
pub open spec fn first_aimd(data: Seq<u8>, atoms: Seq<Atom>) -> Result<
    (Atom, Seq<(usize, usize)>),
    Mp4Error,
>
    decreases atoms.len(),
{
    if atoms.len() == 0 {
        Err(Mp4Error::NoAimdTrack)
    } else if atoms[0].kind != TRAK {
        first_aimd(data, atoms.drop_first())
    } else {
        match track_is_aimd(data, atoms[0]) {
            Err(error) => Err(error),
            Ok(false) => first_aimd(data, atoms.drop_first()),
            Ok(true) => match chunks_of(data, sample_table_of(data, atoms[0])->Ok_0) {
                Err(error) => Err(error),
                Ok(chunks) => Ok((atoms[0], chunks)),
            },
        }
    }
}

/// The telemetry track of a movie, with its chunks.
pub open spec fn aimd_track_of(data: Seq<u8>, moov: Atom) -> Result<
    (Atom, Seq<(usize, usize)>),
    Mp4Error,
> {
    match atoms_in(data, moov.payload as int, moov.end as int) {
        Err(error) => Err(error),
        Ok(atoms) => first_aimd(data, atoms),
    }
}

/// Whether a sample description table has an `aimd` entry.
pub fn stsd_is_aimd(data: &[u8], stsd: Atom) -> (result: Result<bool, Mp4Error>)
    ensures
        result == stsd_aimd(data@, stsd),
{
    let count: u32 = read_u32_after(data, stsd.payload, 4)?;
    let mut cursor: usize = stsd.payload.saturating_add(8);
    let mut left: u32 = count;
    proof {
        assert(data@.len() == data.len());
    }
    while left > 0
        invariant
            data@.len() <= usize::MAX,
            stsd.payload + 8 <= usize::MAX ==> stsd_aimd(data@, stsd) == describes_aimd(
                data@,
                cursor as int,
                stsd.end as int,
                left as int,
            ),
            stsd.payload + 8 > usize::MAX ==> cursor == usize::MAX && left == count,
            stsd_aimd(data@, stsd) == describes_aimd(
                data@,
                stsd.payload + 8,
                stsd.end as int,
                count as int,
            ),
        decreases left,
    {
        let size: u32 = read_u32(data, cursor)?;
        let end: usize = match cursor.checked_add(size as usize) {
            Some(end) => end,
            None => {
                return Err(Mp4Error::InvalidStsdEntry);
            },
        };
        if size < 8 || end > stsd.end {
            return Err(Mp4Error::InvalidStsdEntry);
        }
        if data.len() < 8 || cursor > data.len() - 8 {
            return Err(Mp4Error::OutOfBounds);
        }
        let kind = [data[cursor + 4], data[cursor + 5], data[cursor + 6], data[cursor + 7]];
        proof {
            reveal(kind_at);
        }
        if same_kind(&kind, &AIMD) {
            return Ok(true);
        }
        cursor = end;
        left -= 1;
    }
    Ok(false)
}

/// Finds the first chunk offset table, of either width.
fn find_offset_table(atoms: &Vec<Atom>) -> (found: Option<Atom>)
    ensures
        found == first_offset_table(atoms@),
{
    let mut index: usize = 0;
    proof {
        assert(atoms@.skip(0) =~= atoms@);
    }
    while index < atoms.len()
        invariant
            index <= atoms@.len(),
            first_offset_table(atoms@) == first_offset_table(atoms@.skip(index as int)),
        decreases atoms@.len() - index,
    {
        if same_kind(&atoms[index].kind, &STCO) || same_kind(&atoms[index].kind, &CO64) {
            return Some(atoms[index]);
        }
        proof {
            assert(atoms@.skip(index as int).drop_first() =~= atoms@.skip(index + 1));
        }
        index += 1;
    }
    None
}

/// Reads the chunk offsets that a table lists.
fn read_chunk_offsets(data: &[u8], table: Atom) -> (result: Result<Vec<usize>, Mp4Error>)
    ensures
        lists(result, chunk_offsets(data@, table)),
{
    let count: u32 = read_u32_after(data, table.payload, 4)?;
    let narrow = same_kind(&table.kind, &STCO);
    let mut offsets: Vec<usize> = Vec::new();
    let mut index: u32 = 0;
    let ghost read = offset_reader(data@, table);
    while index < count
        invariant
            index <= count,
            narrow == (table.kind == STCO),
            read == offset_reader(data@, table),
            collect(index as int, read) == Ok::<Seq<usize>, Mp4Error>(offsets@),
            chunk_offsets(data@, table) == collect(count as int, read),
        decreases count - index,
    {
        let offset: u64 = if narrow {
            match read_u32_entry(data, table.payload, 8, index as usize, 4) {
                Ok(offset) => offset as u64,
                Err(error) => {
                    proof {
                        assert(read(index as int) is Err);
                        lemma_collect_error(index + 1, count as int, read);
                    }
                    return Err(error);
                },
            }
        } else {
            match read_u64_entry(data, table.payload, 8, index as usize, 8) {
                Ok(offset) => offset,
                Err(error) => {
                    proof {
                        assert(read(index as int) is Err);
                        lemma_collect_error(index + 1, count as int, read);
                    }
                    return Err(error);
                },
            }
        };
        if offset > usize::MAX as u64 {
            proof {
                assert(read(index as int) is Err);
                lemma_collect_error(index + 1, count as int, read);
            }
            return Err(Mp4Error::ChunkOffsetTooLarge);
        }
        proof {
            assert(read(index as int) == Ok::<usize, Mp4Error>(offset as usize));
        }
        offsets.push(offset as usize);
        index += 1;
    }
    Ok(offsets)
}

/// Reads a sample-to-chunk table.
fn read_stsc_entries(data: &[u8], stsc: Atom) -> (result: Result<Vec<(u32, u32)>, Mp4Error>)
    ensures
        lists(result, stsc_entries(data@, stsc)),
{
    let count: u32 = read_u32_after(data, stsc.payload, 4)?;
    let mut entries: Vec<(u32, u32)> = Vec::new();
    let mut index: u32 = 0;
    let ghost read = stsc_reader(data@, stsc);
    while index < count
        invariant
            index <= count,
            read == stsc_reader(data@, stsc),
            read32(data@, stsc.payload + 4) == Ok::<u32, Mp4Error>(count),
            collect(index as int, read) == Ok::<Seq<(u32, u32)>, Mp4Error>(entries@),
        decreases count - index,
    {
        let first_chunk: u32 = match read_u32_entry(data, stsc.payload, 8, index as usize, 12) {
            Ok(first_chunk) => first_chunk,
            Err(error) => {
                proof {
                    assert(read(index as int) is Err);
                    lemma_collect_error(index + 1, count as int, read);
                }
                return Err(error);
            },
        };
        let samples: u32 = match read_u32_entry(data, stsc.payload, 12, index as usize, 12) {
            Ok(samples) => samples,
            Err(error) => {
                proof {
                    assert(read(index as int) is Err);
                    lemma_collect_error(index + 1, count as int, read);
                }
                return Err(error);
            },
        };
        proof {
            assert(read(index as int) == Ok::<(u32, u32), Mp4Error>((first_chunk, samples)));
        }
        entries.push((first_chunk, samples));
        index += 1;
    }
    if count == 0 {
        return Err(Mp4Error::NoStscEntries);
    }
    Ok(entries)
}

/// Reads the first `count` entries of a sample size table.
fn read_sample_sizes(data: &[u8], stsz: Atom, count: u32) -> (result: Result<Vec<u32>, Mp4Error>)
    ensures
        lists(result, collect(count as int, size_reader(data@, stsz))),
{
    let mut sizes: Vec<u32> = Vec::new();
    let mut index: u32 = 0;
    let ghost read = size_reader(data@, stsz);
    while index < count
        invariant
            index <= count,
            read == size_reader(data@, stsz),
            collect(index as int, read) == Ok::<Seq<u32>, Mp4Error>(sizes@),
        decreases count - index,
    {
        let size: u32 = match read_u32_entry(data, stsz.payload, 12, index as usize, 4) {
            Ok(size) => size,
            Err(error) => {
                proof {
                    assert(read(index as int) is Err);
                    lemma_collect_error(index + 1, count as int, read);
                }
                return Err(error);
            },
        };
        proof {
            assert(read(index as int) == Ok::<u32, Mp4Error>(size));
        }
        sizes.push(size);
        index += 1;
    }
    Ok(sizes)
}

/// The number of samples in a chunk.
fn find_samples(entries: &Vec<(u32, u32)>, chunk: u32) -> (found: Option<u32>)
    ensures
        found == samples_in_chunk(entries@, chunk as int),
{
    let mut left: usize = entries.len();
    proof {
        assert(entries@.take(left as int) =~= entries@);
    }
    while left > 0
        invariant
            left <= entries@.len(),
            samples_in_chunk(entries@, chunk as int) == samples_in_chunk(
                entries@.take(left as int),
                chunk as int,
            ),
        decreases left,
    {
        let entry = entries[left - 1];
        proof {
            assert(entries@.take(left as int).last() == entry);
            assert(entries@.take(left as int).drop_last() =~= entries@.take(left - 1));
        }
        if entry.0 <= chunk {
            return Some(entry.1);
        }
        left -= 1;
    }
    None
}

proof fn lemma_total_grows(sizes: Seq<u32>, count: int)
    requires
        0 <= count <= sizes.len(),
    ensures
        0 <= total(sizes.take(count)) <= total(sizes),
    decreases sizes.len() - count,
{
    lemma_total_nonnegative(sizes.take(count));
    if count < sizes.len() {
        lemma_total_grows(sizes, count + 1);
        assert(sizes.take(count + 1).drop_last() =~= sizes.take(count));
    } else {
        assert(sizes.take(count) =~= sizes);
    }
}

pub proof fn lemma_total_nonnegative(sizes: Seq<u32>)
    ensures
        0 <= total(sizes),
    decreases sizes.len(),
{
    if sizes.len() > 0 {
        lemma_total_nonnegative(sizes.drop_last());
    }
}

/// The sum of the sample sizes from `from` to `to`, if it can be represented.
fn sum_sizes(sizes: &Vec<u32>, from: usize, to: usize) -> (sum: Option<usize>)
    requires
        from <= to <= sizes@.len(),
    ensures
        ({
            let exact = total(sizes@.subrange(from as int, to as int));
            sum == if exact > usize::MAX {
                None::<usize>
            } else {
                Some(exact as usize)
            }
        }),
{
    let ghost range = sizes@.subrange(from as int, to as int);
    let mut sum: usize = 0;
    let mut index: usize = from;
    while index < to
        invariant
            from <= index <= to <= sizes@.len(),
            range == sizes@.subrange(from as int, to as int),
            sum == total(range.take(index - from)),
        decreases to - index,
    {
        proof {
            assert(range.take(index - from + 1).drop_last() =~= range.take(index - from));
            lemma_total_grows(range, index - from + 1);
        }
        sum = match sum.checked_add(sizes[index] as usize) {
            Some(sum) => sum,
            None => {
                return None;
            },
        };
        index += 1;
    }
    proof {
        assert(range.take(to - from) =~= range);
        lemma_total_nonnegative(range);
    }
    Some(sum)
}

pub proof fn lemma_collect_len<T>(count: int, read: spec_fn(int) -> Result<T, Mp4Error>)
    requires
        0 <= count,
        collect(count, read) is Ok,
    ensures
        collect(count, read)->Ok_0.len() == count,
    decreases count,
{
    if count > 0 {
        lemma_collect_len(count - 1, read);
    }
}

pub proof fn lemma_layout_error(tables: SampleTables, some: int, all: int)
    requires
        some <= all,
        chunk_layout(tables, some) is Err,
    ensures
        chunk_layout(tables, all) == chunk_layout(tables, some),
    decreases all - some,
{
    if some < all {
        lemma_layout_error(tables, some, all - 1);
    }
}

/// The size of the chunk that starts with sample number `first` and holds `samples` samples.
fn size_chunk(
    default_size: u32,
    sizes: &Vec<u32>,
    first: u64,
    samples: u32,
    Ghost(tables): Ghost<SampleTables>,
) -> (result: Result<usize, Mp4Error>)
    requires
        tables.default_size == default_size,
        tables.sizes == sizes@,
        first + samples <= u64::MAX,
    ensures
        result == chunk_size(tables, first as int, samples),
{
    if default_size != 0 {
        return match (samples as usize).checked_mul(default_size as usize) {
            Some(size) => Ok(size),
            None => Err(Mp4Error::ChunkSizeOverflow),
        };
    }
    let end: u64 = first + samples as u64;
    if end > usize::MAX as u64 {
        return Err(Mp4Error::SampleIndexOverflow);
    }
    if end as usize > sizes.len() {
        return Err(Mp4Error::SampleCountMismatch);
    }
    match sum_sizes(sizes, first as usize, end as usize) {
        Some(size) => Ok(size),
        None => Err(Mp4Error::ChunkSizeOverflow),
    }
}

/// Reads the offset and size of each chunk of a sample table atom.
pub fn track_chunks(data: &[u8], stbl: Atom) -> (result: Result<Vec<(usize, usize)>, Mp4Error>)
    ensures
        lists(result, chunks_of(data@, stbl)),
{
    let stsc = child(data, stbl, &STSC)?;
    let stsz = child(data, stbl, &STSZ)?;
    let atoms = parse_atoms(data, stbl.payload, stbl.end)?;
    let table = match find_offset_table(&atoms) {
        Some(table) => table,
        None => {
            return Err(Mp4Error::NoChunkOffsets);
        },
    };
    let offsets = read_chunk_offsets(data, table)?;
    let entries = read_stsc_entries(data, stsc)?;
    let default_size: u32 = read_u32_after(data, stsz.payload, 4)?;
    let sample_count: u32 = read_u32_after(data, stsz.payload, 8)?;
    let sizes = read_sample_sizes(
        data,
        stsz,
        if default_size == 0 {
            sample_count
        } else {
            0
        },
    )?;
    let ghost tables = SampleTables {
        offsets: offsets@,
        entries: entries@,
        default_size,
        sample_count,
        sizes: sizes@,
    };
    proof {
        assert(sample_tables(data@, stbl) == Ok::<SampleTables, Mp4Error>(tables));
        lemma_collect_len(
            read32(data@, table.payload + 4)->Ok_0 as int,
            offset_reader(data@, table),
        );
    }
    let mut chunks: Vec<(usize, usize)> = Vec::new();
    let mut first: u64 = 0;
    let mut index: usize = 0;
    while index < offsets.len()
        invariant
            index <= offsets@.len() <= u32::MAX,
            tables == (SampleTables {
                offsets: offsets@,
                entries: entries@,
                default_size,
                sample_count,
                sizes: sizes@,
            }),
            chunks_of(data@, stbl) == chunks_from(tables),
            chunk_layout(tables, index as int) == Ok::<(Seq<(usize, usize)>, int), Mp4Error>(
                (chunks@, first as int),
            ),
            first <= index * 0xffff_ffff,
        decreases offsets@.len() - index,
    {
        let samples: u32 = match find_samples(&entries, (index + 1) as u32) {
            Some(samples) => samples,
            None => {
                proof {
                    lemma_layout_error(tables, index + 1, offsets@.len() as int);
                }
                return Err(Mp4Error::ChunksNotCovered);
            },
        };
        let size: usize = match size_chunk(default_size, &sizes, first, samples, Ghost(tables)) {
            Ok(size) => size,
            Err(error) => {
                proof {
                    lemma_layout_error(tables, index + 1, offsets@.len() as int);
                }
                return Err(error);
            },
        };
        chunks.push((offsets[index], size));
        first += samples as u64;
        index += 1;
    }
    if first != sample_count as u64 {
        return Err(Mp4Error::SampleCountMismatch);
    }
    Ok(chunks)
}

/// Finds the sample table atom of a track.
fn find_sample_table(data: &[u8], track: Atom) -> (result: Result<Atom, Mp4Error>)
    ensures
        result == sample_table_of(data@, track),
{
    let mdia = child(data, track, &MDIA)?;
    let minf = child(data, mdia, &MINF)?;
    child(data, minf, &STBL)
}

/// Finds the first telemetry track of a movie.
pub fn find_aimd_track(data: &[u8], moov: Atom) -> (result: Result<AimdTrack, Mp4Error>)
    ensures
        match result {
            Ok(track) => aimd_track_of(data@, moov) == Ok::<
                (Atom, Seq<(usize, usize)>),
                Mp4Error,
            >((track.atom, track.chunks@)),
            Err(error) => aimd_track_of(data@, moov) == Err::<
                (Atom, Seq<(usize, usize)>),
                Mp4Error,
            >(error),
        },
{
    let atoms = parse_atoms(data, moov.payload, moov.end)?;
    let mut index: usize = 0;
    proof {
        assert(atoms@.skip(0) =~= atoms@);
    }
    while index < atoms.len()
        invariant
            index <= atoms@.len(),
            aimd_track_of(data@, moov) == first_aimd(data@, atoms@.skip(index as int)),
        decreases atoms@.len() - index,
    {
        let track = atoms[index];
        proof {
            assert(atoms@.skip(index as int)[0] == track);
            assert(atoms@.skip(index as int).drop_first() =~= atoms@.skip(index + 1));
        }
        if same_kind(&track.kind, &TRAK) {
            let stbl = find_sample_table(data, track)?;
            let stsd = child(data, stbl, &STSD)?;
            if stsd_is_aimd(data, stsd)? {
                let chunks = track_chunks(data, stbl)?;
                return Ok(AimdTrack { atom: track, chunks });
            }
        }
        index += 1;
    }
    Err(Mp4Error::NoAimdTrack)
}

/// Where the track ID lies in the content of a track header whose first byte is `version`.
pub open spec fn track_id_place(version: u8) -> int {
    if version == 1 {
        20
    } else {
        12
    }
}

/// The ID in a track header.
pub open spec fn header_track_id(data: Seq<u8>, tkhd: Atom) -> Result<u32, Mp4Error> {
    if tkhd.payload >= data.len() {
        Err(Mp4Error::OutOfBounds)
    } else {
        read32(data, tkhd.payload + track_id_place(data[tkhd.payload as int]))
    }
}

/// The IDs of the tracks among some atoms; a track without a readable header has none.
pub open spec fn ids_among(data: Seq<u8>, atoms: Seq<Atom>) -> Result<Seq<u32>, Mp4Error>
    decreases atoms.len(),
{
    if atoms.len() == 0 {
        Ok(Seq::empty())
    } else {
        match ids_among(data, atoms.drop_last()) {
            Err(error) => Err(error),
            Ok(ids) => if atoms.last().kind != TRAK {
                Ok(ids)
            } else {
                match child_of(data, atoms.last(), TKHD) {
                    Err(_) => Ok(ids),
                    Ok(tkhd) => match header_track_id(data, tkhd) {
                        Err(error) => Err(error),
                        Ok(id) => Ok(ids.push(id)),
                    },
                }
            },
        }
    }
}

/// The IDs of the tracks of a movie.
pub open spec fn track_ids_of(data: Seq<u8>, moov: Atom) -> Result<Seq<u32>, Mp4Error> {
    match atoms_in(data, moov.payload as int, moov.end as int) {
        Err(error) => Err(error),
        Ok(atoms) => ids_among(data, atoms),
    }
}

proof fn lemma_ids_error(data: Seq<u8>, atoms: Seq<Atom>, some: int)
    requires
        0 <= some <= atoms.len(),
        ids_among(data, atoms.take(some)) is Err,
    ensures
        ids_among(data, atoms) == ids_among(data, atoms.take(some)),
    decreases atoms.len() - some,
{
    if some < atoms.len() {
        assert(atoms.take(some + 1).drop_last() =~= atoms.take(some));
        lemma_ids_error(data, atoms, some + 1);
    } else {
        assert(atoms.take(some) =~= atoms);
    }
}

/// Reads the IDs of the tracks of a movie.
pub fn track_ids(data: &[u8], moov: Atom) -> (result: Result<Vec<u32>, Mp4Error>)
    ensures
        lists(result, track_ids_of(data@, moov)),
{
    let atoms = parse_atoms(data, moov.payload, moov.end)?;
    let mut ids: Vec<u32> = Vec::new();
    let mut index: usize = 0;
    while index < atoms.len()
        invariant
            index <= atoms@.len(),
            track_ids_of(data@, moov) == ids_among(data@, atoms@),
            ids_among(data@, atoms@.take(index as int)) == Ok::<Seq<u32>, Mp4Error>(ids@),
        decreases atoms@.len() - index,
    {
        let track = atoms[index];
        proof {
            assert(atoms@.take(index + 1).drop_last() =~= atoms@.take(index as int));
            assert(atoms@.take(index + 1).last() == track);
        }
        if same_kind(&track.kind, &TRAK) {
            match child(data, track, &TKHD) {
                Ok(tkhd) => match read_track_id(data, tkhd) {
                    Ok(id) => {
                        ids.push(id);
                    },
                    Err(error) => {
                        proof {
                            lemma_ids_error(data@, atoms@, index + 1);
                        }
                        return Err(error);
                    },
                },
                Err(_) => {},
            }
        }
        index += 1;
    }
    proof {
        assert(atoms@.take(index as int) =~= atoms@);
    }
    Ok(ids)
}

/// Reads the ID in a track header.
fn read_track_id(data: &[u8], tkhd: Atom) -> (result: Result<u32, Mp4Error>)
    ensures
        result == header_track_id(data@, tkhd),
{
    if tkhd.payload >= data.len() {
        return Err(Mp4Error::OutOfBounds);
    }
    let place: usize = if data[tkhd.payload] == 1 {
        20
    } else {
        12
    };
    read_u32_after(data, tkhd.payload, place)
}

/// The size of all samples together.
pub open spec fn samples_size(tables: SampleTables) -> int {
    if tables.default_size != 0 {
        tables.sample_count * tables.default_size
    } else {
        total(tables.sizes)
    }
}

/// The size of some chunks together.
pub open spec fn chunks_size(chunks: Seq<(usize, usize)>) -> int
    decreases chunks.len(),
{
    if chunks.len() == 0 {
        0
    } else {
        chunks_size(chunks.drop_last()) + chunks.last().1
    }
}

proof fn lemma_total_parts(sizes: Seq<u32>, first: int, count: int)
    requires
        0 <= first,
        0 <= count,
        first + count <= sizes.len(),
    ensures
        total(sizes.take(first + count)) == total(sizes.take(first)) + total(
            sizes.subrange(first, first + count),
        ),
    decreases count,
{
    if count > 0 {
        lemma_total_parts(sizes, first, count - 1);
        assert(sizes.take(first + count).drop_last() =~= sizes.take(first + count - 1));
        assert(sizes.subrange(first, first + count).drop_last() =~= sizes.subrange(
            first,
            first + count - 1,
        ));
    } else {
        assert(sizes.subrange(first, first) =~= Seq::<u32>::empty());
    }
}

proof fn lemma_layout_accounts(tables: SampleTables, count: int)
    requires
        0 <= count <= tables.offsets.len(),
        chunk_layout(tables, count) is Ok,
    ensures
        ({
            let (chunks, samples) = chunk_layout(tables, count)->Ok_0;
            &&& chunks.len() == count
            &&& 0 <= samples
            &&& forall|i: int| 0 <= i < count ==> (#[trigger] chunks[i]).0 == tables.offsets[i]
            &&& tables.default_size != 0 ==> chunks_size(chunks) == samples * tables.default_size
            &&& tables.default_size == 0 ==> samples <= tables.sizes.len() && chunks_size(chunks)
                == total(tables.sizes.take(samples))
        }),
    decreases count,
{
    let (chunks, samples) = chunk_layout(tables, count)->Ok_0;
    if count > 0 {
        lemma_layout_accounts(tables, count - 1);
        let (front, first) = chunk_layout(tables, count - 1)->Ok_0;
        let added = samples_in_chunk(tables.entries, count)->0;
        assert(chunks.drop_last() =~= front);
        assert(samples == first + added);
        if tables.default_size == 0 {
            lemma_total_parts(tables.sizes, first, added as int);
            lemma_total_nonnegative(tables.sizes.subrange(first, first + added));
        } else {
            assert(samples * tables.default_size == first * tables.default_size + added
                * tables.default_size) by (nonlinear_arith)
                requires
                    samples == first + added,
            ;
            assert(0 <= added * tables.default_size) by (nonlinear_arith)
                requires
                    0 <= added,
                    0 <= tables.default_size,
            ;
        }
    } else {
        assert(tables.sizes.take(0) =~= Seq::<u32>::empty());
        assert(0 * tables.default_size == 0) by (nonlinear_arith);
    }
}

/// The chunks of a track hold all of its samples: there is one chunk for each offset, at that
/// offset, and together they are as large as the samples.
pub proof fn law_chunks_account(data: Seq<u8>, stbl: Atom)
    requires
        chunks_of(data, stbl) is Ok,
    ensures
        ({
            let tables = sample_tables(data, stbl)->Ok_0;
            let chunks = chunks_of(data, stbl)->Ok_0;
            &&& sample_tables(data, stbl) is Ok
            &&& chunks.len() == tables.offsets.len()
            &&& forall|i: int|
                0 <= i < chunks.len() ==> (#[trigger] chunks[i]).0 == tables.offsets[i]
            &&& chunks_size(chunks) == samples_size(tables)
        }),
{
    let tables = sample_tables(data, stbl)->Ok_0;
    let stsz = child_of(data, stbl, STSZ)->Ok_0;
    if tables.default_size == 0 {
        lemma_collect_len(tables.sample_count as int, size_reader(data, stsz));
    }
    lemma_layout_accounts(tables, tables.offsets.len() as int);
    assert(tables.sizes.take(tables.sizes.len() as int) =~= tables.sizes);
}

} // verus!
