//! Big-endian integers inside a byte buffer.

use crate::error::Mp4Error;
use vstd::prelude::*;

verus! {

/// The 32-bit big-endian integer in the four bytes from `at` on.
#[verifier::opaque]
pub open spec fn be32(data: Seq<u8>, at: int) -> u32 {
    (data[at] * 0x100_0000 + data[at + 1] * 0x1_0000 + data[at + 2] * 0x100 + data[at + 3]) as u32
}

/// The 64-bit big-endian integer in the eight bytes from `at` on.
#[verifier::opaque]
pub open spec fn be64(data: Seq<u8>, at: int) -> u64 {
    (be32(data, at) * 0x1_0000_0000 + be32(data, at + 4)) as u64
}

/// The four bytes from `at` on, as an atom type.
#[verifier::opaque]
pub open spec fn kind_at(data: Seq<u8>, at: int) -> [u8; 4] {
    [data[at], data[at + 1], data[at + 2], data[at + 3]]
}

/// The four bytes of a 32-bit integer, most significant first.
pub open spec fn be32_bytes(value: u32) -> Seq<u8> {
    seq![
        (value / 0x100_0000) as u8,
        (value / 0x1_0000 % 0x100) as u8,
        (value / 0x100 % 0x100) as u8,
        (value % 0x100) as u8,
    ]
}

/// The eight bytes of a 64-bit integer, most significant first.
pub open spec fn be64_bytes(value: u64) -> Seq<u8> {
    be32_bytes((value / 0x1_0000_0000) as u32) + be32_bytes((value % 0x1_0000_0000) as u32)
}

/// `data` with the bytes from `at` on replaced by `bytes`.
pub open spec fn overwrite(data: Seq<u8>, at: int, bytes: Seq<u8>) -> Seq<u8> {
    data.subrange(0, at) + bytes + data.subrange(at + bytes.len(), data.len() as int)
}

/// What reading a 32-bit integer at `at` gives.
pub open spec fn read32(data: Seq<u8>, at: int) -> Result<u32, Mp4Error> {
    if at + 4 <= data.len() {
        Ok(be32(data, at))
    } else {
        Err(Mp4Error::TruncatedInteger)
    }
}

/// What reading a 64-bit integer at `at` gives.
pub open spec fn read64(data: Seq<u8>, at: int) -> Result<u64, Mp4Error> {
    if at + 8 <= data.len() {
        Ok(be64(data, at))
    } else {
        Err(Mp4Error::TruncatedInteger)
    }
}

/// Writing a 32-bit integer and reading it back gives the integer.
pub proof fn law_u32_read_back(data: Seq<u8>, at: int, value: u32)
    requires
        0 <= at,
        at + 4 <= data.len(),
    ensures
        be32(overwrite(data, at, be32_bytes(value)), at) == value,
{
    reveal(be32);
    let new = overwrite(data, at, be32_bytes(value));
    assert(new[at] == be32_bytes(value)[0]);
    assert(new[at + 1] == be32_bytes(value)[1]);
    assert(new[at + 2] == be32_bytes(value)[2]);
    assert(new[at + 3] == be32_bytes(value)[3]);
}

/// Writing a 64-bit integer and reading it back gives the integer.
pub proof fn law_u64_read_back(data: Seq<u8>, at: int, value: u64)
    requires
        0 <= at,
        at + 8 <= data.len(),
    ensures
        be64(overwrite(data, at, be64_bytes(value)), at) == value,
{
    reveal(be64);
    let new = overwrite(data, at, be64_bytes(value));
    let high = (value / 0x1_0000_0000) as u32;
    let low = (value % 0x1_0000_0000) as u32;
    let middle = overwrite(data, at, be32_bytes(high));
    assert(new =~= overwrite(middle, at + 4, be32_bytes(low)));
    law_u32_read_back(data, at, high);
    law_u32_read_back(middle, at + 4, low);
    assert forall|i: int| at <= i < at + 4 implies new[i] == middle[i] by {}
    assert(be32(new, at) == be32(middle, at)) by {
        reveal(be32);
    }
}

/// An integer is read most significant byte first: byte `i` of the four is digit `3 - i` of the
/// integer in base 256.
pub proof fn law_u32_digits(data: Seq<u8>, at: int)
    ensures
        data[at] == be32(data, at) / 0x100_0000,
        data[at + 1] == be32(data, at) / 0x1_0000 % 0x100,
        data[at + 2] == be32(data, at) / 0x100 % 0x100,
        data[at + 3] == be32(data, at) % 0x100,
{
    reveal(be32);
}

/// A 64-bit integer is read as two integers of 32 bits, the more significant first.
pub proof fn law_u64_halves(data: Seq<u8>, at: int)
    ensures
        be64(data, at) / 0x1_0000_0000 == be32(data, at),
        be64(data, at) % 0x1_0000_0000 == be32(data, at + 4),
{
    reveal(be64);
}

/// The bytes of an atom type stand in the order in which they are read.
pub proof fn law_kind_bytes(data: Seq<u8>, at: int)
    ensures
        kind_at(data, at)@ == seq![data[at], data[at + 1], data[at + 2], data[at + 3]],
{
    reveal(kind_at);
    assert(kind_at(data, at)@ =~= seq![data[at], data[at + 1], data[at + 2], data[at + 3]]);
}

/// Replacing bytes changes these bytes alone, and moves none.
pub proof fn law_overwritten(data: Seq<u8>, at: int, bytes: Seq<u8>)
    requires
        0 <= at,
        at + bytes.len() <= data.len(),
    ensures
        ({
            let after = overwrite(data, at, bytes);
            &&& after.len() == data.len()
            &&& forall|i: int| at <= i < at + bytes.len() ==> #[trigger] after[i] == bytes[i - at]
            &&& forall|i: int|
                0 <= i < at || at + bytes.len() <= i < data.len() ==> #[trigger] after[i] == data[i]
        }),
{
}

/// An integer is read where all of its bytes are there, and nowhere else.
pub proof fn law_integers_there(data: Seq<u8>, at: int)
    ensures
        read32(data, at) == if at + 4 <= data.len() {
            Ok::<u32, Mp4Error>(be32(data, at))
        } else {
            Err::<u32, Mp4Error>(Mp4Error::TruncatedInteger)
        },
        read64(data, at) == if at + 8 <= data.len() {
            Ok::<u64, Mp4Error>(be64(data, at))
        } else {
            Err::<u64, Mp4Error>(Mp4Error::TruncatedInteger)
        },
{
}

/// Reads the 32-bit big-endian integer at `offset`.
pub fn read_u32(data: &[u8], offset: usize) -> (result: Result<u32, Mp4Error>)
    ensures
        result == read32(data@, offset as int),
{
    let len: usize = data.len();
    if len < 4 || offset > len - 4 {
        return Err(Mp4Error::TruncatedInteger);
    }
    proof {
        reveal(be32);
    }
    Ok(
        data[offset] as u32 * 0x100_0000 + data[offset + 1] as u32 * 0x1_0000
            + data[offset + 2] as u32 * 0x100 + data[offset + 3] as u32,
    )
}

/// Reads the 64-bit big-endian integer at `offset`.
pub fn read_u64(data: &[u8], offset: usize) -> (result: Result<u64, Mp4Error>)
    ensures
        result == read64(data@, offset as int),
{
    let len: usize = data.len();
    if len < 8 || offset > len - 8 {
        return Err(Mp4Error::TruncatedInteger);
    }
    let high: u32 = read_u32(data, offset)?;
    let low: u32 = read_u32(data, offset + 4)?;
    proof {
        reveal(be64);
    }
    Ok(high as u64 * 0x1_0000_0000 + low as u64)
}

/// Writes a 32-bit big-endian integer at `offset`.
pub fn write_u32(data: &mut [u8], offset: usize, value: u32) -> (result: Result<(), Mp4Error>)
    ensures
        offset + 4 <= old(data)@.len() ==> result == Ok::<(), Mp4Error>(()) && final(data)@
            == overwrite(old(data)@, offset as int, be32_bytes(value)),
        offset + 4 > old(data)@.len() ==> result == Err::<(), Mp4Error>(Mp4Error::TruncatedInteger)
            && final(data)@ == old(data)@,
{
    let len: usize = data.len();
    if len < 4 || offset > len - 4 {
        return Err(Mp4Error::TruncatedInteger);
    }
    data[offset] = (value / 0x100_0000) as u8;
    data[offset + 1] = (value / 0x1_0000 % 0x100) as u8;
    data[offset + 2] = (value / 0x100 % 0x100) as u8;
    data[offset + 3] = (value % 0x100) as u8;
    proof {
        assert(data@ =~= overwrite(old(data)@, offset as int, be32_bytes(value)));
    }
    Ok(())
}

/// Writes a 64-bit big-endian integer at `offset`.
pub fn write_u64(data: &mut [u8], offset: usize, value: u64) -> (result: Result<(), Mp4Error>)
    ensures
        offset + 8 <= old(data)@.len() ==> result == Ok::<(), Mp4Error>(()) && final(data)@
            == overwrite(old(data)@, offset as int, be64_bytes(value)),
        offset + 8 > old(data)@.len() ==> result == Err::<(), Mp4Error>(Mp4Error::TruncatedInteger)
            && final(data)@ == old(data)@,
{
    let len: usize = data.len();
    if len < 8 || offset > len - 8 {
        return Err(Mp4Error::TruncatedInteger);
    }
    let high: u32 = (value / 0x1_0000_0000) as u32;
    let low: u32 = (value % 0x1_0000_0000) as u32;
    let _ = write_u32(data, offset, high);
    let _ = write_u32(data, offset + 4, low);
    proof {
        assert(data@ =~= overwrite(old(data)@, offset as int, be64_bytes(value)));
    }
    Ok(())
}

/// The place of entry `index` of a table whose entries are `width` bytes each and start `skip`
/// bytes after `base`; the largest address stands for everything past it.
pub fn entry_place(base: usize, skip: usize, index: usize, width: usize) -> (place: usize)
    ensures
        base + skip + index * width <= usize::MAX ==> place == base + skip + index * width,
        base + skip + index * width > usize::MAX ==> place == usize::MAX,
{
    match index.checked_mul(width) {
        Some(distance) => match distance.checked_add(skip) {
            Some(distance) => base.saturating_add(distance),
            None => usize::MAX,
        },
        None => usize::MAX,
    }
}

/// Reads a 32-bit integer `distance` bytes after `base`.
pub fn read_u32_after(data: &[u8], base: usize, distance: usize) -> (result: Result<u32, Mp4Error>)
    ensures
        result == read32(data@, base + distance),
{
    proof {
        assert(data@.len() == data.len());
    }
    read_u32(data, base.saturating_add(distance))
}

/// Reads a 32-bit integer out of entry `index` of a table.
pub fn read_u32_entry(data: &[u8], base: usize, skip: usize, index: usize, width: usize) -> (result:
    Result<u32, Mp4Error>)
    ensures
        result == read32(data@, base + skip + index * width),
{
    proof {
        assert(data@.len() == data.len());
    }
    read_u32(data, entry_place(base, skip, index, width))
}

/// Reads a 64-bit integer out of entry `index` of a table.
pub fn read_u64_entry(data: &[u8], base: usize, skip: usize, index: usize, width: usize) -> (result:
    Result<u64, Mp4Error>)
    ensures
        result == read64(data@, base + skip + index * width),
{
    proof {
        assert(data@.len() == data.len());
    }
    read_u64(data, entry_place(base, skip, index, width))
}

/// Whether two atom types are the same.
pub fn same_kind(left: &[u8; 4], right: &[u8; 4]) -> (same: bool)
    ensures
        same == (*left == *right),
{
    let same = left[0] == right[0] && left[1] == right[1] && left[2] == right[2] && left[3]
        == right[3];
    proof {
        if same {
            assert(*left =~= *right);
        }
    }
    same
}

} // verus!
