//! Big-endian field readers over byte slices.
use vstd::prelude::*;
use crate::error::{DecoderError, ErrorKind, outcome_matches};

verus! {

/// The big-endian unsigned integer in `bytes[offset..offset + count]`.
pub open spec fn be_uint(bytes: Seq<u8>, offset: int, count: nat) -> int
    decreases count,
{
    if count == 0 {
        0
    } else {
        be_uint(bytes, offset, (count - 1) as nat) * 256 + bytes[offset + count - 1] as int
    }
}

/// `count` bytes are available at `offset`.
pub open spec fn fits(bytes: Seq<u8>, offset: int, count: int) -> bool {
    0 <= offset && offset + count <= bytes.len()
}

/// The outcome of reading a big-endian field of `count` bytes.
pub open spec fn be_read(bytes: Seq<u8>, offset: int, count: nat) -> Result<int, ErrorKind> {
    if fits(bytes, offset, count as int) {
        Ok(be_uint(bytes, offset, count))
    } else {
        Err(ErrorKind::NotEnoughData)
    }
}

pub proof fn lemma_be_uint_bounds(bytes: Seq<u8>, offset: int, count: nat)
    requires
        fits(bytes, offset, count as int),
    ensures
        0 <= be_uint(bytes, offset, count) < vstd::arithmetic::power2::pow2(8 * count),
    decreases count,
{
    vstd::arithmetic::power2::lemma2_to64();
    if count > 0 {
        lemma_be_uint_bounds(bytes, offset, (count - 1) as nat);
        let prev = be_uint(bytes, offset, (count - 1) as nat);
        let p = vstd::arithmetic::power2::pow2(8 * (count - 1) as nat);
        assert(vstd::arithmetic::power2::pow2(8 * count) == p * 256) by {
            vstd::arithmetic::power2::lemma_pow2_adds(8 * (count - 1) as nat, 8);
        }
        assert(prev * 256 + bytes[offset + count - 1] < p * 256) by (nonlinear_arith)
            requires
                0 <= prev < p,
                bytes[offset + count - 1] < 256,
        ;
    }
}

/// Reads one byte.
pub fn read_u8(data: &[u8], offset: usize) -> (result: Result<u8, DecoderError>)
    ensures
        match result {
            Ok(value) => fits(data@, offset as int, 1) && value == data@[offset as int],
            Err(error) => !fits(data@, offset as int, 1) && error.kind() == ErrorKind::NotEnoughData,
        },
{
    if offset < data.len() {
        Ok(data[offset])
    } else {
        Err(DecoderError::NotEnoughData("u8 is truncated".to_string()))
    }
}

/// Reads a big-endian `u16`.
pub fn read_u16(data: &[u8], offset: usize) -> (result: Result<u16, DecoderError>)
    requires
        offset + 2 <= usize::MAX,
    ensures
        match result {
            Ok(value) => fits(data@, offset as int, 2) && value == be_uint(data@, offset as int, 2),
            Err(error) => !fits(data@, offset as int, 2) && error.kind() == ErrorKind::NotEnoughData,
        },
{
    if offset + 2 <= data.len() {
        let value = data[offset] as u16 * 256 + data[offset + 1] as u16;
        assert(value == be_uint(data@, offset as int, 2)) by {
            reveal_with_fuel(be_uint, 3);
        }
        Ok(value)
    } else {
        Err(DecoderError::NotEnoughData("u16 is truncated".to_string()))
    }
}

/// Reads a big-endian 24-bit value.
pub fn read_u24(data: &[u8], offset: usize) -> (result: Result<u32, DecoderError>)
    requires
        offset + 3 <= usize::MAX,
    ensures
        match result {
            Ok(value) => fits(data@, offset as int, 3) && value == be_uint(data@, offset as int, 3),
            Err(error) => !fits(data@, offset as int, 3) && error.kind() == ErrorKind::NotEnoughData,
        },
{
    if offset + 3 <= data.len() {
        let value = data[offset] as u32 * 65536 + data[offset + 1] as u32 * 256 + data[offset + 2] as u32;
        assert(value == be_uint(data@, offset as int, 3)) by {
            reveal_with_fuel(be_uint, 4);
        }
        Ok(value)
    } else {
        Err(DecoderError::NotEnoughData("u24 is truncated".to_string()))
    }
}

/// Reads a big-endian `u32`.
pub fn read_u32(data: &[u8], offset: usize) -> (result: Result<u32, DecoderError>)
    requires
        offset + 4 <= usize::MAX,
    ensures
        match result {
            Ok(value) => fits(data@, offset as int, 4) && value == be_uint(data@, offset as int, 4),
            Err(error) => !fits(data@, offset as int, 4) && error.kind() == ErrorKind::NotEnoughData,
        },
{
    if offset + 4 <= data.len() {
        let value = data[offset] as u32 * 0x100_0000 + data[offset + 1] as u32 * 0x1_0000
            + data[offset + 2] as u32 * 0x100 + data[offset + 3] as u32;
        assert(value == be_uint(data@, offset as int, 4)) by {
            reveal_with_fuel(be_uint, 5);
        }
        Ok(value)
    } else {
        Err(DecoderError::NotEnoughData("u32 is truncated".to_string()))
    }
}

/// Reads a big-endian `u64`.
pub fn read_u64(data: &[u8], offset: usize) -> (result: Result<u64, DecoderError>)
    requires
        offset + 8 <= usize::MAX,
    ensures
        match result {
            Ok(value) => fits(data@, offset as int, 8) && value == be_uint(data@, offset as int, 8),
            Err(error) => !fits(data@, offset as int, 8) && error.kind() == ErrorKind::NotEnoughData,
        },
{
    if offset + 8 <= data.len() {
        let high = data[offset] as u64 * 0x100_0000 + data[offset + 1] as u64 * 0x1_0000
            + data[offset + 2] as u64 * 0x100 + data[offset + 3] as u64;
        let low = data[offset + 4] as u64 * 0x100_0000 + data[offset + 5] as u64 * 0x1_0000
            + data[offset + 6] as u64 * 0x100 + data[offset + 7] as u64;
        let value = high * 0x1_0000_0000 + low;
        assert(value == be_uint(data@, offset as int, 8)) by {
            reveal_with_fuel(be_uint, 9);
        }
        Ok(value)
    } else {
        Err(DecoderError::NotEnoughData("u64 is truncated".to_string()))
    }
}

/// Reads a four-character code.
pub fn read_fourcc(data: &[u8], offset: usize) -> (result: Result<[u8; 4], DecoderError>)
    requires
        offset + 4 <= usize::MAX,
    ensures
        match result {
            Ok(code) => fits(data@, offset as int, 4) && code@ == data@.subrange(offset as int, offset + 4),
            Err(error) => !fits(data@, offset as int, 4) && error.kind() == ErrorKind::NotEnoughData,
        },
{
    if offset + 4 <= data.len() {
        let code = [data[offset], data[offset + 1], data[offset + 2], data[offset + 3]];
        assert(code@ =~= data@.subrange(offset as int, offset + 4));
        Ok(code)
    } else {
        Err(DecoderError::NotEnoughData("fourcc is truncated".to_string()))
    }
}

/// `left + right`, or a bitstream error naming `label` when it overflows.
pub fn checked_add(left: usize, right: usize, label: &str) -> (result: Result<usize, DecoderError>)
    ensures
        match result {
            Ok(sum) => sum == left + right,
            Err(error) => left + right > usize::MAX && error.kind() == ErrorKind::Bitstream,
        },
{
    if left <= usize::MAX - right {
        Ok(left + right)
    } else {
        Err(DecoderError::Bitstream(crate::text::concat(label, " overflow")))
    }
}

/// Rejects a declared entry count whose minimum encoded size exceeds what remains.
pub fn validate_collection_count(
    count: usize,
    remaining_payload: usize,
    minimum_entry_size: usize,
    label: &str,
) -> (result: Result<(), DecoderError>)
    ensures
        match result {
            Ok(()) => count * minimum_entry_size <= remaining_payload,
            Err(error) => if count * minimum_entry_size > usize::MAX {
                error.kind() == ErrorKind::Bitstream
            } else {
                count * minimum_entry_size > remaining_payload && error.kind() == ErrorKind::NotEnoughData
            },
        },
{
    if minimum_entry_size != 0 && count > usize::MAX / minimum_entry_size {
        proof {
            assert(count * minimum_entry_size > usize::MAX) by (nonlinear_arith)
                requires
                    minimum_entry_size > 0,
                    count > usize::MAX / minimum_entry_size,
            ;
        }
        return Err(DecoderError::Bitstream(crate::text::concat(label, " count overflow")));
    }
    proof {
        if minimum_entry_size != 0 {
            assert(count * minimum_entry_size <= usize::MAX) by (nonlinear_arith)
                requires
                    minimum_entry_size > 0,
                    count <= usize::MAX / minimum_entry_size,
            ;
        }
    }
    let minimum_size = count * minimum_entry_size;
    if minimum_size > remaining_payload {
        return Err(DecoderError::NotEnoughData(
            crate::text::concat(label, " count exceeds the remaining payload"),
        ));
    }
    Ok(())
}

/// Accepts the integer field sizes of `iloc` (0, 4 or 8 bytes).
pub fn validate_field_size(size: u8, name: &str) -> (result: Result<(), DecoderError>)
    ensures
        result is Ok <==> (size == 0 || size == 4 || size == 8),
        result is Err ==> result->Err_0.kind() == ErrorKind::Unsupported,
{
    if size == 0 || size == 4 || size == 8 {
        Ok(())
    } else {
        let head = crate::text::concat(name, "=");
        Err(DecoderError::Unsupported(crate::text::concat(head.as_str(), crate::text::decimal(size as u64).as_str())))
    }
}

/// Reads an integer of 0, 4 or 8 bytes at `*cursor` and advances past it.
pub fn read_sized_int(data: &[u8], cursor: &mut usize, size: u8) -> (result: Result<u64, DecoderError>)
    requires
        *old(cursor) + 8 <= usize::MAX,
    ensures
        match result {
            Ok(value) => {
                &&& (size == 0 || size == 4 || size == 8)
                &&& (size == 0 || fits(data@, *old(cursor) as int, size as int))
                &&& value == be_uint(data@, *old(cursor) as int, size as nat)
                &&& *final(cursor) == *old(cursor) + size
            },
            Err(error) => {
                &&& (size == 4 || size == 8) ==> !fits(data@, *old(cursor) as int, size as int)
                    && error.kind() == ErrorKind::NotEnoughData
                &&& size != 0
                &&& !(size == 0 || size == 4 || size == 8) ==> error.kind() == ErrorKind::Unsupported
            },
        },
{
    if size == 0 {
        return Ok(0);
    }
    if size == 4 {
        let value = read_u32(data, *cursor)?;
        *cursor = *cursor + 4;
        return Ok(value as u64);
    }
    if size == 8 {
        let value = read_u64(data, *cursor)?;
        *cursor = *cursor + 8;
        return Ok(value);
    }
    Err(DecoderError::Unsupported(crate::text::concat("integer size ", crate::text::decimal(size as u64).as_str())))
}

/// Reads a 16-bit item ID, or a 32-bit one when `large_ids` is set, and advances past it.
pub fn read_item_id(payload: &[u8], cursor: &mut usize, large_ids: bool) -> (result: Result<u32, DecoderError>)
    requires
        *old(cursor) + 4 <= usize::MAX,
    ensures
        ({
            let width: nat = if large_ids { 4 } else { 2 };
            match result {
                Ok(value) => fits(payload@, *old(cursor) as int, width as int) && value == be_uint(
                    payload@,
                    *old(cursor) as int,
                    width,
                ) && *final(cursor) == *old(cursor) + width,
                Err(error) => !fits(payload@, *old(cursor) as int, width as int) && error.kind()
                    == ErrorKind::NotEnoughData,
            }
        }),
{
    if large_ids {
        let value = read_u32(payload, *cursor)?;
        *cursor = *cursor + 4;
        Ok(value)
    } else {
        let value = read_u16(payload, *cursor)?;
        *cursor = *cursor + 2;
        Ok(value as u32)
    }
}

} // verus!

verus! {

/// Byte counts that a parser can address, with room for bit positions and
/// offset arithmetic: at most `usize::MAX / 8`.
pub open spec fn addressable(len: int) -> bool {
    0 <= len <= usize::MAX / 8
}

} // verus!

verus! {

/// Some four consecutive bytes of `data` spell `code`.
pub open spec fn contains_code(data: Seq<u8>, code: Seq<u8>) -> bool {
    exists|i: int| 0 <= i && i + 4 <= data.len() && #[trigger] data.subrange(i, i + 4) == code
}

/// Whether some four consecutive bytes of `data` spell `code` (a byte scan, not a
/// parse: the code may sit anywhere).
pub fn contains_fourcc(data: &[u8], code: &[u8; 4]) -> (found: bool)
    ensures
        found == contains_code(data@, code@),
{
    let mut i: usize = 0;
    while 4 <= data.len() && i <= data.len() - 4
        invariant
            i <= data@.len(),
            forall|j: int| 0 <= j < i && j + 4 <= data@.len() ==> #[trigger] data@.subrange(j, j + 4) != code@,
        decreases data@.len() - i,
    {
        if data[i] == code[0] && data[i + 1] == code[1] && data[i + 2] == code[2] && data[i + 3] == code[3] {
            assert(data@.subrange(i as int, i + 4) =~= code@);
            return true;
        }
        assert(data@.subrange(i as int, i + 4) != code@) by {
            if data@.subrange(i as int, i + 4) == code@ {
                assert(data@.subrange(i as int, i + 4)[0] == code@[0]);
                assert(data@.subrange(i as int, i + 4)[1] == code@[1]);
                assert(data@.subrange(i as int, i + 4)[2] == code@[2]);
                assert(data@.subrange(i as int, i + 4)[3] == code@[3]);
            }
        }
        i = i + 1;
    }
    proof {
        assert forall|j: int| 0 <= j && j + 4 <= data@.len() implies #[trigger] data@.subrange(j, j + 4) != code@ by {
            assert(j < i);
        }
    }
    false
}

} // verus!
