//! Walking the OBUs (open bitstream units) of an AV1 sample: headers and payloads only.
use vstd::prelude::*;
use crate::error::{DecoderError, ErrorKind};

verus! {

/// The OBU types of the AV1 bitstream.
#[derive(Debug, Clone, Copy, PartialEq, Eq, Structural)]
pub enum ObuType {
    SequenceHeader,
    TemporalDelimiter,
    FrameHeader,
    TileGroup,
    Metadata,
    Frame,
    RedundantFrameHeader,
    TileList,
    Padding,
    Reserved(u8),
}

/// The OBU type named by a 4-bit `obu_type` code.
pub open spec fn obu_type_spec(code: u8) -> ObuType {
    if code == 1 {
        ObuType::SequenceHeader
    } else if code == 2 {
        ObuType::TemporalDelimiter
    } else if code == 3 {
        ObuType::FrameHeader
    } else if code == 4 {
        ObuType::TileGroup
    } else if code == 5 {
        ObuType::Metadata
    } else if code == 6 {
        ObuType::Frame
    } else if code == 7 {
        ObuType::RedundantFrameHeader
    } else if code == 8 {
        ObuType::TileList
    } else if code == 15 {
        ObuType::Padding
    } else {
        ObuType::Reserved(code)
    }
}

/// The OBU type named by a 4-bit `obu_type` code.
pub fn obu_type_from_code(code: u8) -> (obu_type: ObuType)
    ensures
        obu_type == obu_type_spec(code),
{
    if code == 1 {
        ObuType::SequenceHeader
    } else if code == 2 {
        ObuType::TemporalDelimiter
    } else if code == 3 {
        ObuType::FrameHeader
    } else if code == 4 {
        ObuType::TileGroup
    } else if code == 5 {
        ObuType::Metadata
    } else if code == 6 {
        ObuType::Frame
    } else if code == 7 {
        ObuType::RedundantFrameHeader
    } else if code == 8 {
        ObuType::TileList
    } else if code == 15 {
        ObuType::Padding
    } else {
        ObuType::Reserved(code)
    }
}

/// `part` is a run of consecutive bytes of `whole`.
pub open spec fn is_slice_of(part: Seq<u8>, whole: Seq<u8>) -> bool {
    exists|start: int|
        #![trigger whole.subrange(start, start + part.len())]
        0 <= start && start + part.len() <= whole.len() && part == whole.subrange(start, start + part.len())
}

/// One OBU: its type and payload bytes.
#[derive(Debug, Clone, PartialEq, Eq)]
pub struct Obu {
    pub obu_type: ObuType,
    pub payload: Vec<u8>,
}

/// The value of a LEB128 field of `count` bytes at `offset` (little-endian groups of
/// seven bits).
pub open spec fn leb128_value(data: Seq<u8>, offset: int, count: nat) -> int
    decreases count,
{
    if count == 0 {
        0
    } else {
        leb128_value(data, offset, (count - 1) as nat) + (data[offset + count - 1] % 128) as int
            * vstd::arithmetic::power2::pow2((7 * (count - 1)) as nat) as int
    }
}

/// A LEB128 value is never negative.
pub proof fn lemma_leb128_nonnegative(data: Seq<u8>, offset: int, count: nat)
    ensures
        leb128_value(data, offset, count) >= 0,
    decreases count,
{
    if count > 0 {
        lemma_leb128_nonnegative(data, offset, (count - 1) as nat);
        vstd::arithmetic::power2::lemma_pow2_pos((7 * (count - 1)) as nat);
        assert((data[offset + count - 1] % 128) as int * vstd::arithmetic::power2::pow2((7 * (count - 1)) as nat) as int >= 0)
            by (nonlinear_arith)
            requires
                vstd::arithmetic::power2::pow2((7 * (count - 1)) as nat) > 0,
        ;
    }
}

/// Reading a LEB128 field at `offset`, `count` bytes in: the value and the length
/// once a byte below 128 ends it; `NotEnoughData` when the data ends first, a
/// `Bitstream` error after eight continuation bytes.
pub open spec fn leb128_scan(data: Seq<u8>, offset: int, count: nat) -> Result<(int, nat), ErrorKind>
    decreases 8 - count,
{
    if count >= 8 {
        Err(ErrorKind::Bitstream)
    } else if offset + count >= data.len() {
        Err(ErrorKind::NotEnoughData)
    } else if data[offset + count] < 128 {
        Ok((leb128_value(data, offset, count + 1), count + 1))
    } else {
        leb128_scan(data, offset, count + 1)
    }
}

/// Reads a LEB128 value of at most eight bytes at `offset`; returns the value and
/// the number of bytes read.
pub fn read_leb128(data: &[u8], offset: usize) -> (result: Result<(u64, usize), DecoderError>)
    requires
        offset <= data@.len(),
    ensures
        match result {
            Ok((value, count)) => leb128_scan(data@, offset as int, 0) == Ok::<(int, nat), ErrorKind>((value as int, count as nat)),
            Err(error) => leb128_scan(data@, offset as int, 0) == Err::<(int, nat), ErrorKind>(error.kind()) && (error.kind()
                == ErrorKind::NotEnoughData || error.kind() == ErrorKind::Bitstream),
        },
{
    let mut value: u64 = 0;
    let mut weight: u64 = 1;
    let mut count: usize = 0;
    proof {
        vstd::arithmetic::power2::lemma2_to64();
    }
    while count < 8
        invariant
            count <= 8,
            offset <= data@.len(),
            weight == vstd::arithmetic::power2::pow2((7 * count) as nat),
            value == leb128_value(data@, offset as int, count as nat),
            value < weight,
            leb128_scan(data@, offset as int, 0) == leb128_scan(data@, offset as int, count as nat),
        decreases 8 - count,
    {
        if count >= data.len() - offset {
            return Err(DecoderError::NotEnoughData("OBU size field is truncated".to_string()));
        }
        let byte = data[offset + count];
        proof {
            vstd::arithmetic::power2::lemma2_to64();
            vstd::arithmetic::power2::lemma_pow2_adds((7 * count) as nat, 7);
            assert(weight <= vstd::arithmetic::power2::pow2(49)) by {
                if count < 7 {
                    vstd::arithmetic::power2::lemma_pow2_strictly_increases((7 * count) as nat, 49);
                }
            }
            vstd::arithmetic::power2::lemma2_to64_rest();
            assert(vstd::arithmetic::power2::pow2(49) == 0x2_0000_0000_0000);
            assert(((byte % 128) as u64) * weight <= 127 * 0x2_0000_0000_0000) by (nonlinear_arith)
                requires
                    (byte % 128) as u64 <= 127,
                    weight <= 0x2_0000_0000_0000,
            ;
            assert(((byte % 128) as u64) * weight <= 127 * weight) by (nonlinear_arith)
                requires
                    (byte % 128) as u64 <= 127,
            ;
            assert((7 * (count + 1)) as nat == (7 * count) as nat + 7);
        }
        value = value + (byte % 128) as u64 * weight;
        weight = weight * 128;
        count = count + 1;
        if byte < 128 {
            return Ok((value, count));
        }
    }
    Err(DecoderError::Bitstream("OBU size field is longer than eight bytes".to_string()))
}

/// The OBU at `offset`: its type and where its payload starts and ends.
///
/// The header byte holds the forbidden bit, the 4-bit type, the extension flag and
/// the size flag; an extension byte follows when flagged, then a LEB128 payload size
/// when flagged. Without a size the payload runs to the end of the data.
pub open spec fn obu_unit(data: Seq<u8>, offset: int) -> Result<(ObuType, int, int), ErrorKind> {
    let header = data[offset];
    let has_extension = (header / 4) % 2 == 1;
    let cursor = if has_extension { offset + 2 } else { offset + 1 };
    if header >= 128 {
        Err(ErrorKind::Bitstream)
    } else if has_extension && offset + 1 >= data.len() {
        Err(ErrorKind::NotEnoughData)
    } else if (header / 2) % 2 == 1 {
        match leb128_scan(data, cursor, 0) {
            Ok((size, count)) => if size > data.len() - (cursor + count) {
                Err(ErrorKind::NotEnoughData)
            } else {
                Ok((obu_type_spec((header / 8) % 16), cursor + count, cursor + count + size))
            },
            Err(kind) => Err(kind),
        }
    } else {
        Ok((obu_type_spec((header / 8) % 16), cursor, data.len() as int))
    }
}

pub proof fn lemma_leb128_scan_bounds(data: Seq<u8>, offset: int, count: nat)
    ensures
        leb128_scan(data, offset, count) matches Ok((value, length)) ==> value >= 0 && length >= 1 && offset + length
            <= data.len(),
    decreases 8 - count,
{
    if count < 8 && offset + count < data.len() {
        if data[offset + count] < 128 {
            lemma_leb128_nonnegative(data, offset, count + 1);
        } else {
            lemma_leb128_scan_bounds(data, offset, count + 1);
        }
    }
}

/// An OBU's payload ends after its header starts.
pub proof fn lemma_obu_unit_advances(data: Seq<u8>, offset: int)
    requires
        0 <= offset < data.len(),
    ensures
        obu_unit(data, offset) matches Ok((_, start, end)) ==> offset < start <= end <= data.len(),
{
    let header = data[offset];
    let cursor = if (header / 4) % 2 == 1 { offset + 2 } else { offset + 1 };
    lemma_leb128_scan_bounds(data, cursor, 0);
}

/// The OBUs from `offset` on: each one's type and payload.
pub open spec fn obu_stream(data: Seq<u8>, offset: int) -> Result<Seq<(ObuType, Seq<u8>)>, ErrorKind>
    decreases data.len() - offset,
{
    if offset < 0 || offset >= data.len() {
        Ok(Seq::empty())
    } else {
        match obu_unit(data, offset) {
            Ok((obu_type, start, end)) => {
                proof {
                    lemma_obu_unit_advances(data, offset);
                }
                match obu_stream(data, end) {
                    Ok(rest) => Ok(seq![(obu_type, data.subrange(start, end))] + rest),
                    Err(kind) => Err(kind),
                }
            },
            Err(kind) => Err(kind),
        }
    }
}

/// The types and payloads of OBUs.
pub open spec fn obus_view(obus: Seq<Obu>) -> Seq<(ObuType, Seq<u8>)> {
    obus.map_values(|obu: Obu| (obu.obu_type, obu.payload@))
}

/// Splits an AV1 sample into its OBUs (see `obu_unit`).
pub fn parse_obu_stream(data: &[u8]) -> (result: Result<Vec<Obu>, DecoderError>)
    ensures
        match result {
            Ok(obus) => obu_stream(data@, 0) == Ok::<Seq<(ObuType, Seq<u8>)>, ErrorKind>(obus_view(obus@)),
            Err(error) => obu_stream(data@, 0) == Err::<Seq<(ObuType, Seq<u8>)>, ErrorKind>(error.kind()) && (error.kind()
                == ErrorKind::NotEnoughData || error.kind() == ErrorKind::Bitstream),
        },
{
    let mut obus: Vec<Obu> = Vec::new();
    let mut offset: usize = 0;
    while offset < data.len()
        invariant
            offset <= data@.len(),
            match obu_stream(data@, offset as int) {
                Ok(rest) => obu_stream(data@, 0) == Ok::<Seq<(ObuType, Seq<u8>)>, ErrorKind>(obus_view(obus@) + rest),
                Err(kind) => obu_stream(data@, 0) == Err::<Seq<(ObuType, Seq<u8>)>, ErrorKind>(kind),
            },
        decreases data@.len() - offset,
    {
        proof {
            lemma_obu_unit_advances(data@, offset as int);
        }
        let header = data[offset];
        if header >= 128 {
            return Err(DecoderError::Bitstream("OBU forbidden bit is set".to_string()));
        }
        let code = (header / 8) % 16;
        let has_extension = (header / 4) % 2 == 1;
        let has_size = (header / 2) % 2 == 1;
        let mut cursor = offset + 1;
        if has_extension {
            if cursor >= data.len() {
                return Err(DecoderError::NotEnoughData("OBU extension header is truncated".to_string()));
            }
            cursor = cursor + 1;
        }
        let size: usize = if has_size {
            let (value, count) = match read_leb128(data, cursor) {
                Ok(read) => read,
                Err(error) => return Err(error),
            };
            proof {
                lemma_leb128_scan_bounds(data@, cursor as int, 0);
            }
            cursor = cursor + count;
            if value > (data.len() - cursor) as u64 {
                return Err(DecoderError::NotEnoughData("OBU payload is truncated".to_string()));
            }
            value as usize
        } else {
            data.len() - cursor
        };
        let payload = vstd::slice::slice_subrange(data, cursor, cursor + size);
        let ghost before = obus@;
        obus.push(Obu { obu_type: obu_type_from_code(code), payload: vstd::slice::slice_to_vec(payload) });
        proof {
            assert(obus_view(obus@) =~= obus_view(before).push((obu_type_spec(code), data@.subrange(cursor as int, cursor + size))));
            match obu_stream(data@, cursor + size) {
                Ok(rest) => {
                    assert(obus_view(before) + (seq![(obu_type_spec(code), data@.subrange(cursor as int, cursor + size))] + rest)
                        =~= obus_view(obus@) + rest);
                },
                Err(_) => {},
            }
        }
        offset = cursor + size;
    }
    proof {
        assert(obus_view(obus@) + Seq::<(ObuType, Seq<u8>)>::empty() =~= obus_view(obus@));
    }
    Ok(obus)
}

} // verus!
