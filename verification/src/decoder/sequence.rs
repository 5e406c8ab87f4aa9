//! Rebuilding OBUs and splitting AVIS samples into coded frames; order hints and
//! projected motion for reference frames.
use vstd::prelude::*;
use crate::error::{DecoderError, ErrorKind};
use crate::obu::{leb128_scan, leb128_value, obu_stream, obu_type_spec, obu_unit, obus_view, parse_obu_stream, Obu, ObuType};

verus! {

/// The LEB128 bytes of `n`: seven bits at a time, least significant first, the top
/// bit set on every byte but the last.
pub open spec fn leb128_bytes(n: nat) -> Seq<u8>
    decreases n,
{
    if n < 128 {
        seq![n as u8]
    } else {
        seq![(n % 128 + 128) as u8] + leb128_bytes(n / 128)
    }
}

/// The 4-bit code of the OBU types that can be rebuilt.
pub open spec fn rebuilt_obu_code(obu_type: ObuType) -> Option<u8> {
    match obu_type {
        ObuType::SequenceHeader => Some(1u8),
        ObuType::FrameHeader => Some(3u8),
        ObuType::TileGroup => Some(4u8),
        ObuType::Frame => Some(6u8),
        _ => None,
    }
}

/// An OBU with a size field and no extension: the header byte, the LEB128 payload
/// size, then the payload.
pub open spec fn encoded_obu(code: u8, payload: Seq<u8>) -> Seq<u8> {
    seq![(code * 8 + 2) as u8] + leb128_bytes(payload.len()) + payload
}

/// Writes an OBU of a rebuildable type (sequence header, frame header, tile group
/// or frame) with a size field; any other type is `Unsupported`.
pub fn encode_obu(obu_type: ObuType, payload: &[u8]) -> (result: Result<Vec<u8>, DecoderError>)
    ensures
        match rebuilt_obu_code(obu_type) {
            Some(code) => result is Ok && result->Ok_0@ == encoded_obu(code, payload@),
            None => result is Err && result->Err_0.kind() == ErrorKind::Unsupported,
        },
{
    let type_bits: u8 = match obu_type {
        ObuType::SequenceHeader => 1,
        ObuType::Frame => 6,
        ObuType::FrameHeader => 3,
        ObuType::TileGroup => 4,
        _ => {
            return Err(DecoderError::Unsupported("cannot rebuild this AV1 OBU type for reference probing".to_string()));
        },
    };
    let mut encoded: Vec<u8> = Vec::new();
    encoded.push(type_bits * 8 + 2);
    let ghost head = encoded@;
    let ghost total = payload@.len();
    let mut length = payload.len();
    let mut done = false;
    while !done
        invariant
            !done ==> encoded@ + leb128_bytes(length as nat) == head + leb128_bytes(total),
            done ==> encoded@ == head + leb128_bytes(total),
        decreases (if done { 0 } else { length + 1 }),
    {
        let rest = length / 128;
        let byte: u8 = if rest != 0 {
            (length % 128) as u8 + 128
        } else {
            (length % 128) as u8
        };
        let ghost before = encoded@;
        encoded.push(byte);
        proof {
            if rest != 0 {
                assert(before + leb128_bytes(length as nat) =~= encoded@ + leb128_bytes(rest as nat));
            } else {
                assert(before + leb128_bytes(length as nat) =~= encoded@);
            }
        }
        length = rest;
        if length == 0 {
            done = true;
        }
    }
    let ghost before = encoded@;
    encoded.extend_from_slice(payload);
    proof {
        assert forall|i: int| 0 <= i < encoded@.len() implies encoded@[i] == (before + payload@)[i] by {
            if i >= before.len() {
                assert(cloned::<u8>(payload@[i - before.len()], encoded@[i]));
            }
        }
        assert(encoded@ =~= before + payload@);
        assert(head == seq![(type_bits * 8 + 2) as u8]);
    }
    Ok(encoded)
}

/// Byte `i` of `leb128_bytes(n)` continues the field unless it is the last.
proof fn lemma_leb128_bytes_shape(n: nat)
    ensures
        leb128_bytes(n).len() >= 1,
        leb128_bytes(n)[leb128_bytes(n).len() - 1] < 128,
        forall|i: int| 0 <= i < leb128_bytes(n).len() - 1 ==> #[trigger] leb128_bytes(n)[i] >= 128,
    decreases n,
{
    if n >= 128 {
        lemma_leb128_bytes_shape(n / 128);
        let rest = leb128_bytes(n / 128);
        assert forall|i: int| 0 <= i < leb128_bytes(n).len() - 1 implies #[trigger] leb128_bytes(n)[i] >= 128 by {
            if i > 0 {
                assert(leb128_bytes(n)[i] == rest[i - 1]);
            }
        }
    }
}

/// A value below `2^(7 * digits)` takes at most `digits` LEB128 bytes.
proof fn lemma_leb128_bytes_length(n: nat, digits: nat)
    requires
        digits >= 1,
        n < vstd::arithmetic::power2::pow2(7 * digits),
    ensures
        leb128_bytes(n).len() <= digits,
    decreases digits,
{
    if n >= 128 {
        if digits == 1 {
            vstd::arithmetic::power2::lemma2_to64();
        } else {
            vstd::arithmetic::power2::lemma_pow2_adds(7, 7 * (digits - 1) as nat);
            vstd::arithmetic::power2::lemma2_to64();
            assert(n / 128 < vstd::arithmetic::power2::pow2(7 * (digits - 1) as nat)) by {
                vstd::arithmetic::div_mod::lemma_div_by_multiple_is_strongly_ordered(
                    n as int,
                    vstd::arithmetic::power2::pow2(7 * digits) as int,
                    vstd::arithmetic::power2::pow2(7 * (digits - 1) as nat) as int,
                    128,
                );
            }
            lemma_leb128_bytes_length(n / 128, (digits - 1) as nat);
        }
    }
}

/// A LEB128 value splits into its first byte's seven bits and the value of the rest.
proof fn lemma_leb128_value_first(data: Seq<u8>, offset: int, count: nat)
    ensures
        leb128_value(data, offset, count + 1) == (data[offset] % 128) as int + 128 * leb128_value(data, offset + 1, count),
    decreases count,
{
    vstd::arithmetic::power2::lemma2_to64();
    if count == 0 {
        assert(leb128_value(data, offset, 1) == leb128_value(data, offset, 0) + (data[offset] % 128) as int
            * vstd::arithmetic::power2::pow2(0) as int);
    } else {
        let c = (count - 1) as nat;
        lemma_leb128_value_first(data, offset, c);
        let digit = (data[offset + count] % 128) as int;
        let weight = vstd::arithmetic::power2::pow2((7 * c) as nat) as int;
        vstd::arithmetic::power2::lemma_pow2_adds(7, (7 * c) as nat);
        assert((7 * count) as nat == 7 + (7 * c) as nat);
        assert(vstd::arithmetic::power2::pow2((7 * count) as nat) == 128 * weight);
        assert(leb128_value(data, offset, count + 1) == leb128_value(data, offset, count) + digit * vstd::arithmetic::power2::pow2(
            (7 * count) as nat,
        ) as int);
        assert(leb128_value(data, offset + 1, count) == leb128_value(data, offset + 1, c) + (data[offset + 1 + c] % 128) as int
            * weight);
        assert(data[offset + 1 + c] == data[offset + count]);
        assert(digit * (128 * weight) == 128 * (digit * weight)) by (nonlinear_arith);
    }
}

/// The LEB128 value of `leb128_bytes(n)` is `n`.
proof fn lemma_leb128_value_of_bytes(data: Seq<u8>, offset: int, n: nat)
    requires
        0 <= offset,
        offset + leb128_bytes(n).len() <= data.len(),
        data.subrange(offset, offset + leb128_bytes(n).len()) == leb128_bytes(n),
    ensures
        leb128_value(data, offset, leb128_bytes(n).len()) == n,
    decreases n,
{
    let bytes = leb128_bytes(n);
    assert(data[offset] == bytes[0]) by {
        assert(data.subrange(offset, offset + bytes.len())[0] == data[offset]);
    }
    vstd::arithmetic::power2::lemma2_to64();
    if n < 128 {
        assert(leb128_value(data, offset, 1) == leb128_value(data, offset, 0) + (data[offset] % 128) as int
            * vstd::arithmetic::power2::pow2(0) as int);
    } else {
        let rest = leb128_bytes(n / 128);
        assert(data.subrange(offset + 1, offset + 1 + rest.len()) =~= rest) by {
            assert forall|i: int| 0 <= i < rest.len() implies data.subrange(offset + 1, offset + 1 + rest.len())[i] == rest[i] by {
                assert(data.subrange(offset, offset + bytes.len())[i + 1] == data[offset + 1 + i]);
                assert(bytes[i + 1] == rest[i]);
            }
        }
        lemma_leb128_value_of_bytes(data, offset + 1, n / 128);
        lemma_leb128_value_first(data, offset, rest.len());
        assert(bytes.len() == rest.len() + 1);
        assert(bytes[0] == (n % 128 + 128) as u8);
        assert((n % 128 + 128) as u8 % 128 == n % 128);
        vstd::arithmetic::div_mod::lemma_fundamental_div_mod(n as int, 128);
    }
}

/// Reading `leb128_bytes(n)` gives back `n` and the number of bytes.
proof fn lemma_leb128_scan_of_bytes(data: Seq<u8>, offset: int, n: nat, count: nat)
    requires
        0 <= offset,
        leb128_bytes(n).len() <= 8,
        count < leb128_bytes(n).len(),
        offset + leb128_bytes(n).len() <= data.len(),
        data.subrange(offset, offset + leb128_bytes(n).len()) == leb128_bytes(n),
    ensures
        leb128_scan(data, offset, count) == Ok::<(int, nat), ErrorKind>((n as int, leb128_bytes(n).len())),
    decreases leb128_bytes(n).len() - count,
{
    let bytes = leb128_bytes(n);
    lemma_leb128_bytes_shape(n);
    assert(data[offset + count] == bytes[count as int]) by {
        assert(data.subrange(offset, offset + bytes.len())[count as int] == data[offset + count]);
    }
    if count + 1 < bytes.len() {
        lemma_leb128_scan_of_bytes(data, offset, n, count + 1);
    } else {
        lemma_leb128_value_of_bytes(data, offset, n);
    }
}

/// An OBU written by `encode_obu` reads back as that one OBU, with its type and
/// payload.
pub proof fn lemma_encoded_obu_round_trip(code: u8, payload: Seq<u8>)
    requires
        code == 1 || code == 3 || code == 4 || code == 6,
        payload.len() < vstd::arithmetic::power2::pow2(56),
    ensures
        obu_stream(encoded_obu(code, payload), 0) == Ok::<Seq<(ObuType, Seq<u8>)>, ErrorKind>(
            seq![(obu_type_spec(code), payload)],
        ),
{
    let data = encoded_obu(code, payload);
    let size = leb128_bytes(payload.len());
    let header = (code * 8 + 2) as u8;
    lemma_leb128_bytes_length(payload.len(), 8);
    assert(data.subrange(1, 1 + size.len() as int) =~= size);
    lemma_leb128_scan_of_bytes(data, 1, payload.len(), 0);
    assert(data[0] == header);
    assert(header / 8 % 16 == code && (header / 4) % 2 == 0 && (header / 2) % 2 == 1 && header < 128);
    assert(obu_unit(data, 0) == Ok::<(ObuType, int, int), ErrorKind>(
        (obu_type_spec(code), 1 + size.len() as int, data.len() as int),
    ));
    assert(data.subrange(1 + size.len() as int, data.len() as int) =~= payload);
    assert(obu_stream(data, data.len() as int) == Ok::<Seq<(ObuType, Seq<u8>)>, ErrorKind>(Seq::empty()));
    assert(seq![(obu_type_spec(code), payload)] + Seq::<(ObuType, Seq<u8>)>::empty() =~= seq![(obu_type_spec(code), payload)]);
}

/// One coded frame of an AVIS sample, as a self-contained OBU sequence.
#[derive(Debug, Clone, PartialEq, Eq)]
pub struct Av1SequenceSampleUnit {
    pub payload: Vec<u8>,
    /// Whether the sample carried a sequence header (then prefixed to every unit).
    pub has_sequence_header: bool,
}

/// The payload of the first sequence header OBU, if any.
pub open spec fn first_sequence_header(obus: Seq<(ObuType, Seq<u8>)>) -> Option<Seq<u8>>
    decreases obus.len(),
{
    if obus.len() == 0 {
        None
    } else if obus[0].0 == ObuType::SequenceHeader {
        Some(obus[0].1)
    } else {
        first_sequence_header(obus.drop_first())
    }
}

/// What precedes every unit: the rebuilt sequence header, if the sample has one.
pub open spec fn unit_prefix(obus: Seq<(ObuType, Seq<u8>)>) -> Seq<u8> {
    match first_sequence_header(obus) {
        Some(payload) => encoded_obu(1, payload),
        None => Seq::empty(),
    }
}

/// Closes the unit being built, if it holds anything.
pub open spec fn finish_unit(units: Seq<Seq<u8>>, current: Seq<u8>) -> (Seq<Seq<u8>>, Seq<u8>) {
    if current.len() > 0 {
        (units.push(current), Seq::empty())
    } else {
        (units, current)
    }
}

/// One OBU of the walk: the finished units, the unit being built and whether a frame
/// header has opened it. A frame is a unit of its own; a frame header opens a unit
/// that its tile groups join; a temporal delimiter closes the open unit.
pub open spec fn split_step(
    state: (Seq<Seq<u8>>, Seq<u8>, bool),
    obu: (ObuType, Seq<u8>),
    prefix: Seq<u8>,
) -> (Seq<Seq<u8>>, Seq<u8>, bool) {
    let (units, current, active) = state;
    match obu.0 {
        ObuType::TemporalDelimiter => if active {
            let (closed, rest) = finish_unit(units, current);
            (closed, rest, false)
        } else {
            state
        },
        ObuType::Frame => {
            let (closed, rest) = if active { finish_unit(units, current) } else { (units, current) };
            let (done, left) = finish_unit(closed, rest + prefix + encoded_obu(6, obu.1));
            (done, left, false)
        },
        ObuType::FrameHeader => {
            let (closed, rest) = if active { finish_unit(units, current) } else { (units, current) };
            (closed, rest + prefix + encoded_obu(3, obu.1), true)
        },
        ObuType::TileGroup => if active {
            (units, current + encoded_obu(4, obu.1), true)
        } else {
            state
        },
        _ => state,
    }
}

/// The walk over the first `count` OBUs.
pub open spec fn split_run(obus: Seq<(ObuType, Seq<u8>)>, prefix: Seq<u8>, count: nat) -> (Seq<Seq<u8>>, Seq<u8>, bool)
    decreases count,
{
    if count == 0 {
        (Seq::empty(), Seq::empty(), false)
    } else {
        split_step(split_run(obus, prefix, (count - 1) as nat), obus[count - 1], prefix)
    }
}

/// The coded frame units of a sample's OBUs.
pub open spec fn sample_units(obus: Seq<(ObuType, Seq<u8>)>) -> Seq<Seq<u8>> {
    let (units, current, active) = split_run(obus, unit_prefix(obus), obus.len());
    if active {
        finish_unit(units, current).0
    } else {
        units
    }
}

fn finish_current(units: &mut Vec<Av1SequenceSampleUnit>, current: &mut Vec<u8>, has_sequence_header: bool)
    ensures
        ({
            let (closed, rest) = finish_unit(old(units)@.map_values(|unit: Av1SequenceSampleUnit| unit.payload@), old(current)@);
            &&& final(units)@.map_values(|unit: Av1SequenceSampleUnit| unit.payload@) == closed
            &&& final(current)@ == rest
        }),
        forall|k: int| 0 <= k < old(units)@.len() ==> final(units)@[k] == old(units)@[k],
        forall|k: int| old(units)@.len() <= k < final(units)@.len() ==> (#[trigger] final(units)@[k]).has_sequence_header == has_sequence_header,
{
    if current.len() > 0 {
        let mut payload: Vec<u8> = Vec::new();
        std::mem::swap(&mut payload, current);
        let ghost before = units@;
        units.push(Av1SequenceSampleUnit { payload, has_sequence_header });
        proof {
            assert(units@.map_values(|unit: Av1SequenceSampleUnit| unit.payload@) =~= before.map_values(
                |unit: Av1SequenceSampleUnit| unit.payload@,
            ).push(old(current)@));
        }
    }
}

fn append_bytes(current: &mut Vec<u8>, bytes: &[u8])
    ensures
        final(current)@ == old(current)@ + bytes@,
{
    let ghost before = current@;
    current.extend_from_slice(bytes);
    proof {
        assert forall|i: int| 0 <= i < current@.len() implies current@[i] == (before + bytes@)[i] by {
            if i >= before.len() {
                assert(cloned::<u8>(bytes@[i - before.len()], current@[i]));
            }
        }
        assert(current@ =~= before + bytes@);
    }
}

/// Splits an AVIS sample into the coded frames it holds: a frame OBU is a unit of
/// its own, a frame header and the tile groups after it form one; the sample's
/// sequence header, if any, is put in front of every unit (see `sample_units`).
pub fn split_av1_sequence_sample(sample: &[u8]) -> (result: Result<Vec<Av1SequenceSampleUnit>, DecoderError>)
    ensures
        match result {
            Ok(units) => obu_stream(sample@, 0) matches Ok(obus) && {
                &&& units@.map_values(|unit: Av1SequenceSampleUnit| unit.payload@) == sample_units(obus)
                &&& forall|k: int| 0 <= k < units@.len() ==> (#[trigger] units@[k]).has_sequence_header == first_sequence_header(obus) is Some
            },
            Err(error) => obu_stream(sample@, 0) == Err::<Seq<(ObuType, Seq<u8>)>, ErrorKind>(error.kind()),
        },
{
    let obus = parse_obu_stream(sample)?;
    let ghost view = obus_view(obus@);
    let mut sequence_prefix: Vec<u8> = Vec::new();
    let mut has_sequence_header = false;
    let mut k: usize = 0;
    assert(view.subrange(0, view.len() as int) =~= view);
    while k < obus.len() && !has_sequence_header
        invariant
            view == obus_view(obus@),
            k <= obus@.len(),
            has_sequence_header ==> first_sequence_header(view) is Some && sequence_prefix@ == unit_prefix(view),
            !has_sequence_header ==> first_sequence_header(view) == first_sequence_header(view.subrange(k as int, view.len() as int)),
            !has_sequence_header ==> sequence_prefix@.len() == 0,
        decreases obus@.len() - k,
    {
        let ghost rest = view.subrange(k as int, view.len() as int);
        assert(rest.drop_first() =~= view.subrange(k + 1, view.len() as int));
        if obus[k].obu_type == ObuType::SequenceHeader {
            sequence_prefix = match encode_obu(ObuType::SequenceHeader, obus[k].payload.as_slice()) {
                Ok(bytes) => bytes,
                Err(error) => return Err(error),
            };
            has_sequence_header = true;
        }
        k = k + 1;
    }
    proof {
        if !has_sequence_header {
            assert(view.subrange(k as int, view.len() as int).len() == 0);
            assert(unit_prefix(view) =~= sequence_prefix@);
        }
    }
    let ghost prefix = unit_prefix(view);
    let mut units: Vec<Av1SequenceSampleUnit> = Vec::new();
    let mut current: Vec<u8> = Vec::new();
    let mut current_active = false;
    let mut n: usize = 0;
    proof {
        assert(units@.map_values(|unit: Av1SequenceSampleUnit| unit.payload@) =~= Seq::<Seq<u8>>::empty());
    }
    while n < obus.len()
        invariant
            view == obus_view(obus@),
            n <= obus@.len(),
            sequence_prefix@ == prefix,
            prefix == unit_prefix(view),
            has_sequence_header == (first_sequence_header(view) is Some),
            (units@.map_values(|unit: Av1SequenceSampleUnit| unit.payload@), current@, current_active) == split_run(view, prefix, n as nat),
            forall|j: int| 0 <= j < units@.len() ==> (#[trigger] units@[j]).has_sequence_header == has_sequence_header,
        decreases obus@.len() - n,
    {
        let obu = &obus[n];
        assert(view[n as int] == (obu.obu_type, obu.payload@));
        match obu.obu_type {
            ObuType::TemporalDelimiter => {
                if current_active {
                    finish_current(&mut units, &mut current, has_sequence_header);
                    current_active = false;
                }
            },
            ObuType::Frame => {
                if current_active {
                    finish_current(&mut units, &mut current, has_sequence_header);
                }
                append_bytes(&mut current, sequence_prefix.as_slice());
                let encoded = match encode_obu(ObuType::Frame, obu.payload.as_slice()) {
                    Ok(bytes) => bytes,
                    Err(error) => return Err(error),
                };
                append_bytes(&mut current, encoded.as_slice());
                finish_current(&mut units, &mut current, has_sequence_header);
                current_active = false;
            },
            ObuType::FrameHeader => {
                if current_active {
                    finish_current(&mut units, &mut current, has_sequence_header);
                }
                append_bytes(&mut current, sequence_prefix.as_slice());
                let encoded = match encode_obu(ObuType::FrameHeader, obu.payload.as_slice()) {
                    Ok(bytes) => bytes,
                    Err(error) => return Err(error),
                };
                append_bytes(&mut current, encoded.as_slice());
                current_active = true;
            },
            ObuType::TileGroup => {
                if current_active {
                    let encoded = match encode_obu(ObuType::TileGroup, obu.payload.as_slice()) {
                        Ok(bytes) => bytes,
                        Err(error) => return Err(error),
                    };
                    append_bytes(&mut current, encoded.as_slice());
                }
            },
            _ => {},
        }
        n = n + 1;
    }
    if current_active {
        finish_current(&mut units, &mut current, has_sequence_header);
    }
    Ok(units)
}

/// The signed distance from `current` to `reference` on the circle of order hints of
/// `bits` bits: the difference taken modulo `2^bits` into `-2^(bits-1)..2^(bits-1)`.
pub open spec fn order_hint_distance(bits: u8, reference: u32, current: u32) -> int {
    if bits == 0 {
        0
    } else {
        let modulo = vstd::arithmetic::power2::pow2(bits as nat) as int;
        let difference = ((reference as i32) - (current as i32)) % modulo;
        if difference >= modulo / 2 {
            difference - modulo
        } else {
            difference
        }
    }
}

/// The relative distance between two order hints (see `order_hint_distance`).
pub fn relative_order_hint_distance(bits: u8, reference: u32, current: u32) -> (distance: i32)
    requires
        bits <= 30,
        i32::MIN <= (reference as i32) - (current as i32) <= i32::MAX,
    ensures
        distance == order_hint_distance(bits, reference, current),
{
    proof {
        vstd::arithmetic::power2::lemma2_to64();
        vstd::bits::lemma_u32_pow2_no_overflow(bits as nat);
        vstd::arithmetic::power2::lemma_pow2_pos(bits as nat);
        if bits < 30 {
            vstd::arithmetic::power2::lemma_pow2_strictly_increases(bits as nat, 30);
        }
    }
    let mut modulo: i64 = 1;
    let mut k: u8 = 0;
    while k < bits
        invariant
            k <= bits <= 30,
            modulo == vstd::arithmetic::power2::pow2(k as nat),
        decreases bits - k,
    {
        proof {
            vstd::arithmetic::power2::lemma_pow2_adds(k as nat, 1);
            vstd::arithmetic::power2::lemma2_to64();
            if k < 30 {
                vstd::arithmetic::power2::lemma_pow2_strictly_increases(k as nat, 30);
            }
        }
        modulo = modulo * 2;
        k = k + 1;
    }
    if bits == 0 {
        return 0;
    }
    let difference = (reference as i32) as i64 - (current as i32) as i64;
    let wrapped = (difference + 0x2_0000_0000) % modulo;
    proof {
        let d = difference as int;
        let m = modulo as int;
        let quotient = vstd::arithmetic::power2::pow2((33 - bits) as nat) as int;
        vstd::arithmetic::power2::lemma_pow2_adds(bits as nat, (33 - bits) as nat);
        vstd::arithmetic::power2::lemma2_to64_rest();
        assert(m * quotient == 0x2_0000_0000);
        vstd::arithmetic::div_mod::lemma_mod_multiples_vanish(quotient, d, m);
    }
    let distance = if wrapped >= modulo / 2 { wrapped - modulo } else { wrapped };
    distance as i32
}

/// A motion vector component scaled down by 64, rounding toward zero.
pub fn motion_offset(value: i32) -> (offset: i32)
    requires
        value != i32::MIN,
    ensures
        offset == (if value >= 0 { value / 64 } else { -((-value) / 64) }),
{
    if value >= 0 {
        value / 64
    } else {
        -((-value) / 64)
    }
}

/// The reciprocals `16384 / d` for projecting motion over a distance `d` below 32.
pub open spec fn division_multipliers() -> Seq<i32> {
    seq![
        0, 16384, 8192, 5461, 4096, 3276, 2730, 2340, 2048, 1820, 1638, 1489, 1365, 1260, 1170, 1092, 1024, 963, 910,
        862, 819, 780, 744, 712, 682, 655, 630, 606, 585, 564, 546, 528,
    ]
}

/// One motion vector component projected from distance `denominator` to distance
/// `numerator` (each clamped to the table), rounded half away from zero and clamped
/// to `-32767..=32767`.
pub open spec fn projected_component(value: i32, numerator: i32, denominator: i32) -> int {
    let factor = if numerator < -31 { -31 } else if numerator > 31 { 31 } else { numerator as int };
    let slot = if denominator < 0 { 0 } else if denominator > 31 { 31 } else { denominator as int };
    let product = value * factor * division_multipliers()[slot];
    let rounded = if product < 0 { -((-product + 8192) / 16384) } else { (product + 8192) / 16384 };
    if rounded < -32767 {
        -32767
    } else if rounded > 32767 {
        32767
    } else {
        rounded
    }
}

fn projected_motion_component(value: i32, numerator: i32, denominator: i32) -> (component: i32)
    ensures
        component == projected_component(value, numerator, denominator),
{
    let table: [i32; 32] = [
        0, 16384, 8192, 5461, 4096, 3276, 2730, 2340, 2048, 1820, 1638, 1489, 1365, 1260, 1170, 1092, 1024, 963, 910,
        862, 819, 780, 744, 712, 682, 655, 630, 606, 585, 564, 546, 528,
    ];
    assert(table@ =~= division_multipliers());
    let factor: i64 = if numerator < -31 { -31 } else if numerator > 31 { 31 } else { numerator as i64 };
    let slot: usize = if denominator < 0 { 0 } else if denominator > 31 { 31 } else { denominator as usize };
    let multiplier = table[slot] as i64;
    assert(0 <= multiplier <= 16384);
    assert(-0x8000_0000 * 31 <= value as i64 * factor <= 0x8000_0000 * 31) by (nonlinear_arith)
        requires
            -31 <= factor <= 31,
            i32::MIN <= value <= i32::MAX,
    ;
    let scaled = value as i64 * factor;
    assert(-0x8000_0000 * 31 * 16384 <= scaled * multiplier <= 0x8000_0000 * 31 * 16384) by (nonlinear_arith)
        requires
            -0x8000_0000 * 31 <= scaled <= 0x8000_0000 * 31,
            0 <= multiplier <= 16384,
    ;
    let product = scaled * multiplier;
    let rounded = if product < 0 { -((-product + 8192) / 16384) } else { (product + 8192) / 16384 };
    let clamped = if rounded < -32767 {
        -32767
    } else if rounded > 32767 {
        32767
    } else {
        rounded
    };
    clamped as i32
}

/// A reference frame's motion vector projected onto the current frame (see
/// `projected_component`).
pub fn project_temporal_motion_vector(motion_vector: (i32, i32), numerator: i32, denominator: i32) -> (projected: (i32, i32))
    ensures
        projected.0 == projected_component(motion_vector.0, numerator, denominator),
        projected.1 == projected_component(motion_vector.1, numerator, denominator),
{
    (
        projected_motion_component(motion_vector.0, numerator, denominator),
        projected_motion_component(motion_vector.1, numerator, denominator),
    )
}

} // verus!
