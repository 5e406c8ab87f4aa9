//! Gain-map (`tmap`) metadata: the ISO 21496-1 descriptor carried as an item payload.
use vstd::prelude::*;
use crate::container::avif::{collect_meta, collected_state, file_meta_parses, top_level_walk};
use crate::container::boxes::BoxHeader;
use crate::container::bytes::{addressable, be_uint, contains_code, contains_fourcc, fits};
use crate::container::items::{meta_state_valid, ItemReference, MetaState};
use crate::container::metadata::{
    association_entry, association_indices_checked, association_indices_valid, find_info, info_entry,
    item_metadata, metadata_matches, PrimaryItemMetadata,
};
use crate::container::payload::{item_bytes, item_payload};
use crate::container::properties::{code4, fourcc_code, fourcc_eq};
use crate::container::types::{
    ColorInformation, GainMapChannel, GainMapMetadata, GainMapRational, PixelInformation,
};
use crate::error::{DecoderError, ErrorKind};
use crate::text::concat;

verus! {

/// The big-endian 32-bit field at `offset` read as a two's-complement number.
pub open spec fn be_i32(bytes: Seq<u8>, offset: int) -> int {
    let value = be_uint(bytes, offset, 4);
    if value >= 0x8000_0000 {
        value - 0x1_0000_0000
    } else {
        value
    }
}

/// The descriptor's flag byte marks three channels.
pub open spec fn gm_multichannel(payload: Seq<u8>) -> bool {
    payload[4] & 0x80 != 0
}

/// The descriptor's flag byte marks one denominator shared by every rational.
pub open spec fn gm_common_denominator(payload: Seq<u8>) -> bool {
    payload[4] & 0x08 != 0
}

/// The number of channels the descriptor describes.
pub open spec fn gm_channel_count(payload: Seq<u8>) -> int {
    if gm_multichannel(payload) {
        3
    } else {
        1
    }
}

/// The number of rationals: the two headrooms, then five per channel.
pub open spec fn gm_rational_count(payload: Seq<u8>) -> int {
    2 + 5 * gm_channel_count(payload)
}

/// Where the numerator of rational `r` starts.
///
/// With a common denominator the four-byte denominator sits at 5 and the numerators
/// follow it; otherwise each rational is a numerator and its denominator.
pub open spec fn gm_numerator_at(payload: Seq<u8>, r: int) -> int {
    if gm_common_denominator(payload) {
        9 + 4 * r
    } else {
        5 + 8 * r
    }
}

/// Where the denominator of rational `r` starts.
pub open spec fn gm_denominator_at(payload: Seq<u8>, r: int) -> int {
    if gm_common_denominator(payload) {
        5
    } else {
        9 + 8 * r
    }
}

/// The length of a complete descriptor.
pub open spec fn gm_length(payload: Seq<u8>) -> int {
    gm_numerator_at(payload, gm_rational_count(payload))
}

/// Rational `r`, its numerator read signed or unsigned.
pub open spec fn gm_rational(payload: Seq<u8>, r: int, signed: bool) -> GainMapRational {
    let at = gm_numerator_at(payload, r);
    GainMapRational {
        numerator: (if signed {
            be_i32(payload, at)
        } else {
            be_uint(payload, at, 4)
        }) as i64,
        denominator: be_uint(payload, gm_denominator_at(payload, r), 4) as u32,
    }
}

/// Channel `c`: minimum, maximum, gamma (unsigned), base and alternate offsets.
pub open spec fn gm_channel(payload: Seq<u8>, c: int) -> GainMapChannel {
    let first = 2 + 5 * c;
    GainMapChannel {
        gain_map_min: gm_rational(payload, first, true),
        gain_map_max: gm_rational(payload, first + 1, true),
        gamma: gm_rational(payload, first + 2, false),
        base_offset: gm_rational(payload, first + 3, true),
        alternate_offset: gm_rational(payload, first + 4, true),
    }
}

/// The maximum is not below the minimum and the gamma is positive.
pub open spec fn gm_channel_valid(channel: GainMapChannel) -> bool {
    &&& channel.gain_map_max.numerator * channel.gain_map_min.denominator
        >= channel.gain_map_min.numerator * channel.gain_map_max.denominator
    &&& channel.gamma.numerator > 0
}

/// Every denominator that ends by `end` is non-zero.
pub open spec fn gm_denominators_nonzero_below(payload: Seq<u8>, end: int) -> bool {
    forall|r: int|
        0 <= r < gm_rational_count(payload) && #[trigger] gm_denominator_at(payload, r) + 4 <= end
            ==> be_uint(payload, gm_denominator_at(payload, r), 4) != 0
}

/// Some denominator present in the payload is zero.
pub open spec fn gm_zero_denominator(payload: Seq<u8>) -> bool {
    exists|r: int|
        0 <= r < gm_rational_count(payload) && #[trigger] gm_denominator_at(payload, r) + 4 <= payload.len()
            && be_uint(payload, gm_denominator_at(payload, r), 4) == 0
}

/// What parsing a descriptor gives: the fields are read in order, so the first
/// truncated field or zero denominator decides the error; then the headrooms must
/// differ and every channel must be valid.
pub open spec fn gain_map_read_outcome(payload: Seq<u8>) -> Result<(), ErrorKind> {
    if payload.len() < 2 {
        Err(ErrorKind::NotEnoughData)
    } else if be_uint(payload, 0, 2) != 0 {
        Err(ErrorKind::Unsupported)
    } else if payload.len() < 5 {
        Err(ErrorKind::NotEnoughData)
    } else if gm_zero_denominator(payload) {
        Err(ErrorKind::Bitstream)
    } else if payload.len() < gm_length(payload) {
        Err(ErrorKind::NotEnoughData)
    } else if gm_rational(payload, 0, false) == gm_rational(payload, 1, false) {
        Err(ErrorKind::Bitstream)
    } else if exists|c: int| 0 <= c < gm_channel_count(payload) && !gm_channel_valid(#[trigger] gm_channel(payload, c)) {
        Err(ErrorKind::Bitstream)
    } else {
        Ok(())
    }
}

/// What parsing a descriptor gives: as `gain_map_read_outcome`, except that once
/// the version is read, a descriptor that ends too early is malformed (a bitstream
/// error), like any other malformed descriptor of a supported version.
pub open spec fn gain_map_outcome(payload: Seq<u8>) -> Result<(), ErrorKind> {
    match gain_map_read_outcome(payload) {
        Err(ErrorKind::NotEnoughData) => if payload.len() >= 2 {
            Err(ErrorKind::Bitstream)
        } else {
            Err(ErrorKind::NotEnoughData)
        },
        other => other,
    }
}

/// The metadata holds the fields of a complete descriptor.
pub open spec fn gain_map_fields(payload: Seq<u8>, metadata: GainMapMetadata) -> bool {
    &&& metadata.minimum_version == 0
    &&& metadata.writer_version == be_uint(payload, 2, 2)
    &&& metadata.is_multichannel == gm_multichannel(payload)
    &&& metadata.use_base_colour_space == (payload[4] & 0x40 != 0)
    &&& metadata.backward_direction == (payload[4] & 0x04 != 0)
    &&& metadata.base_hdr_headroom == gm_rational(payload, 0, false)
    &&& metadata.alternate_hdr_headroom == gm_rational(payload, 1, false)
    &&& metadata.channels@.len() == gm_channel_count(payload)
    &&& forall|c: int| 0 <= c < metadata.channels@.len() ==> metadata.channels@[c] == gm_channel(payload, c)
}

/// A cursor over a descriptor payload.
struct GainMapReader<'a> {
    payload: &'a [u8],
    offset: usize,
}

impl<'a> GainMapReader<'a> {
    fn new(payload: &'a [u8]) -> (reader: Self)
        ensures
            reader.payload == payload,
            reader.offset == 0,
    {
        GainMapReader { payload, offset: 0 }
    }

    /// Takes the next `count` bytes.
    fn read_bytes(&mut self, count: usize, name: &str) -> (result: Result<&'a [u8], DecoderError>)
        ensures
            final(self).payload == old(self).payload,
            match result {
                Ok(bytes) => {
                    &&& fits(old(self).payload@, old(self).offset as int, count as int)
                    &&& bytes@ == old(self).payload@.subrange(old(self).offset as int, old(self).offset + count)
                    &&& final(self).offset == old(self).offset + count
                },
                Err(error) => {
                    &&& final(self).offset == old(self).offset
                    &&& if old(self).offset + count > usize::MAX {
                        error.kind() == ErrorKind::Bitstream
                    } else {
                        !fits(old(self).payload@, old(self).offset as int, count as int)
                            && error.kind() == ErrorKind::NotEnoughData
                    }
                },
            },
    {
        let end = match self.offset.checked_add(count) {
            Some(end) => end,
            None => {
                let prefix = concat("gain map ", name);
                return Err(DecoderError::Bitstream(concat(prefix.as_str(), " offset overflows")));
            },
        };
        if end > self.payload.len() {
            let prefix = concat("gain map ", name);
            return Err(DecoderError::NotEnoughData(concat(prefix.as_str(), " is truncated")));
        }
        let bytes = vstd::slice::slice_subrange(self.payload, self.offset, end);
        self.offset = end;
        Ok(bytes)
    }

    fn read_u8(&mut self, name: &str) -> (result: Result<u8, DecoderError>)
        ensures
            final(self).payload == old(self).payload,
            match result {
                Ok(value) => {
                    &&& fits(old(self).payload@, old(self).offset as int, 1)
                    &&& value == old(self).payload@[old(self).offset as int]
                    &&& final(self).offset == old(self).offset + 1
                },
                Err(error) => {
                    &&& final(self).offset == old(self).offset
                    &&& if old(self).offset + 1 > usize::MAX {
                        error.kind() == ErrorKind::Bitstream
                    } else {
                        !fits(old(self).payload@, old(self).offset as int, 1) && error.kind() == ErrorKind::NotEnoughData
                    }
                },
            },
    {
        let bytes = self.read_bytes(1, name)?;
        Ok(bytes[0])
    }

    fn read_u16(&mut self, name: &str) -> (result: Result<u16, DecoderError>)
        ensures
            final(self).payload == old(self).payload,
            match result {
                Ok(value) => {
                    &&& fits(old(self).payload@, old(self).offset as int, 2)
                    &&& value == be_uint(old(self).payload@, old(self).offset as int, 2)
                    &&& final(self).offset == old(self).offset + 2
                },
                Err(error) => {
                    &&& final(self).offset == old(self).offset
                    &&& if old(self).offset + 2 > usize::MAX {
                        error.kind() == ErrorKind::Bitstream
                    } else {
                        !fits(old(self).payload@, old(self).offset as int, 2) && error.kind() == ErrorKind::NotEnoughData
                    }
                },
            },
    {
        let bytes = self.read_bytes(2, name)?;
        let value = bytes[0] as u16 * 256 + bytes[1] as u16;
        assert(value == be_uint(old(self).payload@, old(self).offset as int, 2)) by {
            reveal_with_fuel(be_uint, 3);
        }
        Ok(value)
    }

    fn read_u32(&mut self, name: &str) -> (result: Result<u32, DecoderError>)
        ensures
            final(self).payload == old(self).payload,
            match result {
                Ok(value) => {
                    &&& fits(old(self).payload@, old(self).offset as int, 4)
                    &&& value == be_uint(old(self).payload@, old(self).offset as int, 4)
                    &&& final(self).offset == old(self).offset + 4
                },
                Err(error) => {
                    &&& final(self).offset == old(self).offset
                    &&& if old(self).offset + 4 > usize::MAX {
                        error.kind() == ErrorKind::Bitstream
                    } else {
                        !fits(old(self).payload@, old(self).offset as int, 4) && error.kind() == ErrorKind::NotEnoughData
                    }
                },
            },
    {
        let bytes = self.read_bytes(4, name)?;
        let value = bytes[0] as u32 * 0x100_0000 + bytes[1] as u32 * 0x1_0000 + bytes[2] as u32 * 0x100
            + bytes[3] as u32;
        assert(value == be_uint(old(self).payload@, old(self).offset as int, 4)) by {
            reveal_with_fuel(be_uint, 5);
        }
        Ok(value)
    }

    fn read_i32(&mut self, name: &str) -> (result: Result<i32, DecoderError>)
        ensures
            final(self).payload == old(self).payload,
            match result {
                Ok(value) => {
                    &&& fits(old(self).payload@, old(self).offset as int, 4)
                    &&& value == be_i32(old(self).payload@, old(self).offset as int)
                    &&& final(self).offset == old(self).offset + 4
                },
                Err(error) => {
                    &&& final(self).offset == old(self).offset
                    &&& if old(self).offset + 4 > usize::MAX {
                        error.kind() == ErrorKind::Bitstream
                    } else {
                        !fits(old(self).payload@, old(self).offset as int, 4) && error.kind() == ErrorKind::NotEnoughData
                    }
                },
            },
    {
        let unsigned = self.read_u32(name)?;
        let value: i64 = if unsigned >= 0x8000_0000 {
            unsigned as i64 - 0x1_0000_0000
        } else {
            unsigned as i64
        };
        Ok(value as i32)
    }

    fn read_nonzero_u32(&mut self, name: &str) -> (result: Result<u32, DecoderError>)
        ensures
            final(self).payload == old(self).payload,
            match result {
                Ok(value) => {
                    &&& fits(old(self).payload@, old(self).offset as int, 4)
                    &&& value == be_uint(old(self).payload@, old(self).offset as int, 4)
                    &&& value != 0
                    &&& final(self).offset == old(self).offset + 4
                },
                Err(error) => if old(self).offset + 4 > usize::MAX {
                    error.kind() == ErrorKind::Bitstream
                } else if !fits(old(self).payload@, old(self).offset as int, 4) {
                    error.kind() == ErrorKind::NotEnoughData
                } else {
                    be_uint(old(self).payload@, old(self).offset as int, 4) == 0 && error.kind() == ErrorKind::Bitstream
                },
            },
    {
        let value = self.read_u32(name)?;
        if value == 0 {
            let prefix = concat("gain map ", name);
            return Err(DecoderError::Bitstream(concat(prefix.as_str(), " must be non-zero")));
        }
        Ok(value)
    }

    fn read_unsigned_rational(&mut self, name: &str) -> (result: Result<GainMapRational, DecoderError>)
        requires
            old(self).offset + 8 <= usize::MAX,
        ensures
            final(self).payload == old(self).payload,
            match result {
                Ok(rational) => {
                    &&& fits(old(self).payload@, old(self).offset as int, 8)
                    &&& rational.numerator == be_uint(old(self).payload@, old(self).offset as int, 4)
                    &&& rational.denominator == be_uint(old(self).payload@, old(self).offset + 4, 4)
                    &&& rational.denominator != 0
                    &&& final(self).offset == old(self).offset + 8
                },
                Err(error) => if !fits(old(self).payload@, old(self).offset as int, 8) {
                    error.kind() == ErrorKind::NotEnoughData
                } else {
                    be_uint(old(self).payload@, old(self).offset + 4, 4) == 0 && error.kind() == ErrorKind::Bitstream
                },
            },
    {
        let numerator = self.read_u32(concat(name, " numerator").as_str())?;
        let denominator = self.read_nonzero_u32(concat(name, " denominator").as_str())?;
        Ok(GainMapRational { numerator: numerator as i64, denominator })
    }

    fn read_signed_rational(&mut self, name: &str) -> (result: Result<GainMapRational, DecoderError>)
        requires
            old(self).offset + 8 <= usize::MAX,
        ensures
            final(self).payload == old(self).payload,
            match result {
                Ok(rational) => {
                    &&& fits(old(self).payload@, old(self).offset as int, 8)
                    &&& rational.numerator == be_i32(old(self).payload@, old(self).offset as int)
                    &&& rational.denominator == be_uint(old(self).payload@, old(self).offset + 4, 4)
                    &&& rational.denominator != 0
                    &&& final(self).offset == old(self).offset + 8
                },
                Err(error) => if !fits(old(self).payload@, old(self).offset as int, 8) {
                    error.kind() == ErrorKind::NotEnoughData
                } else {
                    be_uint(old(self).payload@, old(self).offset + 4, 4) == 0 && error.kind() == ErrorKind::Bitstream
                },
            },
    {
        let numerator = self.read_i32(concat(name, " numerator").as_str())?;
        let denominator = self.read_nonzero_u32(concat(name, " denominator").as_str())?;
        Ok(GainMapRational { numerator: numerator as i64, denominator })
    }
}

/// The error a descriptor read stops with: a present zero denominator comes first,
/// otherwise a field is cut short.
pub open spec fn gm_read_error(payload: Seq<u8>) -> ErrorKind {
    if gm_zero_denominator(payload) {
        ErrorKind::Bitstream
    } else {
        ErrorKind::NotEnoughData
    }
}

/// A read of the descriptor fields stopped on `error`, as the fields' order decides.
pub open spec fn gm_read_failed(payload: Seq<u8>, error: DecoderError) -> bool {
    &&& error.kind() == gm_read_error(payload)
    &&& !gm_zero_denominator(payload) ==> payload.len() < gm_length(payload)
}

proof fn lemma_gm_after_numerator(payload: Seq<u8>, r: int)
    requires
        payload.len() >= 5,
        0 <= r < gm_rational_count(payload),
        gm_denominators_nonzero_below(payload, gm_numerator_at(payload, r)),
    ensures
        gm_denominators_nonzero_below(payload, gm_numerator_at(payload, r) + 4),
{
    assert forall|q: int|
        0 <= q < gm_rational_count(payload) && #[trigger] gm_denominator_at(payload, q) + 4 <= gm_numerator_at(payload, r) + 4
        implies be_uint(payload, gm_denominator_at(payload, q), 4) != 0 by {
        assert(gm_denominator_at(payload, q) + 4 <= gm_numerator_at(payload, r));
    }
}

proof fn lemma_gm_after_denominator(payload: Seq<u8>, r: int)
    requires
        payload.len() >= 5,
        0 <= r < gm_rational_count(payload),
        gm_denominators_nonzero_below(payload, gm_denominator_at(payload, r)),
        be_uint(payload, gm_denominator_at(payload, r), 4) != 0,
    ensures
        gm_denominators_nonzero_below(payload, gm_denominator_at(payload, r) + 4),
{
    assert forall|q: int|
        0 <= q < gm_rational_count(payload) && #[trigger] gm_denominator_at(payload, q) + 4 <= gm_denominator_at(payload, r) + 4
        implies be_uint(payload, gm_denominator_at(payload, q), 4) != 0 by {
        if gm_denominator_at(payload, q) != gm_denominator_at(payload, r) {
            assert(gm_denominator_at(payload, q) + 4 <= gm_denominator_at(payload, r));
        }
    }
}

/// A field cut short at the numerator of rational `r`: no earlier denominator was
/// zero, so the payload is short.
proof fn lemma_gm_truncated_numerator(payload: Seq<u8>, r: int)
    requires
        payload.len() >= 5,
        0 <= r < gm_rational_count(payload),
        gm_denominators_nonzero_below(payload, gm_numerator_at(payload, r)),
        payload.len() < gm_numerator_at(payload, r) + 4,
    ensures
        !gm_zero_denominator(payload),
        payload.len() < gm_length(payload),
{
    assert forall|q: int|
        0 <= q < gm_rational_count(payload) && #[trigger] gm_denominator_at(payload, q) + 4 <= payload.len()
        implies be_uint(payload, gm_denominator_at(payload, q), 4) != 0 by {
        assert(gm_denominator_at(payload, q) + 4 <= gm_numerator_at(payload, r));
    }
}

/// A field cut short at the denominator of rational `r`.
proof fn lemma_gm_truncated_denominator(payload: Seq<u8>, r: int)
    requires
        payload.len() >= 5,
        0 <= r < gm_rational_count(payload),
        gm_denominators_nonzero_below(payload, gm_denominator_at(payload, r)),
        payload.len() < gm_denominator_at(payload, r) + 4,
    ensures
        !gm_zero_denominator(payload),
        payload.len() < gm_length(payload),
{
    assert forall|q: int|
        0 <= q < gm_rational_count(payload) && #[trigger] gm_denominator_at(payload, q) + 4 <= payload.len()
        implies be_uint(payload, gm_denominator_at(payload, q), 4) != 0 by {
        assert(gm_denominator_at(payload, q) + 4 <= gm_denominator_at(payload, r));
    }
}

/// The denominator of rational `r` is present and zero.
proof fn lemma_gm_zero_found(payload: Seq<u8>, r: int)
    requires
        payload.len() >= 5,
        0 <= r < gm_rational_count(payload),
        gm_denominator_at(payload, r) + 4 <= payload.len(),
        be_uint(payload, gm_denominator_at(payload, r), 4) == 0,
    ensures
        gm_zero_denominator(payload),
{
}

/// All fields were read and every denominator was non-zero.
proof fn lemma_gm_complete(payload: Seq<u8>)
    requires
        payload.len() >= 5,
        gm_denominators_nonzero_below(payload, gm_length(payload)),
        gm_length(payload) <= payload.len(),
    ensures
        !gm_zero_denominator(payload),
{
    assert forall|q: int|
        0 <= q < gm_rational_count(payload) && #[trigger] gm_denominator_at(payload, q) + 4 <= payload.len()
        implies be_uint(payload, gm_denominator_at(payload, q), 4) != 0 by {
        assert(gm_denominator_at(payload, q) + 4 <= gm_length(payload));
    }
}

/// Reads a separately stored rational: its numerator, then its non-zero denominator.
fn read_gain_map_rational(reader: &mut GainMapReader<'_>, name: &str, signed: bool, Ghost(r): Ghost<int>) -> (result: Result<GainMapRational, DecoderError>)
    requires
        old(reader).payload@.len() >= 5,
        !gm_common_denominator(old(reader).payload@),
        0 <= r < gm_rational_count(old(reader).payload@),
        old(reader).offset == gm_numerator_at(old(reader).payload@, r),
        gm_denominators_nonzero_below(old(reader).payload@, old(reader).offset as int),
    ensures
        final(reader).payload == old(reader).payload,
        match result {
            Ok(rational) => {
                &&& rational == gm_rational(old(reader).payload@, r, signed)
                &&& final(reader).offset == gm_numerator_at(old(reader).payload@, r + 1)
                &&& final(reader).offset <= old(reader).payload@.len()
                &&& gm_denominators_nonzero_below(old(reader).payload@, final(reader).offset as int)
            },
            Err(error) => gm_read_failed(old(reader).payload@, error),
        },
{
    let ghost payload = reader.payload@;
    let result = if signed {
        reader.read_signed_rational(name)
    } else {
        reader.read_unsigned_rational(name)
    };
    proof {
        match result {
            Ok(_) => {
                lemma_gm_after_numerator(payload, r);
                lemma_gm_after_denominator(payload, r);
            },
            Err(_) => {
                if payload.len() < gm_numerator_at(payload, r) + 4 {
                    lemma_gm_truncated_numerator(payload, r);
                } else if payload.len() < gm_denominator_at(payload, r) + 4 {
                    lemma_gm_after_numerator(payload, r);
                    lemma_gm_truncated_denominator(payload, r);
                } else {
                    lemma_gm_zero_found(payload, r);
                }
            },
        }
    }
    result
}

/// Reads channel `c` of a descriptor whose rationals carry their own denominators.
fn parse_gain_map_channel(reader: &mut GainMapReader<'_>, Ghost(c): Ghost<int>) -> (result: Result<GainMapChannel, DecoderError>)
    requires
        old(reader).payload@.len() >= 5,
        !gm_common_denominator(old(reader).payload@),
        0 <= c < gm_channel_count(old(reader).payload@),
        old(reader).offset == gm_numerator_at(old(reader).payload@, 2 + 5 * c),
        gm_denominators_nonzero_below(old(reader).payload@, old(reader).offset as int),
    ensures
        final(reader).payload == old(reader).payload,
        match result {
            Ok(channel) => {
                &&& channel == gm_channel(old(reader).payload@, c)
                &&& final(reader).offset == gm_numerator_at(old(reader).payload@, 2 + 5 * c + 5)
                &&& final(reader).offset <= old(reader).payload@.len()
                &&& gm_denominators_nonzero_below(old(reader).payload@, final(reader).offset as int)
            },
            Err(error) => gm_read_failed(old(reader).payload@, error),
        },
{
    let first = Ghost(2 + 5 * c);
    let gain_map_min = read_gain_map_rational(reader, "gain map minimum", true, first)?;
    let gain_map_max = read_gain_map_rational(reader, "gain map maximum", true, Ghost(first@ + 1))?;
    let gamma = read_gain_map_rational(reader, "gain map gamma", false, Ghost(first@ + 2))?;
    let base_offset = read_gain_map_rational(reader, "base offset", true, Ghost(first@ + 3))?;
    let alternate_offset = read_gain_map_rational(reader, "alternate offset", true, Ghost(first@ + 4))?;
    Ok(GainMapChannel { gain_map_min, gain_map_max, gamma, base_offset, alternate_offset })
}

/// Reads the signed numerator at the reader's position over a shared denominator.
fn read_common_numerator(reader: &mut GainMapReader<'_>, name: &str, signed: bool, denominator: u32, Ghost(r): Ghost<int>) -> (result: Result<GainMapRational, DecoderError>)
    requires
        old(reader).payload@.len() >= 5,
        gm_common_denominator(old(reader).payload@),
        denominator == be_uint(old(reader).payload@, 5, 4),
        denominator != 0,
        0 <= r < gm_rational_count(old(reader).payload@),
        old(reader).offset == gm_numerator_at(old(reader).payload@, r),
    ensures
        final(reader).payload == old(reader).payload,
        match result {
            Ok(rational) => {
                &&& rational == gm_rational(old(reader).payload@, r, signed)
                &&& final(reader).offset == gm_numerator_at(old(reader).payload@, r + 1)
                &&& final(reader).offset <= old(reader).payload@.len()
            },
            Err(error) => gm_read_failed(old(reader).payload@, error),
        },
{
    let ghost payload = reader.payload@;
    let numerator: i64 = if signed {
        match reader.read_i32(name) {
            Ok(value) => value as i64,
            Err(error) => {
                proof {
                    lemma_gm_truncated_numerator(payload, r);
                }
                return Err(error);
            },
        }
    } else {
        match reader.read_u32(name) {
            Ok(value) => value as i64,
            Err(error) => {
                proof {
                    lemma_gm_truncated_numerator(payload, r);
                }
                return Err(error);
            },
        }
    };
    Ok(GainMapRational { numerator, denominator })
}

/// Reads channel `c` of a descriptor with one shared denominator.
fn parse_gain_map_channel_common(reader: &mut GainMapReader<'_>, denominator: u32, Ghost(c): Ghost<int>) -> (result: Result<GainMapChannel, DecoderError>)
    requires
        old(reader).payload@.len() >= 5,
        gm_common_denominator(old(reader).payload@),
        denominator == be_uint(old(reader).payload@, 5, 4),
        denominator != 0,
        0 <= c < gm_channel_count(old(reader).payload@),
        old(reader).offset == gm_numerator_at(old(reader).payload@, 2 + 5 * c),
    ensures
        final(reader).payload == old(reader).payload,
        match result {
            Ok(channel) => {
                &&& channel == gm_channel(old(reader).payload@, c)
                &&& final(reader).offset == gm_numerator_at(old(reader).payload@, 2 + 5 * c + 5)
                &&& final(reader).offset <= old(reader).payload@.len()
            },
            Err(error) => gm_read_failed(old(reader).payload@, error),
        },
{
    let first = Ghost(2 + 5 * c);
    let gain_map_min = read_common_numerator(reader, "gain map minimum numerator", true, denominator, first)?;
    let gain_map_max = read_common_numerator(reader, "gain map maximum numerator", true, denominator, Ghost(first@ + 1))?;
    let gamma = read_common_numerator(reader, "gain map gamma numerator", false, denominator, Ghost(first@ + 2))?;
    let base_offset = read_common_numerator(reader, "base offset numerator", true, denominator, Ghost(first@ + 3))?;
    let alternate_offset = read_common_numerator(reader, "alternate offset numerator", true, denominator, Ghost(first@ + 4))?;
    Ok(GainMapChannel { gain_map_min, gain_map_max, gamma, base_offset, alternate_offset })
}

/// Parses an ISO 21496-1 gain-map descriptor (a `tmap` item payload).
///
/// A minimum version other than 0 is `Unsupported`; a zero denominator, equal
/// headrooms, a maximum below the minimum or a zero gamma is a `Bitstream` error;
/// a short payload is `NotEnoughData`.
pub fn parse_gain_map_metadata_payload(payload: &[u8]) -> (result: Result<GainMapMetadata, DecoderError>)
    ensures
        match result {
            Ok(metadata) => gain_map_outcome(payload@) is Ok && gain_map_fields(payload@, metadata) && gain_map_metadata_valid(
                metadata,
            ),
            Err(error) => gain_map_outcome(payload@) == Err::<(), ErrorKind>(error.kind()),
        },
        payload@.len() >= 2 && be_uint(payload@, 0, 2) != 0 ==> result is Err && result->Err_0.kind() == ErrorKind::Unsupported
            && result->Err_0.detail() == "gain map metadata minimum version "@ + crate::text::decimal_spec(
            be_uint(payload@, 0, 2) as nat,
        ) + " is not supported"@,
{
    match read_gain_map_descriptor(payload) {
        Ok(metadata) => {
            proof {
                lemma_gain_map_metadata_valid(payload@, metadata);
            }
            Ok(metadata)
        },
        Err(DecoderError::NotEnoughData(message)) => if payload.len() >= 2 {
            Err(DecoderError::Bitstream(message))
        } else {
            Err(DecoderError::NotEnoughData(message))
        },
        Err(error) => Err(error),
    }
}

/// Reads a descriptor (see `gain_map_read_outcome`).
fn read_gain_map_descriptor(payload: &[u8]) -> (result: Result<GainMapMetadata, DecoderError>)
    ensures
        match result {
            Ok(metadata) => gain_map_read_outcome(payload@) is Ok && gain_map_fields(payload@, metadata),
            Err(error) => gain_map_read_outcome(payload@) == Err::<(), ErrorKind>(error.kind()),
        },
        payload@.len() >= 2 && be_uint(payload@, 0, 2) != 0 ==> result is Err && result->Err_0.kind() == ErrorKind::Unsupported
            && result->Err_0.detail() == "gain map metadata minimum version "@ + crate::text::decimal_spec(
            be_uint(payload@, 0, 2) as nat,
        ) + " is not supported"@,
{
    let ghost p = payload@;
    let mut reader = GainMapReader::new(payload);
    let minimum_version = reader.read_u16("minimum_version")?;
    if minimum_version != 0 {
        let text = concat("gain map metadata minimum version ", crate::text::decimal(minimum_version as u64).as_str());
        return Err(DecoderError::Unsupported(concat(text.as_str(), " is not supported")));
    }
    let writer_version = reader.read_u16("writer_version")?;
    if writer_version < minimum_version {
        return Err(DecoderError::Bitstream("gain map writer version is below the minimum version".to_string()));
    }
    let flags = reader.read_u8("flags")?;
    let is_multichannel = flags & 0x80 != 0;
    let use_base_colour_space = flags & 0x40 != 0;
    let backward_direction = flags & 0x04 != 0;
    let use_common_denominator = flags & 0x08 != 0;
    let channel_count: usize = if is_multichannel { 3 } else { 1 };
    assert(reader.offset == 5 && flags == p[4]);

    let base_hdr_headroom;
    let alternate_hdr_headroom;
    let mut channels: Vec<GainMapChannel> = Vec::new();
    if use_common_denominator {
        let denominator = match reader.read_nonzero_u32("common denominator") {
            Ok(value) => value,
            Err(error) => {
                proof {
                    if p.len() < 9 {
                        lemma_gm_truncated_denominator(p, 0);
                    } else {
                        lemma_gm_zero_found(p, 0);
                    }
                }
                return Err(error);
            },
        };
        base_hdr_headroom = read_common_numerator(&mut reader, "base HDR headroom numerator", false, denominator, Ghost(0))?;
        alternate_hdr_headroom = read_common_numerator(&mut reader, "alternate HDR headroom numerator", false, denominator, Ghost(1))?;
        let mut c: usize = 0;
        while c < channel_count
            invariant
                p.len() >= 5,
                gm_common_denominator(p),
                denominator == be_uint(p, 5, 4),
                denominator != 0,
                reader.payload@ == p,
                payload@ == p,
                be_uint(p, 0, 2) == 0,
                p[4] == flags,
                reader.offset <= p.len(),
                channel_count == gm_channel_count(p),
                c <= channel_count,
                reader.offset == gm_numerator_at(p, 2 + 5 * c),
                channels@.len() == c,
                forall|k: int| 0 <= k < c ==> channels@[k] == gm_channel(p, k),
            decreases channel_count - c,
        {
            let channel = parse_gain_map_channel_common(&mut reader, denominator, Ghost(c as int))?;
            channels.push(channel);
            c = c + 1;
        }
        proof {
            assert(gm_denominators_nonzero_below(p, gm_length(p)));
            lemma_gm_complete(p);
        }
    } else {
        assert(gm_denominators_nonzero_below(p, 5));
        base_hdr_headroom = read_gain_map_rational(&mut reader, "base HDR headroom", false, Ghost(0))?;
        alternate_hdr_headroom = read_gain_map_rational(&mut reader, "alternate HDR headroom", false, Ghost(1))?;
        let mut c: usize = 0;
        while c < channel_count
            invariant
                p.len() >= 5,
                !gm_common_denominator(p),
                reader.payload@ == p,
                payload@ == p,
                be_uint(p, 0, 2) == 0,
                p[4] == flags,
                reader.offset <= p.len(),
                channel_count == gm_channel_count(p),
                c <= channel_count,
                reader.offset == gm_numerator_at(p, 2 + 5 * c),
                gm_denominators_nonzero_below(p, reader.offset as int),
                channels@.len() == c,
                forall|k: int| 0 <= k < c ==> channels@[k] == gm_channel(p, k),
            decreases channel_count - c,
        {
            let channel = parse_gain_map_channel(&mut reader, Ghost(c as int))?;
            channels.push(channel);
            c = c + 1;
        }
        proof {
            lemma_gm_complete(p);
        }
    }
    assert(!gm_zero_denominator(p) && p.len() >= gm_length(p));

    if base_hdr_headroom == alternate_hdr_headroom {
        return Err(DecoderError::Bitstream("gain map base and alternate HDR headroom must differ".to_string()));
    }
    let mut k: usize = 0;
    while k < channels.len()
        invariant
            payload@ == p,
            p.len() >= 5,
            be_uint(p, 0, 2) == 0,
            !gm_zero_denominator(p),
            p.len() >= gm_length(p),
            gm_rational(p, 0, false) != gm_rational(p, 1, false),
            k <= channels@.len(),
            channels@.len() == gm_channel_count(p),
            forall|j: int| 0 <= j < channels@.len() ==> channels@[j] == gm_channel(p, j),
            forall|j: int| 0 <= j < k ==> gm_channel_valid(#[trigger] gm_channel(p, j)),
        decreases channels@.len() - k,
    {
        let channel = channels[k];
        proof {
            let a = channel.gain_map_max.numerator as int;
            let b = channel.gain_map_min.denominator as int;
            assert(-0x8000_0000_0000_0000 * 0x1_0000_0000 <= a * b <= 0x8000_0000_0000_0000 * 0x1_0000_0000) by (nonlinear_arith)
                requires
                    -0x8000_0000_0000_0000 <= a < 0x8000_0000_0000_0000,
                    0 <= b < 0x1_0000_0000,
            ;
            let c = channel.gain_map_min.numerator as int;
            let d = channel.gain_map_max.denominator as int;
            assert(-0x8000_0000_0000_0000 * 0x1_0000_0000 <= c * d <= 0x8000_0000_0000_0000 * 0x1_0000_0000) by (nonlinear_arith)
                requires
                    -0x8000_0000_0000_0000 <= c < 0x8000_0000_0000_0000,
                    0 <= d < 0x1_0000_0000,
            ;
        }
        let max = channel.gain_map_max.numerator as i128 * channel.gain_map_min.denominator as i128;
        let min = channel.gain_map_min.numerator as i128 * channel.gain_map_max.denominator as i128;
        if max < min {
            assert(!gm_channel_valid(gm_channel(p, k as int)));
            return Err(DecoderError::Bitstream("gain map maximum is below gain map minimum".to_string()));
        }
        if channel.gamma.numerator <= 0 {
            assert(!gm_channel_valid(gm_channel(p, k as int)));
            return Err(DecoderError::Bitstream("gain map gamma numerator must be non-zero".to_string()));
        }
        k = k + 1;
    }
    Ok(GainMapMetadata {
        minimum_version,
        writer_version,
        is_multichannel,
        use_base_colour_space,
        backward_direction,
        base_hdr_headroom,
        alternate_hdr_headroom,
        channels,
    })
}

/// A gain-map image: the descriptor and the AV1 item that the `tmap` item names as
/// its second input.
#[derive(Debug, Clone, PartialEq, Eq)]
pub struct GainMapImage {
    pub metadata: GainMapMetadata,
    pub width: u32,
    pub height: u32,
    pub pixel_information: PixelInformation,
    pub color_information: Option<ColorInformation>,
    pub av1_config: Vec<u8>,
    pub payload: Vec<u8>,
}

/// Item information entry `index` is the first of type `tmap`.
pub open spec fn first_tmap_info(state: &MetaState, index: int) -> bool {
    &&& 0 <= index < state.item_infos@.len()
    &&& state.item_infos@[index].item_type@ == code4(0x74, 0x6d, 0x61, 0x70)
    &&& forall|j: int| 0 <= j < index ==> state.item_infos@[j].item_type@ != code4(0x74, 0x6d, 0x61, 0x70)
}

/// No item information entry has type `tmap`.
pub open spec fn no_tmap_info(state: &MetaState) -> bool {
    forall|k: int| 0 <= k < state.item_infos@.len() ==> state.item_infos@[k].item_type@ != code4(0x74, 0x6d, 0x61, 0x70)
}

/// The metadata of the file and the ID of its first `tmap` item, if the file has one.
///
/// A file in which the bytes `tmap` occur nowhere has none, and is not parsed.
pub fn gain_map_meta_state(data: &[u8]) -> (result: Result<Option<(MetaState, u32)>, DecoderError>)
    ensures
        !contains_code(data@, code4(0x74, 0x6d, 0x61, 0x70)) ==> result matches Ok(None),
        match result {
            Ok(Some((state, item_id))) => meta_state_valid(&state) && exists|index: int|
                #[trigger] first_tmap_info(&state, index) && state.item_infos@[index].item_id == item_id,
            _ => true,
        },
        match result {
            Ok(Some((state, item_id))) => collected_state(data@, state),
            Ok(None) => !contains_code(data@, code4(0x74, 0x6d, 0x61, 0x70)) || exists|state: MetaState|
                #[trigger] collected_state(data@, state) && no_tmap_info(&state),
            Err(_) => true,
        },
        contains_code(data@, code4(0x74, 0x6d, 0x61, 0x70)) && data@.len() > usize::MAX / 8 ==> result is Err
            && result->Err_0.kind() == ErrorKind::InvalidParam,
        data@.len() <= usize::MAX / 8 && file_meta_parses(data@) ==> result is Ok,
{
    let tmap = fourcc_code(0x74, 0x6d, 0x61, 0x70);
    if !contains_fourcc(data, &tmap) {
        return Ok(None);
    }
    if data.len() > usize::MAX / 8 {
        return Err(DecoderError::InvalidParam("input is too large".to_string()));
    }
    let mut meta = MetaState::default();
    let ghost initial = meta;
    collect_meta(data, &mut meta)?;
    proof {
        let (headers, states) = choose|headers: Seq<BoxHeader>, states: Seq<MetaState>|
            #![trigger crate::container::boxes::boxes_tile(data@, headers), top_level_walk(data@, headers, states)]
            {
                &&& crate::container::boxes::boxes_tile(data@, headers)
                &&& top_level_walk(data@, headers, states)
                &&& states[0] == initial
                &&& states.last() == meta
            };
        assert(collected_state(data@, meta));
    }
    let mut index: usize = 0;
    while index < meta.item_infos.len() && !fourcc_eq(&meta.item_infos[index].item_type, &tmap)
        invariant
            tmap@ == code4(0x74, 0x6d, 0x61, 0x70),
            index <= meta.item_infos@.len(),
            forall|j: int| 0 <= j < index ==> meta.item_infos@[j].item_type@ != code4(0x74, 0x6d, 0x61, 0x70),
        decreases meta.item_infos@.len() - index,
    {
        index = index + 1;
    }
    if index == meta.item_infos.len() {
        assert(no_tmap_info(&meta));
        return Ok(None);
    }
    let item_id = meta.item_infos[index].item_id;
    assert(first_tmap_info(&meta, index as int));
    Ok(Some((meta, item_id)))
}

/// The descriptor read from the bytes of item `item_id` is complete and gives `metadata`.
pub open spec fn item_descriptor(data: Seq<u8>, state: MetaState, item_id: u32, metadata: GainMapMetadata) -> bool {
    item_bytes(data, state, item_id, Seq::empty()) matches Ok(payload) && gain_map_outcome(payload) is Ok
        && gain_map_fields(payload, metadata)
}

/// What reading the descriptor of item `item_id` gives: the item's bytes, then the
/// descriptor parsed from them.
pub open spec fn item_descriptor_outcome(data: Seq<u8>, state: MetaState, item_id: u32) -> Result<(), ErrorKind> {
    match item_bytes(data, state, item_id, Seq::empty()) {
        Ok(payload) => gain_map_outcome(payload),
        Err(kind) => Err(kind),
    }
}

/// Reads the bytes of item `item_id` and parses them as a gain-map descriptor.
pub fn parse_item_gain_map_metadata(data: &[u8], state: &MetaState, item_id: u32) -> (result: Result<GainMapMetadata, DecoderError>)
    ensures
        match result {
            Ok(metadata) => item_descriptor(data@, *state, item_id, metadata),
            Err(error) => item_descriptor_outcome(data@, *state, item_id) == Err::<(), ErrorKind>(error.kind()),
        },
        result is Ok <==> item_descriptor_outcome(data@, *state, item_id) is Ok,
{
    let payload = item_payload(data, state, item_id)?;
    parse_gain_map_metadata_payload(payload.as_slice())
}

/// Parses the descriptor of the first `tmap` item of an AVIF file.
///
/// `None` means that the file has no `tmap` item. An unknown descriptor version is
/// `Unsupported`, so that a caller can fall back to the base image; a malformed
/// descriptor of a supported version is a `Bitstream` error.
pub fn parse_gain_map_metadata(data: &[u8]) -> (result: Result<Option<GainMapMetadata>, DecoderError>)
    ensures
        !contains_code(data@, code4(0x74, 0x6d, 0x61, 0x70)) ==> result matches Ok(None),
        match result {
            Ok(Some(metadata)) => exists|state: MetaState, index: int|
                #[trigger] first_tmap_info(&state, index) && collected_state(data@, state) && item_descriptor(
                    data@,
                    state,
                    state.item_infos@[index].item_id,
                    metadata,
                ),
            Ok(None) => !contains_code(data@, code4(0x74, 0x6d, 0x61, 0x70)) || exists|state: MetaState|
                #[trigger] collected_state(data@, state) && no_tmap_info(&state),
            Err(_) => contains_code(data@, code4(0x74, 0x6d, 0x61, 0x70)),
        },
        contains_code(data@, code4(0x74, 0x6d, 0x61, 0x70)) && data@.len() > usize::MAX / 8 ==> result is Err
            && result->Err_0.kind() == ErrorKind::InvalidParam,
        data@.len() <= usize::MAX / 8 && file_meta_parses(data@) ==> match result {
            Err(error) => exists|state: MetaState, index: int|
                #[trigger] first_tmap_info(&state, index) && collected_state(data@, state) && item_descriptor_outcome(
                    data@,
                    state,
                    state.item_infos@[index].item_id,
                ) == Err::<(), ErrorKind>(error.kind()),
            Ok(_) => true,
        },
        gain_map_file_parses(data@) ==> result is Ok,
{
    let (meta, item_id) = match gain_map_meta_state(data)? {
        Some(found) => found,
        None => return Ok(None),
    };
    proof {
        if gain_map_file_parses(data@) {
            let index = choose|index: int| #[trigger] first_tmap_info(&meta, index) && meta.item_infos@[index].item_id == item_id;
            assert(tmap_descriptor_parses(data@, &meta));
            let other = choose|other: int| #[trigger] first_tmap_info(&meta, other) && item_descriptor_outcome(
                data@,
                meta,
                meta.item_infos@[other].item_id,
            ) is Ok;
            lemma_first_tmap_unique(&meta, index, other);
        }
    }
    let metadata = parse_item_gain_map_metadata(data, &meta, item_id)?;
    Ok(Some(metadata))
}

/// The first `tmap` item information entry is unique.
proof fn lemma_first_tmap_unique(state: &MetaState, index: int, other: int)
    requires
        first_tmap_info(state, index),
        first_tmap_info(state, other),
    ensures
        index == other,
{
    if index < other {
        assert(state.item_infos@[index].item_type@ != code4(0x74, 0x6d, 0x61, 0x70));
    } else if other < index {
        assert(state.item_infos@[other].item_type@ != code4(0x74, 0x6d, 0x61, 0x70));
    }
}

/// A gathered `state` has no `tmap` item, or the descriptor of its first one reads.
pub open spec fn tmap_descriptor_parses(data: Seq<u8>, state: &MetaState) -> bool {
    no_tmap_info(state) || exists|index: int|
        #[trigger] first_tmap_info(state, index) && item_descriptor_outcome(data, *state, state.item_infos@[index].item_id) is Ok
}

/// A file whose gain-map descriptor parses: small enough to address, its `meta` box
/// parses, and in the state gathered from it the first `tmap` item's descriptor
/// reads (or there is no `tmap` item).
pub open spec fn gain_map_file_parses(data: Seq<u8>) -> bool {
    &&& data.len() <= usize::MAX / 8
    &&& file_meta_parses(data)
    &&& forall|state: MetaState| #[trigger] collected_state(data, state) ==> tmap_descriptor_parses(data, &state)
}

/// `reference` is a `dimg` reference from item `from_id`.
pub open spec fn dimg_from(reference: ItemReference, from_id: u32) -> bool {
    reference.reference_type@ == code4(0x64, 0x69, 0x6d, 0x67) && reference.from_item_id == from_id
}

/// Reference entry `position` is the first `dimg` reference from item `from_id`.
pub open spec fn first_dimg_reference(state: &MetaState, from_id: u32, position: int) -> bool {
    &&& 0 <= position < state.item_references@.len()
    &&& dimg_from(state.item_references@[position], from_id)
    &&& forall|j: int| 0 <= j < position ==> !dimg_from(state.item_references@[j], from_id)
}

/// The properties of item `gain_id` give the size, `pixi`, colour and `av1C` of `image`.
pub open spec fn gain_map_properties(state: &MetaState, gain_id: u32, image: GainMapImage) -> bool {
    exists|index: int, metadata: PrimaryItemMetadata|
        #![trigger association_entry(state, gain_id, index), metadata_matches(state.item_properties@, state.item_property_associations@[index].associations@, metadata)]
        {
            &&& association_entry(state, gain_id, index)
            &&& metadata_matches(state.item_properties@, state.item_property_associations@[index].associations@, metadata)
            &&& metadata.width == Some(image.width)
            &&& metadata.height == Some(image.height)
            &&& metadata.pixel_information == Some(image.pixel_information)
            &&& metadata.color_information == image.color_information
            &&& metadata.av1_config == Some(image.av1_config)
        }
}

/// `image` is the gain map that the `tmap` item `tmap_id` describes: the second input
/// of its first `dimg` reference, an `av01` item with non-zero dimensions, whose
/// bytes, properties and descriptor it holds.
pub open spec fn gain_map_image_of(data: Seq<u8>, state: &MetaState, tmap_id: u32, image: GainMapImage) -> bool {
    exists|position: int|
        #[trigger] first_dimg_reference(state, tmap_id, position) && {
            let targets = state.item_references@[position].to_item_ids@;
            &&& targets.len() == 2
            &&& exists|k: int| #[trigger] info_entry(state, targets[1], k) && state.item_infos@[k].item_type@ == code4(0x61, 0x76, 0x30, 0x31)
            &&& association_indices_valid(state)
            &&& exists|k: int| #[trigger] association_entry(state, targets[0], k)
            &&& gain_map_properties(state, targets[1], image)
            &&& image.width != 0
            &&& image.height != 0
            &&& item_descriptor(data, *state, tmap_id, image.metadata)
            &&& item_bytes(data, *state, targets[1], Seq::empty()) == Ok::<Seq<u8>, ErrorKind>(image.payload@)
        }
}

/// The properties of the first association entry of `item_id` give the size, `pixi`
/// and `av1C` that a gain-map image needs, with a non-zero size.
pub open spec fn gain_map_properties_complete(state: &MetaState, item_id: u32) -> bool {
    &&& exists|e: int| #[trigger] association_entry(state, item_id, e)
    &&& forall|e: int, metadata: PrimaryItemMetadata|
        #![trigger association_entry(state, item_id, e), metadata_matches(state.item_properties@, state.item_property_associations@[e].associations@, metadata)]
        association_entry(state, item_id, e) && metadata_matches(
            state.item_properties@,
            state.item_property_associations@[e].associations@,
            metadata,
        ) ==> {
            &&& metadata.width matches Some(width) && width != 0
            &&& metadata.height matches Some(height) && height != 0
            &&& metadata.pixel_information is Some
            &&& metadata.av1_config is Some
        }
}

/// The `tmap` item `tmap_id` of `state` gives a gain-map image: its first `dimg`
/// reference names two inputs, the second an `av01` item with complete properties
/// and readable bytes; the base has property associations; the association indexes
/// name properties; and the descriptor reads.
pub open spec fn gain_map_image_parses(data: Seq<u8>, state: &MetaState, tmap_id: u32) -> bool {
    exists|position: int|
        #[trigger] first_dimg_reference(state, tmap_id, position) && {
            let targets = state.item_references@[position].to_item_ids@;
            &&& targets.len() == 2
            &&& exists|k: int| #[trigger] info_entry(state, targets[1], k) && state.item_infos@[k].item_type@ == code4(0x61, 0x76, 0x30, 0x31)
            &&& association_indices_valid(state)
            &&& exists|e: int| #[trigger] association_entry(state, targets[0], e)
            &&& gain_map_properties_complete(state, targets[1])
            &&& item_descriptor_outcome(data, *state, tmap_id) is Ok
            &&& item_bytes(data, *state, targets[1], Seq::empty()) is Ok
        }
}

/// The first association entry of an item is unique.
proof fn lemma_association_entry_unique(state: &MetaState, item_id: u32, e: int, f: int)
    requires
        association_entry(state, item_id, e),
        association_entry(state, item_id, f),
    ensures
        e == f,
{
    if e < f {
        assert(state.item_property_associations@[e].item_id != item_id);
    } else if f < e {
        assert(state.item_property_associations@[f].item_id != item_id);
    }
}

/// The gain-map image that the `tmap` item `tmap_id` of `state` describes.
///
/// No `dimg` reference from the item, a first one that does not name exactly two
/// inputs, a second input without item information, or a property association index
/// that names no property is a `Bitstream` error; a second input that is not `av01`
/// is `Unsupported`.
pub fn gain_map_image_from_state(data: &[u8], meta: &MetaState, tmap_id: u32) -> (result: Result<GainMapImage, DecoderError>)
    ensures
        (forall|p: int| !#[trigger] first_dimg_reference(meta, tmap_id, p)) ==> result matches Err(DecoderError::Bitstream(_)),
        forall|p: int| #[trigger] first_dimg_reference(meta, tmap_id, p) && meta.item_references@[p].to_item_ids@.len() != 2
            ==> result matches Err(DecoderError::Bitstream(_)),
        forall|p: int| #[trigger] first_dimg_reference(meta, tmap_id, p) && meta.item_references@[p].to_item_ids@.len() == 2
            && (forall|k: int| 0 <= k < meta.item_infos@.len() ==> meta.item_infos@[k].item_id != meta.item_references@[p].to_item_ids@[1])
            ==> result matches Err(DecoderError::Bitstream(_)),
        forall|p: int, k: int| #[trigger] first_dimg_reference(meta, tmap_id, p) && meta.item_references@[p].to_item_ids@.len() == 2
            && #[trigger] info_entry(meta, meta.item_references@[p].to_item_ids@[1], k)
            && meta.item_infos@[k].item_type@ != code4(0x61, 0x76, 0x30, 0x31)
            ==> result matches Err(DecoderError::Unsupported(_)),
        forall|p: int, k: int| #[trigger] first_dimg_reference(meta, tmap_id, p) && meta.item_references@[p].to_item_ids@.len() == 2
            && #[trigger] info_entry(meta, meta.item_references@[p].to_item_ids@[1], k)
            && meta.item_infos@[k].item_type@ == code4(0x61, 0x76, 0x30, 0x31) && !association_indices_valid(meta)
            ==> result matches Err(DecoderError::Bitstream(_)),
        match result {
            Ok(image) => gain_map_image_of(data@, meta, tmap_id, image),
            Err(_) => true,
        },
        gain_map_image_parses(data@, meta, tmap_id) ==> result is Ok,
{
    let ghost well = gain_map_image_parses(data@, meta, tmap_id);
    let dimg = fourcc_code(0x64, 0x69, 0x6d, 0x67);
    let mut position: usize = 0;
    while position < meta.item_references.len()
        && !(fourcc_eq(&meta.item_references[position].reference_type, &dimg)
        && meta.item_references[position].from_item_id == tmap_id)
        invariant
            dimg@ == code4(0x64, 0x69, 0x6d, 0x67),
            position <= meta.item_references@.len(),
            forall|j: int| 0 <= j < position ==> !dimg_from(meta.item_references@[j], tmap_id),
        decreases meta.item_references@.len() - position,
    {
        position = position + 1;
    }
    if position == meta.item_references.len() {
        return Err(DecoderError::Bitstream("tmap item is missing dimg input references".to_string()));
    }
    let ghost p = position as int;
    assert(first_dimg_reference(meta, tmap_id, p));
    assert forall|q: int| #[trigger] first_dimg_reference(meta, tmap_id, q) implies q == p by {
        if q < p {
            assert(!dimg_from(meta.item_references@[q], tmap_id));
        } else if p < q {
            assert(!dimg_from(meta.item_references@[p], tmap_id));
        }
    }
    let reference = &meta.item_references[position];
    if reference.to_item_ids.len() != 2 {
        return Err(DecoderError::Bitstream("tmap item must reference one base image and one gain map".to_string()));
    }
    let base_id = reference.to_item_ids[0];
    let gain_map_id = reference.to_item_ids[1];
    let info = match find_info(meta, gain_map_id) {
        Some(info) => info,
        None => {
            let head = concat("tmap gain map item ", crate::text::decimal(gain_map_id as u64).as_str());
            return Err(DecoderError::Bitstream(concat(head.as_str(), " is missing item info")));
        },
    };
    assert forall|k: int| #[trigger] info_entry(meta, gain_map_id, k) implies k == info as int by {
        if k < info as int {
            assert(meta.item_infos@[k].item_id != gain_map_id);
        } else if (info as int) < k {
            assert(meta.item_infos@[info as int].item_id != gain_map_id);
        }
    }
    if !fourcc_eq(&meta.item_infos[info].item_type, &fourcc_code(0x61, 0x76, 0x30, 0x31)) {
        let head = concat("tmap gain map item ", crate::text::decimal(gain_map_id as u64).as_str());
        let middle = concat(head.as_str(), " has unsupported type ");
        let kind = crate::text::bytes4_debug(&meta.item_infos[info].item_type);
        return Err(DecoderError::Unsupported(concat(middle.as_str(), kind.as_str())));
    }
    if !association_indices_checked(meta) {
        return Err(DecoderError::Bitstream("property association index is out of range".to_string()));
    }
    proof {
        if well {
            assert(first_dimg_reference(meta, tmap_id, p));
            let e = choose|e: int| #[trigger] association_entry(meta, base_id, e);
            assert(meta.item_property_associations@[e].item_id == base_id);
            let f = choose|f: int| #[trigger] association_entry(meta, gain_map_id, f);
            assert(meta.item_property_associations@[f].item_id == gain_map_id);
        }
    }
    item_metadata(meta, base_id)?;
    let gain_metadata = item_metadata(meta, gain_map_id)?;
    proof {
        if well {
            let index = choose|index: int|
                #[trigger] association_entry(meta, gain_map_id, index) && metadata_matches(
                    meta.item_properties@,
                    meta.item_property_associations@[index].associations@,
                    gain_metadata,
                );
            assert(gain_map_properties_complete(meta, gain_map_id));
            assert(metadata_matches(meta.item_properties@, meta.item_property_associations@[index].associations@, gain_metadata));
        }
    }
    let width = match gain_metadata.width {
        Some(width) => width,
        None => return Err(DecoderError::Bitstream("tmap gain map item is missing ispe dimensions".to_string())),
    };
    let height = match gain_metadata.height {
        Some(height) => height,
        None => return Err(DecoderError::Bitstream("tmap gain map item is missing ispe dimensions".to_string())),
    };
    if width == 0 || height == 0 {
        return Err(DecoderError::Bitstream("tmap gain map dimensions must be non-zero".to_string()));
    }
    let pixel_information = match gain_metadata.pixel_information {
        Some(pixi) => pixi,
        None => return Err(DecoderError::Bitstream("tmap gain map item is missing pixi".to_string())),
    };
    let av1_config = match gain_metadata.av1_config {
        Some(config) => config,
        None => return Err(DecoderError::Bitstream("tmap gain map item is missing av1C".to_string())),
    };
    let metadata = parse_item_gain_map_metadata(data, meta, tmap_id)?;
    let payload = item_payload(data, meta, gain_map_id)?;
    let image = GainMapImage {
        metadata,
        width,
        height,
        pixel_information,
        color_information: gain_metadata.color_information,
        av1_config,
        payload,
    };
    assert(gain_map_properties(meta, gain_map_id, image));
    assert(gain_map_image_of(data@, meta, tmap_id, image));
    Ok(image)
}

/// A gathered `state` has no `tmap` item, or its first one gives a gain-map image.
pub open spec fn tmap_image_parses(data: Seq<u8>, state: &MetaState) -> bool {
    no_tmap_info(state) || exists|index: int|
        #[trigger] first_tmap_info(state, index) && gain_map_image_parses(data, state, state.item_infos@[index].item_id)
}

/// A file whose gain-map image parses: small enough to address, its `meta` box
/// parses, and in the state gathered from it the first `tmap` item gives an image
/// (or there is no `tmap` item).
pub open spec fn gain_map_image_file_parses(data: Seq<u8>) -> bool {
    &&& data.len() <= usize::MAX / 8
    &&& file_meta_parses(data)
    &&& forall|state: MetaState| #[trigger] collected_state(data, state) ==> tmap_image_parses(data, &state)
}

/// Locates and parses the AV1 image that a `tmap` item names as its second `dimg`
/// input, with the descriptor.
///
/// The gain-map item must be `av01` with non-zero `ispe` dimensions, `pixi` and
/// `av1C`. A property association index that names no property is a `Bitstream`
/// error.
pub fn parse_gain_map_image(data: &[u8]) -> (result: Result<Option<GainMapImage>, DecoderError>)
    ensures
        !contains_code(data@, code4(0x74, 0x6d, 0x61, 0x70)) ==> result matches Ok(None),
        match result {
            Ok(Some(image)) => exists|state: MetaState, index: int|
                #[trigger] first_tmap_info(&state, index) && collected_state(data@, state) && gain_map_image_of(
                    data@,
                    &state,
                    state.item_infos@[index].item_id,
                    image,
                ),
            Ok(None) => !contains_code(data@, code4(0x74, 0x6d, 0x61, 0x70)) || exists|state: MetaState|
                #[trigger] collected_state(data@, state) && no_tmap_info(&state),
            Err(_) => contains_code(data@, code4(0x74, 0x6d, 0x61, 0x70)),
        },
        contains_code(data@, code4(0x74, 0x6d, 0x61, 0x70)) && data@.len() > usize::MAX / 8 ==> result is Err
            && result->Err_0.kind() == ErrorKind::InvalidParam,
        gain_map_image_file_parses(data@) ==> result is Ok,
{
    let (meta, tmap_id) = match gain_map_meta_state(data)? {
        Some(found) => found,
        None => return Ok(None),
    };
    proof {
        if gain_map_image_file_parses(data@) {
            let index = choose|index: int| #[trigger] first_tmap_info(&meta, index) && meta.item_infos@[index].item_id == tmap_id;
            assert(tmap_image_parses(data@, &meta));
            let other = choose|other: int|
                #[trigger] first_tmap_info(&meta, other) && gain_map_image_parses(data@, &meta, meta.item_infos@[other].item_id);
            lemma_first_tmap_unique(&meta, index, other);
        }
    }
    let image = gain_map_image_from_state(data, &meta, tmap_id)?;
    Ok(Some(image))
}

} // verus!

verus! {

/// A rational with a non-zero denominator.
pub open spec fn rational_defined(value: GainMapRational) -> bool {
    value.denominator != 0
}

/// What a parsed descriptor always satisfies: minimum version 0, one channel or
/// three, every denominator non-zero, headrooms that differ, and channels whose
/// maximum is not below their minimum and whose gamma is positive.
pub open spec fn gain_map_metadata_valid(metadata: GainMapMetadata) -> bool {
    &&& metadata.minimum_version == 0
    &&& metadata.channels@.len() == if metadata.is_multichannel { 3int } else { 1int }
    &&& rational_defined(metadata.base_hdr_headroom)
    &&& rational_defined(metadata.alternate_hdr_headroom)
    &&& metadata.base_hdr_headroom != metadata.alternate_hdr_headroom
    &&& forall|c: int|
        0 <= c < metadata.channels@.len() ==> {
            let channel = #[trigger] metadata.channels@[c];
            &&& rational_defined(channel.gain_map_min)
            &&& rational_defined(channel.gain_map_max)
            &&& rational_defined(channel.gamma)
            &&& rational_defined(channel.base_offset)
            &&& rational_defined(channel.alternate_offset)
            &&& gm_channel_valid(channel)
        }
}

/// A descriptor that parses has a non-zero denominator for each of its rationals.
proof fn lemma_gm_denominator_nonzero(payload: Seq<u8>, r: int)
    requires
        gain_map_outcome(payload) is Ok,
        0 <= r < gm_rational_count(payload),
    ensures
        be_uint(payload, gm_denominator_at(payload, r), 4) != 0,
        gm_rational(payload, r, true).denominator != 0,
        gm_rational(payload, r, false).denominator != 0,
{
    assert(gm_denominator_at(payload, r) + 4 <= gm_length(payload));
    crate::container::bytes::lemma_be_uint_bounds(payload, gm_denominator_at(payload, r), 4);
    vstd::arithmetic::power2::lemma2_to64();
    if be_uint(payload, gm_denominator_at(payload, r), 4) == 0 {
        assert(gm_zero_denominator(payload));
    }
}

/// Every descriptor that parses gives valid metadata.
pub proof fn lemma_gain_map_metadata_valid(payload: Seq<u8>, metadata: GainMapMetadata)
    requires
        gain_map_outcome(payload) is Ok,
        gain_map_fields(payload, metadata),
    ensures
        gain_map_metadata_valid(metadata),
{
    lemma_gm_denominator_nonzero(payload, 0);
    lemma_gm_denominator_nonzero(payload, 1);
    assert forall|c: int| 0 <= c < metadata.channels@.len() implies {
        let channel = #[trigger] metadata.channels@[c];
        &&& rational_defined(channel.gain_map_min)
        &&& rational_defined(channel.gain_map_max)
        &&& rational_defined(channel.gamma)
        &&& rational_defined(channel.base_offset)
        &&& rational_defined(channel.alternate_offset)
        &&& gm_channel_valid(channel)
    } by {
        let first = 2 + 5 * c;
        lemma_gm_denominator_nonzero(payload, first);
        lemma_gm_denominator_nonzero(payload, first + 1);
        lemma_gm_denominator_nonzero(payload, first + 2);
        lemma_gm_denominator_nonzero(payload, first + 3);
        lemma_gm_denominator_nonzero(payload, first + 4);
        assert(metadata.channels@[c] == gm_channel(payload, c));
        assert(gm_channel_valid(gm_channel(payload, c)));
    }
}

} // verus!
