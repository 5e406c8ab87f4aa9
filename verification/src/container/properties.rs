//! Item property boxes (`ipco` children) and their parsers.
use vstd::prelude::*;
use crate::container::bytes::{be_uint, fits, read_fourcc, read_u16, read_u32, read_u8};
use crate::container::types::{
    CleanAperture, ColorInformation, ImageMirror, ImageRotation, ImageSpatialExtents, NclxColorInformation,
    PixelChannelInformation, PixelInformation, PixelSubsampling,
};
use crate::error::{DecoderError, ErrorKind};

verus! {

/// Parses a `clap` clean aperture: eight big-endian `u32` fractions.
pub fn parse_clap(payload: &[u8]) -> (result: Result<CleanAperture, DecoderError>)
    ensures
        match result {
            Ok(clap) => {
                let p = payload@;
                &&& p.len() >= 32
                &&& clap.width_n == be_uint(p, 0, 4) && clap.width_d == be_uint(p, 4, 4)
                &&& clap.height_n == be_uint(p, 8, 4) && clap.height_d == be_uint(p, 12, 4)
                &&& clap.horizontal_offset_n == be_uint(p, 16, 4) && clap.horizontal_offset_d == be_uint(p, 20, 4)
                &&& clap.vertical_offset_n == be_uint(p, 24, 4) && clap.vertical_offset_d == be_uint(p, 28, 4)
            },
            Err(error) => payload@.len() < 32 && error.kind() == ErrorKind::NotEnoughData,
        },
{
    if payload.len() < 32 {
        return Err(DecoderError::NotEnoughData("clap payload is too short".to_string()));
    }
    Ok(CleanAperture {
        width_n: read_u32(payload, 0)?,
        width_d: read_u32(payload, 4)?,
        height_n: read_u32(payload, 8)?,
        height_d: read_u32(payload, 12)?,
        horizontal_offset_n: read_u32(payload, 16)?,
        horizontal_offset_d: read_u32(payload, 20)?,
        vertical_offset_n: read_u32(payload, 24)?,
        vertical_offset_d: read_u32(payload, 28)?,
    })
}

/// Parses an `irot` rotation: the low two bits of the first byte.
pub fn parse_irot(payload: &[u8]) -> (result: Result<ImageRotation, DecoderError>)
    ensures
        match result {
            Ok(rotation) => payload@.len() >= 1 && rotation.angle == payload@[0] % 4,
            Err(error) => payload@.len() == 0 && error.kind() == ErrorKind::NotEnoughData,
        },
{
    let value = read_u8(payload, 0)?;
    Ok(ImageRotation { angle: value % 4 })
}

/// Parses an `imir` mirror: the low bit of the first byte.
pub fn parse_imir(payload: &[u8]) -> (result: Result<ImageMirror, DecoderError>)
    ensures
        match result {
            Ok(mirror) => payload@.len() >= 1 && mirror.axis == payload@[0] % 2,
            Err(error) => payload@.len() == 0 && error.kind() == ErrorKind::NotEnoughData,
        },
{
    let value = read_u8(payload, 0)?;
    Ok(ImageMirror { axis: value % 2 })
}

/// Parses `ispe` image extents: width and height after the full-box header.
pub fn parse_ispe(payload: &[u8]) -> (result: Result<ImageSpatialExtents, DecoderError>)
    ensures
        match result {
            Ok(extents) => payload@.len() >= 12 && extents.width == be_uint(payload@, 4, 4) && extents.height
                == be_uint(payload@, 8, 4),
            Err(error) => payload@.len() < 12 && error.kind() == ErrorKind::NotEnoughData,
        },
{
    if payload.len() < 12 {
        return Err(DecoderError::NotEnoughData("ispe payload is too short".to_string()));
    }
    Ok(ImageSpatialExtents { width: read_u32(payload, 4)?, height: read_u32(payload, 8)? })
}

/// Parses a `colr` box: the colour type and the bytes that follow it.
pub fn parse_colr(payload: &[u8]) -> (result: Result<ColorInformation, DecoderError>)
    ensures
        match result {
            Ok(color) => payload@.len() >= 4 && color.color_type@ == payload@.subrange(0, 4) && color.payload@
                == payload@.subrange(4, payload@.len() as int),
            Err(error) => payload@.len() < 4 && error.kind() == ErrorKind::NotEnoughData,
        },
{
    if payload.len() < 4 {
        return Err(DecoderError::NotEnoughData("colr payload is too short".to_string()));
    }
    let color_type = read_fourcc(payload, 0)?;
    let rest = vstd::slice::slice_subrange(payload, 4, payload.len());
    Ok(ColorInformation { color_type, payload: vstd::slice::slice_to_vec(rest) })
}

/// Parses an `a1op` operating point selector: exactly one byte.
pub fn parse_a1op(payload: &[u8]) -> (result: Result<u8, DecoderError>)
    ensures
        match result {
            Ok(index) => payload@.len() == 1 && index == payload@[0],
            Err(error) => payload@.len() != 1 && error.kind() == ErrorKind::Bitstream,
        },
{
    if payload.len() != 1 {
        return Err(DecoderError::Bitstream("a1op payload must contain one byte".to_string()));
    }
    Ok(payload[0])
}

/// Parses an `lsel` layer selector: exactly one big-endian `u16`.
pub fn parse_lsel(payload: &[u8]) -> (result: Result<u16, DecoderError>)
    ensures
        match result {
            Ok(layer) => payload@.len() == 2 && layer == be_uint(payload@, 0, 2),
            Err(error) => payload@.len() != 2 && error.kind() == ErrorKind::Bitstream,
        },
{
    if payload.len() != 2 {
        return Err(DecoderError::Bitstream("lsel payload must contain one 16-bit layer id".to_string()));
    }
    read_u16(payload, 0)
}

/// The width in bytes of the `a1lx` layer sizes announced by its first byte.
pub open spec fn a1lx_field_bytes(first: u8) -> nat {
    if first % 2 == 0 { 2 } else { 4 }
}

/// Parses an `a1lx` layered image index: a flag byte then three layer sizes of
/// two bytes, or four when the flag's low bit is set.
pub fn parse_a1lx(payload: &[u8]) -> (result: Result<[u64; 3], DecoderError>)
    ensures
        match result {
            Ok(sizes) => {
                let width = a1lx_field_bytes(payload@[0]);
                &&& payload@.len() >= 1
                &&& payload@[0] < 2
                &&& payload@.len() == 1 + 3 * width
                &&& forall|i: int| 0 <= i < 3 ==> sizes@[i] == be_uint(payload@, 1 + i * width, width)
            },
            Err(error) => if payload@.len() == 0 {
                error.kind() == ErrorKind::NotEnoughData
            } else {
                (payload@[0] >= 2 || payload@.len() != 1 + 3 * a1lx_field_bytes(payload@[0])) && error.kind()
                    == ErrorKind::Bitstream
            },
        },
{
    if payload.len() == 0 {
        return Err(DecoderError::NotEnoughData("a1lx payload is empty".to_string()));
    }
    let large_size = payload[0];
    if large_size >= 2 {
        return Err(DecoderError::Bitstream("a1lx reserved bits are not zero".to_string()));
    }
    let field_bytes: usize = if large_size % 2 == 0 { 2 } else { 4 };
    let expected = 1 + field_bytes * 3;
    if payload.len() != expected {
        let head = crate::text::concat("a1lx payload length ", crate::text::decimal(payload.len() as u64).as_str());
        let middle = crate::text::concat(head.as_str(), " does not match ");
        let tail = crate::text::concat(middle.as_str(), crate::text::decimal(field_bytes as u64).as_str());
        return Err(DecoderError::Bitstream(crate::text::concat(tail.as_str(), "-byte layer sizes")));
    }
    let mut sizes = [0u64; 3];
    let mut index: usize = 0;
    while index < 3
        invariant
            index <= 3,
            payload@.len() == 1 + field_bytes * 3,
            field_bytes == a1lx_field_bytes(payload@[0]),
            forall|i: int| 0 <= i < index ==> sizes@[i] == be_uint(payload@, 1 + i * field_bytes, field_bytes as nat),
        decreases 3 - index,
    {
        let offset = 1 + index * field_bytes;
        let size = if field_bytes == 2 {
            read_u16(payload, offset)? as u64
        } else {
            read_u32(payload, offset)? as u64
        };
        sizes[index] = size;
        index = index + 1;
    }
    Ok(sizes)
}

/// Parses an `auxC` auxiliary type: the UTF-8 text after the full-box header, up to
/// its first NUL byte.
pub fn parse_auxc(payload: &[u8]) -> (result: Result<String, DecoderError>)
    ensures
        match result {
            Ok(aux_type) => payload@.len() >= 4 && exists|end: int|
                #![trigger payload@.subrange(4, end)]
                4 <= end <= payload@.len() && (end == payload@.len() || payload@[end] == 0) && (forall|k: int|
                    4 <= k < end ==> payload@[k] != 0) && vstd::utf8::valid_utf8(payload@.subrange(4, end))
                    && aux_type@ == vstd::utf8::decode_utf8(payload@.subrange(4, end)),
            Err(error) => payload@.len() < 4 && error.kind() == ErrorKind::NotEnoughData || error.kind()
                == ErrorKind::Bitstream,
        },
        payload@.len() >= 4 && crate::container::items::c_string_valid(payload@, 4) ==> result is Ok,
{
    if payload.len() < 4 {
        return Err(DecoderError::NotEnoughData("auxC full-box header is missing".to_string()));
    }
    let mut end: usize = 4;
    while end < payload.len() && payload[end] != 0
        invariant
            4 <= end <= payload@.len(),
            forall|k: int| 4 <= k < end ==> payload@[k] != 0,
        decreases payload@.len() - end,
    {
        end = end + 1;
    }
    let text = vstd::slice::slice_subrange(payload, 4, end);
    assert(crate::container::items::c_string_end(payload@, 4, end as int));
    match crate::text::utf8_string(text) {
        Some(value) => Ok(value),
        None => Err(DecoderError::Bitstream("auxC auxiliary type is not UTF-8".to_string())),
    }
}

} // verus!

verus! {

/// Bit `position` of `data`, most significant bit of each byte first.
pub open spec fn bit_at(data: Seq<u8>, position: int) -> int {
    (data[position / 8] as int / vstd::arithmetic::power2::pow2((7 - position % 8) as nat) as int) % 2
}

/// The `count` bits starting at bit `start`, as a big-endian unsigned number.
pub open spec fn bits_value(data: Seq<u8>, start: int, count: nat) -> int
    decreases count,
{
    if count == 0 {
        0
    } else {
        bits_value(data, start, (count - 1) as nat) * 2 + bit_at(data, start + count - 1)
    }
}

/// A big-endian bit reader over the channel descriptors of an extended `pixi`.
pub struct PixiBitReader<'a> {
    pub data: &'a [u8],
    pub bit_position: usize,
}

impl<'a> PixiBitReader<'a> {
    /// The reader is positioned within its data.
    pub open spec fn valid(&self) -> bool {
        self.bit_position <= self.data@.len() * 8 && self.data@.len() * 8 <= usize::MAX
    }

    pub fn new(data: &'a [u8]) -> (reader: Self)
        ensures
            reader.data == data,
            reader.bit_position == 0,
    {
        PixiBitReader { data, bit_position: 0 }
    }

    /// Reads `count` bits (at most 32) as a big-endian number.
    pub fn read_bits(&mut self, count: usize, field: &str) -> (result: Result<u32, DecoderError>)
        requires
            old(self).valid(),
        ensures
            final(self).valid(),
            final(self).data == old(self).data,
            match result {
                Ok(value) => {
                    &&& count <= 32
                    &&& old(self).bit_position + count <= old(self).data@.len() * 8
                    &&& value == bits_value(old(self).data@, old(self).bit_position as int, count as nat)
                    &&& final(self).bit_position == old(self).bit_position + count
                },
                Err(error) => if count > 32 || old(self).bit_position + count > usize::MAX {
                    error.kind() == ErrorKind::Bitstream
                } else {
                    old(self).bit_position + count > old(self).data@.len() * 8 && error.kind() == ErrorKind::NotEnoughData
                },
            },
    {
        if count > 32 {
            return Err(DecoderError::Bitstream(crate::text::concat(field, " requests too many bits")));
        }
        if self.bit_position > usize::MAX - count {
            return Err(DecoderError::Bitstream(crate::text::concat(field, " bit position overflows")));
        }
        let end = self.bit_position + count;
        if end > self.data.len() * 8 {
            return Err(DecoderError::NotEnoughData(crate::text::concat(field, " is truncated")));
        }
        let ghost start = self.bit_position as int;
        proof {
            vstd::arithmetic::power2::lemma2_to64();
        }
        let mut value: u32 = 0;
        let mut read: usize = 0;
        while read < count
            invariant
                read <= count <= 32,
                self.data == old(self).data,
                self.data@.len() * 8 <= usize::MAX,
                self.bit_position == start + read,
                start + count <= self.data@.len() * 8,
                value == bits_value(self.data@, start, read as nat),
                value < vstd::arithmetic::power2::pow2(read as nat),
            decreases count - read,
        {
            let byte = self.data[self.bit_position / 8];
            let shift = (7 - (self.bit_position % 8)) as u8;
            proof {
                vstd::bits::lemma_u8_shr_is_div(byte, shift);
                vstd::arithmetic::power2::lemma_pow2_adds(read as nat, 1);
                vstd::arithmetic::power2::lemma2_to64();
                vstd::arithmetic::power2::lemma_pow2_strictly_increases(read as nat, 32);
            }
            let bit = ((byte >> shift) % 2) as u32;
            value = value * 2 + bit;
            self.bit_position = self.bit_position + 1;
            read = read + 1;
        }
        Ok(value)
    }

    /// Skips a NUL-terminated label; the reader must be at a byte boundary.
    pub fn skip_utf8_string(&mut self, channel: usize) -> (result: Result<(), DecoderError>)
        requires
            old(self).valid(),
        ensures
            final(self).valid(),
            final(self).data == old(self).data,
            match result {
                Ok(()) => old(self).bit_position % 8 == 0 && final(self).bit_position % 8 == 0 && ({
                    let start = old(self).bit_position / 8;
                    let end = final(self).bit_position / 8;
                    &&& start < end <= old(self).data@.len()
                    &&& old(self).data@[end - 1] == 0
                    &&& forall|k: int| start <= k < end - 1 ==> old(self).data@[k] != 0
                }),
                Err(error) => if old(self).bit_position % 8 != 0 {
                    error.kind() == ErrorKind::Bitstream
                } else {
                    error.kind() == ErrorKind::NotEnoughData && forall|k: int|
                        old(self).bit_position / 8 <= k < old(self).data@.len() ==> old(self).data@[k] != 0
                },
            },
    {
        if self.bit_position % 8 != 0 {
            let head = crate::text::concat("pixi channel ", crate::text::decimal(channel as u64).as_str());
            return Err(DecoderError::Bitstream(crate::text::concat(head.as_str(), " label is not byte aligned")));
        }
        let start = self.bit_position / 8;
        let mut cursor = start;
        while cursor < self.data.len() && self.data[cursor] != 0
            invariant
                start <= cursor <= self.data@.len(),
                forall|k: int| start <= k < cursor ==> self.data@[k] != 0,
            decreases self.data@.len() - cursor,
        {
            cursor = cursor + 1;
        }
        if cursor == self.data.len() {
            let head = crate::text::concat("pixi channel ", crate::text::decimal(channel as u64).as_str());
            return Err(DecoderError::NotEnoughData(crate::text::concat(head.as_str(), " label is unterminated")));
        }
        self.bit_position = (cursor + 1) * 8;
        Ok(())
    }
}

} // verus!

verus! {

/// A channel descriptor accepted by the extended `pixi` parser.
pub open spec fn supported_pixi_channel(channel: PixelChannelInformation) -> bool {
    &&& channel.channel_idc == 0
    &&& channel.component_format == 0
    &&& match channel.subsampling {
        Some(subsampling) => subsampling.subsampling_type < 5 && subsampling.subsampling_location <= 4,
        None => true,
    }
}

fn channel_message(channel: usize, middle: &str, value: u64, tail: &str) -> (message: String)
    ensures
        message@ == "pixi channel "@ + crate::text::decimal_spec(channel as nat) + middle@ + crate::text::decimal_spec(
            value as nat,
        ) + tail@,
{
    let head = crate::text::concat("pixi channel ", crate::text::decimal(channel as u64).as_str());
    let head = crate::text::concat(head.as_str(), middle);
    let head = crate::text::concat(head.as_str(), crate::text::decimal(value).as_str());
    crate::text::concat(head.as_str(), tail)
}

/// Parses a `pixi` pixel information property: one bit depth per channel, then,
/// when flag bit 0 is set, one descriptor per channel.
pub fn parse_pixi(payload: &[u8]) -> (result: Result<PixelInformation, DecoderError>)
    requires
        crate::container::bytes::addressable(payload@.len() as int),
    ensures
        match result {
            Ok(pixi) => {
                let count = payload@[4] as int;
                let flags = be_uint(payload@, 1, 3);
                &&& payload@.len() >= 5 + count
                &&& payload@[0] == 0
                &&& flags < 2
                &&& pixi.bits_per_channel@ == payload@.subrange(5, 5 + count)
                &&& pixi.extended_channels is None <==> flags == 0
                &&& match pixi.extended_channels {
                    Some(channels) => channels@.len() == count && forall|i: int|
                        0 <= i < count ==> supported_pixi_channel(#[trigger] channels@[i]),
                    None => true,
                }
            },
            Err(error) => if payload@.len() < 5 {
                error.kind() == ErrorKind::NotEnoughData
            } else if payload@[0] != 0 {
                error.kind() == ErrorKind::Unsupported
            } else if payload@.len() < 5 + payload@[4] {
                error.kind() == ErrorKind::NotEnoughData
            } else if be_uint(payload@, 1, 3) >= 2 {
                error.kind() == ErrorKind::Unsupported
            } else {
                be_uint(payload@, 1, 3) == 1
            },
        },
{
    if payload.len() < 5 {
        return Err(DecoderError::NotEnoughData("pixi payload is too short".to_string()));
    }
    if payload[0] != 0 {
        let head = crate::text::concat("pixi version ", crate::text::decimal(payload[0] as u64).as_str());
        return Err(DecoderError::Unsupported(crate::text::concat(head.as_str(), " is not supported")));
    }
    let channel_count = payload[4] as usize;
    if payload.len() < 5 + channel_count {
        return Err(DecoderError::NotEnoughData("pixi channel depth list is too short".to_string()));
    }
    let flags = crate::container::bytes::read_u24(payload, 1)?;
    if flags >= 2 {
        let head = crate::text::concat("pixi flags 0x", crate::text::hex_padded(flags, 6).as_str());
        return Err(DecoderError::Unsupported(crate::text::concat(head.as_str(), " are not supported")));
    }
    let extended_channels = if flags % 2 == 0 {
        None
    } else {
        let rest = vstd::slice::slice_subrange(payload, 5 + channel_count, payload.len());
        let mut reader = PixiBitReader::new(rest);
        let mut channels: Vec<PixelChannelInformation> = Vec::new();
        let mut channel: usize = 0;
        while channel < channel_count
            invariant
                channel <= channel_count,
                reader.valid(),
                reader.data@.len() <= payload@.len(),
                crate::container::bytes::addressable(payload@.len() as int),
                payload@.len() >= 5 + channel_count,
                channel_count == payload@[4],
                payload@[0] == 0,
                be_uint(payload@, 1, 3) == 1,
                channels@.len() == channel,
                forall|i: int| 0 <= i < channel ==> supported_pixi_channel(#[trigger] channels@[i]),
            decreases channel_count - channel,
        {
            let channel_idc = reader.read_bits(3, "pixi channel_idc")? as u8;
            let reserved = reader.read_bits(1, "pixi reserved")?;
            let component_format = reader.read_bits(2, "pixi component_format")? as u8;
            let subsampling_flag = reader.read_bits(1, "pixi subsampling_flag")? != 0;
            let channel_label_flag = reader.read_bits(1, "pixi channel_label_flag")? != 0;
            if reserved != 0 {
                return Err(DecoderError::Bitstream(channel_message(channel, "", 0, " has non-zero reserved bits")));
            }
            if channel_idc != 0 {
                return Err(DecoderError::Unsupported(
                    channel_message(channel, " idc ", channel_idc as u64, " is not supported"),
                ));
            }
            if component_format != 0 {
                return Err(DecoderError::Unsupported(
                    channel_message(channel, " component format ", component_format as u64, " is not supported"),
                ));
            }
            let subsampling = if subsampling_flag {
                let subsampling_type = reader.read_bits(4, "pixi subsampling_type")? as u8;
                let subsampling_location = reader.read_bits(4, "pixi subsampling_location")? as u8;
                if subsampling_type >= 5 {
                    return Err(DecoderError::Bitstream(
                        channel_message(channel, " subsampling type ", subsampling_type as u64, " is reserved"),
                    ));
                }
                if subsampling_location > 4 {
                    return Err(DecoderError::Bitstream(
                        channel_message(channel, " subsampling location ", subsampling_location as u64, " is reserved"),
                    ));
                }
                Some(PixelSubsampling { subsampling_type, subsampling_location })
            } else {
                None
            };
            if channel_label_flag {
                reader.skip_utf8_string(channel)?;
            }
            channels.push(PixelChannelInformation { channel_idc, component_format, subsampling });
            channel = channel + 1;
        }
        Some(channels)
    };
    let depths = vstd::slice::slice_subrange(payload, 5, 5 + channel_count);
    Ok(PixelInformation { bits_per_channel: vstd::slice::slice_to_vec(depths), extended_channels })
}

} // verus!

verus! {

/// Whether two four-character codes are equal.
pub fn fourcc_eq(code: &[u8; 4], other: &[u8; 4]) -> (equal: bool)
    ensures
        equal == (code@ == other@),
{
    let equal = code[0] == other[0] && code[1] == other[1] && code[2] == other[2] && code[3] == other[3];
    proof {
        if equal {
            assert(code@ =~= other@);
        }
    }
    equal
}

/// The four-character code of four bytes (ASCII letters, written as numbers).
pub open spec fn code4(a: u8, b: u8, c: u8, d: u8) -> Seq<u8> {
    seq![a, b, c, d]
}

impl ColorInformation {
    /// The CICP fields of an `nclx` colour box with at least seven payload bytes.
    pub fn nclx(&self) -> (nclx: Option<NclxColorInformation>)
        ensures
            match nclx {
                Some(info) => {
                    let p = self.payload@;
                    &&& self.color_type@ == code4(0x6e, 0x63, 0x6c, 0x78)
                    &&& p.len() >= 7
                    &&& info.color_primaries == be_uint(p, 0, 2)
                    &&& info.transfer_characteristics == be_uint(p, 2, 2)
                    &&& info.matrix_coefficients == be_uint(p, 4, 2)
                    &&& info.full_range_flag == (p[6] >= 128)
                },
                None => self.color_type@ != code4(0x6e, 0x63, 0x6c, 0x78) || self.payload@.len() < 7,
            },
    {
        let nclx_code: [u8; 4] = [0x6e, 0x63, 0x6c, 0x78];
        assert(nclx_code@ =~= code4(0x6e, 0x63, 0x6c, 0x78));
        if !fourcc_eq(&self.color_type, &nclx_code) || self.payload.len() < 7 {
            return None;
        }
        let p = self.payload.as_slice();
        proof {
            reveal_with_fuel(be_uint, 3);
        }
        Some(NclxColorInformation {
            color_primaries: p[0] as u16 * 256 + p[1] as u16,
            transfer_characteristics: p[2] as u16 * 256 + p[3] as u16,
            matrix_coefficients: p[4] as u16 * 256 + p[5] as u16,
            full_range_flag: p[6] >= 128,
        })
    }

    /// The embedded ICC profile of a `prof` or `rICC` colour box.
    pub fn icc_profile(&self) -> (profile: Option<&[u8]>)
        ensures
            match profile {
                Some(bytes) => (self.color_type@ == code4(0x70, 0x72, 0x6f, 0x66) || self.color_type@ == code4(0x72, 0x49, 0x43, 0x43)) && bytes@ == self.payload@,
                None => self.color_type@ != code4(0x70, 0x72, 0x6f, 0x66) && self.color_type@ != code4(0x72, 0x49, 0x43, 0x43),
            },
    {
        let prof: [u8; 4] = [0x70, 0x72, 0x6f, 0x66];
        let ricc: [u8; 4] = [0x72, 0x49, 0x43, 0x43];
        assert(prof@ =~= code4(0x70, 0x72, 0x6f, 0x66));
        assert(ricc@ =~= code4(0x72, 0x49, 0x43, 0x43));
        if fourcc_eq(&self.color_type, &prof) || fourcc_eq(&self.color_type, &ricc) {
            Some(self.payload.as_slice())
        } else {
            None
        }
    }
}

} // verus!

verus! {

/// The four-character code of four bytes.
pub fn fourcc_code(a: u8, b: u8, c: u8, d: u8) -> (code: [u8; 4])
    ensures
        code@ == code4(a, b, c, d),
{
    let code = [a, b, c, d];
    assert(code@ =~= code4(a, b, c, d));
    code
}

} // verus!
