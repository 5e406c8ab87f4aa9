//! AV1 tile layout and the `tile_group_obu()` syntax that locates each tile's data.
use vstd::prelude::*;
use crate::error::{DecoderError, ErrorKind};

verus! {

/// The tile layout of a frame (`tile_info()`), with the tile start positions in
/// 4x4 mode-info units.
#[derive(Debug, Clone, PartialEq, Eq)]
pub struct TileInfo {
    pub uniform_tile_spacing: bool,
    pub dependent_tiles: bool,
    pub loop_filter_across_tiles: bool,
    pub tile_cols: u32,
    pub tile_rows: u32,
    pub tile_cols_log2: u8,
    pub tile_rows_log2: u8,
    pub tile_size_bytes: u8,
    pub context_update_tile_id: u32,
    pub mi_col_starts: Vec<u32>,
    pub mi_row_starts: Vec<u32>,
}

/// Where one tile's data lies in a payload.
#[derive(Debug, Clone, Copy, PartialEq, Eq, Structural)]
pub struct TilePayload {
    pub tile_id: u32,
    pub offset: usize,
    pub len: usize,
}

/// The tiles of one tile group: the range of tile numbers it covers, where its
/// tile data starts, and where each tile lies.
#[derive(Debug, Clone, PartialEq, Eq)]
pub struct TileGroup {
    pub start_tile: u32,
    pub end_tile: u32,
    pub data_start_offset: usize,
    pub tiles: Vec<TilePayload>,
}

/// Bit `k` (most significant first) of the bytes from `offset` on.
pub open spec fn header_bit(data: Seq<u8>, offset: int, k: int) -> u8 {
    (data[offset + k / 8] >> ((7 - k % 8) as u8)) & 1u8
}

/// The `n`-bit unsigned value (`f(n)`) whose first bit is bit `start` of the bytes
/// from `offset` on.
pub open spec fn header_bits(data: Seq<u8>, offset: int, start: int, n: nat) -> int
    decreases n,
{
    if n == 0 {
        0
    } else {
        2 * header_bits(data, offset, start, (n - 1) as nat) + header_bit(data, offset, start + n - 1)
    }
}

/// The `n`-byte little-endian value (`le(n)`) at `position`.
pub open spec fn le_uint(data: Seq<u8>, position: int, n: nat) -> int
    decreases n,
{
    if n == 0 {
        0
    } else {
        data[position] + 256 * le_uint(data, position + 1, (n - 1) as nat)
    }
}

/// The header of a tile group of `num_tiles` tiles at `offset`: the first and last
/// tile number and the header's length in bytes. With more than one tile a flag
/// bit says whether the range is coded in `tile_bits` bits each; without it the
/// group holds every tile. A range past 16 bits is refused.
pub open spec fn tile_group_header(data: Seq<u8>, offset: int, num_tiles: int, tile_bits: int) -> Result<(int, int, int), ErrorKind> {
    if num_tiles <= 1 {
        Ok((0, num_tiles - 1, 0))
    } else if offset + 1 > data.len() {
        Err(ErrorKind::NotEnoughData)
    } else if header_bit(data, offset, 0) == 0 {
        Ok((0, num_tiles - 1, 1))
    } else if tile_bits > 16 {
        Err(ErrorKind::Bitstream)
    } else if offset + (2 * tile_bits + 8) / 8 > data.len() {
        Err(ErrorKind::NotEnoughData)
    } else {
        Ok(
            (
                header_bits(data, offset, 1, tile_bits as nat),
                header_bits(data, offset, 1 + tile_bits, tile_bits as nat),
                (2 * tile_bits + 8) / 8,
            ),
        )
    }
}

/// The tiles numbered `tile` to `last` whose data starts at `position`: every tile
/// but the last is preceded by its size less one in `size_bytes` little-endian
/// bytes; the last tile runs to the end of the data. Each is (tile number, offset,
/// length).
pub open spec fn tile_extents(data: Seq<u8>, position: int, tile: int, last: int, size_bytes: nat) -> Result<Seq<(int, int, int)>, ErrorKind>
    decreases last - tile,
{
    if tile >= last {
        Ok(seq![(tile, position, data.len() - position)])
    } else if position + size_bytes > data.len() {
        Err(ErrorKind::NotEnoughData)
    } else if position + size_bytes + le_uint(data, position, size_bytes) + 1 > data.len() {
        Err(ErrorKind::NotEnoughData)
    } else {
        let size = le_uint(data, position, size_bytes) + 1;
        match tile_extents(data, position + size_bytes + size, tile + 1, last, size_bytes) {
            Err(kind) => Err(kind),
            Ok(rest) => Ok(seq![(tile, position + size_bytes, size)] + rest),
        }
    }
}

/// What parsing a tile group at `offset` gives: its first and last tile number,
/// where its tile data starts, and each tile's (number, offset, length); or the kind
/// of the first error: no tiles or a tile count past 32 bits, a header past the
/// data, a tile range outside the frame, a size field that is not one to four
/// bytes, or tile sizes past the data.
pub open spec fn tile_group_outcome(data: Seq<u8>, offset: int, info: TileInfo) -> Result<(int, int, int, Seq<(int, int, int)>), ErrorKind> {
    let num_tiles = info.tile_cols * info.tile_rows;
    let tile_bits = info.tile_cols_log2 + info.tile_rows_log2;
    if num_tiles > u32::MAX {
        Err(ErrorKind::InvalidParam)
    } else if num_tiles == 0 {
        Err(ErrorKind::Bitstream)
    } else if offset > data.len() {
        Err(ErrorKind::NotEnoughData)
    } else {
        match tile_group_header(data, offset, num_tiles, tile_bits) {
            Err(kind) => Err(kind),
            Ok((start, end, header_bytes)) => if start > end || end >= num_tiles {
                Err(ErrorKind::Bitstream)
            } else if start < end && !(1 <= info.tile_size_bytes <= 4) {
                Err(ErrorKind::Bitstream)
            } else {
                match tile_extents(data, offset + header_bytes, start, end, info.tile_size_bytes as nat) {
                    Err(kind) => Err(kind),
                    Ok(tiles) => Ok((start, end, offset + header_bytes, tiles)),
                }
            },
        }
    }
}

/// The tiles of a group as (tile number, offset, length).
pub open spec fn tile_triples(tiles: Seq<TilePayload>) -> Seq<(int, int, int)> {
    tiles.map_values(|tile: TilePayload| (tile.tile_id as int, tile.offset as int, tile.len as int))
}

/// A header value of up to 16 bits is below 2^16.
proof fn lemma_header_bits_bound(data: Seq<u8>, offset: int, start: int, n: nat)
    ensures
        0 <= header_bits(data, offset, start, n) < vstd::arithmetic::power2::pow2(n),
    decreases n,
{
    vstd::arithmetic::power2::lemma2_to64();
    if n > 0 {
        lemma_header_bits_bound(data, offset, start, (n - 1) as nat);
        let k = start + n - 1;
        let b = data[offset + k / 8];
        let s = ((7 - k % 8) as u8);
        let bit = header_bit(data, offset, k);
        assert(bit == (b >> s) & 1u8);
        assert(bit <= 1) by (bit_vector)
            requires
                bit == (b >> s) & 1u8,
        ;
        vstd::arithmetic::power2::lemma_pow2_unfold(n);
    }
}

/// Reads `n` header bits, the first being bit `start` of the bytes from `offset` on.
fn read_header_bits(data: &[u8], offset: usize, start: usize, n: usize) -> (value: u32)
    requires
        n <= 16,
        start + n <= 40,
        offset + (start + n + 7) / 8 <= data@.len(),
    ensures
        value == header_bits(data@, offset as int, start as int, n as nat),
{
    let mut value: u32 = 0;
    let mut i: usize = 0;
    while i < n
        invariant
            n <= 16,
            start + n <= 40,
            offset + (start + n + 7) / 8 <= data@.len(),
            i <= n,
            value == header_bits(data@, offset as int, start as int, i as nat),
        decreases n - i,
    {
        proof {
            lemma_header_bits_bound(data@, offset as int, start as int, i as nat);
            vstd::arithmetic::power2::lemma_pow2_strictly_increases(i as nat, 16);
            vstd::arithmetic::power2::lemma2_to64();
        }
        let k = start + i;
        let total = data.len();
        let byte = data[offset + k / 8];
        let shift = (7 - k % 8) as u8;
        let bit = (byte >> shift) & 1u8;
        assert(bit <= 1) by (bit_vector)
            requires
                bit == (byte >> shift) & 1u8,
        ;
        value = value * 2 + bit as u32;
        i = i + 1;
    }
    value
}

/// Reads an `n`-byte little-endian value at `position`.
fn read_le(data: &[u8], position: usize, n: usize) -> (value: u64)
    requires
        n <= 4,
        position + n <= data@.len(),
    ensures
        value == le_uint(data@, position as int, n as nat),
        value < 0x1_0000_0000,
{
    let mut value: u64 = 0;
    let mut i: usize = n;
    proof {
        vstd::arithmetic::power2::lemma2_to64();
    }
    while i > 0
        invariant
            n <= 4,
            position + n <= data@.len(),
            i <= n,
            value == le_uint(data@, position + i, (n - i) as nat),
            value < vstd::arithmetic::power2::pow2(8 * (n - i) as nat),
        decreases i,
    {
        i = i - 1;
        proof {
            vstd::arithmetic::power2::lemma2_to64();
            vstd::arithmetic::power2::lemma_pow2_adds(8, 8 * (n - i - 1) as nat);
            vstd::arithmetic::power2::lemma_pow2_strictly_increases((8 * (n - i - 1)) as nat, 32);
            assert(8 * (n - i) == 8 + 8 * (n - i - 1));
        }
        let total = data.len();
        value = data[position + i] as u64 + 256 * value;
    }
    proof {
        vstd::arithmetic::power2::lemma2_to64();
        if n < 4 {
            vstd::arithmetic::power2::lemma_pow2_strictly_increases((8 * n) as nat, 32);
        }
    }
    value
}

/// The tiles already found, followed by those a further parse finds.
pub open spec fn extents_after(done: Seq<(int, int, int)>, rest: Result<Seq<(int, int, int)>, ErrorKind>) -> Result<Seq<(int, int, int)>, ErrorKind> {
    match rest {
        Ok(rest) => Ok(done + rest),
        Err(kind) => Err(kind),
    }
}

/// Parses the tile group at `offset` of an OBU payload (see `tile_group_outcome`);
/// tile offsets are positions in the payload.
pub fn parse_tile_group(payload: &[u8], offset: usize, tile_info: &TileInfo) -> (result: Result<TileGroup, DecoderError>)
    ensures
        match (result, tile_group_outcome(payload@, offset as int, *tile_info)) {
            (Ok(group), Ok((start, end, data_start, tiles))) => group.start_tile == start && group.end_tile == end
                && group.data_start_offset == data_start && tile_triples(group.tiles@) == tiles,
            (Err(error), Err(kind)) => error.kind() == kind,
            _ => false,
        },
{
    let num_tiles = match tile_info.tile_cols.checked_mul(tile_info.tile_rows) {
        Some(count) => count,
        None => return Err(DecoderError::InvalidParam("AV1 tile count overflows".to_string())),
    };
    if num_tiles == 0 {
        return Err(DecoderError::Bitstream("AV1 tile count is zero".to_string()));
    }
    if offset > payload.len() {
        return Err(DecoderError::NotEnoughData("AV1 tile group starts past its payload".to_string()));
    }
    let tile_bits = tile_info.tile_cols_log2 as usize + tile_info.tile_rows_log2 as usize;
    let mut start: u32 = 0;
    let mut end: u32 = num_tiles - 1;
    let mut header_bytes: usize = 0;
    if num_tiles > 1 {
        if offset >= payload.len() {
            return Err(DecoderError::NotEnoughData("AV1 tile group header is truncated".to_string()));
        }
        let flag = (payload[offset] >> 7u8) & 1u8;
        assert(flag == header_bit(payload@, offset as int, 0));
        header_bytes = 1;
        if flag != 0 {
            if tile_bits > 16 {
                return Err(DecoderError::Bitstream("AV1 tile group range is too wide".to_string()));
            }
            header_bytes = (2 * tile_bits + 8) / 8;
            if header_bytes > payload.len() - offset {
                return Err(DecoderError::NotEnoughData("AV1 tile group header is truncated".to_string()));
            }
            start = read_header_bits(payload, offset, 1, tile_bits);
            end = read_header_bits(payload, offset, 1 + tile_bits, tile_bits);
        }
    }
    assert(tile_group_header(payload@, offset as int, num_tiles as int, tile_bits as int) == Ok::<(int, int, int), ErrorKind>(
        (start as int, end as int, header_bytes as int),
    ));
    if start > end || end >= num_tiles {
        return Err(DecoderError::Bitstream("AV1 tile group range is outside the frame".to_string()));
    }
    let size_bytes = tile_info.tile_size_bytes as usize;
    if start < end && !(1 <= size_bytes && size_bytes <= 4) {
        return Err(DecoderError::Bitstream("AV1 tile size field is not one to four bytes".to_string()));
    }
    let data_start = offset + header_bytes;
    let ghost whole = tile_extents(payload@, data_start as int, start as int, end as int, size_bytes as nat);
    let mut tiles: Vec<TilePayload> = Vec::new();
    let mut position = data_start;
    let mut tile = start;
    assert(tile_triples(tiles@) =~= Seq::<(int, int, int)>::empty());
    assert(Seq::<(int, int, int)>::empty() + Seq::<(int, int, int)>::empty() =~= Seq::<(int, int, int)>::empty());
    while tile < end
        invariant
            start <= tile <= end,
            position <= payload@.len(),
            start < end ==> 1 <= size_bytes <= 4,
            whole == tile_extents(payload@, data_start as int, start as int, end as int, size_bytes as nat),
            tile_group_outcome(payload@, offset as int, *tile_info) == match whole {
                Err(kind) => Err(kind),
                Ok(found) => Ok::<(int, int, int, Seq<(int, int, int)>), ErrorKind>((start as int, end as int, data_start as int, found)),
            },
            whole == extents_after(
                tile_triples(tiles@),
                tile_extents(payload@, position as int, tile as int, end as int, size_bytes as nat),
            ),
        decreases end - tile,
    {
        if size_bytes > payload.len() - position {
            return Err(DecoderError::NotEnoughData("AV1 tile size is truncated".to_string()));
        }
        let size_minus_one = read_le(payload, position, size_bytes);
        let available = payload.len() - position - size_bytes;
        if size_minus_one >= available as u64 {
            return Err(DecoderError::NotEnoughData("AV1 tile data is truncated".to_string()));
        }
        let size = size_minus_one as usize + 1;
        let ghost before = tile_triples(tiles@);
        tiles.push(TilePayload { tile_id: tile, offset: position + size_bytes, len: size });
        proof {
            let entry = (tile as int, (position + size_bytes) as int, size as int);
            assert(tile_triples(tiles@) =~= before.push(entry));
            let rest = tile_extents(payload@, (position + size_bytes + size) as int, tile + 1, end as int, size_bytes as nat);
            if let Ok(r) = rest {
                assert(before + (seq![entry] + r) =~= before.push(entry) + r);
            }
        }
        position = position + size_bytes + size;
        tile = tile + 1;
    }
    let ghost before = tile_triples(tiles@);
    let last_len = payload.len() - position;
    tiles.push(TilePayload { tile_id: end, offset: position, len: last_len });
    proof {
        let entry = (end as int, position as int, last_len as int);
        assert(tile_triples(tiles@) =~= before.push(entry));
        assert(before + seq![entry] =~= before.push(entry));
    }
    Ok(TileGroup { start_tile: start, end_tile: end, data_start_offset: data_start, tiles })
}

} // verus!
