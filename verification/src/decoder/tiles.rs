//! Tiles of a frame: joining tile groups into one, and which tile a sample lies in.
use vstd::prelude::*;
use crate::av1::tiles::{parse_tile_group, tile_group_outcome, tile_triples, TileGroup, TileInfo, TilePayload};
use crate::error::{DecoderError, ErrorKind};

verus! {

/// The tile slots after the tiles (number, offset, length) of one group, taken from
/// `payload`, are put in place: a tile outside its payload or the frame, or one
/// already present, is a bitstream error.
pub open spec fn placed_tiles(
    slots: Seq<Option<Seq<u8>>>,
    payload: Seq<u8>,
    tiles: Seq<(int, int, int)>,
    m: int,
) -> Result<Seq<Option<Seq<u8>>>, ErrorKind>
    decreases m,
{
    if m <= 0 {
        Ok(slots)
    } else {
        match placed_tiles(slots, payload, tiles, m - 1) {
            Err(kind) => Err(kind),
            Ok(placed) => {
                let (id, offset, len) = tiles[m - 1];
                if !(0 <= offset && 0 <= len && offset + len <= payload.len()) {
                    Err(ErrorKind::Bitstream)
                } else if !(0 <= id < placed.len()) {
                    Err(ErrorKind::Bitstream)
                } else if placed[id] is Some {
                    Err(ErrorKind::Bitstream)
                } else {
                    Ok(placed.update(id, Some(payload.subrange(offset, offset + len))))
                }
            },
        }
    }
}

/// The tile slots of a frame of `count` tiles after the tile groups of the first
/// `n` payloads are parsed and placed.
pub open spec fn merged_slots(payloads: Seq<Seq<u8>>, info: TileInfo, count: int, n: int) -> Result<Seq<Option<Seq<u8>>>, ErrorKind>
    decreases n,
{
    if n <= 0 {
        Ok(Seq::new(count as nat, |i: int| None::<Seq<u8>>))
    } else {
        match merged_slots(payloads, info, count, n - 1) {
            Err(kind) => Err(kind),
            Ok(slots) => match tile_group_outcome(payloads[n - 1], 0, info) {
                Err(kind) => Err(kind),
                Ok((start, end, data_start, tiles)) => placed_tiles(slots, payloads[n - 1], tiles, tiles.len() as int),
            },
        }
    }
}

/// The data of the first `n` slots, one after another.
pub open spec fn joined_slots(slots: Seq<Option<Seq<u8>>>, n: int) -> Seq<u8>
    decreases n,
{
    if n <= 0 {
        Seq::empty()
    } else {
        joined_slots(slots, n - 1) + slots[n - 1]->Some_0
    }
}

/// What joining the tile groups of several payloads gives: every tile's data in
/// tile order, and where each tile lies in it; or the kind of the first error: a
/// tile count past 32 bits or zero, a tile group that does not parse, a tile that
/// is misplaced or present twice, or a tile that no group holds (unsupported).
pub open spec fn merge_outcome(payloads: Seq<Seq<u8>>, info: TileInfo) -> Result<(Seq<u8>, Seq<(int, int, int)>), ErrorKind> {
    let count = info.tile_cols * info.tile_rows;
    if count > u32::MAX {
        Err(ErrorKind::InvalidParam)
    } else if count == 0 {
        Err(ErrorKind::Bitstream)
    } else {
        match merged_slots(payloads, info, count, payloads.len() as int) {
            Err(kind) => Err(kind),
            Ok(slots) => if exists|i: int| 0 <= i < count && (#[trigger] slots[i]) is None {
                Err(ErrorKind::Unsupported)
            } else {
                Ok(
                    (
                        joined_slots(slots, count),
                        Seq::new(count as nat, |i: int| (i, joined_slots(slots, i).len() as int, slots[i]->Some_0.len() as int)),
                    ),
                )
            },
        }
    }
}

/// The views of the tile slots.
pub open spec fn slot_views(slots: Seq<Option<Vec<u8>>>) -> Seq<Option<Seq<u8>>> {
    slots.map_values(
        |slot: Option<Vec<u8>>|
            match slot {
                Some(bytes) => Some(bytes@),
                None => None,
            },
    )
}

/// The views of the payloads.
pub open spec fn payload_views(payloads: Seq<&[u8]>) -> Seq<Seq<u8>> {
    payloads.map_values(|payload: &[u8]| payload@)
}

/// Places the tiles of one parsed group (see `placed_tiles`).
fn place_tiles(slots: &mut Vec<Option<Vec<u8>>>, payload: &[u8], tiles: &Vec<TilePayload>) -> (result: Result<(), DecoderError>)
    ensures
        match (result, placed_tiles(slot_views(old(slots)@), payload@, tile_triples(tiles@), tiles@.len() as int)) {
            (Ok(()), Ok(placed)) => slot_views(final(slots)@) == placed,
            (Err(error), Err(kind)) => error.kind() == kind,
            _ => false,
        },
{
    let ghost original = slot_views(slots@);
    let ghost triples = tile_triples(tiles@);
    let mut m: usize = 0;
    while m < tiles.len()
        invariant
            original == slot_views(old(slots)@),
            triples == tile_triples(tiles@),
            m <= tiles@.len(),
            placed_tiles(original, payload@, triples, m as int) == Ok::<Seq<Option<Seq<u8>>>, ErrorKind>(slot_views(slots@)),
        decreases tiles@.len() - m,
    {
        let tile = tiles[m];
        assert(triples[m as int] == (tile.tile_id as int, tile.offset as int, tile.len as int));
        if tile.offset > payload.len() || tile.len > payload.len() - tile.offset {
            proof {
                lemma_placed_tiles_error(original, payload@, triples, m as int + 1, tiles@.len() as int);
            }
            return Err(DecoderError::Bitstream("AV1 tile payload range is invalid".to_string()));
        }
        let index = tile.tile_id as usize;
        if index >= slots.len() {
            proof {
                lemma_placed_tiles_error(original, payload@, triples, m as int + 1, tiles@.len() as int);
            }
            return Err(DecoderError::Bitstream("AV1 tile ID is outside the frame".to_string()));
        }
        assert(slot_views(slots@)[index as int] == match slots@[index as int] {
            Some(bytes) => Some(bytes@),
            None => None::<Seq<u8>>,
        });
        if slots[index].is_some() {
            proof {
                lemma_placed_tiles_error(original, payload@, triples, m as int + 1, tiles@.len() as int);
            }
            return Err(DecoderError::Bitstream("AV1 tile is present in multiple tile groups".to_string()));
        }
        let bytes = vstd::slice::slice_to_vec(vstd::slice::slice_subrange(payload, tile.offset, tile.offset + tile.len));
        let ghost before = slots@;
        slots.set(index, Some(bytes));
        proof {
            assert(slot_views(slots@) =~= slot_views(before).update(
                index as int,
                Some(payload@.subrange(tile.offset as int, tile.offset + tile.len)),
            ));
        }
        m = m + 1;
    }
    Ok(())
}

/// Placing tiles keeps the number of slots.
proof fn lemma_placed_tiles_len(slots: Seq<Option<Seq<u8>>>, payload: Seq<u8>, tiles: Seq<(int, int, int)>, m: int)
    ensures
        placed_tiles(slots, payload, tiles, m) matches Ok(placed) ==> placed.len() == slots.len(),
    decreases m,
{
    if m > 0 {
        lemma_placed_tiles_len(slots, payload, tiles, m - 1);
    }
}

/// Joining tile groups keeps one slot per tile of the frame.
proof fn lemma_merged_slots_len(payloads: Seq<Seq<u8>>, info: TileInfo, count: int, n: int)
    requires
        0 <= count,
    ensures
        merged_slots(payloads, info, count, n) matches Ok(slots) ==> slots.len() == count,
    decreases n,
{
    if n > 0 {
        lemma_merged_slots_len(payloads, info, count, n - 1);
        if let Ok(slots) = merged_slots(payloads, info, count, n - 1) {
            if let Ok((start, end, data_start, tiles)) = tile_group_outcome(payloads[n - 1], 0, info) {
                lemma_placed_tiles_len(slots, payloads[n - 1], tiles, tiles.len() as int);
            }
        }
    }
}

/// Once placing stops at an error, it stays stopped there.
proof fn lemma_placed_tiles_error(slots: Seq<Option<Seq<u8>>>, payload: Seq<u8>, tiles: Seq<(int, int, int)>, k: int, n: int)
    requires
        0 <= k <= n,
        placed_tiles(slots, payload, tiles, k) is Err,
    ensures
        placed_tiles(slots, payload, tiles, n) == placed_tiles(slots, payload, tiles, k),
    decreases n - k,
{
    if n > k {
        lemma_placed_tiles_error(slots, payload, tiles, k, n - 1);
    }
}

/// Once joining stops at an error, it stays stopped there.
proof fn lemma_merged_slots_error(payloads: Seq<Seq<u8>>, info: TileInfo, count: int, k: int, n: int)
    requires
        0 <= k <= n,
        merged_slots(payloads, info, count, k) is Err,
    ensures
        merged_slots(payloads, info, count, n) == merged_slots(payloads, info, count, k),
    decreases n - k,
{
    if n > k {
        lemma_merged_slots_error(payloads, info, count, k, n - 1);
    }
}

/// Joins the tile groups of several OBU payloads into one tile group holding every
/// tile of the frame in tile order (see `merge_outcome`).
pub fn merge_tile_group_payloads(payloads: &[&[u8]], tile_info: &TileInfo) -> (result: Result<(Vec<u8>, TileGroup), DecoderError>)
    ensures
        match (result, merge_outcome(payload_views(payloads@), *tile_info)) {
            (Ok((data, group)), Ok((joined, tiles))) => {
                &&& data@ == joined
                &&& tile_triples(group.tiles@) == tiles
                &&& group.start_tile == 0
                &&& group.end_tile == tiles.len() - 1
                &&& group.data_start_offset == 0
            },
            (Err(error), Err(kind)) => error.kind() == kind,
            _ => false,
        },
{
    let ghost views = payload_views(payloads@);
    let tile_count = match tile_info.tile_cols.checked_mul(tile_info.tile_rows) {
        Some(count) => count,
        None => return Err(DecoderError::InvalidParam("AV1 tile count overflows".to_string())),
    };
    if tile_count == 0 {
        return Err(DecoderError::Bitstream("AV1 tile count is zero".to_string()));
    }
    let count = tile_count as usize;
    let mut slots: Vec<Option<Vec<u8>>> = Vec::new();
    let mut i: usize = 0;
    while i < count
        invariant
            i <= count,
            slots@.len() == i,
            forall|j: int| 0 <= j < i ==> slots@[j] is None,
        decreases count - i,
    {
        slots.push(None);
        i = i + 1;
    }
    assert(slot_views(slots@) =~= Seq::new(count as nat, |i: int| None::<Seq<u8>>));
    let mut n: usize = 0;
    while n < payloads.len()
        invariant
            views == payload_views(payloads@),
            count == tile_count,
            tile_count == tile_info.tile_cols * tile_info.tile_rows,
            n <= payloads@.len(),
            merged_slots(views, *tile_info, count as int, n as int) == Ok::<Seq<Option<Seq<u8>>>, ErrorKind>(slot_views(slots@)),
        decreases payloads@.len() - n,
    {
        let payload = payloads[n];
        assert(views[n as int] == payload@);
        let group = match parse_tile_group(payload, 0, tile_info) {
            Ok(group) => group,
            Err(error) => {
                proof {
                    lemma_merged_slots_error(views, *tile_info, count as int, n as int + 1, payloads@.len() as int);
                }
                return Err(error);
            },
        };
        match place_tiles(&mut slots, payload, &group.tiles) {
            Ok(()) => {},
            Err(error) => {
                proof {
                    lemma_merged_slots_error(views, *tile_info, count as int, n as int + 1, payloads@.len() as int);
                }
                return Err(error);
            },
        }
        n = n + 1;
    }
    let ghost slots_view = slot_views(slots@);
    proof {
        lemma_merged_slots_len(views, *tile_info, count as int, payloads@.len() as int);
    }
    assert(slots_view.len() == count);
    let mut k: usize = 0;
    while k < count
        invariant
            slots_view == slot_views(slots@),
            slots_view.len() == count,
            count == tile_count,
            tile_count == tile_info.tile_cols * tile_info.tile_rows,
            merged_slots(views, *tile_info, count as int, payloads@.len() as int) == Ok::<Seq<Option<Seq<u8>>>, ErrorKind>(slots_view),
            views == payload_views(payloads@),
            k <= count,
            forall|j: int| 0 <= j < k ==> (#[trigger] slots_view[j]) is Some,
        decreases count - k,
    {
        assert(slots_view[k as int] is Some <==> slots@[k as int] is Some);
        if slots[k].is_none() {
            return Err(DecoderError::Unsupported("AV1 partial tile groups are not supported for still-image decode".to_string()));
        }
        k = k + 1;
    }
    let mut data: Vec<u8> = Vec::new();
    let mut tiles: Vec<TilePayload> = Vec::new();
    let mut tile: usize = 0;
    while tile < count
        invariant
            slots_view == slot_views(slots@),
            slots_view.len() == count,
            count == tile_count,
            forall|j: int| 0 <= j < count ==> (#[trigger] slots_view[j]) is Some,
            tile <= count,
            data@ == joined_slots(slots_view, tile as int),
            tiles@.len() == tile,
            forall|j: int| 0 <= j < tile ==> (#[trigger] tile_triples(tiles@)[j]) == (j, joined_slots(slots_view, j).len() as int, slots_view[j]->Some_0.len() as int),
        decreases count - tile,
    {
        let bytes = match &slots[tile] {
            Some(bytes) => bytes,
            None => {
                assert(slots_view[tile as int] is Some);
                return Err(DecoderError::Unsupported("AV1 partial tile groups are not supported for still-image decode".to_string()));
            },
        };
        assert(slots_view[tile as int] == Some(bytes@));
        let offset = data.len();
        let mut b: usize = 0;
        let ghost start = data@;
        while b < bytes.len()
            invariant
                b <= bytes@.len(),
                data@ == start + bytes@.subrange(0, b as int),
            decreases bytes@.len() - b,
        {
            data.push(bytes[b]);
            proof {
                assert(start + bytes@.subrange(0, b + 1) =~= (start + bytes@.subrange(0, b as int)).push(bytes@[b as int]));
            }
            b = b + 1;
        }
        assert(bytes@.subrange(0, bytes@.len() as int) =~= bytes@);
        let ghost before = tile_triples(tiles@);
        tiles.push(TilePayload { tile_id: tile as u32, offset, len: bytes.len() });
        proof {
            assert(tile_triples(tiles@) =~= before.push((tile as int, offset as int, bytes@.len() as int)));
        }
        tile = tile + 1;
    }
    proof {
        assert(tile_triples(tiles@) =~= Seq::new(
            count as nat,
            |i: int| (i, joined_slots(slots_view, i).len() as int, slots_view[i]->Some_0.len() as int),
        ));
    }
    Ok((data, TileGroup { start_tile: 0, end_tile: tile_count - 1, data_start_offset: 0, tiles }))
}

/// The first tile, from `k` on, whose start range `starts[k]..starts[k + 1]` holds
/// `position`.
pub open spec fn tile_span(starts: Seq<u32>, position: u32, k: int) -> Option<int>
    decreases starts.len() - k,
{
    if k < 0 || k + 1 >= starts.len() {
        None
    } else if starts[k] <= position < starts[k + 1] {
        Some(k)
    } else {
        tile_span(starts, position, k + 1)
    }
}

/// The tile column (or row) that holds mode-info `position`; a position past the
/// last start range falls in the last tile.
pub open spec fn tile_axis_index(starts: Seq<u32>, position: u32) -> int {
    match tile_span(starts, position, 0) {
        Some(k) => k,
        None => if starts.len() >= 2 { starts.len() - 2 } else { 0 },
    }
}

/// The tile (in raster order) that holds luma sample (`x`, `y`).
pub open spec fn tile_at(info: TileInfo, x: usize, y: usize) -> int {
    tile_axis_index(info.mi_row_starts@, (y / 4) as u32) * info.tile_cols + tile_axis_index(info.mi_col_starts@, (x / 4) as u32)
}

/// The tile column (or row) that holds mode-info `position` (see `tile_axis_index`).
fn tile_axis(starts: &Vec<u32>, position: u32) -> (index: usize)
    ensures
        index == tile_axis_index(starts@, position),
        index < starts@.len() || index == 0,
{
    let mut k: usize = 0;
    while starts.len() > 1 && k < starts.len() - 1
        invariant
            k <= starts@.len(),
            tile_span(starts@, position, 0) == tile_span(starts@, position, k as int),
        decreases starts@.len() - k,
    {
        if starts[k] <= position && position < starts[k + 1] {
            return k;
        }
        k = k + 1;
    }
    if starts.len() >= 2 {
        starts.len() - 2
    } else {
        0
    }
}

/// The tile (in raster order) that holds luma sample (`x`, `y`) (see `tile_at`).
pub fn tile_id_at(tile_info: &TileInfo, x: usize, y: usize) -> (id: usize)
    requires
        tile_info.mi_row_starts@.len() * tile_info.tile_cols + tile_info.mi_col_starts@.len() <= usize::MAX,
    ensures
        id == tile_at(*tile_info, x, y),
{
    let column = tile_axis(&tile_info.mi_col_starts, (x / 4) as u32);
    let row = tile_axis(&tile_info.mi_row_starts, (y / 4) as u32);
    assert(row * tile_info.tile_cols + column <= tile_info.mi_row_starts@.len() * tile_info.tile_cols + tile_info.mi_col_starts@.len()) by (nonlinear_arith)
        requires
            row <= tile_info.mi_row_starts@.len(),
            column <= tile_info.mi_col_starts@.len(),
    ;
    row * tile_info.tile_cols as usize + column
}

/// A deblocking edge at luma sample (`x`, `y`), vertical or horizontal, lies between
/// two tiles: the frame has more than one tile, and the sample before the edge lies
/// in another tile than the sample after it.
pub open spec fn tile_edge(info: TileInfo, x: usize, y: usize, vertical: bool) -> bool {
    if info.tile_cols * info.tile_rows <= 1 {
        false
    } else if vertical {
        x != 0 && tile_at(info, (x - 1) as usize, y) != tile_at(info, x, y)
    } else {
        y != 0 && tile_at(info, x, (y - 1) as usize) != tile_at(info, x, y)
    }
}

/// Whether a deblocking edge at luma sample (`x`, `y`) lies between two tiles (see
/// `tile_edge`).
pub fn is_tile_edge(tile_info: &TileInfo, x: usize, y: usize, vertical: bool) -> (edge: bool)
    requires
        tile_info.tile_cols * tile_info.tile_rows <= u32::MAX,
        tile_info.mi_row_starts@.len() * tile_info.tile_cols + tile_info.mi_col_starts@.len() <= usize::MAX,
    ensures
        edge == tile_edge(*tile_info, x, y, vertical),
{
    if tile_info.tile_cols * tile_info.tile_rows <= 1 {
        return false;
    }
    if vertical {
        if x == 0 {
            return false;
        }
        tile_id_at(tile_info, x - 1, y) != tile_id_at(tile_info, x, y)
    } else {
        if y == 0 {
            return false;
        }
        tile_id_at(tile_info, x, y - 1) != tile_id_at(tile_info, x, y)
    }
}

/// Tile `j` of a group may be placed: its data lies in the payload and its number
/// in the frame.
pub open spec fn tile_in_bounds(tile: (int, int, int), payload_len: int, slot_count: int) -> bool {
    0 <= tile.1 && 0 <= tile.2 && tile.1 + tile.2 <= payload_len && 0 <= tile.0 < slot_count
}

/// The first `m` tiles of a group may all be placed into `slots`: each is in bounds,
/// finds its slot empty, and has a number of its own.
pub open spec fn tiles_placeable(slots: Seq<Option<Seq<u8>>>, payload_len: int, tiles: Seq<(int, int, int)>, m: int) -> bool {
    forall|j: int|
        0 <= j < m ==> tile_in_bounds(#[trigger] tiles[j], payload_len, slots.len() as int) && slots[tiles[j].0] is None
            && forall|k: int| 0 <= k < j ==> tiles[k].0 != tiles[j].0
}

/// The position among the first `m` tiles of the one numbered `id`, if any.
pub open spec fn tile_position(tiles: Seq<(int, int, int)>, m: int, id: int) -> Option<int>
    decreases m,
{
    if m <= 0 {
        None
    } else if tiles[m - 1].0 == id {
        Some(m - 1)
    } else {
        tile_position(tiles, m - 1, id)
    }
}

/// The slots once the first `m` tiles are placed: a slot a tile is numbered for
/// holds that tile's data, any other keeps what it held.
pub open spec fn slots_with_tiles(slots: Seq<Option<Seq<u8>>>, payload: Seq<u8>, tiles: Seq<(int, int, int)>, m: int) -> Seq<Option<Seq<u8>>> {
    Seq::new(
        slots.len(),
        |i: int|
            match tile_position(tiles, m, i) {
                Some(j) => Some(payload.subrange(tiles[j].1, tiles[j].1 + tiles[j].2)),
                None => slots[i],
            },
    )
}

/// The position found for a number is a tile of that number, and none is found
/// where no tile has it.
proof fn lemma_tile_position(tiles: Seq<(int, int, int)>, m: int, id: int)
    ensures
        match tile_position(tiles, m, id) {
            Some(j) => 0 <= j < m && tiles[j].0 == id,
            None => forall|j: int| 0 <= j < m ==> (#[trigger] tiles[j]).0 != id,
        },
    decreases m,
{
    if m > 0 {
        lemma_tile_position(tiles, m - 1, id);
    }
}

/// Placing tiles succeeds exactly when they are placeable, and then puts each
/// tile's data in its slot.
pub proof fn lemma_placed_tiles_exact(slots: Seq<Option<Seq<u8>>>, payload: Seq<u8>, tiles: Seq<(int, int, int)>, m: int)
    requires
        0 <= m <= tiles.len(),
    ensures
        placed_tiles(slots, payload, tiles, m) is Ok <==> tiles_placeable(slots, payload.len() as int, tiles, m),
        tiles_placeable(slots, payload.len() as int, tiles, m) ==> placed_tiles(slots, payload, tiles, m) == Ok::<Seq<Option<Seq<u8>>>, ErrorKind>(
            slots_with_tiles(slots, payload, tiles, m),
        ),
    decreases m,
{
    if m == 0 {
        assert(slots_with_tiles(slots, payload, tiles, 0) =~= slots);
    } else {
        lemma_placed_tiles_exact(slots, payload, tiles, m - 1);
        let previous = slots_with_tiles(slots, payload, tiles, m - 1);
        let tile = tiles[m - 1];
        if tiles_placeable(slots, payload.len() as int, tiles, m) {
            assert(tiles_placeable(slots, payload.len() as int, tiles, m - 1));
            assert(tile_in_bounds(tiles[m - 1], payload.len() as int, slots.len() as int));
            lemma_tile_position(tiles, m - 1, tile.0);
            assert(previous[tile.0] is None);
            let placed = previous.update(tile.0, Some(payload.subrange(tile.1, tile.1 + tile.2)));
            assert forall|i: int| 0 <= i < slots.len() implies placed[i] == slots_with_tiles(slots, payload, tiles, m)[i] by {
                if i != tile.0 {
                    assert(tile_position(tiles, m, i) == tile_position(tiles, m - 1, i));
                }
            }
            assert(placed =~= slots_with_tiles(slots, payload, tiles, m));
        } else if tiles_placeable(slots, payload.len() as int, tiles, m - 1) {
            // The last tile is the one that cannot be placed.
            lemma_tile_position(tiles, m - 1, tile.0);
            if tile_in_bounds(tile, payload.len() as int, slots.len() as int) && previous[tile.0] is None {
                assert(slots[tile.0] is None);
                assert forall|k: int| 0 <= k < m - 1 implies (#[trigger] tiles[k]).0 != tiles[m - 1].0 by {
                    if tiles[k].0 == tiles[m - 1].0 {
                        lemma_tile_position(tiles, m - 1, tile.0);
                    }
                }
                assert(tiles_placeable(slots, payload.len() as int, tiles, m));
            }
        }
    }
}

/// Joining two tile groups gives the same tiles whichever payload comes first.
pub proof fn lemma_merge_order_independent(first: Seq<u8>, second: Seq<u8>, info: TileInfo)
    requires
        merge_outcome(seq![first, second], info) is Ok,
    ensures
        merge_outcome(seq![second, first], info) == merge_outcome(seq![first, second], info),
{
    let count = info.tile_cols * info.tile_rows;
    let forward = seq![first, second];
    let backward = seq![second, first];
    let empty = Seq::new(count as nat, |i: int| None::<Seq<u8>>);
    assert(forward[0] == first && forward[1] == second && forward.len() == 2);
    assert(backward[0] == second && backward[1] == first && backward.len() == 2);
    assert(merged_slots(forward, info, count, 0) == Ok::<Seq<Option<Seq<u8>>>, ErrorKind>(empty));
    assert(merged_slots(backward, info, count, 0) == Ok::<Seq<Option<Seq<u8>>>, ErrorKind>(empty));
    assert(merged_slots(forward, info, count, 2) is Ok);
    assert(merged_slots(forward, info, count, 1) is Ok);
    let first_tiles = tile_group_outcome(first, 0, info)->Ok_0.3;
    let second_tiles = tile_group_outcome(second, 0, info)->Ok_0.3;
    assert(tile_group_outcome(first, 0, info) is Ok);
    assert(tile_group_outcome(second, 0, info) is Ok);
    let n1 = first_tiles.len() as int;
    let n2 = second_tiles.len() as int;
    lemma_placed_tiles_exact(empty, first, first_tiles, n1);
    let after_first = slots_with_tiles(empty, first, first_tiles, n1);
    lemma_placed_tiles_exact(after_first, second, second_tiles, n2);
    let forward_slots = slots_with_tiles(after_first, second, second_tiles, n2);
    assert(merged_slots(forward, info, count, 2) == Ok::<Seq<Option<Seq<u8>>>, ErrorKind>(forward_slots));
    // The groups number disjoint tiles.
    assert forall|i: int| 0 <= i < count implies !(#[trigger] tile_position(first_tiles, n1, i) is Some && tile_position(
        second_tiles,
        n2,
        i,
    ) is Some) by {
        lemma_tile_position(first_tiles, n1, i);
        lemma_tile_position(second_tiles, n2, i);
        if let Some(j) = tile_position(second_tiles, n2, i) {
            assert(tile_in_bounds(second_tiles[j], second.len() as int, after_first.len() as int));
            assert(after_first[second_tiles[j].0] is None);
        }
    }
    // In the other order both groups can still be placed.
    assert(tiles_placeable(empty, second.len() as int, second_tiles, n2));
    lemma_placed_tiles_exact(empty, second, second_tiles, n2);
    let after_second = slots_with_tiles(empty, second, second_tiles, n2);
    assert forall|j: int| 0 <= j < n1 implies tile_in_bounds(#[trigger] first_tiles[j], first.len() as int, after_second.len() as int)
        && after_second[first_tiles[j].0] is None && forall|k: int| 0 <= k < j ==> first_tiles[k].0 != first_tiles[j].0 by {
        let id = first_tiles[j].0;
        lemma_tile_position(first_tiles, n1, id);
        lemma_tile_position(second_tiles, n2, id);
        assert(tile_position(first_tiles, n1, id) is Some);
    }
    assert(merged_slots(backward, info, count, 1) == Ok::<Seq<Option<Seq<u8>>>, ErrorKind>(after_second));
    lemma_placed_tiles_exact(after_second, first, first_tiles, n1);
    let backward_slots = slots_with_tiles(after_second, first, first_tiles, n1);
    assert(merged_slots(backward, info, count, 2) == Ok::<Seq<Option<Seq<u8>>>, ErrorKind>(backward_slots));
    assert forall|i: int| 0 <= i < count implies backward_slots[i] == forward_slots[i] by {
        lemma_tile_position(first_tiles, n1, i);
        lemma_tile_position(second_tiles, n2, i);
    }
    assert(backward_slots =~= forward_slots);
}

} // verus!
