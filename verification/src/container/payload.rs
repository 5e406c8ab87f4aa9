//! Resolving an item's bytes from its `iloc` extents.
use vstd::prelude::*;
use crate::container::items::{ItemExtent, ItemLocation, ItemReference, MetaState};
use crate::container::properties::{code4, fourcc_code, fourcc_eq};
use crate::error::{DecoderError, ErrorKind};

verus! {

/// The bytes of one extent: `length` bytes at `base_offset + offset` of `source`.
pub open spec fn extent_range(location: ItemLocation, extent: ItemExtent) -> (int, int) {
    (location.base_offset + extent.offset, location.base_offset + extent.offset + extent.length)
}

/// Appends one extent of `source` to `payload`.
pub fn append_item_extent(payload: &mut Vec<u8>, location: &ItemLocation, extent: &ItemExtent, source: &[u8]) -> (result: Result<(), DecoderError>)
    ensures
        match result {
            Ok(()) => {
                let (start, end) = extent_range(*location, *extent);
                &&& end <= source@.len()
                &&& end <= usize::MAX
                &&& final(payload)@ == old(payload)@ + source@.subrange(start, end)
            },
            Err(error) => {
                let (start, end) = extent_range(*location, *extent);
                &&& final(payload)@ == old(payload)@
                &&& if start > u64::MAX || end > u64::MAX || end > usize::MAX {
                    error.kind() == ErrorKind::Bitstream
                } else {
                    end > source@.len() && error.kind() == ErrorKind::NotEnoughData
                }
            },
        },
{
    if location.base_offset > u64::MAX - extent.offset {
        return Err(DecoderError::Bitstream("item extent offset overflow".to_string()));
    }
    let start = location.base_offset + extent.offset;
    if start > u64::MAX - extent.length {
        return Err(DecoderError::Bitstream("item extent length overflow".to_string()));
    }
    let end = start + extent.length;
    if start > usize::MAX as u64 {
        return Err(DecoderError::Bitstream("item extent start is too large".to_string()));
    }
    if end > usize::MAX as u64 {
        return Err(DecoderError::Bitstream("item extent end is too large".to_string()));
    }
    let start = start as usize;
    let end = end as usize;
    if end > source.len() || start > end {
        return Err(DecoderError::NotEnoughData("item extent points outside the file".to_string()));
    }
    let ghost before = payload@;
    payload.extend_from_slice(vstd::slice::slice_subrange(source, start, end));
    assert(payload@ =~= before + source@.subrange(start as int, end as int));
    Ok(())
}

/// The concatenated bytes of `extents` taken from `source`.
pub open spec fn extents_bytes(source: Seq<u8>, location: ItemLocation, extents: Seq<ItemExtent>) -> Seq<u8>
    decreases extents.len(),
{
    if extents.len() == 0 {
        Seq::empty()
    } else {
        let (start, end) = extent_range(location, extents.last());
        extents_bytes(source, location, extents.drop_last()) + source.subrange(start, end)
    }
}

/// The first location recorded for `item_id`.
pub open spec fn location_index(locations: Seq<ItemLocation>, item_id: u32, index: int) -> bool {
    &&& 0 <= index < locations.len()
    &&& locations[index].item_id == item_id
    &&& forall|j: int| 0 <= j < index ==> locations[j].item_id != item_id
}

/// Number of location entries whose item is not on `stack`.
pub open spec fn unvisited(locations: Seq<ItemLocation>, stack: Seq<u32>) -> nat
    decreases locations.len(),
{
    if locations.len() == 0 {
        0
    } else {
        unvisited(locations.drop_last(), stack) + (if stack.contains(locations.last().item_id) { 0nat } else { 1nat })
    }
}

pub proof fn lemma_unvisited_push(locations: Seq<ItemLocation>, stack: Seq<u32>, item_id: u32, index: int)
    requires
        !stack.contains(item_id),
        0 <= index < locations.len(),
        locations[index].item_id == item_id,
    ensures
        unvisited(locations, stack.push(item_id)) < unvisited(locations, stack),
    decreases locations.len(),
{
    lemma_unvisited_monotone(locations.drop_last(), stack, item_id);
    if index < locations.len() - 1 {
        lemma_unvisited_push(locations.drop_last(), stack, item_id, index);
    }
    assert(stack.push(item_id)[stack.len() as int] == item_id);
    assert(stack.push(item_id).contains(item_id));
    assert forall|x: u32| stack.contains(x) implies stack.push(item_id).contains(x) by {
        let k = choose|k: int| 0 <= k < stack.len() && stack[k] == x;
        assert(stack.push(item_id)[k] == x);
    }
}

pub proof fn lemma_unvisited_monotone(locations: Seq<ItemLocation>, stack: Seq<u32>, item_id: u32)
    ensures
        unvisited(locations, stack.push(item_id)) <= unvisited(locations, stack),
    decreases locations.len(),
{
    if locations.len() > 0 {
        lemma_unvisited_monotone(locations.drop_last(), stack, item_id);
        let x = locations.last().item_id;
        if stack.contains(x) {
            let k = choose|k: int| 0 <= k < stack.len() && stack[k] == x;
            assert(stack.push(item_id)[k] == x);
        }
    }
}

/// Finds the first location of `item_id`.
pub fn find_location(state: &MetaState, item_id: u32) -> (found: Option<usize>)
    ensures
        match found {
            Some(index) => location_index(state.item_locations@, item_id, index as int),
            None => forall|j: int| 0 <= j < state.item_locations@.len() ==> state.item_locations@[j].item_id != item_id,
        },
{
    let mut index: usize = 0;
    while index < state.item_locations.len()
        invariant
            index <= state.item_locations@.len(),
            forall|j: int| 0 <= j < index ==> state.item_locations@[j].item_id != item_id,
        decreases state.item_locations@.len() - index,
    {
        if state.item_locations[index].item_id == item_id {
            return Some(index);
        }
        index = index + 1;
    }
    None
}

/// The construction method recorded for `item_id` (0, file offsets, when none is).
pub open spec fn construction_method_of(methods: Seq<(u32, u16)>, item_id: u32) -> u16
    decreases methods.len(),
{
    if methods.len() == 0 {
        0
    } else if methods[0].0 == item_id {
        methods[0].1
    } else {
        construction_method_of(methods.drop_first(), item_id)
    }
}

/// The construction method recorded for `item_id`.
pub fn construction_method(state: &MetaState, item_id: u32) -> (method: u16)
    ensures
        method == construction_method_of(state.item_construction_methods@, item_id),
{
    let mut index: usize = 0;
    assert(state.item_construction_methods@.skip(0) =~= state.item_construction_methods@);
    while index < state.item_construction_methods.len()
        invariant
            index <= state.item_construction_methods@.len(),
            construction_method_of(state.item_construction_methods@.skip(index as int), item_id)
                == construction_method_of(state.item_construction_methods@, item_id),
        decreases state.item_construction_methods@.len() - index,
    {
        let (id, method) = state.item_construction_methods[index];
        assert(state.item_construction_methods@.skip(index as int).drop_first() =~= state.item_construction_methods@.skip(index + 1));
        if id == item_id {
            return method;
        }
        index = index + 1;
    }
    0
}

} // verus!

verus! {

fn item_message(prefix: &str, item_id: u32, suffix: &str) -> (message: String)
    ensures
        message@ == prefix@ + crate::text::decimal_spec(item_id as nat) + suffix@,
{
    let head = crate::text::concat(prefix, crate::text::decimal(item_id as u64).as_str());
    crate::text::concat(head.as_str(), suffix)
}

/// The extent index of extent `position` of `item_id`: from the first entry
/// recorded for the item, 1 when that entry has no such extent or there is none.
pub open spec fn extent_index_of(entries: Seq<(u32, Vec<u64>)>, item_id: u32, position: int) -> u64
    decreases entries.len(),
{
    if entries.len() == 0 {
        1
    } else if entries[0].0 == item_id {
        if 0 <= position < entries[0].1@.len() {
            entries[0].1@[position]
        } else {
            1
        }
    } else {
        extent_index_of(entries.drop_first(), item_id, position)
    }
}

/// The extent index of extent `position` of `item_id` (1 when none is recorded).
fn extent_index(state: &MetaState, item_id: u32, position: usize) -> (extent: u64)
    ensures
        extent == extent_index_of(state.item_extent_indexes@, item_id, position as int),
{
    let mut index: usize = 0;
    assert(state.item_extent_indexes@.skip(0) =~= state.item_extent_indexes@);
    while index < state.item_extent_indexes.len()
        invariant
            index <= state.item_extent_indexes@.len(),
            extent_index_of(state.item_extent_indexes@.skip(index as int), item_id, position as int) == extent_index_of(
                state.item_extent_indexes@,
                item_id,
                position as int,
            ),
        decreases state.item_extent_indexes@.len() - index,
    {
        assert(state.item_extent_indexes@.skip(index as int).drop_first() =~= state.item_extent_indexes@.skip(index + 1));
        if state.item_extent_indexes[index].0 == item_id {
            let indexes = &state.item_extent_indexes[index].1;
            if position < indexes.len() {
                return indexes[position];
            } else {
                return 1;
            }
        }
        index = index + 1;
    }
    1
}

/// The item that extent index `extent_index` names through the first `iloc`
/// reference from `item_id` (index 0 counts as 1): `None` when there is no such
/// reference or it lists too few items.
pub open spec fn extent_target_of(references: Seq<ItemReference>, item_id: u32, extent_index: u64) -> Option<u32>
    decreases references.len(),
{
    if references.len() == 0 {
        None
    } else if references[0].reference_type@ == code4(0x69, 0x6c, 0x6f, 0x63) && references[0].from_item_id == item_id {
        let slot: int = if extent_index == 0 { 0 } else { extent_index - 1 };
        if slot < references[0].to_item_ids@.len() {
            Some(references[0].to_item_ids@[slot])
        } else {
            None
        }
    } else {
        extent_target_of(references.drop_first(), item_id, extent_index)
    }
}

/// The item that extent index `extent_index` of `item_id` names through the item's
/// first `iloc` reference.
fn extent_target(state: &MetaState, item_id: u32, extent_index: u64) -> (target: Option<u32>)
    ensures
        target == extent_target_of(state.item_references@, item_id, extent_index),
{
    let mut index: usize = 0;
    assert(state.item_references@.skip(0) =~= state.item_references@);
    while index < state.item_references.len()
        invariant
            index <= state.item_references@.len(),
            extent_target_of(state.item_references@.skip(index as int), item_id, extent_index) == extent_target_of(
                state.item_references@,
                item_id,
                extent_index,
            ),
        decreases state.item_references@.len() - index,
    {
        assert(state.item_references@.skip(index as int).drop_first() =~= state.item_references@.skip(index + 1));
        assert(state.item_references@.skip(index as int)[0] == state.item_references@[index as int]);
        let reference = &state.item_references[index];
        if fourcc_eq(&reference.reference_type, &fourcc_code(0x69, 0x6c, 0x6f, 0x63)) && reference.from_item_id == item_id {
            let slot = if extent_index == 0 { 0 } else { extent_index - 1 };
            if slot < reference.to_item_ids.len() as u64 {
                return Some(reference.to_item_ids[slot as usize]);
            }
            return None;
        }
        index = index + 1;
    }
    None
}

/// Whether `stack` holds `item_id`.
fn stack_contains(stack: &Vec<u32>, item_id: u32) -> (found: bool)
    ensures
        found == stack@.contains(item_id),
{
    let mut index: usize = 0;
    while index < stack.len()
        invariant
            index <= stack@.len(),
            forall|j: int| 0 <= j < index ==> stack@[j] != item_id,
        decreases stack@.len() - index,
    {
        if stack[index] == item_id {
            assert(stack@[index as int] == item_id);
            return true;
        }
        index = index + 1;
    }
    false
}

/// The sum of the lengths of `extents`.
pub open spec fn extents_total(extents: Seq<ItemExtent>) -> int
    decreases extents.len(),
{
    if extents.len() == 0 {
        0
    } else {
        extents_total(extents.drop_last()) + extents.last().length
    }
}

/// The extents of `location` can all be taken from `source`: together they are no
/// longer than it (nor than the address space), and each ends within it.
pub open spec fn extents_fit(source: Seq<u8>, location: ItemLocation) -> bool {
    &&& extents_total(location.extents@) <= source.len()
    &&& extents_total(location.extents@) <= usize::MAX
    &&& forall|k: int|
        0 <= k < location.extents@.len() ==> extent_range(location, #[trigger] location.extents@[k]).1 <= source.len()
}

/// Where an item of construction method `method` takes its bytes from: the file
/// (0) or the `idat` box (1, none when there is no such box).
pub open spec fn item_source(data: Seq<u8>, state: MetaState, method: u16) -> Option<Seq<u8>> {
    if method == 0 {
        Some(data)
    } else if method == 1 {
        match state.idat_payload {
            Some(idat) => Some(idat@),
            None => None,
        }
    } else {
        None
    }
}

/// What resolving an item of construction method 0 or 1, or of an unknown method,
/// gives once its location is found at `index`: for 0 and 1, its extents' bytes
/// exactly when its source exists and they fit in it; an unknown method fails.
pub open spec fn direct_item_outcome(data: Seq<u8>, state: MetaState, item_id: u32, index: int, result: Result<Vec<u8>, DecoderError>) -> bool {
    let method = construction_method_of(state.item_construction_methods@, item_id);
    let location = state.item_locations@[index];
    &&& method > 2 ==> result is Err
    &&& method <= 1 ==> match item_source(data, state, method) {
        None => result is Err,
        Some(source) => {
            &&& result is Ok <==> extents_fit(source, location)
            &&& result is Ok ==> result->Ok_0@ == extents_bytes(source, location, location.extents@)
        },
    }
}

/// Partial sums of extent lengths grow with the number of extents.
proof fn lemma_extents_total_prefix(extents: Seq<ItemExtent>, k: int)
    requires
        0 <= k <= extents.len(),
    ensures
        extents_total(extents.take(k)) <= extents_total(extents),
    decreases extents.len() - k,
{
    if k < extents.len() {
        lemma_extents_total_prefix(extents, k + 1);
        assert(extents.take(k + 1).drop_last() =~= extents.take(k));
    } else {
        assert(extents.take(k) =~= extents);
    }
}

/// What appending one extent of `source` gives: its bytes, or the kind of error
/// (an offset past 64 bits or the address space, or bytes past the source's end).
pub open spec fn extent_append(source: Seq<u8>, location: ItemLocation, extent: ItemExtent) -> Result<Seq<u8>, ErrorKind> {
    let (start, end) = extent_range(location, extent);
    if start > u64::MAX || end > u64::MAX || end > usize::MAX {
        Err(ErrorKind::Bitstream)
    } else if end > source.len() {
        Err(ErrorKind::NotEnoughData)
    } else {
        Ok(source.subrange(start, end))
    }
}

/// The first `k` extents of `location` taken from `source`, one after another, or
/// the first error.
pub open spec fn extents_outcome(source: Seq<u8>, location: ItemLocation, k: nat) -> Result<Seq<u8>, ErrorKind>
    decreases k,
{
    if k == 0 {
        Ok(Seq::empty())
    } else {
        match extents_outcome(source, location, (k - 1) as nat) {
            Err(kind) => Err(kind),
            Ok(prefix) => match extent_append(source, location, location.extents@[k - 1]) {
                Err(kind) => Err(kind),
                Ok(bytes) => Ok(prefix + bytes),
            },
        }
    }
}

/// The bytes of an item, resolved while the items of `stack` are being resolved:
/// an item already on the stack (a reference cycle) or without a location is a
/// bitstream error, as are extents longer together than the address space. Items
/// of construction method 0 and 1 take their extents from the file or the `idat`
/// box (which must exist and hold the extents' total length); items of method 2
/// take each extent from the item that its extent index names through the item's
/// `iloc` reference; any other method is unsupported.
pub open spec fn item_bytes(data: Seq<u8>, state: MetaState, item_id: u32, stack: Seq<u32>) -> Result<Seq<u8>, ErrorKind>
    decreases unvisited(state.item_locations@, stack), 0nat, 0nat,
{
    if stack.contains(item_id) {
        Err(ErrorKind::Bitstream)
    } else if !(exists|l: int| location_index(state.item_locations@, item_id, l)) {
        Err(ErrorKind::Bitstream)
    } else {
        let l = choose|l: int| location_index(state.item_locations@, item_id, l);
        let location = state.item_locations@[l];
        let method = construction_method_of(state.item_construction_methods@, item_id);
        if extents_total(location.extents@) > usize::MAX {
            Err(ErrorKind::Bitstream)
        } else if method == 0 || method == 1 {
            match item_source(data, state, method) {
                None => Err(ErrorKind::Bitstream),
                Some(source) => if extents_total(location.extents@) > source.len() {
                    Err(ErrorKind::Bitstream)
                } else {
                    extents_outcome(source, location, location.extents@.len())
                },
            }
        } else if method == 2 {
            proof {
                lemma_unvisited_push(state.item_locations@, stack, item_id, l);
            }
            referenced_outcome(data, state, item_id, stack.push(item_id), location, location.extents@.len())
        } else {
            Err(ErrorKind::Unsupported)
        }
    }
}

/// The first `k` extents of an item of construction method 2, each taken from the
/// item that its extent index names (resolved with `inner` on the stack), or the
/// first error; an extent index that names no item is a bitstream error.
pub open spec fn referenced_outcome(
    data: Seq<u8>,
    state: MetaState,
    item_id: u32,
    inner: Seq<u32>,
    location: ItemLocation,
    k: nat,
) -> Result<Seq<u8>, ErrorKind>
    decreases unvisited(state.item_locations@, inner), 1nat, k,
{
    if k == 0 {
        Ok(Seq::empty())
    } else {
        match referenced_outcome(data, state, item_id, inner, location, (k - 1) as nat) {
            Err(kind) => Err(kind),
            Ok(prefix) => match extent_target_of(
                state.item_references@,
                item_id,
                extent_index_of(state.item_extent_indexes@, item_id, k - 1),
            ) {
                None => Err(ErrorKind::Bitstream),
                Some(target) => match item_bytes(data, state, target, inner) {
                    Err(kind) => Err(kind),
                    Ok(source) => match extent_append(source, location, location.extents@[k - 1]) {
                        Err(kind) => Err(kind),
                        Ok(bytes) => Ok(prefix + bytes),
                    },
                },
            },
        }
    }
}

/// What resolving an item whose location is `location` gives (see `item_bytes`).
pub open spec fn located_item_bytes(data: Seq<u8>, state: MetaState, item_id: u32, stack: Seq<u32>, location: ItemLocation) -> Result<Seq<u8>, ErrorKind> {
    let method = construction_method_of(state.item_construction_methods@, item_id);
    if extents_total(location.extents@) > usize::MAX {
        Err(ErrorKind::Bitstream)
    } else if method == 0 || method == 1 {
        match item_source(data, state, method) {
            None => Err(ErrorKind::Bitstream),
            Some(source) => if extents_total(location.extents@) > source.len() {
                Err(ErrorKind::Bitstream)
            } else {
                extents_outcome(source, location, location.extents@.len())
            },
        }
    } else if method == 2 {
        referenced_outcome(data, state, item_id, stack.push(item_id), location, location.extents@.len())
    } else {
        Err(ErrorKind::Unsupported)
    }
}

/// An error among the first extents stays the outcome of all of them.
proof fn lemma_extents_outcome_error(source: Seq<u8>, location: ItemLocation, k: nat, n: nat)
    requires
        k <= n,
        extents_outcome(source, location, k) is Err,
    ensures
        extents_outcome(source, location, n) == extents_outcome(source, location, k),
    decreases n - k,
{
    if k < n {
        lemma_extents_outcome_error(source, location, k, (n - 1) as nat);
    }
}

/// An error among the first referenced extents stays the outcome of all of them.
proof fn lemma_referenced_outcome_error(
    data: Seq<u8>,
    state: MetaState,
    item_id: u32,
    inner: Seq<u32>,
    location: ItemLocation,
    k: nat,
    n: nat,
)
    requires
        k <= n,
        referenced_outcome(data, state, item_id, inner, location, k) is Err,
    ensures
        referenced_outcome(data, state, item_id, inner, location, n) == referenced_outcome(data, state, item_id, inner, location, k),
    decreases n - k,
{
    if k < n {
        lemma_referenced_outcome_error(data, state, item_id, inner, location, k, (n - 1) as nat);
    }
}

/// The bytes of an item: its extents concatenated, taken from the file
/// (construction method 0), from `idat` (1) or from other items (2). `stack` lists
/// the items being resolved, to refuse reference cycles.
pub fn item_payload_with_stack(data: &[u8], state: &MetaState, item_id: u32, stack: &mut Vec<u32>) -> (result: Result<Vec<u8>, DecoderError>)
    ensures
        result is Ok ==> final(stack)@ == old(stack)@,
        result is Ok ==> !old(stack)@.contains(item_id),
        result is Ok ==> exists|index: int| #[trigger] location_index(state.item_locations@, item_id, index),
        result is Ok && construction_method_of(state.item_construction_methods@, item_id) == 0 ==> exists|index: int|
            #[trigger] location_index(state.item_locations@, item_id, index) && result->Ok_0@ == extents_bytes(
                data@,
                state.item_locations@[index],
                state.item_locations@[index].extents@,
            ),
        old(stack)@.contains(item_id) ==> result is Err && result->Err_0.kind() == ErrorKind::Bitstream,
        !old(stack)@.contains(item_id) ==> forall|index: int|
            #[trigger] location_index(state.item_locations@, item_id, index) ==> direct_item_outcome(
                data@,
                *state,
                item_id,
                index,
                result,
            ),
        match result {
            Ok(bytes) => item_bytes(data@, *state, item_id, old(stack)@) == Ok::<Seq<u8>, ErrorKind>(bytes@),
            Err(error) => item_bytes(data@, *state, item_id, old(stack)@) == Err::<Seq<u8>, ErrorKind>(error.kind()),
        },
    decreases unvisited(state.item_locations@, old(stack)@),
{
    if stack_contains(stack, item_id) {
        return Err(DecoderError::Bitstream(item_message("iloc item reference cycle includes item ", item_id, "")));
    }
    let ghost entry_stack = stack@;
    stack.push(item_id);
    let location_position = match find_location(state, item_id) {
        Some(index) => index,
        None => {
            proof {
                assert forall|l: int| !location_index(state.item_locations@, item_id, l) by {
                    if 0 <= l < state.item_locations@.len() {
                        assert(state.item_locations@[l].item_id != item_id);
                    }
                }
            }
            return Err(DecoderError::Bitstream(item_message("item ", item_id, " location is missing")));
        },
    };
    proof {
        lemma_unvisited_push(state.item_locations@, entry_stack, item_id, location_position as int);
        assert forall|index: int| #[trigger] location_index(state.item_locations@, item_id, index) implies index
            == location_position by {
            if index < location_position {
                assert(state.item_locations@[index].item_id == item_id);
            } else if index > location_position {
                assert(state.item_locations@[location_position as int].item_id == item_id);
            }
        }
    }
    let location = &state.item_locations[location_position];
    let method = construction_method(state, item_id);
    proof {
        assert(location_index(state.item_locations@, item_id, location_position as int));
        let l = choose|l: int| location_index(state.item_locations@, item_id, l);
        assert(l == location_position);
        assert(item_bytes(data@, *state, item_id, entry_stack) == located_item_bytes(data@, *state, item_id, entry_stack, *location));
    }
    let mut payload_len: usize = 0;
    let mut k: usize = 0;
    while k < location.extents.len()
        invariant
            k <= location.extents@.len(),
            payload_len == extents_total(location.extents@.take(k as int)),
            item_bytes(data@, *state, item_id, old(stack)@) == located_item_bytes(data@, *state, item_id, old(stack)@, *location),
            !old(stack)@.contains(item_id),
            method == construction_method_of(state.item_construction_methods@, item_id),
            *location == state.item_locations@[location_position as int],
            forall|index: int| #[trigger] location_index(state.item_locations@, item_id, index) ==> index == location_position,
        decreases location.extents@.len() - k,
    {
        let length = location.extents[k].length;
        proof {
            assert(location.extents@.take(k + 1).drop_last() =~= location.extents@.take(k as int));
            lemma_extents_total_prefix(location.extents@, k + 1);
        }
        if length > usize::MAX as u64 {
            return Err(DecoderError::Bitstream("item extent length is too large".to_string()));
        }
        if payload_len > usize::MAX - length as usize {
            return Err(DecoderError::Bitstream("item extent payload length overflow".to_string()));
        }
        payload_len = payload_len + length as usize;
        k = k + 1;
    }
    assert(location.extents@.take(k as int) =~= location.extents@);
    let mut payload: Vec<u8> = Vec::new();
    if method == 0 || method == 1 {
        let source: &[u8] = if method == 0 {
            data
        } else {
            match &state.idat_payload {
                Some(idat) => idat.as_slice(),
                None => return Err(DecoderError::Bitstream(
                    item_message("item ", item_id, " references missing idat box"),
                )),
            }
        };
        if payload_len > source.len() {
            return Err(DecoderError::Bitstream("item extent payload length exceeds file size".to_string()));
        }
        let mut k: usize = 0;
        while k < location.extents.len()
            invariant
                k <= location.extents@.len(),
                !old(stack)@.contains(item_id),
                payload@ == extents_bytes(source@, *location, location.extents@.take(k as int)),
                extents_outcome(source@, *location, k as nat) == Ok::<Seq<u8>, ErrorKind>(payload@),
                item_bytes(data@, *state, item_id, old(stack)@) == located_item_bytes(data@, *state, item_id, old(stack)@, *location),

                forall|j: int| 0 <= j < k ==> extent_range(*location, #[trigger] location.extents@[j]).1 <= source@.len(),
                extents_total(location.extents@) <= source@.len(),
                source@.len() <= usize::MAX,
                item_source(data@, *state, method) == Some(source@),
                !old(stack)@.contains(item_id),
                method == construction_method_of(state.item_construction_methods@, item_id),
                *location == state.item_locations@[location_position as int],
                forall|index: int| #[trigger] location_index(state.item_locations@, item_id, index) ==> index == location_position,
            decreases location.extents@.len() - k,
        {
            let ghost before = payload@;
            match append_item_extent(&mut payload, location, &location.extents[k], source) {
                Ok(()) => {},
                Err(error) => {
                    proof {
                        lemma_extents_outcome_error(source@, *location, (k + 1) as nat, location.extents@.len());
                    }
                    return Err(error);
                },
            }
            proof {
                assert(location.extents@.take(k + 1).drop_last() =~= location.extents@.take(k as int));
                assert(extents_outcome(source@, *location, (k + 1) as nat) == Ok::<Seq<u8>, ErrorKind>(payload@));
            }
            k = k + 1;
        }
        assert(location.extents@.take(k as int) =~= location.extents@);
    } else if method == 2 {
        let mut k: usize = 0;
        while k < location.extents.len()
            invariant
                k <= location.extents@.len(),
                stack@ == entry_stack.push(item_id),
                !old(stack)@.contains(item_id),
                unvisited(state.item_locations@, stack@) < unvisited(state.item_locations@, old(stack)@),
                entry_stack == old(stack)@,
                method == 2,
                extents_total(location.extents@) <= usize::MAX,
                referenced_outcome(data@, *state, item_id, entry_stack.push(item_id), *location, k as nat) == Ok::<Seq<u8>, ErrorKind>(
                    payload@,
                ),
                item_bytes(data@, *state, item_id, old(stack)@) == located_item_bytes(data@, *state, item_id, old(stack)@, *location),

                !old(stack)@.contains(item_id),
                method == construction_method_of(state.item_construction_methods@, item_id),
                *location == state.item_locations@[location_position as int],
                forall|index: int| #[trigger] location_index(state.item_locations@, item_id, index) ==> index == location_position,
            decreases location.extents@.len() - k,
        {
            let index = extent_index(state, item_id, k);
            let target = match extent_target(state, item_id, index) {
                Some(target) => target,
                None => {
                    proof {
                        lemma_referenced_outcome_error(
                            data@,
                            *state,
                            item_id,
                            entry_stack.push(item_id),
                            *location,
                            (k + 1) as nat,
                            location.extents@.len(),
                        );
                    }
                    let head = item_message("item ", item_id, " item_offset reference index ");
                    let head = crate::text::concat(head.as_str(), crate::text::decimal(index).as_str());
                    return Err(DecoderError::Bitstream(crate::text::concat(head.as_str(), " is missing")));
                },
            };
            assert(extent_target_of(
                state.item_references@,
                item_id,
                extent_index_of(state.item_extent_indexes@, item_id, k as int),
            ) == Some(target));
            let source = match item_payload_with_stack(data, state, target, stack) {
                Ok(bytes) => bytes,
                Err(error) => {
                    proof {
                        assert(item_bytes(data@, *state, target, entry_stack.push(item_id)) == Err::<Seq<u8>, ErrorKind>(
                            error.kind(),
                        ));
                        assert(referenced_outcome(data@, *state, item_id, entry_stack.push(item_id), *location, (k + 1) as nat)
                            == Err::<Seq<u8>, ErrorKind>(error.kind()));
                        lemma_referenced_outcome_error(
                            data@,
                            *state,
                            item_id,
                            entry_stack.push(item_id),
                            *location,
                            (k + 1) as nat,
                            location.extents@.len(),
                        );
                    }
                    return Err(error);
                },
            };
            proof {
                assert(item_bytes(data@, *state, target, entry_stack.push(item_id)) == Ok::<Seq<u8>, ErrorKind>(source@));
                assert(target == extent_target_of(
                    state.item_references@,
                    item_id,
                    extent_index_of(state.item_extent_indexes@, item_id, k as int),
                )->0);
            }
            let ghost before = payload@;
            match append_item_extent(&mut payload, location, &location.extents[k], source.as_slice()) {
                Ok(()) => {},
                Err(error) => {
                    proof {
                        assert(extent_append(source@, *location, location.extents@[k as int]) == Err::<Seq<u8>, ErrorKind>(
                            error.kind(),
                        ));
                        assert(referenced_outcome(data@, *state, item_id, entry_stack.push(item_id), *location, (k + 1) as nat)
                            == Err::<Seq<u8>, ErrorKind>(error.kind()));
                        lemma_referenced_outcome_error(
                            data@,
                            *state,
                            item_id,
                            entry_stack.push(item_id),
                            *location,
                            (k + 1) as nat,
                            location.extents@.len(),
                        );
                    }
                    return Err(error);
                },
            }
            proof {
                assert(referenced_outcome(data@, *state, item_id, entry_stack.push(item_id), *location, (k + 1) as nat)
                    == Ok::<Seq<u8>, ErrorKind>(payload@));
            }
            k = k + 1;
        }
    } else {
        let head = crate::text::concat("iloc construction_method ", crate::text::decimal(method as u64).as_str());
        return Err(DecoderError::Unsupported(crate::text::concat(head.as_str(), " is not supported")));
    }
    stack.pop();
    proof {
        assert(stack@ =~= entry_stack);
    }
    Ok(payload)
}

/// The bytes of an item (see `item_payload_with_stack`).
pub fn item_payload(data: &[u8], state: &MetaState, item_id: u32) -> (result: Result<Vec<u8>, DecoderError>)
    ensures
        result is Ok ==> exists|index: int| #[trigger] location_index(state.item_locations@, item_id, index),
        result is Ok && construction_method_of(state.item_construction_methods@, item_id) == 0 ==> exists|index: int|
            #[trigger] location_index(state.item_locations@, item_id, index) && result->Ok_0@ == extents_bytes(
                data@,
                state.item_locations@[index],
                state.item_locations@[index].extents@,
            ),
        forall|index: int| #[trigger] location_index(state.item_locations@, item_id, index) ==> direct_item_outcome(
            data@,
            *state,
            item_id,
            index,
            result,
        ),
        match result {
            Ok(bytes) => item_bytes(data@, *state, item_id, Seq::empty()) == Ok::<Seq<u8>, ErrorKind>(bytes@),
            Err(error) => item_bytes(data@, *state, item_id, Seq::empty()) == Err::<Seq<u8>, ErrorKind>(error.kind()),
        },
{
    let mut stack: Vec<u32> = Vec::new();
    item_payload_with_stack(data, state, item_id, &mut stack)
}

} // verus!
