//! Derived `grid` items and alpha auxiliary items.
use vstd::prelude::*;
use crate::container::bytes::{be_uint, read_u16, read_u32, read_u8};
use crate::container::items::{ItemProperty, MetaState, PropertyKind};
use crate::container::metadata::{
    association_entry, association_indices_valid, find_info, has_item_of_type, info_entry, item_metadata, last_of_kind,
    metadata_matches,
};
use crate::container::payload::{construction_method_of, extents_fit, item_source, location_index};
use crate::container::payload::{item_bytes, item_payload};
use crate::container::properties::{code4, fourcc_code, fourcc_eq};
use crate::container::types::{AuxiliaryImage, GridCell, GridImage};
use crate::error::{DecoderError, ErrorKind};

verus! {

/// The header of a `grid` item payload.
#[derive(Debug, Clone, Copy, PartialEq, Eq, Structural)]
pub struct ParsedGridPayload {
    pub rows: u8,
    pub columns: u8,
    pub output_width: u32,
    pub output_height: u32,
}

/// Parses a `grid` payload: version 0, flags, rows and columns minus one, then the
/// output size in 16 bits (32 when flag bit 0 is set).
pub fn parse_grid_payload(payload: &[u8]) -> (result: Result<ParsedGridPayload, DecoderError>)
    ensures
        match result {
            Ok(grid) => {
                let p = payload@;
                let large = p[1] % 2 == 1;
                &&& p.len() >= 8 && p[0] == 0
                &&& p[2] < 255 && p[3] < 255
                &&& grid.rows == p[2] + 1 && grid.columns == p[3] + 1
                &&& large ==> p.len() >= 12 && grid.output_width == be_uint(p, 4, 4) && grid.output_height == be_uint(p, 8, 4)
                &&& !large ==> grid.output_width == be_uint(p, 4, 2) && grid.output_height == be_uint(p, 6, 2)
            },
            Err(error) => {
                let p = payload@;
                if p.len() < 8 {
                    error.kind() == ErrorKind::NotEnoughData
                } else if p[0] != 0 {
                    error.kind() == ErrorKind::Unsupported
                } else if p[2] == 255 || p[3] == 255 {
                    error.kind() == ErrorKind::Bitstream
                } else {
                    p[1] % 2 == 1 && p.len() < 12 && error.kind() == ErrorKind::NotEnoughData
                }
            },
        },
{
    if payload.len() < 8 {
        return Err(DecoderError::NotEnoughData("grid payload is too short".to_string()));
    }
    let version = read_u8(payload, 0)?;
    if version != 0 {
        let head = crate::text::concat("grid version ", crate::text::decimal(version as u64).as_str());
        return Err(DecoderError::Unsupported(crate::text::concat(head.as_str(), " is not supported")));
    }
    let flags = read_u8(payload, 1)?;
    let rows_minus_one = read_u8(payload, 2)?;
    if rows_minus_one == 255 {
        return Err(DecoderError::Bitstream("grid row count overflow".to_string()));
    }
    let columns_minus_one = read_u8(payload, 3)?;
    if columns_minus_one == 255 {
        return Err(DecoderError::Bitstream("grid column count overflow".to_string()));
    }
    let rows = rows_minus_one + 1;
    let columns = columns_minus_one + 1;
    if flags % 2 == 0 {
        Ok(ParsedGridPayload {
            rows,
            columns,
            output_width: read_u16(payload, 4)? as u32,
            output_height: read_u16(payload, 6)? as u32,
        })
    } else {
        if payload.len() < 12 {
            return Err(DecoderError::NotEnoughData("large grid payload is too short".to_string()));
        }
        Ok(ParsedGridPayload {
            rows,
            columns,
            output_width: read_u32(payload, 4)?,
            output_height: read_u32(payload, 8)?,
        })
    }
}

fn grid_message(prefix: &str, item_id: u32, suffix: &str) -> (message: String)
    ensures
        message@ == prefix@ + crate::text::decimal_spec(item_id as nat) + suffix@,
{
    let head = crate::text::concat(prefix, crate::text::decimal(item_id as u64).as_str());
    crate::text::concat(head.as_str(), suffix)
}

/// A `grid` payload that parses: version 0, fewer than 255 rows and columns, and
/// room for the output size (32-bit fields when flag bit 0 is set).
pub open spec fn grid_payload_parses(p: Seq<u8>) -> bool {
    &&& p.len() >= 8
    &&& p[0] == 0
    &&& p[2] < 255
    &&& p[3] < 255
    &&& p[1] % 2 == 1 ==> p.len() >= 12
}

/// Reference `r` is a `dimg` reference from `grid_item_id`.
pub open spec fn is_dimg_from(state: &MetaState, grid_item_id: u32, r: int) -> bool {
    state.item_references@[r].reference_type@ == code4(0x64, 0x69, 0x6d, 0x67) && state.item_references@[r].from_item_id
        == grid_item_id
}

/// The number of `dimg` references from `grid_item_id` among the first `n`.
pub open spec fn dimg_count(state: &MetaState, grid_item_id: u32, n: int) -> int
    decreases n,
{
    if n <= 0 {
        0
    } else {
        dimg_count(state, grid_item_id, n - 1) + if is_dimg_from(state, grid_item_id, n - 1) { 1int } else { 0int }
    }
}

/// Reference `r` is the one `dimg` reference from `grid_item_id`.
pub open spec fn only_dimg(state: &MetaState, grid_item_id: u32, r: int) -> bool {
    &&& 0 <= r < state.item_references@.len()
    &&& is_dimg_from(state, grid_item_id, r)
    &&& forall|other: int|
        0 <= other < state.item_references@.len() && #[trigger] is_dimg_from(state, grid_item_id, other) ==> other == r
}

/// A grid cell that decodes: its first item information gives type `av01`, its
/// first association entry names `ispe` and `av1C` properties, and its bytes come
/// from the file or `idat` (construction method 0 or 1) and fit there.
pub open spec fn cell_decodable(data: Seq<u8>, state: &MetaState, item_id: u32) -> bool {
    &&& exists|k: int|
        #[trigger] info_entry(state, item_id, k) && state.item_infos@[k].item_type@ == code4(0x61, 0x76, 0x30, 0x31)
    &&& exists|e: int|
        #[trigger] association_entry(state, item_id, e) && (last_of_kind(
            state.item_properties@,
            state.item_property_associations@[e].associations@,
            PropertyKind::SpatialExtents,
        ) matches Some(ItemProperty::SpatialExtents(_))) && (last_of_kind(
            state.item_properties@,
            state.item_property_associations@[e].associations@,
            PropertyKind::Av1Config,
        ) matches Some(ItemProperty::Av1Config(_)))
    &&& exists|l: int|
        #[trigger] location_index(state.item_locations@, item_id, l) && construction_method_of(
            state.item_construction_methods@,
            item_id,
        ) <= 1 && (item_source(data, *state, construction_method_of(state.item_construction_methods@, item_id)) matches Some(
            source,
        ) && extents_fit(source, state.item_locations@[l]))
}

/// A grid item that decodes: its payload parses, it has exactly one `dimg`
/// reference, which names rows times columns cells, each of which decodes.
pub open spec fn grid_decodable(data: Seq<u8>, payload: Seq<u8>, state: &MetaState, grid_item_id: u32) -> bool {
    &&& grid_payload_parses(payload)
    &&& exists|r: int|
        #[trigger] only_dimg(state, grid_item_id, r) && state.item_references@[r].to_item_ids@.len() == (payload[2] + 1) * (
        payload[3] + 1) && forall|c: int|
            0 <= c < state.item_references@[r].to_item_ids@.len() ==> cell_decodable(
                data,
                state,
                #[trigger] state.item_references@[r].to_item_ids@[c],
            )
}

/// With one `dimg` reference at `r`, the first `n` references hold one exactly when
/// `r` is among them.
proof fn lemma_dimg_count(state: &MetaState, grid_item_id: u32, r: int, n: int)
    requires
        only_dimg(state, grid_item_id, r),
        0 <= n <= state.item_references@.len(),
    ensures
        dimg_count(state, grid_item_id, n) == if r < n { 1int } else { 0int },
    decreases n,
{
    if n > 0 {
        lemma_dimg_count(state, grid_item_id, r, n - 1);
        if is_dimg_from(state, grid_item_id, n - 1) {
            assert(n - 1 == r);
        }
    }
}

/// Parses a `grid` item: its header, its single `dimg` reference to exactly
/// `rows * columns` cells, and each cell, which must be an `av01` item with `ispe`
/// dimensions and an `av1C` configuration.
pub fn parse_grid_item(data: &[u8], payload: &[u8], state: &MetaState, grid_item_id: u32) -> (result: Result<GridImage, DecoderError>)
    requires
        association_indices_valid(state),
    ensures
        match result {
            Ok(grid) => {
                &&& grid.item_id == grid_item_id
                &&& grid.payload@ == payload@
                &&& grid.cells@.len() == grid.rows * grid.columns
                &&& forall|i: int| 0 <= i < grid.cells@.len() ==> (#[trigger] grid.cells@[i]).av1_config is Some
            },
            Err(_) => true,
        },
        grid_decodable(data@, payload@, state, grid_item_id) ==> result is Ok,
{
    let ghost decodable = grid_decodable(data@, payload@, state, grid_item_id);
    let parsed = parse_grid_payload(payload)?;
    let mut found: Option<usize> = None;
    let mut count: usize = 0;
    let mut r: usize = 0;
    while r < state.item_references.len()
        invariant
            r <= state.item_references@.len(),
            count <= r,
            found is Some ==> found->0 < state.item_references@.len(),
            count == dimg_count(state, grid_item_id, r as int),
            found is Some ==> is_dimg_from(state, grid_item_id, found->0 as int),
            found is None ==> count == 0,
        decreases state.item_references@.len() - r,
    {
        let reference = &state.item_references[r];
        if fourcc_eq(&reference.reference_type, &fourcc_code(0x64, 0x69, 0x6d, 0x67)) && reference.from_item_id == grid_item_id {
            if found.is_none() {
                found = Some(r);
            }
            count = count + 1;
        }
        r = r + 1;
    }
    proof {
        if decodable {
            let r0 = choose|r0: int|
                #[trigger] only_dimg(state, grid_item_id, r0) && state.item_references@[r0].to_item_ids@.len() == (payload@[2]
                    + 1) * (payload@[3] + 1) && forall|c: int|
                    0 <= c < state.item_references@[r0].to_item_ids@.len() ==> cell_decodable(
                        data@,
                        state,
                        #[trigger] state.item_references@[r0].to_item_ids@[c],
                    );
            lemma_dimg_count(state, grid_item_id, r0, state.item_references@.len() as int);
        }
    }
    if count != 1 || found.is_none() {
        return Err(DecoderError::Bitstream(grid_message("grid item ", grid_item_id, " must have exactly one dimg reference")));
    }
    let reference_index = match found {
        Some(index) => index,
        None => 0,
    };
    proof {
        assert(parsed.rows * parsed.columns <= 255 * 255) by (nonlinear_arith)
            requires
                parsed.rows <= 255,
                parsed.columns <= 255,
        ;
    }
    let cell_count = parsed.rows as usize * parsed.columns as usize;
    let cell_ids = &state.item_references[reference_index].to_item_ids;
    let ghost cells_ok = decodable && forall|c: int|
        0 <= c < cell_ids@.len() ==> cell_decodable(data@, state, #[trigger] cell_ids@[c]);
    proof {
        if decodable {
            let r0 = choose|r0: int|
                #[trigger] only_dimg(state, grid_item_id, r0) && state.item_references@[r0].to_item_ids@.len() == (payload@[2]
                    + 1) * (payload@[3] + 1) && forall|c: int|
                    0 <= c < state.item_references@[r0].to_item_ids@.len() ==> cell_decodable(
                        data@,
                        state,
                        #[trigger] state.item_references@[r0].to_item_ids@[c],
                    );
            assert(reference_index as int == r0);
            assert(cell_count == (payload@[2] + 1) * (payload@[3] + 1));
        }
    }
    if cell_ids.len() != cell_count {
        let head = grid_message("grid item ", grid_item_id, " references ");
        let head = crate::text::concat(head.as_str(), crate::text::decimal(cell_ids.len() as u64).as_str());
        let head = crate::text::concat(head.as_str(), " cells, expected ");
        return Err(DecoderError::Bitstream(crate::text::concat(head.as_str(), crate::text::decimal(cell_count as u64).as_str())));
    }
    assert(decodable ==> cells_ok);
    let mut cells: Vec<GridCell> = Vec::new();
    let mut c: usize = 0;
    while c < cell_ids.len()
        invariant
            c <= cell_ids@.len(),
            association_indices_valid(state),
            cells@.len() == c,
            forall|i: int| 0 <= i < cells@.len() ==> (#[trigger] cells@[i]).av1_config is Some,
            decodable ==> forall|k: int| 0 <= k < cell_ids@.len() ==> cell_decodable(data@, state, #[trigger] cell_ids@[k]),
            decodable == grid_decodable(data@, payload@, state, grid_item_id),
        decreases cell_ids@.len() - c,
    {
        let item_id = cell_ids[c];
        proof {
            if decodable {
                assert(cell_decodable(data@, state, cell_ids@[c as int]));
            }
        }
        let info = match find_info(state, item_id) {
            Some(index) => index,
            None => {
                proof {
                    if decodable {
                        let k = choose|k: int|
                            #[trigger] info_entry(state, item_id, k) && state.item_infos@[k].item_type@ == code4(0x61, 0x76, 0x30, 0x31);
                        assert(state.item_infos@[k].item_id == item_id);
                    }
                }
                return Err(DecoderError::Bitstream(grid_message("grid cell item ", item_id, " info is missing")));
            },
        };
        if !fourcc_eq(&state.item_infos[info].item_type, &fourcc_code(0x61, 0x76, 0x30, 0x31)) {
            proof {
                if decodable {
                    let k = choose|k: int|
                        #[trigger] info_entry(state, item_id, k) && state.item_infos@[k].item_type@ == code4(0x61, 0x76, 0x30, 0x31);
                    if k < info {
                        assert(state.item_infos@[k].item_id == item_id);
                    } else if k > info {
                        assert(state.item_infos@[info as int].item_id == item_id);
                    }
                }
            }
            let head = grid_message("grid cell item ", item_id, " type ");
            let head = crate::text::concat(head.as_str(), crate::text::bytes4_debug(&state.item_infos[info].item_type).as_str());
            return Err(DecoderError::Unsupported(crate::text::concat(head.as_str(), " is not av01")));
        }
        let metadata = match item_metadata(state, item_id) {
            Ok(metadata) => metadata,
            Err(error) => {
                proof {
                    if decodable {
                        let e = choose|e: int| #[trigger] association_entry(state, item_id, e);
                        assert(state.item_property_associations@[e].item_id == item_id);
                    }
                }
                return Err(error);
            },
        };
        proof {
            if decodable {
                let e = choose|e: int|
                    #[trigger] association_entry(state, item_id, e) && (last_of_kind(
                        state.item_properties@,
                        state.item_property_associations@[e].associations@,
                        PropertyKind::SpatialExtents,
                    ) matches Some(ItemProperty::SpatialExtents(_))) && (last_of_kind(
                        state.item_properties@,
                        state.item_property_associations@[e].associations@,
                        PropertyKind::Av1Config,
                    ) matches Some(ItemProperty::Av1Config(_)));
                let f = choose|f: int|
                    #[trigger] association_entry(state, item_id, f) && metadata_matches(
                        state.item_properties@,
                        state.item_property_associations@[f].associations@,
                        metadata,
                    );
                if e < f {
                    assert(state.item_property_associations@[e].item_id == item_id);
                } else if e > f {
                    assert(state.item_property_associations@[f].item_id == item_id);
                }
                assert(metadata.width is Some && metadata.height is Some && metadata.av1_config is Some);
            }
        }
        let width = match metadata.width {
            Some(width) => width,
            None => return Err(DecoderError::Bitstream(grid_message("grid cell item ", item_id, " width is missing"))),
        };
        let height = match metadata.height {
            Some(height) => height,
            None => return Err(DecoderError::Bitstream(grid_message("grid cell item ", item_id, " height is missing"))),
        };
        let av1_config = match metadata.av1_config {
            Some(config) => config,
            None => return Err(DecoderError::Bitstream(grid_message("grid cell item ", item_id, " av1C is missing"))),
        };
        let cell_payload = match item_payload(data, state, item_id) {
            Ok(bytes) => bytes,
            Err(error) => {
                proof {
                    if decodable {
                        let l = choose|l: int|
                            #[trigger] location_index(state.item_locations@, item_id, l) && construction_method_of(
                                state.item_construction_methods@,
                                item_id,
                            ) <= 1 && (item_source(
                                data@,
                                *state,
                                construction_method_of(state.item_construction_methods@, item_id),
                            ) matches Some(source) && extents_fit(source, state.item_locations@[l]));
                        assert(crate::container::payload::direct_item_outcome(data@, *state, item_id, l, Err(error)));
                    }
                }
                return Err(error);
            },
        };
        cells.push(GridCell {
            item_id,
            width,
            height,
            pixel_information: metadata.pixel_information,
            color_information: metadata.color_information,
            av1_config: Some(av1_config),
            payload: cell_payload,
        });
        c = c + 1;
    }
    Ok(GridImage {
        item_id: grid_item_id,
        rows: parsed.rows,
        columns: parsed.columns,
        output_width: parsed.output_width,
        output_height: parsed.output_height,
        payload: vstd::slice::slice_to_vec(payload),
        cells,
    })
}

/// The primary item's first item information entry gives it type `grid`.
pub open spec fn primary_is_grid(state: &MetaState) -> bool {
    match state.primary_item_id {
        Some(id) => exists|index: int|
            #[trigger] info_entry(state, id, index) && state.item_infos@[index].item_type@ == code4(0x67, 0x72, 0x69, 0x64),
        None => false,
    }
}

/// The grid of the primary item, when the primary item is a `grid`.
pub fn primary_grid(data: &[u8], payload: &[u8], state: &MetaState) -> (result: Result<Option<GridImage>, DecoderError>)
    requires
        association_indices_valid(state),
    ensures
        match result {
            Ok(Some(grid)) => state.primary_item_id == Some(grid.item_id) && grid.payload@ == payload@ && grid.cells@.len()
                == grid.rows * grid.columns,
            _ => true,
        },
        (result matches Ok(None)) <==> !primary_is_grid(state),
        primary_is_grid(state) && grid_decodable(data@, payload@, state, state.primary_item_id->0) ==> result is Ok,
{
    let primary_item_id = match state.primary_item_id {
        Some(id) => id,
        None => return Ok(None),
    };
    let info = match find_info(state, primary_item_id) {
        Some(index) => index,
        None => {
            proof {
                assert forall|index: int| !#[trigger] info_entry(state, primary_item_id, index) by {
                    if 0 <= index < state.item_infos@.len() {
                        assert(state.item_infos@[index].item_id != primary_item_id);
                    }
                }
            }
            return Ok(None);
        },
    };
    proof {
        assert forall|index: int| #[trigger] info_entry(state, primary_item_id, index) implies index == info by {
            if index < info {
                assert(state.item_infos@[index].item_id == primary_item_id);
            } else if index > info {
                assert(state.item_infos@[info as int].item_id == primary_item_id);
            }
        }
    }
    if !fourcc_eq(&state.item_infos[info].item_type, &fourcc_code(0x67, 0x72, 0x69, 0x64)) {
        return Ok(None);
    }
    assert(info_entry(state, primary_item_id, info as int));
    match parse_grid_item(data, payload, state, primary_item_id) {
        Ok(grid) => Ok(Some(grid)),
        Err(error) => Err(error),
    }
}

/// The grid of the first alpha auxiliary item that is a `grid`.
pub fn alpha_grid(data: &[u8], auxiliary_items: &[AuxiliaryImage], state: &MetaState) -> (result: Result<Option<GridImage>, DecoderError>)
    requires
        association_indices_valid(state),
    ensures
        (result matches Ok(None)) <==> forall|a: int|
            0 <= a < auxiliary_items@.len() ==> !has_item_of_type(
                state,
                (#[trigger] auxiliary_items@[a]).item_id,
                code4(0x67, 0x72, 0x69, 0x64),
            ),
        match result {
            Ok(Some(grid)) => exists|a: int|
                0 <= a < auxiliary_items@.len() && has_item_of_type(
                    state,
                    (#[trigger] auxiliary_items@[a]).item_id,
                    code4(0x67, 0x72, 0x69, 0x64),
                ) && grid.item_id == auxiliary_items@[a].item_id && grid.payload@ == auxiliary_items@[a].payload@,
            _ => true,
        },
        (forall|a: int|
            0 <= a < auxiliary_items@.len() && has_item_of_type(
                state,
                (#[trigger] auxiliary_items@[a]).item_id,
                code4(0x67, 0x72, 0x69, 0x64),
            ) ==> grid_decodable(data@, auxiliary_items@[a].payload@, state, auxiliary_items@[a].item_id)) ==> result is Ok,
{
    let ghost all_decodable = forall|a: int|
        0 <= a < auxiliary_items@.len() && has_item_of_type(
            state,
            (#[trigger] auxiliary_items@[a]).item_id,
            code4(0x67, 0x72, 0x69, 0x64),
        ) ==> grid_decodable(data@, auxiliary_items@[a].payload@, state, auxiliary_items@[a].item_id);
    let mut a: usize = 0;
    while a < auxiliary_items.len()
        invariant
            a <= auxiliary_items@.len(),
            association_indices_valid(state),
            forall|b: int|
                0 <= b < a ==> !has_item_of_type(state, (#[trigger] auxiliary_items@[b]).item_id, code4(0x67, 0x72, 0x69, 0x64)),
            all_decodable == forall|b: int|
                0 <= b < auxiliary_items@.len() && has_item_of_type(
                    state,
                    (#[trigger] auxiliary_items@[b]).item_id,
                    code4(0x67, 0x72, 0x69, 0x64),
                ) ==> grid_decodable(data@, auxiliary_items@[b].payload@, state, auxiliary_items@[b].item_id),
        decreases auxiliary_items@.len() - a,
    {
        let auxiliary = &auxiliary_items[a];
        let mut i: usize = 0;
        let mut is_grid = false;
        while i < state.item_infos.len()
            invariant
                i <= state.item_infos@.len(),
                is_grid == exists|k: int|
                    0 <= k < i && state.item_infos@[k].item_id == auxiliary.item_id && (#[trigger] state.item_infos@[k]).item_type@
                        == code4(0x67, 0x72, 0x69, 0x64),
            decreases state.item_infos@.len() - i,
        {
            if state.item_infos[i].item_id == auxiliary.item_id && fourcc_eq(&state.item_infos[i].item_type, &fourcc_code(0x67, 0x72, 0x69, 0x64)) {
                is_grid = true;
                assert(state.item_infos@[i as int].item_type@ == code4(0x67, 0x72, 0x69, 0x64));
            }
            i = i + 1;
        }
        assert(is_grid == has_item_of_type(state, auxiliary.item_id, code4(0x67, 0x72, 0x69, 0x64)));
        assert(auxiliary_items@[a as int] == *auxiliary);
        if is_grid {
            return match parse_grid_item(data, auxiliary.payload.as_slice(), state, auxiliary.item_id) {
                Ok(grid) => Ok(Some(grid)),
                Err(error) => Err(error),
            };
        }
        a = a + 1;
    }
    Ok(None)
}

} // verus!

verus! {

/// The auxiliary type that marks an alpha plane.
pub fn alpha_aux_type() -> (text: &'static str)
    ensures
        text@ == "urn:mpeg:mpegB:cicp:systems:auxiliary:alpha"@,
{
    "urn:mpeg:mpegB:cicp:systems:auxiliary:alpha"
}

/// Strictly increasing.
pub open spec fn strictly_increasing(ids: Seq<u32>) -> bool {
    forall|i: int, j: int| 0 <= i < j < ids.len() ==> ids[i] < ids[j]
}

/// Inserts `id` into a strictly increasing list unless it is already there.
pub fn insert_sorted_unique(ids: &mut Vec<u32>, id: u32)
    requires
        strictly_increasing(old(ids)@),
    ensures
        strictly_increasing(final(ids)@),
        final(ids)@.to_set() == old(ids)@.to_set().insert(id),
{
    let mut position: usize = 0;
    while position < ids.len() && ids[position] < id
        invariant
            position <= ids@.len(),
            forall|j: int| 0 <= j < position ==> ids@[j] < id,
        decreases ids@.len() - position,
    {
        position = position + 1;
    }
    if position < ids.len() && ids[position] == id {
        assert(ids@.to_set() =~= ids@.to_set().insert(id));
        return;
    }
    let ghost before = ids@;
    ids.insert(position, id);
    proof {
        assert forall|x: u32| ids@.to_set().contains(x) <==> before.to_set().insert(id).contains(x) by {
            if before.contains(x) {
                let k = choose|k: int| 0 <= k < before.len() && before[k] == x;
                if k < position {
                    assert(ids@[k] == x);
                } else {
                    assert(ids@[k + 1] == x);
                }
            }
            if ids@.contains(x) {
                let k = choose|k: int| 0 <= k < ids@.len() && ids@[k] == x;
                if k < position {
                    assert(before[k] == x);
                } else if k > position {
                    assert(before[k - 1] == x);
                }
            }
            assert(ids@[position as int] == id);
        }
        assert(ids@.to_set() =~= before.to_set().insert(id));
    }
}

/// The association names an `auxC` property whose type is the alpha type (index 0
/// taken as 1).
pub open spec fn marks_alpha(properties: Seq<ItemProperty>, association: crate::container::items::PropertyAssociation) -> bool {
    let slot: int = if association.index == 0 { 0 } else { association.index - 1 };
    &&& slot < properties.len()
    &&& properties[slot] matches ItemProperty::AuxiliaryType(aux_type)
    &&& aux_type@ == "urn:mpeg:mpegB:cicp:systems:auxiliary:alpha"@
}

/// Association entry `e` names an alpha `auxC` property.
pub open spec fn entry_marks_alpha(state: &MetaState, e: int) -> bool {
    exists|p: int|
        0 <= p < state.item_property_associations@[e].associations@.len() && marks_alpha(
            state.item_properties@,
            #[trigger] state.item_property_associations@[e].associations@[p],
        )
}

/// The items of the first `n` association entries that name an alpha `auxC`.
pub open spec fn alpha_marked_ids(state: &MetaState, n: int) -> Set<u32> {
    Set::new(
        |id: u32|
            exists|e: int|
                0 <= e < n && #[trigger] state.item_property_associations@[e].item_id == id && entry_marks_alpha(state, e),
    )
}

/// Reference `r` is an `auxl` reference from `owner`.
pub open spec fn auxl_from(state: &MetaState, r: int, owner: u32) -> bool {
    state.item_references@[r].reference_type@ == code4(0x61, 0x75, 0x78, 0x6c) && state.item_references@[r].from_item_id == owner
}

/// The targets of the `auxl` references from `owner` among the first `n` references.
pub open spec fn auxl_ids(state: &MetaState, owner: u32, n: int) -> Set<u32> {
    Set::new(
        |id: u32|
            exists|r: int, t: int|
                0 <= r < n && auxl_from(state, r, owner) && 0 <= t < state.item_references@[r].to_item_ids@.len()
                    && #[trigger] state.item_references@[r].to_item_ids@[t] == id,
    )
}

/// The alpha auxiliary items chosen for `owner`: the items with an alpha `auxC`,
/// or when there are none, the `auxl` targets of `owner` (none without an owner).
pub open spec fn chosen_alpha_ids(state: &MetaState, owner: Option<u32>) -> Set<u32> {
    let marked = alpha_marked_ids(state, state.item_property_associations@.len() as int);
    if marked.is_empty() {
        match owner {
            Some(id) => auxl_ids(state, id, state.item_references@.len() as int),
            None => Set::empty(),
        }
    } else {
        marked
    }
}

/// Every chosen alpha item of `owner` has readable bytes.
pub open spec fn alpha_payloads_readable(data: Seq<u8>, state: &MetaState, owner: Option<u32>) -> bool {
    forall|id: u32| #[trigger] chosen_alpha_ids(state, owner).contains(id) ==> item_bytes(data, *state, id, Seq::empty()) is Ok
}

/// Each alpha item holds the bytes of its item.
pub open spec fn alpha_payloads_match(data: Seq<u8>, state: &MetaState, items: Seq<AuxiliaryImage>) -> bool {
    forall|i: int| 0 <= i < items.len() ==> item_bytes(data, *state, (#[trigger] items[i]).item_id, Seq::empty()) == Ok::<
        Seq<u8>,
        ErrorKind,
    >(items[i].payload@)
}

/// The alpha auxiliary items: every item with an alpha `auxC` property, or failing
/// those, the `auxl` references of `owner_item_id`; each listed once, by
/// increasing item ID, with its payload.
pub fn alpha_auxiliary_items_for(data: &[u8], state: &MetaState, owner_item_id: Option<u32>) -> (result: Result<Vec<AuxiliaryImage>, DecoderError>)
    ensures
        match result {
            Ok(items) => forall|i: int, j: int| 0 <= i < j < items@.len() ==> items@[i].item_id < items@[j].item_id,
            Err(_) => true,
        },
        match result {
            Ok(items) => {
                &&& Set::new(|id: u32| exists|i: int| 0 <= i < items@.len() && #[trigger] items@[i].item_id == id)
                    == chosen_alpha_ids(state, owner_item_id)
                &&& forall|i: int|
                    0 <= i < items@.len() ==> (#[trigger] items@[i]).aux_type@ == "urn:mpeg:mpegB:cicp:systems:auxiliary:alpha"@
            },
            Err(_) => !chosen_alpha_ids(state, owner_item_id).is_empty(),
        },
        match result {
            Ok(items) => alpha_payloads_match(data@, state, items@),
            Err(error) => exists|id: u32| #[trigger] chosen_alpha_ids(state, owner_item_id).contains(id) && item_bytes(
                data@,
                *state,
                id,
                Seq::empty(),
            ) == Err::<Seq<u8>, ErrorKind>(error.kind()),
        },
        result is Ok <==> alpha_payloads_readable(data@, state, owner_item_id),
{
    let alpha = alpha_aux_type();
    let mut ids: Vec<u32> = Vec::new();
    let mut e: usize = 0;
    while e < state.item_property_associations.len()
        invariant
            e <= state.item_property_associations@.len(),
            strictly_increasing(ids@),
            ids@.to_set() == alpha_marked_ids(state, e as int),
            alpha@ == "urn:mpeg:mpegB:cicp:systems:auxiliary:alpha"@,
        decreases state.item_property_associations@.len() - e,
    {
        let association = &state.item_property_associations[e];
        let mut p: usize = 0;
        let mut found = false;
        while p < association.associations.len() && !found
            invariant
                p <= association.associations@.len(),
                e < state.item_property_associations@.len(),
                *association == state.item_property_associations@[e as int],
                alpha@ == "urn:mpeg:mpegB:cicp:systems:auxiliary:alpha"@,
                found ==> entry_marks_alpha(state, e as int),
                !found ==> forall|q: int| 0 <= q < p ==> !marks_alpha(state.item_properties@, #[trigger] association.associations@[q]),
            decreases association.associations@.len() - p,
        {
            let index = association.associations[p].index as usize;
            let slot = if index == 0 { 0 } else { index - 1 };
            if slot < state.item_properties.len() {
                match &state.item_properties[slot] {
                    ItemProperty::AuxiliaryType(aux_type) => {
                        if crate::text::str_eq(aux_type.as_str(), alpha) {
                            found = true;
                            assert(marks_alpha(state.item_properties@, association.associations@[p as int]));
                        }
                    },
                    _ => {},
                }
            }
            p = p + 1;
        }
        let ghost before = ids@.to_set();
        if found {
            insert_sorted_unique(&mut ids, association.item_id);
        }
        proof {
            let item = state.item_property_associations@[e as int].item_id;
            assert forall|id: u32| #[trigger] alpha_marked_ids(state, e + 1).contains(id) <==> (alpha_marked_ids(
                state,
                e as int,
            ).contains(id) || (found && id == item)) by {
                if alpha_marked_ids(state, e + 1).contains(id) {
                    let w = choose|w: int|
                        0 <= w < e + 1 && #[trigger] state.item_property_associations@[w].item_id == id && entry_marks_alpha(
                            state,
                            w,
                        );
                    if w == e && !found {
                        let q = choose|q: int|
                            0 <= q < state.item_property_associations@[e as int].associations@.len() && marks_alpha(
                                state.item_properties@,
                                #[trigger] state.item_property_associations@[e as int].associations@[q],
                            );
                        assert(!marks_alpha(state.item_properties@, association.associations@[q]));
                    }
                }
                if found && id == item {
                    assert(state.item_property_associations@[e as int].item_id == id);
                }
            }
            assert(ids@.to_set() =~= alpha_marked_ids(state, e + 1));
        }
        e = e + 1;
    }
    assert(ids@.len() == 0 <==> ids@.to_set().is_empty()) by {
        if ids@.len() > 0 {
            assert(ids@.to_set().contains(ids@[0]));
        }
        if ids@.len() == 0 {
            assert(ids@.to_set() =~= Set::empty());
        }
    }
    if ids.len() == 0 {
        match owner_item_id {
            Some(primary_item_id) => {
                let mut r: usize = 0;
                while r < state.item_references.len()
                    invariant
                        r <= state.item_references@.len(),
                        strictly_increasing(ids@),
                        ids@.to_set() == auxl_ids(state, primary_item_id, r as int),
                    decreases state.item_references@.len() - r,
                {
                    let reference = &state.item_references[r];
                    let ghost before = ids@.to_set();
                    if fourcc_eq(&reference.reference_type, &fourcc_code(0x61, 0x75, 0x78, 0x6c)) && reference.from_item_id == primary_item_id {
                        let mut t: usize = 0;
                        while t < reference.to_item_ids.len()
                            invariant
                                t <= reference.to_item_ids@.len(),
                                strictly_increasing(ids@),
                                ids@.to_set() == before.union(
                                    Set::new(|id: u32| exists|u: int| 0 <= u < t && #[trigger] reference.to_item_ids@[u] == id),
                                ),
                            decreases reference.to_item_ids@.len() - t,
                        {
                            let ghost current = ids@.to_set();
                            insert_sorted_unique(&mut ids, reference.to_item_ids[t]);
                            proof {
                                assert forall|id: u32| #[trigger] ids@.to_set().contains(id) <==> before.union(
                                    Set::new(|id: u32| exists|u: int| 0 <= u < t + 1 && #[trigger] reference.to_item_ids@[u] == id),
                                ).contains(id) by {
                                    if exists|u: int| 0 <= u < t + 1 && #[trigger] reference.to_item_ids@[u] == id {
                                        let u = choose|u: int| 0 <= u < t + 1 && #[trigger] reference.to_item_ids@[u] == id;
                                        if u < t {
                                            assert(current.contains(id));
                                        }
                                    }
                                    if current.contains(id) && !before.contains(id) {
                                        let u = choose|u: int| 0 <= u < t && #[trigger] reference.to_item_ids@[u] == id;
                                        assert(0 <= u < t + 1 && reference.to_item_ids@[u] == id);
                                    }
                                }
                                assert(ids@.to_set() =~= before.union(
                                    Set::new(|id: u32| exists|u: int| 0 <= u < t + 1 && #[trigger] reference.to_item_ids@[u] == id),
                                ));
                            }
                            t = t + 1;
                        }
                        proof {
                            assert(auxl_from(state, r as int, primary_item_id));
                            assert forall|id: u32| #[trigger] auxl_ids(state, primary_item_id, r + 1).contains(id) <==> ids@.to_set().contains(id) by {
                                if auxl_ids(state, primary_item_id, r + 1).contains(id) {
                                    let (w, u) = choose|w: int, u: int|
                                        0 <= w < r + 1 && auxl_from(state, w, primary_item_id) && 0 <= u
                                            < state.item_references@[w].to_item_ids@.len() && #[trigger] state.item_references@[w].to_item_ids@[u] == id;
                                    if w == r {
                                        assert(reference.to_item_ids@[u] == id);
                                    } else {
                                        assert(auxl_ids(state, primary_item_id, r as int).contains(id));
                                    }
                                }
                                if ids@.to_set().contains(id) && !before.contains(id) {
                                    let u = choose|u: int| 0 <= u < t && #[trigger] reference.to_item_ids@[u] == id;
                                    assert(state.item_references@[r as int].to_item_ids@[u] == id);
                                }
                                if before.contains(id) {
                                    let (w, u) = choose|w: int, u: int|
                                        0 <= w < r && auxl_from(state, w, primary_item_id) && 0 <= u
                                            < state.item_references@[w].to_item_ids@.len() && #[trigger] state.item_references@[w].to_item_ids@[u] == id;
                                    assert(0 <= w < r + 1);
                                }
                            }
                            assert(ids@.to_set() =~= auxl_ids(state, primary_item_id, r + 1));
                        }
                    } else {
                        proof {
                            assert(!auxl_from(state, r as int, primary_item_id));
                            assert forall|id: u32| #[trigger] auxl_ids(state, primary_item_id, r + 1).contains(id) <==> ids@.to_set().contains(id) by {
                                if auxl_ids(state, primary_item_id, r + 1).contains(id) {
                                    let (w, u) = choose|w: int, u: int|
                                        0 <= w < r + 1 && auxl_from(state, w, primary_item_id) && 0 <= u
                                            < state.item_references@[w].to_item_ids@.len() && #[trigger] state.item_references@[w].to_item_ids@[u] == id;
                                    assert(w < r);
                                    assert(auxl_ids(state, primary_item_id, r as int).contains(id));
                                }
                                if ids@.to_set().contains(id) {
                                    let (w, u) = choose|w: int, u: int|
                                        0 <= w < r && auxl_from(state, w, primary_item_id) && 0 <= u
                                            < state.item_references@[w].to_item_ids@.len() && #[trigger] state.item_references@[w].to_item_ids@[u] == id;
                                    assert(0 <= w < r + 1);
                                }
                            }
                            assert(ids@.to_set() =~= auxl_ids(state, primary_item_id, r + 1));
                        }
                    }
                    r = r + 1;
                }
            },
            None => {},
        }
    }
    assert(ids@.to_set() == chosen_alpha_ids(state, owner_item_id));
    if ids.len() > 0 {
        assert(ids@.to_set().contains(ids@[0]));
    }
    let mut items: Vec<AuxiliaryImage> = Vec::new();
    let mut k: usize = 0;
    while k < ids.len()
        invariant
            k <= ids@.len(),
            strictly_increasing(ids@),
            items@.len() == k,
            forall|i: int| 0 <= i < k ==> (#[trigger] items@[i]).item_id == ids@[i],
            forall|i: int| 0 <= i < k ==> (#[trigger] items@[i]).aux_type@ == "urn:mpeg:mpegB:cicp:systems:auxiliary:alpha"@,
            alpha@ == "urn:mpeg:mpegB:cicp:systems:auxiliary:alpha"@,
            ids@.to_set() == chosen_alpha_ids(state, owner_item_id),
            ids@.len() > 0 ==> !chosen_alpha_ids(state, owner_item_id).is_empty(),
            alpha_payloads_match(data@, state, items@),
        decreases ids@.len() - k,
    {
        let item_id = ids[k];
        assert(ids@.to_set().contains(item_id));
        let payload = match item_payload(data, state, item_id) {
            Ok(payload) => payload,
            Err(error) => {
                proof {
                    assert(!alpha_payloads_readable(data@, state, owner_item_id));
                }
                return Err(error);
            },
        };
        let ghost before = items@;
        items.push(AuxiliaryImage { item_id, aux_type: alpha.to_string(), payload });
        proof {
            assert forall|i: int| 0 <= i < items@.len() implies item_bytes(data@, *state, (#[trigger] items@[i]).item_id, Seq::empty())
                == Ok::<Seq<u8>, ErrorKind>(items@[i].payload@) by {
                if i < before.len() {
                    assert(items@[i] == before[i]);
                }
            }
        }
        k = k + 1;
    }
    proof {
        assert forall|id: u32| #[trigger] chosen_alpha_ids(state, owner_item_id).contains(id) implies item_bytes(
            data@,
            *state,
            id,
            Seq::empty(),
        ) is Ok by {
            assert(ids@.to_set().contains(id));
            let i = choose|i: int| 0 <= i < ids@.len() && ids@[i] == id;
            assert(items@[i].item_id == id);
        }
    }
    proof {
        let listed = Set::new(|id: u32| exists|i: int| 0 <= i < items@.len() && #[trigger] items@[i].item_id == id);
        assert forall|id: u32| #[trigger] listed.contains(id) <==> ids@.to_set().contains(id) by {
            if ids@.to_set().contains(id) {
                let i = choose|i: int| 0 <= i < ids@.len() && ids@[i] == id;
                assert(items@[i].item_id == id);
            }
            if listed.contains(id) {
                let i = choose|i: int| 0 <= i < items@.len() && #[trigger] items@[i].item_id == id;
                assert(ids@[i] == id);
            }
        }
        assert(listed =~= ids@.to_set());
    }
    Ok(items)
}

/// The alpha auxiliary items of the primary item.
pub fn alpha_auxiliary_items(data: &[u8], state: &MetaState) -> (result: Result<Vec<AuxiliaryImage>, DecoderError>)
    ensures
        match result {
            Ok(items) => forall|i: int, j: int| 0 <= i < j < items@.len() ==> items@[i].item_id < items@[j].item_id,
            Err(_) => true,
        },
        match result {
            Ok(items) => {
                &&& Set::new(|id: u32| exists|i: int| 0 <= i < items@.len() && #[trigger] items@[i].item_id == id)
                    == chosen_alpha_ids(state, state.primary_item_id)
                &&& forall|i: int|
                    0 <= i < items@.len() ==> (#[trigger] items@[i]).aux_type@ == "urn:mpeg:mpegB:cicp:systems:auxiliary:alpha"@
            },
            Err(_) => !chosen_alpha_ids(state, state.primary_item_id).is_empty(),
        },
        match result {
            Ok(items) => alpha_payloads_match(data@, state, items@),
            Err(error) => exists|id: u32| #[trigger] chosen_alpha_ids(state, state.primary_item_id).contains(id) && item_bytes(
                data@,
                *state,
                id,
                Seq::empty(),
            ) == Err::<Seq<u8>, ErrorKind>(error.kind()),
        },
        result is Ok <==> alpha_payloads_readable(data@, state, state.primary_item_id),
{
    alpha_auxiliary_items_for(data, state, state.primary_item_id)
}

} // verus!
