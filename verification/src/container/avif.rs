//! The file type box and the still-image view of an AVIF file.
use vstd::prelude::*;
use crate::container::boxes::{
    box_extent, box_payload, header_within, lemma_tile_progress_next, lemma_tile_progress_start, lemma_tile_progress_step,
    read_box_header, tile_progress, BoxHeader,
};
use crate::container::bytes::{addressable, checked_add, read_fourcc};
use crate::container::grid::{
    alpha_auxiliary_items_for, alpha_grid, alpha_payloads_match, alpha_payloads_readable, chosen_alpha_ids, grid_decodable,
    primary_grid, primary_is_grid,
};
use crate::container::items::{
    meta_box_parses, boxes_between, child_bytes, children_end, meta_fields_after, parse_meta, ItemProperty, ItemPropertyAssociation, MetaState, PropertyAssociation, meta_state_valid};
use crate::container::metadata::{
    association_entry, association_indices_valid, associations_acceptable, decoded_item_complete, effective_primary_item_id,
    has_item_of_type, item_metadata, metadata_matches, primary_is_tmap, validate_primary_item_metadata, PrimaryItemMetadata,
};
use crate::container::payload::{item_bytes, item_payload};
use crate::container::properties::{code4, fourcc_code, fourcc_eq};
use crate::container::sequence::sequence_sample_payloads;
use crate::container::types::{AvifInfo, CleanAperture, ImageMirror, ImageRotation};
use crate::error::{DecoderError, ErrorKind};

verus! {

/// The brands that mark an AVIF file: `avif`, `avis` and `avio`.
pub open spec fn avif_brand(brand: Seq<u8>) -> bool {
    brand == code4(0x61, 0x76, 0x69, 0x66) || brand == code4(0x61, 0x76, 0x69, 0x73) || brand == code4(0x61, 0x76, 0x69, 0x6f)
}

/// The brand or one of the compatible brands is an AVIF brand.
pub open spec fn advertises_avif(major_brand: Seq<u8>, compatible_brands: Seq<[u8; 4]>) -> bool {
    avif_brand(major_brand) || exists|k: int| 0 <= k < compatible_brands.len() && avif_brand(#[trigger] compatible_brands[k]@)
}

/// Whether a brand is an AVIF brand.
pub fn brand_is_avif(brand: &[u8; 4]) -> (avif: bool)
    ensures
        avif == avif_brand(brand@),
{
    fourcc_eq(brand, &fourcc_code(0x61, 0x76, 0x69, 0x66)) || fourcc_eq(brand, &fourcc_code(0x61, 0x76, 0x69, 0x73)) || fourcc_eq(brand, &fourcc_code(0x61, 0x76, 0x69, 0x6f))
}

/// Whether the brand or a compatible brand is an AVIF brand.
pub fn brands_advertise_avif(major_brand: &[u8; 4], compatible_brands: &[[u8; 4]]) -> (avif: bool)
    ensures
        avif == advertises_avif(major_brand@, compatible_brands@),
{
    if brand_is_avif(major_brand) {
        return true;
    }
    let mut k: usize = 0;
    while k < compatible_brands.len()
        invariant
            k <= compatible_brands@.len(),
            forall|j: int| 0 <= j < k ==> !avif_brand(#[trigger] compatible_brands@[j]@),
        decreases compatible_brands@.len() - k,
    {
        if brand_is_avif(&compatible_brands[k]) {
            return true;
        }
        k = k + 1;
    }
    false
}

/// The brands of the `ftyp` box that must open the file: the major brand (the
/// payload's first four bytes) and the compatible brands from byte 8 on, four bytes
/// each.
pub open spec fn ftyp_brands(payload: Seq<u8>, major_brand: [u8; 4], compatible_brands: Seq<[u8; 4]>) -> bool {
    &&& payload.len() >= 8
    &&& major_brand@ == payload.subrange(0, 4)
    &&& compatible_brands.len() == (payload.len() - 8) / 4
    &&& forall|k: int| 0 <= k < compatible_brands.len() ==> (#[trigger] compatible_brands[k])@ == payload.subrange(8 + 4 * k, 12 + 4 * k)
}

/// The data opens with an `ftyp` box whose payload holds these brands.
pub open spec fn opens_with_ftyp(data: Seq<u8>, major_brand: [u8; 4], compatible_brands: Seq<[u8; 4]>) -> bool {
    exists|size: int, header_size: int|
        #![trigger ftyp_brands(data.subrange(header_size, size), major_brand, compatible_brands)]
        box_extent(data, 0, data.len() as int) == Ok::<(int, int), ErrorKind>((size, header_size))
            && data.subrange(4, 8) == code4(0x66, 0x74, 0x79, 0x70)
            && ftyp_brands(data.subrange(header_size, size), major_brand, compatible_brands)
}

/// The data opens with an `ftyp` box whose payload holds at least the major brand
/// and the minor version.
pub open spec fn ftyp_present(data: Seq<u8>) -> bool {
    box_extent(data, 0, data.len() as int) matches Ok((size, header_size)) && data.subrange(4, 8) == code4(
        0x66,
        0x74,
        0x79,
        0x70,
    ) && size - header_size >= 8
}

/// The brands of the opening `ftyp` box are determined by the data: two readings
/// agree on whether they advertise AVIF.
pub proof fn lemma_ftyp_brands_unique(
    data: Seq<u8>,
    major: [u8; 4],
    compatible: Seq<[u8; 4]>,
    other_major: [u8; 4],
    other_compatible: Seq<[u8; 4]>,
)
    requires
        opens_with_ftyp(data, major, compatible),
        opens_with_ftyp(data, other_major, other_compatible),
    ensures
        advertises_avif(major@, compatible) == advertises_avif(other_major@, other_compatible),
{
    let (size, header_size) = choose|size: int, header_size: int|
        #![trigger ftyp_brands(data.subrange(header_size, size), major, compatible)]
        box_extent(data, 0, data.len() as int) == Ok::<(int, int), ErrorKind>((size, header_size))
            && data.subrange(4, 8) == code4(0x66, 0x74, 0x79, 0x70)
            && ftyp_brands(data.subrange(header_size, size), major, compatible);
    let (other_size, other_header_size) = choose|size: int, header_size: int|
        #![trigger ftyp_brands(data.subrange(header_size, size), other_major, other_compatible)]
        box_extent(data, 0, data.len() as int) == Ok::<(int, int), ErrorKind>((size, header_size))
            && data.subrange(4, 8) == code4(0x66, 0x74, 0x79, 0x70)
            && ftyp_brands(data.subrange(header_size, size), other_major, other_compatible);
    assert(size == other_size && header_size == other_header_size);
    let payload = data.subrange(header_size, size);
    assert(compatible.len() == other_compatible.len());
    assert forall|k: int| 0 <= k < compatible.len() implies avif_brand(#[trigger] compatible[k]@) == avif_brand(other_compatible[k]@) by {
        assert(compatible[k]@ == payload.subrange(8 + 4 * k, 12 + 4 * k));
        assert(other_compatible[k]@ == payload.subrange(8 + 4 * k, 12 + 4 * k));
    }
    if advertises_avif(major@, compatible) && !avif_brand(major@) {
        let k = choose|k: int| 0 <= k < compatible.len() && avif_brand(#[trigger] compatible[k]@);
        assert(avif_brand(other_compatible[k]@));
    }
    if advertises_avif(other_major@, other_compatible) && !avif_brand(other_major@) {
        let k = choose|k: int| 0 <= k < other_compatible.len() && avif_brand(#[trigger] other_compatible[k]@);
        assert(avif_brand(compatible[k]@));
    }
}

/// Parses the `ftyp` box at the start of the file.
pub fn parse_ftyp(data: &[u8]) -> (result: Result<([u8; 4], Vec<[u8; 4]>), DecoderError>)
    ensures
        result is Ok <==> ftyp_present(data@),
        match result {
            Ok((major_brand, compatible_brands)) => opens_with_ftyp(data@, major_brand, compatible_brands@),
            Err(_) => true,
        },
        data@.len() < 8 ==> result is Err && result->Err_0.kind() == ErrorKind::NotEnoughData && result->Err_0.detail()
            == "box header is truncated"@,
{
    let header = read_box_header(data, 0, data.len())?;
    if !fourcc_eq(&header.box_type, &fourcc_code(0x66, 0x74, 0x79, 0x70)) {
        return Err(DecoderError::Bitstream("first box is not ftyp".to_string()));
    }
    let payload = box_payload(data, header)?;
    if payload.len() < 8 {
        return Err(DecoderError::NotEnoughData("ftyp payload is too short".to_string()));
    }
    let major_brand = read_fourcc(payload, 0)?;
    let mut compatible_brands: Vec<[u8; 4]> = Vec::new();
    let mut offset: usize = 8;
    while payload.len() - offset >= 4
        invariant
            8 <= offset <= payload@.len(),
            payload@.len() <= usize::MAX,
            (offset - 8) % 4 == 0,
            compatible_brands@.len() == (offset - 8) / 4,
            forall|k: int| 0 <= k < compatible_brands@.len() ==> (#[trigger] compatible_brands@[k])@ == payload@.subrange(8 + 4 * k, 12 + 4 * k),
        decreases payload@.len() - offset,
    {
        compatible_brands.push(read_fourcc(payload, offset)?);
        offset = offset + 4;
    }
    proof {
        let size = header.size as int;
        let header_size = header.header_size as int;
        assert(data@.subrange(header_size, size) == payload@);
        assert(ftyp_brands(data@.subrange(header_size, size), major_brand, compatible_brands@));
        assert(box_extent(data@, 0, data@.len() as int) == Ok::<(int, int), ErrorKind>((size, header_size)));
        assert(data@.subrange(4, 8) == code4(0x66, 0x74, 0x79, 0x70));
        assert(opens_with_ftyp(data@, major_brand, compatible_brands@));
    }
    Ok((major_brand, compatible_brands))
}

/// Whether the data opens with an `ftyp` box that advertises an AVIF brand.
pub fn is_avif_file(data: &[u8]) -> (avif: bool)
    ensures
        avif <==> exists|major: [u8; 4], compatible: Seq<[u8; 4]>|
            #[trigger] opens_with_ftyp(data@, major, compatible) && advertises_avif(major@, compatible),
{
    match parse_ftyp(data) {
        Ok((major_brand, compatible_brands)) => {
            let avif = brands_advertise_avif(&major_brand, compatible_brands.as_slice());
            proof {
                assert forall|major: [u8; 4], compatible: Seq<[u8; 4]>|
                    #[trigger] opens_with_ftyp(data@, major, compatible) implies advertises_avif(major@, compatible)
                    == avif by {
                    lemma_ftyp_brands_unique(data@, major, compatible, major_brand, compatible_brands@);
                }
            }
            avif
        },
        Err(_) => {
            proof {
                assert forall|major: [u8; 4], compatible: Seq<[u8; 4]>|
                    #[trigger] opens_with_ftyp(data@, major, compatible) implies false by {
                    let (size, header_size) = choose|size: int, header_size: int|
                        #![trigger ftyp_brands(data@.subrange(header_size, size), major, compatible)]
                        box_extent(data@, 0, data@.len() as int) == Ok::<(int, int), ErrorKind>((size, header_size))
                            && data@.subrange(4, 8) == code4(0x66, 0x74, 0x79, 0x70)
                            && ftyp_brands(data@.subrange(header_size, size), major, compatible);
                    assert(data@.subrange(header_size, size).len() == size - header_size);
                }
            }
            false
        },
    }
}

impl AvifInfo {
    /// Whether the file's brands advertise AVIF.
    pub fn is_avif_brand(&self) -> (avif: bool)
        ensures
            avif == advertises_avif(self.major_brand@, self.compatible_brands@),
    {
        brands_advertise_avif(&self.major_brand, self.compatible_brands.as_slice())
    }
}

/// What one top-level box does to the state: a `meta` box's children (from offset
/// 4 of its payload) set the primary item, `idat` bytes and item locations as
/// `meta_fields_after` says; any other box leaves the state as it was.
pub open spec fn top_level_step(data: Seq<u8>, header: BoxHeader, before: MetaState, after: MetaState) -> bool {
    if header.box_type@ == code4(0x6d, 0x65, 0x74, 0x61) {
        exists|children: Seq<BoxHeader>|
            #![trigger boxes_between(child_bytes(data, header), children, 4, children_end(header.size - header.header_size, 4))]
            boxes_between(child_bytes(data, header), children, 4, children_end(header.size - header.header_size, 4))
                && meta_fields_after(before, after, child_bytes(data, header), children)
    } else {
        after == before
    }
}

/// `states` runs from the state before the first of `headers` to the state after
/// the last, each box taking one step.
pub open spec fn top_level_walk(data: Seq<u8>, headers: Seq<BoxHeader>, states: Seq<MetaState>) -> bool {
    &&& states.len() == headers.len() + 1
    &&& forall|i: int| 0 <= i < headers.len() ==> #[trigger] top_level_step(data, headers[i], states[i], states[i + 1])
}

/// `state` is what collecting the `meta` boxes of `data` can leave, starting from
/// nothing: the top-level boxes tile the file and each takes its step.
pub open spec fn collected_state(data: Seq<u8>, state: MetaState) -> bool {
    exists|headers: Seq<BoxHeader>, states: Seq<MetaState>|
        #![trigger crate::container::boxes::boxes_tile(data, headers), top_level_walk(data, headers, states)]
        {
            &&& crate::container::boxes::boxes_tile(data, headers)
            &&& top_level_walk(data, headers, states)
            &&& states[0].is_empty()
            &&& states.last() == state
        }
}

/// The top-level boxes of `data` tile it, at most one is `meta`, and that one
/// parses.
pub open spec fn file_meta_parses(data: Seq<u8>) -> bool {
    exists|headers: Seq<BoxHeader>|
        #![trigger crate::container::boxes::boxes_tile(data, headers)]
        crate::container::boxes::boxes_tile(data, headers) && top_level_meta_parses(data, headers)
}

/// Of the top-level boxes `headers`, at most one is `meta`, and that one parses.
#[verifier::opaque]
pub open spec fn top_level_meta_parses(data: Seq<u8>, headers: Seq<BoxHeader>) -> bool {
    &&& forall|i: int|
        0 <= i < headers.len() && (#[trigger] headers[i]).box_type@ == code4(0x6d, 0x65, 0x74, 0x61) ==> meta_box_parses(
            child_bytes(data, headers[i]),
        )
    &&& forall|i: int, j: int|
        0 <= i < j < headers.len() && (#[trigger] headers[i]).box_type@ == code4(0x6d, 0x65, 0x74, 0x61) ==> (#[trigger] headers[j]).box_type@
            != code4(0x6d, 0x65, 0x74, 0x61)
}

/// What the `k`-th top-level box of a parsing file promises.
proof fn lemma_top_level_at(data: Seq<u8>, headers: Seq<BoxHeader>, k: int)
    requires
        top_level_meta_parses(data, headers),
        0 <= k < headers.len(),
    ensures
        headers[k].box_type@ == code4(0x6d, 0x65, 0x74, 0x61) ==> meta_box_parses(child_bytes(data, headers[k])),
        headers[k].box_type@ == code4(0x6d, 0x65, 0x74, 0x61) ==> forall|j: int|
            k < j < headers.len() ==> (#[trigger] headers[j]).box_type@ != code4(0x6d, 0x65, 0x74, 0x61),
{
    reveal(top_level_meta_parses);
}


/// Walks the top-level boxes, parsing every `meta` box into `state`.
pub fn collect_meta(data: &[u8], state: &mut MetaState) -> (result: Result<(), DecoderError>)
    requires
        meta_state_valid(old(state)),
    ensures
        meta_state_valid(final(state)),
        result is Ok ==> exists|headers: Seq<BoxHeader>, states: Seq<MetaState>|
            #![trigger crate::container::boxes::boxes_tile(data@, headers), top_level_walk(data@, headers, states)]
            {
                &&& crate::container::boxes::boxes_tile(data@, headers)
                &&& top_level_walk(data@, headers, states)
                &&& states[0] == *old(state)
                &&& states.last() == *final(state)
            },
        data@.len() > usize::MAX / 8 ==> result is Err && result->Err_0.kind() == ErrorKind::InvalidParam && *final(state)
            == *old(state),
        data@.len() <= usize::MAX / 8 && old(state).item_property_associations@.len() == 0 && file_meta_parses(data@)
            ==> result is Ok,
{
    if data.len() > usize::MAX / 8 {
        return Err(DecoderError::InvalidParam("input is too large".to_string()));
    }
    let mut offset: usize = 0;
    let ghost mut headers: Seq<BoxHeader> = Seq::empty();
    let ghost mut states: Seq<MetaState> = seq![*state];
    let ghost parses = old(state).item_property_associations@.len() == 0 && file_meta_parses(data@);
    let ghost tiles = choose|hs: Seq<BoxHeader>| crate::container::boxes::boxes_tile(data@, hs) && top_level_meta_parses(data@, hs);
    proof {
        if parses {
            lemma_tile_progress_start(data@, tiles);
        }
    }
    while offset < data.len()
        invariant
            addressable(data@.len() as int),
            offset <= data@.len(),
            meta_state_valid(state),
            crate::container::boxes::boxes_reach(data@, headers, offset as int),
            top_level_walk(data@, headers, states),
            states[0] == *old(state),
            states.last() == *state,
            parses == (old(state).item_property_associations@.len() == 0 && file_meta_parses(data@)),
            parses ==> top_level_meta_parses(data@, tiles) && tile_progress(data@, tiles, headers.len() as int, offset as int),
            parses ==> state.item_property_associations@.len() == 0 || forall|j: int|
                headers.len() <= j < tiles.len() ==> (#[trigger] tiles[j]).box_type@ != code4(0x6d, 0x65, 0x74, 0x61),
        decreases data@.len() - offset,
    {
        let ghost k = headers.len() as int;
        proof {
            if parses {
                lemma_tile_progress_next(data@, tiles, k, offset as int);
            }
        }
        let header = read_box_header(data, offset, data.len())?;
        proof {
            if parses {
                lemma_tile_progress_step(data@, tiles, k, header);
                assert(child_bytes(data@, header) == child_bytes(data@, tiles[k]));
                lemma_top_level_at(data@, tiles, k);
            }
        }
        offset = checked_add(header.offset, header.size, "top-level box end")?;
        let ghost before = *state;
        if fourcc_eq(&header.box_type, &fourcc_code(0x6d, 0x65, 0x74, 0x61)) {
            parse_meta(data, header, state)?;
        }
        proof {
            assert(top_level_step(data@, header, before, *state));
            let before_headers = headers;
            let before_states = states;
            headers = headers.push(header);
            states = states.push(*state);
            assert forall|i: int| 0 < i < headers.len() implies (#[trigger] headers[i]).offset == headers[i - 1].offset
                + headers[i - 1].size by {
                if i < before_headers.len() {
                    assert(headers[i] == before_headers[i] && headers[i - 1] == before_headers[i - 1]);
                }
            }
            assert forall|i: int| 0 <= i < headers.len() implies #[trigger] top_level_step(data@, headers[i], states[i], states[i + 1]) by {
                if i < before_headers.len() {
                    assert(headers[i] == before_headers[i] && states[i] == before_states[i] && states[i + 1] == before_states[i + 1]);
                }
            }
        }
    }
    assert(crate::container::boxes::boxes_tile(data@, headers));
    Ok(())
}

/// The fields of `info` that come from the primary item of `state`: its ID; the bytes
/// of the item that the decoder reconstructs (the primary item, or for a `tmap`
/// primary item an `av01` item); and the size, `pixi`, colour, alpha mode, `av1C`,
/// `clap`, `irot` and `imir` that the first association entry of that item gives.
pub open spec fn primary_fields(data: Seq<u8>, state: &MetaState, info: AvifInfo) -> bool {
    &&& info.primary_item_id == state.primary_item_id
    &&& state.primary_item_id is Some
    &&& exists|id: u32, index: int, metadata: PrimaryItemMetadata|
        #![trigger association_entry(state, id, index), metadata_matches(state.item_properties@, state.item_property_associations@[index].associations@, metadata)]
        {
            &&& id == state.primary_item_id->0 || has_item_of_type(state, id, code4(0x61, 0x76, 0x30, 0x31))
            &&& !primary_is_tmap(state) ==> id == state.primary_item_id->0
            &&& item_bytes(data, *state, id, Seq::empty()) == Ok::<Seq<u8>, ErrorKind>(info.primary_item_payload@)
            &&& association_entry(state, id, index)
            &&& metadata_matches(state.item_properties@, state.item_property_associations@[index].associations@, metadata)
            &&& info.width == metadata.width
            &&& info.height == metadata.height
            &&& info.pixel_information == metadata.pixel_information
            &&& info.color_information == metadata.color_information
            &&& info.alpha_premultiplied == metadata.alpha_premultiplied
            &&& info.av1_config == metadata.av1_config
            &&& info.clean_aperture == metadata.clean_aperture
            &&& info.rotation == metadata.rotation
            &&& info.mirror == metadata.mirror
            &&& auxiliary_fields(data, state, id, info)
        }
}

/// The alpha items and grids of `info`, for the reconstructed item `id` of `state`:
/// the alpha items are the chosen ones, each with its bytes; the primary grid is there
/// exactly when the primary item is a `grid`, and is that item's; the alpha grid is
/// there exactly when an alpha item is a `grid`, and is that item's.
pub open spec fn auxiliary_fields(data: Seq<u8>, state: &MetaState, id: u32, info: AvifInfo) -> bool {
    let alpha = info.alpha_auxiliary_items@;
    &&& Set::new(|aid: u32| exists|i: int| 0 <= i < alpha.len() && #[trigger] alpha[i].item_id == aid) == chosen_alpha_ids(
        state,
        Some(id),
    )
    &&& alpha_payloads_match(data, state, alpha)
    &&& (info.primary_grid is None <==> !primary_is_grid(state))
    &&& (info.primary_grid matches Some(grid) ==> state.primary_item_id == Some(grid.item_id) && grid.payload@
        == info.primary_item_payload@ && grid.cells@.len() == grid.rows * grid.columns)
    &&& (info.alpha_grid is None <==> forall|a: int|
        0 <= a < alpha.len() ==> !has_item_of_type(state, (#[trigger] alpha[a]).item_id, code4(0x67, 0x72, 0x69, 0x64)))
    &&& (info.alpha_grid matches Some(grid) ==> exists|a: int|
        0 <= a < alpha.len() && has_item_of_type(state, (#[trigger] alpha[a]).item_id, code4(0x67, 0x72, 0x69, 0x64))
            && grid.item_id == alpha[a].item_id && grid.payload@ == alpha[a].payload@)
}

/// The brands name `avis`: the file announces an image sequence.
pub open spec fn names_avis(major_brand: Seq<u8>, compatible_brands: Seq<[u8; 4]>) -> bool {
    major_brand == code4(0x61, 0x76, 0x69, 0x73) || exists|k: int|
        0 <= k < compatible_brands.len() && (#[trigger] compatible_brands[k])@ == code4(0x61, 0x76, 0x69, 0x73)
}

/// What a gathered `state` must hold for the still image to parse: a primary item
/// that is no `tmap`, acceptable associations, the item's information, location and
/// required properties, readable bytes for it and its alpha items, and grids that
/// decode where the primary item or an alpha item is a `grid`.
pub open spec fn primary_item_parses(data: Seq<u8>, state: &MetaState) -> bool {
    state.primary_item_id matches Some(id) && {
        &&& !primary_is_tmap(state)
        &&& associations_acceptable(state)
        &&& decoded_item_complete(state, id)
        &&& item_bytes(data, *state, id, Seq::empty()) matches Ok(payload) && (primary_is_grid(state) ==> grid_decodable(
            data,
            payload,
            state,
            id,
        ))
        &&& alpha_payloads_readable(data, state, Some(id))
        &&& forall|aid: u32|
            #![trigger chosen_alpha_ids(state, Some(id)).contains(aid), has_item_of_type(state, aid, code4(0x67, 0x72, 0x69, 0x64))]
            chosen_alpha_ids(state, Some(id)).contains(aid) && has_item_of_type(state, aid, code4(0x67, 0x72, 0x69, 0x64))
                ==> (item_bytes(data, *state, aid, Seq::empty()) matches Ok(bytes) && grid_decodable(data, bytes, state, aid))
    }
}

/// An AVIF file that parses: it is small enough to address, opens with an `ftyp`
/// box whose brands name AVIF (and, when they name `avis`, its image sequence
/// reads), its `meta` box parses, and the state gathered from it holds what the
/// primary item needs.
pub open spec fn avif_file_parses(data: Seq<u8>) -> bool {
    &&& data.len() <= usize::MAX / 8
    &&& ftyp_present(data)
    &&& forall|major: [u8; 4], compatible: Seq<[u8; 4]>|
        #[trigger] opens_with_ftyp(data, major, compatible) ==> advertises_avif(major@, compatible) && (!names_avis(
            major@,
            compatible,
        ) || crate::container::sequence::sequence_reads(data))
    &&& file_meta_parses(data)
    &&& forall|state: MetaState| #[trigger] collected_state(data, state) ==> primary_item_parses(data, &state)
}

/// The first association entry of `item_id` from `k` on is an entry of that item.
proof fn lemma_association_entry_from(entries: Seq<ItemPropertyAssociation>, item_id: u32, k: int)
    ensures
        association_entry_from(entries, item_id, k) matches Some(e) ==> 0 <= e < entries.len() && entries[e].item_id == item_id,
    decreases entries.len() - k,
{
    if 0 <= k < entries.len() && entries[k].item_id != item_id {
        lemma_association_entry_from(entries, item_id, k + 1);
    }
}

/// Parses an AVIF file into what still-image decoding needs: brands, the primary
/// item's properties and payload, alpha items, grids and sequence samples.
pub fn parse_avif(data: &[u8]) -> (result: Result<AvifInfo, DecoderError>)
    ensures
        match result {
            Ok(info) => {
                &&& advertises_avif(info.major_brand@, info.compatible_brands@)
                &&& opens_with_ftyp(data@, info.major_brand, info.compatible_brands@)
                &&& forall|i: int, j: int|
                    0 <= i < j < info.alpha_auxiliary_items@.len() ==> info.alpha_auxiliary_items@[i].item_id
                        < info.alpha_auxiliary_items@[j].item_id
                &&& crate::container::sequence::samples_from(data@, info.sequence_sample_payloads@)
                &&& exists|state: MetaState| #[trigger] collected_state(data@, state) && primary_fields(data@, &state, info)
            },
            Err(_) => true,
        },
        data@.len() < 8 ==> result is Err && result->Err_0.kind() == ErrorKind::NotEnoughData && result->Err_0.detail()
            == "box header is truncated"@,
        !ftyp_present(data@) ==> result is Err,
        (forall|major: [u8; 4], compatible: Seq<[u8; 4]>|
            #[trigger] opens_with_ftyp(data@, major, compatible) ==> !advertises_avif(major@, compatible)) ==> result is Err,
        data@.len() > usize::MAX / 8 ==> result is Err && result->Err_0.kind() == ErrorKind::InvalidParam,
        avif_file_parses(data@) ==> result is Ok,
{
    let ghost well = avif_file_parses(data@);
    if data.len() > usize::MAX / 8 {
        return Err(DecoderError::InvalidParam("input is too large".to_string()));
    }
    let (major_brand, compatible_brands) = parse_ftyp(data)?;
    let ghost brands = compatible_brands@;
    if !brands_advertise_avif(&major_brand, compatible_brands.as_slice()) {
        return Err(DecoderError::Bitstream("file type box does not advertise AVIF".to_string()));
    }
    let mut meta = MetaState::default();
    let ghost initial = meta;
    collect_meta(data, &mut meta)?;
    proof {
        let (headers, states) = choose|headers: Seq<BoxHeader>, states: Seq<MetaState>|
            #![trigger crate::container::boxes::boxes_tile(data@, headers), top_level_walk(data@, headers, states)]
            {
                &&& crate::container::boxes::boxes_tile(data@, headers)
                &&& top_level_walk(data@, headers, states)
                &&& states[0] == initial
                &&& states.last() == meta
            };
        assert(collected_state(data@, meta));
        if well {
            assert(opens_with_ftyp(data@, major_brand, brands));
            assert(primary_item_parses(data@, &meta));
        }
    }
    let info = avif_info_from_state(data, major_brand, compatible_brands, &meta)?;
    assert(opens_with_ftyp(data@, info.major_brand, info.compatible_brands@));
    Ok(info)
}

/// What still-image decoding needs from the gathered `meta`: the reconstructed item,
/// its bytes and properties, the sequence samples, the alpha items and the grids.
#[verifier::spinoff_prover]
#[verifier::rlimit(40)]
fn avif_info_from_state(data: &[u8], major_brand: [u8; 4], compatible_brands: Vec<[u8; 4]>, meta: &MetaState) -> (result: Result<
    AvifInfo,
    DecoderError,
>)
    requires
        addressable(data@.len() as int),
    ensures
        match result {
            Ok(info) => {
                &&& info.major_brand == major_brand
                &&& info.compatible_brands@ == compatible_brands@
                &&& forall|i: int, j: int|
                    0 <= i < j < info.alpha_auxiliary_items@.len() ==> info.alpha_auxiliary_items@[i].item_id
                        < info.alpha_auxiliary_items@[j].item_id
                &&& crate::container::sequence::samples_from(data@, info.sequence_sample_payloads@)
                &&& primary_fields(data@, meta, info)
            },
            Err(_) => true,
        },
        primary_item_parses(data@, meta) && (!names_avis(major_brand@, compatible_brands@)
            || crate::container::sequence::sequence_reads(data@)) ==> result is Ok,
{
    let ghost well = primary_item_parses(data@, meta) && (!names_avis(major_brand@, compatible_brands@)
        || crate::container::sequence::sequence_reads(data@));
    let decode_primary_item_id = effective_primary_item_id(meta)?;
    let primary_item_payload = item_payload(data, meta, decode_primary_item_id)?;
    let sequence_sample_payloads = sequence_sample_payloads(data, &major_brand, compatible_brands.as_slice())?;
    validate_primary_item_metadata(meta)?;
    let alpha_auxiliary_items = alpha_auxiliary_items_for(data, meta, Some(decode_primary_item_id))?;
    let primary_grid = primary_grid(data, primary_item_payload.as_slice(), meta)?;
    proof {
        if well {
            let items = alpha_auxiliary_items@;
            assert forall|a: int|
                0 <= a < items.len() && has_item_of_type(meta, (#[trigger] items[a]).item_id, code4(0x67, 0x72, 0x69, 0x64))
                    implies grid_decodable(data@, items[a].payload@, meta, items[a].item_id) by {
                let aid = items[a].item_id;
                assert(Set::new(|x: u32| exists|i: int| 0 <= i < items.len() && #[trigger] items[i].item_id == x).contains(aid));
                assert(chosen_alpha_ids(meta, Some(decode_primary_item_id)).contains(aid));
                assert(item_bytes(data@, *meta, aid, Seq::empty()) == Ok::<Seq<u8>, ErrorKind>(items[a].payload@));
            }
        }
    }
    let alpha_grid = alpha_grid(data, alpha_auxiliary_items.as_slice(), meta)?;
    proof {
        if well {
            lemma_association_entry_from(meta.item_property_associations@, decode_primary_item_id, 0);
        }
    }
    let primary_metadata = item_metadata(meta, decode_primary_item_id)?;
    let info = AvifInfo {
        major_brand,
        compatible_brands,
        primary_item_id: meta.primary_item_id,
        width: primary_metadata.width,
        height: primary_metadata.height,
        pixel_information: primary_metadata.pixel_information,
        color_information: primary_metadata.color_information,
        alpha_premultiplied: primary_metadata.alpha_premultiplied,
        alpha_auxiliary_items,
        alpha_grid,
        primary_grid,
        clean_aperture: primary_metadata.clean_aperture,
        rotation: primary_metadata.rotation,
        mirror: primary_metadata.mirror,
        av1_config: primary_metadata.av1_config,
        primary_item_payload,
        sequence_sample_payloads,
    };
    proof {
        let alpha = info.alpha_auxiliary_items@;
        assert(Set::new(|aid: u32| exists|i: int| 0 <= i < alpha.len() && #[trigger] alpha[i].item_id == aid) == chosen_alpha_ids(
            meta,
            Some(decode_primary_item_id),
        ));
        assert(alpha_payloads_match(data@, meta, alpha));
        assert(info.primary_grid is None <==> !primary_is_grid(meta));
        assert(auxiliary_fields(data@, meta, decode_primary_item_id, info));
    }
    assert(primary_fields(data@, meta, info));
    Ok(info)
}

/// The metadata of the primary item.
pub fn primary_item_metadata(state: &MetaState) -> (result: Result<PrimaryItemMetadata, DecoderError>)
    requires
        association_indices_valid(state),
    ensures
        state.primary_item_id is None ==> result is Err && result->Err_0.kind() == ErrorKind::Bitstream,
{
    match state.primary_item_id {
        Some(primary_item_id) => item_metadata(state, primary_item_id),
        None => Err(DecoderError::Bitstream("primary item is missing".to_string())),
    }
}

/// The payload of the item the decoder reconstructs.
pub fn primary_item_payload(data: &[u8], state: &MetaState) -> (result: Result<Vec<u8>, DecoderError>)
    ensures
        state.primary_item_id is None ==> result is Err && result->Err_0.kind() == ErrorKind::Bitstream,
{
    let primary_item_id = effective_primary_item_id(state)?;
    item_payload(data, state, primary_item_id)
}

/// The geometric transforms associated with the primary item.
#[derive(Debug, Default, Clone, Copy, PartialEq, Eq)]
pub struct PrimaryItemTransforms {
    pub clean_aperture: Option<CleanAperture>,
    pub rotation: Option<ImageRotation>,
    pub mirror: Option<ImageMirror>,
}

/// The position of the first association entry at or after `k` for `item_id`.
pub open spec fn association_entry_from(entries: Seq<ItemPropertyAssociation>, item_id: u32, k: int) -> Option<int>
    decreases entries.len() - k,
{
    if k < 0 || k >= entries.len() {
        None
    } else if entries[k].item_id == item_id {
        Some(k)
    } else {
        association_entry_from(entries, item_id, k + 1)
    }
}

/// The property that a 1-based association index names (index 0 is taken as 1),
/// if there is one.
pub open spec fn associated_property(properties: Seq<ItemProperty>, index: u16) -> Option<ItemProperty> {
    let slot: int = if index == 0 { 0 } else { index - 1 };
    if slot < properties.len() {
        Some(properties[slot])
    } else {
        None
    }
}

/// No transform.
pub open spec fn no_transforms() -> PrimaryItemTransforms {
    PrimaryItemTransforms { clean_aperture: None, rotation: None, mirror: None }
}

/// The transforms named by the first `k` associations: the last `clap`, `irot`
/// and `imir` among them.
pub open spec fn transforms_of(properties: Seq<ItemProperty>, associations: Seq<PropertyAssociation>, k: int) -> PrimaryItemTransforms
    decreases k,
{
    if k <= 0 {
        no_transforms()
    } else {
        let before = transforms_of(properties, associations, k - 1);
        match associated_property(properties, associations[k - 1].index) {
            Some(ItemProperty::CleanAperture(clap)) => PrimaryItemTransforms {
                clean_aperture: Some(clap),
                rotation: before.rotation,
                mirror: before.mirror,
            },
            Some(ItemProperty::Rotation(rotation)) => PrimaryItemTransforms {
                clean_aperture: before.clean_aperture,
                rotation: Some(rotation),
                mirror: before.mirror,
            },
            Some(ItemProperty::Mirror(mirror)) => PrimaryItemTransforms {
                clean_aperture: before.clean_aperture,
                rotation: before.rotation,
                mirror: Some(mirror),
            },
            _ => before,
        }
    }
}

/// The transforms of the primary item: those of its first association entry, or
/// none when there is no primary item or no entry for it.
pub open spec fn primary_transforms_spec(state: MetaState) -> PrimaryItemTransforms {
    match state.primary_item_id {
        None => no_transforms(),
        Some(id) => match association_entry_from(state.item_property_associations@, id, 0) {
            None => no_transforms(),
            Some(p) => {
                let associations = state.item_property_associations@[p].associations@;
                transforms_of(state.item_properties@, associations, associations.len() as int)
            },
        },
    }
}

/// The `clap`, `irot` and `imir` properties of the primary item (the last of each
/// kind; associations naming no property are skipped).
pub fn primary_item_transforms(state: &MetaState) -> (transforms: PrimaryItemTransforms)
    ensures
        transforms == primary_transforms_spec(*state),
        state.primary_item_id is None ==> transforms.clean_aperture is None && transforms.rotation is None
            && transforms.mirror is None,
{
    let mut transforms = PrimaryItemTransforms { clean_aperture: None, rotation: None, mirror: None };
    let primary_item_id = match state.primary_item_id {
        Some(id) => id,
        None => return transforms,
    };
    let mut position: usize = 0;
    while position < state.item_property_associations.len()
        && state.item_property_associations[position].item_id != primary_item_id
        invariant
            position <= state.item_property_associations@.len(),
            association_entry_from(state.item_property_associations@, primary_item_id, 0) == association_entry_from(
                state.item_property_associations@,
                primary_item_id,
                position as int,
            ),
        decreases state.item_property_associations@.len() - position,
    {
        position = position + 1;
    }
    if position == state.item_property_associations.len() {
        return transforms;
    }
    let association = &state.item_property_associations[position];
    let mut k: usize = 0;
    while k < association.associations.len()
        invariant
            k <= association.associations@.len(),
            transforms == transforms_of(state.item_properties@, association.associations@, k as int),
        decreases association.associations@.len() - k,
    {
        let index = association.associations[k].index as usize;
        let slot = if index == 0 { 0 } else { index - 1 };
        if slot < state.item_properties.len() {
            match &state.item_properties[slot] {
                ItemProperty::CleanAperture(clap) => transforms.clean_aperture = Some(*clap),
                ItemProperty::Rotation(rotation) => transforms.rotation = Some(*rotation),
                ItemProperty::Mirror(mirror) => transforms.mirror = Some(*mirror),
                _ => {},
            }
        }
        k = k + 1;
    }
    transforms
}

} // verus!
