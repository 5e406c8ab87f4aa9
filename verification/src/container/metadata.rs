//! The properties an item carries, and the checks on the primary item's.
use vstd::prelude::*;
use crate::container::items::{
    kind_of, property_kind, ItemProperty, MetaState, PropertyAssociation, PropertyKind,
};
use crate::container::properties::{code4, fourcc_code, fourcc_eq};
use crate::container::types::{
    CleanAperture, ColorInformation, ImageMirror, ImageRotation, PixelInformation,
};
use crate::error::{DecoderError, ErrorKind};

verus! {

/// The properties associated with an item, as the decoder uses them.
#[derive(Debug)]
pub struct PrimaryItemMetadata {
    pub width: Option<u32>,
    pub height: Option<u32>,
    pub pixel_information: Option<PixelInformation>,
    pub color_information: Option<ColorInformation>,
    pub alpha_premultiplied: bool,
    pub av1_config: Option<Vec<u8>>,
    pub clean_aperture: Option<CleanAperture>,
    pub rotation: Option<ImageRotation>,
    pub mirror: Option<ImageMirror>,
}

/// Every association index of every item names a property (1-based).
pub open spec fn association_indices_valid(state: &MetaState) -> bool {
    forall|i: int, j: int|
        0 <= i < state.item_property_associations@.len() && 0 <= j
            < state.item_property_associations@[i].associations@.len() ==> 1 <= (#[trigger] state.item_property_associations@[i].associations@[j]).index
            <= state.item_properties@.len()
}

/// The property that association `a` names.
pub open spec fn associated(properties: Seq<ItemProperty>, a: PropertyAssociation) -> ItemProperty {
    properties[a.index - 1]
}

/// The last property of `kind` among the associations, if any.
pub open spec fn last_of_kind(properties: Seq<ItemProperty>, associations: Seq<PropertyAssociation>, kind: PropertyKind) -> Option<ItemProperty>
    decreases associations.len(),
{
    if associations.len() == 0 {
        None
    } else if kind_of(associated(properties, associations.last())) == kind {
        Some(associated(properties, associations.last()))
    } else {
        last_of_kind(properties, associations.drop_last(), kind)
    }
}

/// The first association entry of `item_id`.
pub open spec fn association_entry(state: &MetaState, item_id: u32, index: int) -> bool {
    &&& 0 <= index < state.item_property_associations@.len()
    &&& state.item_property_associations@[index].item_id == item_id
    &&& forall|j: int| 0 <= j < index ==> state.item_property_associations@[j].item_id != item_id
}

/// The metadata that the associations of an item give.
pub open spec fn metadata_matches(properties: Seq<ItemProperty>, associations: Seq<PropertyAssociation>, metadata: PrimaryItemMetadata) -> bool {
    &&& match last_of_kind(properties, associations, PropertyKind::SpatialExtents) {
        Some(ItemProperty::SpatialExtents(extents)) => metadata.width == Some(extents.width) && metadata.height
            == Some(extents.height),
        _ => metadata.width is None && metadata.height is None,
    }
    &&& metadata.alpha_premultiplied == (last_of_kind(properties, associations, PropertyKind::Premultiplied) is Some)
    &&& match last_of_kind(properties, associations, PropertyKind::CleanAperture) {
        Some(ItemProperty::CleanAperture(clap)) => metadata.clean_aperture == Some(clap),
        _ => metadata.clean_aperture is None,
    }
    &&& match last_of_kind(properties, associations, PropertyKind::Rotation) {
        Some(ItemProperty::Rotation(rotation)) => metadata.rotation == Some(rotation),
        _ => metadata.rotation is None,
    }
    &&& match last_of_kind(properties, associations, PropertyKind::Mirror) {
        Some(ItemProperty::Mirror(mirror)) => metadata.mirror == Some(mirror),
        _ => metadata.mirror is None,
    }
    &&& match last_of_kind(properties, associations, PropertyKind::Av1Config) {
        Some(ItemProperty::Av1Config(config)) => metadata.av1_config is Some && metadata.av1_config->0@ == config@,
        _ => metadata.av1_config is None,
    }
    &&& match last_of_kind(properties, associations, PropertyKind::PixelInformation) {
        Some(ItemProperty::PixelInformation(pixi)) => metadata.pixel_information is Some
            && metadata.pixel_information->0.bits_per_channel@ == pixi.bits_per_channel@,
        _ => metadata.pixel_information is None,
    }
    &&& match last_of_kind(properties, associations, PropertyKind::ColorInformation) {
        Some(ItemProperty::ColorInformation(color)) => metadata.color_information is Some
            && metadata.color_information->0.color_type@ == color.color_type@
            && metadata.color_information->0.payload@ == color.payload@,
        _ => metadata.color_information is None,
    }
}

/// A copy of a pixel information property.
pub fn copy_pixel_information(pixi: &PixelInformation) -> (copy: PixelInformation)
    ensures
        copy.bits_per_channel@ == pixi.bits_per_channel@,
        copy.extended_channels is Some == pixi.extended_channels is Some,
{
    PixelInformation {
        bits_per_channel: pixi.bits_per_channel.clone(),
        extended_channels: match &pixi.extended_channels {
            Some(channels) => Some(channels.clone()),
            None => None,
        },
    }
}

/// A copy of a colour property.
pub fn copy_color_information(color: &ColorInformation) -> (copy: ColorInformation)
    ensures
        copy.color_type@ == color.color_type@,
        copy.payload@ == color.payload@,
{
    ColorInformation { color_type: color.color_type, payload: color.payload.clone() }
}

/// Whether every association index names a property (1-based).
pub fn association_indices_checked(state: &MetaState) -> (valid: bool)
    ensures
        valid == association_indices_valid(state),
{
    let mut i: usize = 0;
    while i < state.item_property_associations.len()
        invariant
            i <= state.item_property_associations@.len(),
            forall|a: int, b: int|
                0 <= a < i && 0 <= b < state.item_property_associations@[a].associations@.len() ==> 1
                    <= (#[trigger] state.item_property_associations@[a].associations@[b]).index
                    <= state.item_properties@.len(),
        decreases state.item_property_associations@.len() - i,
    {
        let associations = &state.item_property_associations[i].associations;
        let mut j: usize = 0;
        while j < associations.len()
            invariant
                i < state.item_property_associations@.len(),
                associations@ == state.item_property_associations@[i as int].associations@,
                j <= associations@.len(),
                forall|b: int| 0 <= b < j ==> 1 <= (#[trigger] associations@[b]).index <= state.item_properties@.len(),
            decreases associations@.len() - j,
        {
            let index = associations[j].index;
            if index == 0 || index as usize > state.item_properties.len() {
                return false;
            }
            j = j + 1;
        }
        i = i + 1;
    }
    true
}

/// The metadata of `item_id` from its first association entry; later properties of
/// a kind replace earlier ones.
pub fn item_metadata(state: &MetaState, item_id: u32) -> (result: Result<PrimaryItemMetadata, DecoderError>)
    requires
        association_indices_valid(state),
    ensures
        match result {
            Ok(metadata) => exists|index: int|
                #[trigger] association_entry(state, item_id, index) && metadata_matches(
                    state.item_properties@,
                    state.item_property_associations@[index].associations@,
                    metadata,
                ),
            Err(error) => error.kind() == ErrorKind::Bitstream && forall|j: int|
                0 <= j < state.item_property_associations@.len() ==> state.item_property_associations@[j].item_id != item_id,
        },
{
    let mut position: usize = 0;
    while position < state.item_property_associations.len()
        && state.item_property_associations[position].item_id != item_id
        invariant
            position <= state.item_property_associations@.len(),
            forall|j: int| 0 <= j < position ==> state.item_property_associations@[j].item_id != item_id,
        decreases state.item_property_associations@.len() - position,
    {
        position = position + 1;
    }
    if position == state.item_property_associations.len() {
        let head = crate::text::concat("item ", crate::text::decimal(item_id as u64).as_str());
        return Err(DecoderError::Bitstream(crate::text::concat(head.as_str(), " has no property associations")));
    }
    let associations = &state.item_property_associations[position].associations;
    let ghost properties = state.item_properties@;
    let mut metadata = PrimaryItemMetadata {
        width: None,
        height: None,
        pixel_information: None,
        color_information: None,
        alpha_premultiplied: false,
        av1_config: None,
        clean_aperture: None,
        rotation: None,
        mirror: None,
    };
    let mut k: usize = 0;
    while k < associations.len()
        invariant
            k <= associations@.len(),
            associations@ == state.item_property_associations@[position as int].associations@,
            position < state.item_property_associations@.len(),
            association_entry(state, item_id, position as int),
            association_indices_valid(state),
            properties == state.item_properties@,
            metadata_matches(properties, associations@.take(k as int), metadata),
        decreases associations@.len() - k,
    {
        let ghost before = associations@.take(k as int);
        let ghost after = associations@.take(k + 1);
        assert(after.drop_last() =~= before);
        assert(after.last() == associations@[k as int]);
        let index = associations[k].index;
        assert(1 <= index <= properties.len());
        let property = &state.item_properties[(index - 1) as usize];
        match property {
            ItemProperty::SpatialExtents(extents) => {
                metadata.width = Some(extents.width);
                metadata.height = Some(extents.height);
            },
            ItemProperty::PixelInformation(pixi) => {
                metadata.pixel_information = Some(copy_pixel_information(pixi));
            },
            ItemProperty::Av1Config(config) => {
                metadata.av1_config = Some(config.clone());
            },
            ItemProperty::ColorInformation(color) => {
                metadata.color_information = Some(copy_color_information(color));
            },
            ItemProperty::Premultiplied => {
                metadata.alpha_premultiplied = true;
            },
            ItemProperty::CleanAperture(clap) => {
                metadata.clean_aperture = Some(*clap);
            },
            ItemProperty::Rotation(rotation) => {
                metadata.rotation = Some(*rotation);
            },
            ItemProperty::Mirror(mirror) => {
                metadata.mirror = Some(*mirror);
            },
            _ => {},
        }
        k = k + 1;
    }
    assert(associations@.take(k as int) =~= associations@);
    Ok(metadata)
}

} // verus!

verus! {

/// The first item information entry of `item_id`.
pub open spec fn info_entry(state: &MetaState, item_id: u32, index: int) -> bool {
    &&& 0 <= index < state.item_infos@.len()
    &&& state.item_infos@[index].item_id == item_id
    &&& forall|j: int| 0 <= j < index ==> state.item_infos@[j].item_id != item_id
}

/// Some item information entry has `item_id` and type `code`.
pub open spec fn has_item_of_type(state: &MetaState, item_id: u32, code: Seq<u8>) -> bool {
    exists|k: int| 0 <= k < state.item_infos@.len() && state.item_infos@[k].item_id == item_id && (#[trigger] state.item_infos@[k]).item_type@ == code
}

/// Finds the first item information entry of `item_id`.
pub fn find_info(state: &MetaState, item_id: u32) -> (found: Option<usize>)
    ensures
        match found {
            Some(index) => info_entry(state, item_id, index as int),
            None => forall|j: int| 0 <= j < state.item_infos@.len() ==> state.item_infos@[j].item_id != item_id,
        },
{
    let mut index: usize = 0;
    while index < state.item_infos.len()
        invariant
            index <= state.item_infos@.len(),
            forall|j: int| 0 <= j < index ==> state.item_infos@[j].item_id != item_id,
        decreases state.item_infos@.len() - index,
    {
        if state.item_infos[index].item_id == item_id {
            return Some(index);
        }
        index = index + 1;
    }
    None
}

/// Whether some item information entry has `item_id` and type `code`.
pub fn item_has_type(state: &MetaState, item_id: u32, code: &[u8; 4]) -> (found: bool)
    ensures
        found == has_item_of_type(state, item_id, code@),
{
    let mut index: usize = 0;
    while index < state.item_infos.len()
        invariant
            index <= state.item_infos@.len(),
            forall|j: int| 0 <= j < index ==> !(state.item_infos@[j].item_id == item_id && state.item_infos@[j].item_type@ == code@),
        decreases state.item_infos@.len() - index,
    {
        if state.item_infos[index].item_id == item_id && fourcc_eq(&state.item_infos[index].item_type, code) {
            return true;
        }
        index = index + 1;
    }
    false
}

/// The primary item's first item information entry gives it type `tmap`.
pub open spec fn primary_is_tmap(state: &MetaState) -> bool {
    match state.primary_item_id {
        Some(id) => exists|index: int|
            #[trigger] info_entry(state, id, index) && state.item_infos@[index].item_type@ == code4(0x74, 0x6d, 0x61, 0x70),
        None => false,
    }
}

/// The item whose image the decoder reconstructs: the primary item, or for a `tmap`
/// primary item, the first `av01` item its `dimg` references name.
pub fn effective_primary_item_id(state: &MetaState) -> (result: Result<u32, DecoderError>)
    ensures
        match result {
            Ok(id) => state.primary_item_id is Some && (id == state.primary_item_id->0 || has_item_of_type(
                state,
                id,
                code4(0x61, 0x76, 0x30, 0x31),
            )),
            Err(error) => state.primary_item_id is None && error.kind() == ErrorKind::Bitstream
                || state.primary_item_id is Some && error.kind() == ErrorKind::Unsupported,
        },
        state.primary_item_id is Some && !primary_is_tmap(state) ==> result == Ok::<u32, DecoderError>(
            state.primary_item_id->0,
        ),
{
    let primary_item_id = match state.primary_item_id {
        Some(id) => id,
        None => return Err(DecoderError::Bitstream("primary item is missing".to_string())),
    };
    let info = match find_info(state, primary_item_id) {
        Some(index) => index,
        None => return Ok(primary_item_id),
    };
    if !fourcc_eq(&state.item_infos[info].item_type, &fourcc_code(0x74, 0x6d, 0x61, 0x70)) {
        return Ok(primary_item_id);
    }
    proof {
        assert(info_entry(state, primary_item_id, info as int));
    }
    let av01 = fourcc_code(0x61, 0x76, 0x30, 0x31);
    assert(av01@ == code4(0x61, 0x76, 0x30, 0x31));
    let mut r: usize = 0;
    while r < state.item_references.len()
        invariant
            r <= state.item_references@.len(),
            av01@ == code4(0x61, 0x76, 0x30, 0x31),
            state.primary_item_id == Some(primary_item_id),
            primary_is_tmap(state),
        decreases state.item_references@.len() - r,
    {
        let reference = &state.item_references[r];
        if fourcc_eq(&reference.reference_type, &fourcc_code(0x64, 0x69, 0x6d, 0x67)) && reference.from_item_id == primary_item_id {
            let mut t: usize = 0;
            while t < reference.to_item_ids.len()
                invariant
                    t <= reference.to_item_ids@.len(),
                    av01@ == code4(0x61, 0x76, 0x30, 0x31),
                    state.primary_item_id == Some(primary_item_id),
                    primary_is_tmap(state),
                decreases reference.to_item_ids@.len() - t,
            {
                let candidate = reference.to_item_ids[t];
                if item_has_type(state, candidate, &av01) {
                    return Ok(candidate);
                }
                t = t + 1;
            }
        }
        r = r + 1;
    }
    Err(DecoderError::Unsupported("tmap primary item has no referenced base av01 image".to_string()))
}

/// Whether some location entry is for `item_id`.
fn has_location(state: &MetaState, item_id: u32) -> (found: bool)
    ensures
        found == exists|k: int| 0 <= k < state.item_locations@.len() && (#[trigger] state.item_locations@[k]).item_id == item_id,
{
    match crate::container::payload::find_location(state, item_id) {
        Some(_) => true,
        None => false,
    }
}

/// Whether `kinds` holds `kind`.
fn kinds_contain(kinds: &Vec<PropertyKind>, kind: PropertyKind) -> (found: bool)
    ensures
        found == kinds@.contains(kind),
{
    let mut k: usize = 0;
    while k < kinds.len()
        invariant
            k <= kinds@.len(),
            forall|j: int| 0 <= j < k ==> kinds@[j] != kind,
        decreases kinds@.len() - k,
    {
        if kinds[k] == kind {
            assert(kinds@[k as int] == kind);
            return true;
        }
        k = k + 1;
    }
    false
}

fn item_index_message(item_id: u32, middle: &str, value: u64, suffix: &str) -> (message: String)
    ensures
        message@ == "item "@ + crate::text::decimal_spec(item_id as nat) + middle@ + crate::text::decimal_spec(value as nat)
            + suffix@,
{
    let head = crate::text::concat("item ", crate::text::decimal(item_id as u64).as_str());
    let head = crate::text::concat(head.as_str(), middle);
    let head = crate::text::concat(head.as_str(), crate::text::decimal(value).as_str());
    crate::text::concat(head.as_str(), suffix)
}

/// No item has two properties of one known kind.
pub open spec fn singleton_kinds_unique(state: &MetaState) -> bool {
    forall|i: int, j: int, k: int|
        0 <= i < state.item_property_associations@.len() && 0 <= j < k
            < state.item_property_associations@[i].associations@.len() ==> kinds_differ(
            state.item_properties@,
            #[trigger] state.item_property_associations@[i].associations@[j],
            #[trigger] state.item_property_associations@[i].associations@[k],
        )
}

/// Two associations do not name two properties of one known kind.
pub open spec fn kinds_differ(properties: Seq<ItemProperty>, first: PropertyAssociation, second: PropertyAssociation) -> bool {
    kind_of(associated(properties, first)) != PropertyKind::Other ==> kind_of(associated(properties, first)) != kind_of(
        associated(properties, second),
    )
}

/// Association `a` names a property (1-based) that the decoder accepts: not an
/// essential unknown one, and no other operating point or layer than 0.
pub open spec fn association_acceptable(properties: Seq<ItemProperty>, a: PropertyAssociation) -> bool {
    &&& 1 <= a.index <= properties.len()
    &&& !(a.essential && kind_of(associated(properties, a)) == PropertyKind::Other)
    &&& (associated(properties, a) matches ItemProperty::OperatingPointSelector(op) ==> op == 0)
    &&& (associated(properties, a) matches ItemProperty::LayerSelector(layer) ==> layer == 0)
}

/// Association entry `e` is for an item with item information, names acceptable
/// properties, and names no known kind twice.
pub open spec fn association_entry_acceptable(state: &MetaState, e: int) -> bool {
    let entry = state.item_property_associations@[e];
    &&& exists|k: int| 0 <= k < state.item_infos@.len() && (#[trigger] state.item_infos@[k]).item_id == entry.item_id
    &&& forall|j: int| 0 <= j < entry.associations@.len() ==> association_acceptable(state.item_properties@, #[trigger] entry.associations@[j])
    &&& forall|j: int, k: int|
        0 <= j < k < entry.associations@.len() ==> kinds_differ(
            state.item_properties@,
            #[trigger] entry.associations@[j],
            #[trigger] entry.associations@[k],
        )
}

/// Every association entry is acceptable.
pub open spec fn associations_acceptable(state: &MetaState) -> bool {
    forall|e: int| 0 <= e < state.item_property_associations@.len() ==> #[trigger] association_entry_acceptable(state, e)
}

/// The primary item's first item information entry gives it a derived type (`grid`
/// or `sato`).
pub open spec fn primary_is_derived(state: &MetaState) -> bool {
    match state.primary_item_id {
        Some(id) => exists|index: int|
            #[trigger] info_entry(state, id, index) && (state.item_infos@[index].item_type@ == code4(0x67, 0x72, 0x69, 0x64)
                || state.item_infos@[index].item_type@ == code4(0x73, 0x61, 0x74, 0x6f)),
        None => false,
    }
}

/// Association entry `e` names a property of `kind`.
pub open spec fn entry_has_kind(state: &MetaState, e: int, kind: PropertyKind) -> bool {
    exists|j: int|
        0 <= j < state.item_property_associations@[e].associations@.len() && kind_of(
            associated(state.item_properties@, #[trigger] state.item_property_associations@[e].associations@[j]),
        ) == kind
}

/// Item `id`, decoded in place of the primary item, has item information and a
/// location, and its first association entry names `ispe`, `pixi` and, unless the
/// primary item is derived, `av1C`.
pub open spec fn decoded_item_complete(state: &MetaState, id: u32) -> bool {
    &&& exists|k: int| 0 <= k < state.item_infos@.len() && (#[trigger] state.item_infos@[k]).item_id == id
    &&& exists|k: int| 0 <= k < state.item_locations@.len() && (#[trigger] state.item_locations@[k]).item_id == id
    &&& match crate::container::avif::association_entry_from(state.item_property_associations@, id, 0) {
        None => false,
        Some(e) => {
            &&& entry_has_kind(state, e, PropertyKind::SpatialExtents)
            &&& entry_has_kind(state, e, PropertyKind::PixelInformation)
            &&& !primary_is_derived(state) ==> entry_has_kind(state, e, PropertyKind::Av1Config)
        },
    }
}

/// Checks the associations of every item and the properties the primary item must
/// have: `ispe` and `pixi`, and `av1C` unless it is a derived (`grid`, `sato`) item.
pub fn validate_primary_item_metadata(state: &MetaState) -> (result: Result<(), DecoderError>)
    ensures
        result is Ok ==> {
            &&& association_indices_valid(state)
            &&& singleton_kinds_unique(state)
            &&& associations_acceptable(state)
            &&& state.primary_item_id is Some
            &&& exists|id: u32| #[trigger] decoded_item_complete(state, id)
        },
        state.primary_item_id is Some && !primary_is_tmap(state) && associations_acceptable(state) && decoded_item_complete(
            state,
            state.primary_item_id->0,
        ) ==> result is Ok,
{
    let primary_item_id = effective_primary_item_id(state)?;
    if find_info(state, primary_item_id).is_none() {
        let head = crate::text::concat("primary item ", crate::text::decimal(primary_item_id as u64).as_str());
        return Err(DecoderError::Bitstream(crate::text::concat(head.as_str(), " has no item information")));
    }
    if !has_location(state, primary_item_id) {
        let head = crate::text::concat("primary item ", crate::text::decimal(primary_item_id as u64).as_str());
        return Err(DecoderError::Bitstream(crate::text::concat(head.as_str(), " has no item location")));
    }
    let count = state.item_properties.len();
    let mut e: usize = 0;
    while e < state.item_property_associations.len()
        invariant
            e <= state.item_property_associations@.len(),
            count == state.item_properties@.len(),
            forall|i: int, j: int|
                0 <= i < e && 0 <= j < state.item_property_associations@[i].associations@.len() ==> 1
                    <= (#[trigger] state.item_property_associations@[i].associations@[j]).index <= count,
            forall|i: int, j: int, k: int|
                0 <= i < e && 0 <= j < k < state.item_property_associations@[i].associations@.len() ==> kinds_differ(
                    state.item_properties@,
                    #[trigger] state.item_property_associations@[i].associations@[j],
                    #[trigger] state.item_property_associations@[i].associations@[k],
                ),
            forall|i: int| 0 <= i < e ==> #[trigger] association_entry_acceptable(state, i),
        decreases state.item_property_associations@.len() - e,
    {
        let association = &state.item_property_associations[e];
        if find_info(state, association.item_id).is_none() {
            proof {
                assert(!association_entry_acceptable(state, e as int));
            }
            return Err(DecoderError::Bitstream(crate::text::concat(
                "property association refers to unknown item ",
                crate::text::decimal(association.item_id as u64).as_str(),
            )));
        }
        let mut seen_kinds: Vec<PropertyKind> = Vec::new();
        let mut p: usize = 0;
        while p < association.associations.len()
            invariant
                p <= association.associations@.len(),
                e < state.item_property_associations@.len(),
                association == &state.item_property_associations@[e as int],
                count == state.item_properties@.len(),
                seen_kinds@.len() == p,
                forall|j: int| 0 <= j < p ==> 1 <= (#[trigger] association.associations@[j]).index <= count,
                forall|j: int| 0 <= j < p ==> seen_kinds@[j] == kind_of(associated(state.item_properties@, #[trigger] association.associations@[j])),
                forall|j: int, k: int|
                    0 <= j < k < p ==> seen_kinds@[j] != PropertyKind::Other ==> seen_kinds@[j] != seen_kinds@[k],
                forall|j: int| 0 <= j < p ==> association_acceptable(state.item_properties@, #[trigger] association.associations@[j]),
            decreases association.associations@.len() - p,
        {
            let property = association.associations[p];
            let index = property.index;
            if index == 0 || index as usize > count {
                proof {
                    assert(!association_acceptable(state.item_properties@, association.associations@[p as int]));
                    assert(!association_entry_acceptable(state, e as int));
                }
                return Err(DecoderError::Bitstream(
                    item_index_message(association.item_id, " property association index ", index as u64, " is out of range"),
                ));
            }
            let kind = property_kind(&state.item_properties[(index - 1) as usize]);
            if property.essential && kind == PropertyKind::Other {
                proof {
                    assert(!association_acceptable(state.item_properties@, association.associations@[p as int]));
                    assert(!association_entry_acceptable(state, e as int));
                }
                return Err(DecoderError::Unsupported(
                    item_index_message(association.item_id, " has an essential unsupported property at index ", index as u64, ""),
                ));
            }
            match &state.item_properties[(index - 1) as usize] {
                ItemProperty::OperatingPointSelector(op_index) => {
                    if *op_index != 0 {
                        proof {
                            assert(!association_acceptable(state.item_properties@, association.associations@[p as int]));
                            assert(!association_entry_acceptable(state, e as int));
                        }
                        return Err(DecoderError::Unsupported(
                            item_index_message(association.item_id, " a1op operating point ", *op_index as u64, " is not supported"),
                        ));
                    }
                },
                ItemProperty::LayerSelector(layer_id) => {
                    if *layer_id != 0 {
                        proof {
                            assert(!association_acceptable(state.item_properties@, association.associations@[p as int]));
                            assert(!association_entry_acceptable(state, e as int));
                        }
                        return Err(DecoderError::Unsupported(
                            item_index_message(association.item_id, " lsel layer ", *layer_id as u64, " is not supported"),
                        ));
                    }
                },
                _ => {},
            }
            assert(association_acceptable(state.item_properties@, association.associations@[p as int]));
            if kind.is_singleton() && kinds_contain(&seen_kinds, kind) {
                proof {
                    let j = choose|j: int| 0 <= j < seen_kinds@.len() && seen_kinds@[j] == kind;
                    assert(!kinds_differ(state.item_properties@, association.associations@[j], association.associations@[p as int]));
                    assert(!association_entry_acceptable(state, e as int));
                }
                let head = crate::text::concat("item ", crate::text::decimal(association.item_id as u64).as_str());
                let head = crate::text::concat(head.as_str(), " has duplicate ");
                let head = crate::text::concat(head.as_str(), kind.debug_name());
                return Err(DecoderError::Bitstream(crate::text::concat(head.as_str(), " property association")));
            }
            seen_kinds.push(kind);
            p = p + 1;
        }
        proof {
            assert forall|j: int, k: int|
                0 <= j < k < association.associations@.len() implies kinds_differ(
                state.item_properties@,
                #[trigger] association.associations@[j],
                #[trigger] association.associations@[k],
            ) by {
                assert(seen_kinds@[j] == kind_of(associated(state.item_properties@, association.associations@[j])));
                assert(seen_kinds@[k] == kind_of(associated(state.item_properties@, association.associations@[k])));
            }
            assert(association_entry_acceptable(state, e as int));
        }
        e = e + 1;
    }
    let mut position: usize = 0;
    while position < state.item_property_associations.len()
        && state.item_property_associations[position].item_id != primary_item_id
        invariant
            position <= state.item_property_associations@.len(),
            crate::container::avif::association_entry_from(state.item_property_associations@, primary_item_id, 0)
                == crate::container::avif::association_entry_from(state.item_property_associations@, primary_item_id, position as int),
        decreases state.item_property_associations@.len() - position,
    {
        position = position + 1;
    }
    if position == state.item_property_associations.len() {
        let head = crate::text::concat("primary item ", crate::text::decimal(primary_item_id as u64).as_str());
        return Err(DecoderError::Bitstream(crate::text::concat(head.as_str(), " has no property associations")));
    }
    assert(crate::container::avif::association_entry_from(state.item_property_associations@, primary_item_id, 0) == Some(
        position as int,
    ));
    let primary_association = &state.item_property_associations[position];
    let mut kinds: Vec<PropertyKind> = Vec::new();
    let mut p: usize = 0;
    while p < primary_association.associations.len()
        invariant
            p <= primary_association.associations@.len(),
            position < state.item_property_associations@.len(),
            primary_association == &state.item_property_associations@[position as int],
            count == state.item_properties@.len(),
            forall|i: int, j: int|
                0 <= i < state.item_property_associations@.len() && 0 <= j < state.item_property_associations@[i].associations@.len() ==> 1
                    <= (#[trigger] state.item_property_associations@[i].associations@[j]).index <= count,
            kinds@.len() == p,
            forall|j: int| 0 <= j < p ==> kinds@[j] == kind_of(associated(state.item_properties@, #[trigger] primary_association.associations@[j])),
        decreases primary_association.associations@.len() - p,
    {
        let index = primary_association.associations[p].index;
        assert(1 <= index <= count);
        kinds.push(property_kind(&state.item_properties[(index - 1) as usize]));
        p = p + 1;
    }
    proof {
        assert forall|kind: PropertyKind| kinds@.contains(kind) <==> entry_has_kind(state, position as int, kind) by {
            if kinds@.contains(kind) {
                let j = choose|j: int| 0 <= j < kinds@.len() && kinds@[j] == kind;
                assert(kind_of(associated(state.item_properties@, primary_association.associations@[j])) == kind);
            }
            if entry_has_kind(state, position as int, kind) {
                let j = choose|j: int|
                    0 <= j < state.item_property_associations@[position as int].associations@.len() && kind_of(
                        associated(state.item_properties@, #[trigger] state.item_property_associations@[position as int].associations@[j]),
                    ) == kind;
                assert(kinds@[j] == kind);
            }
        }
    }
    let described = match state.primary_item_id {
        Some(id) => id,
        None => primary_item_id,
    };
    let described_info = find_info(state, described);
    let is_derived = match described_info {
        Some(index) => fourcc_eq(&state.item_infos[index].item_type, &fourcc_code(0x67, 0x72, 0x69, 0x64)) || fourcc_eq(
            &state.item_infos[index].item_type,
            &fourcc_code(0x73, 0x61, 0x74, 0x6f),
        ),
        None => false,
    };
    proof {
        match described_info {
            Some(found) => {
                assert forall|index: int| #[trigger] info_entry(state, described, index) implies index == found by {
                    if index < found {
                        assert(state.item_infos@[index].item_id == described);
                    } else if index > found {
                        assert(state.item_infos@[found as int].item_id == described);
                    }
                }
                assert(info_entry(state, described, found as int));
            },
            None => {
                assert forall|index: int| !#[trigger] info_entry(state, described, index) by {
                    if 0 <= index < state.item_infos@.len() {
                        assert(state.item_infos@[index].item_id != described);
                    }
                }
            },
        }
    }
    assert(is_derived == primary_is_derived(state));
    let mut required: Vec<PropertyKind> = Vec::new();
    required.push(PropertyKind::SpatialExtents);
    required.push(PropertyKind::PixelInformation);
    if !is_derived {
        required.push(PropertyKind::Av1Config);
    }
    let mut r: usize = 0;
    while r < required.len()
        invariant
            r <= required@.len(),
            forall|k: int| 0 <= k < r ==> kinds@.contains(#[trigger] required@[k]),
            required@.len() == (if is_derived { 2int } else { 3int }),
            required@[0] == PropertyKind::SpatialExtents,
            required@[1] == PropertyKind::PixelInformation,
            !is_derived ==> required@[2] == PropertyKind::Av1Config,
            forall|kind: PropertyKind| kinds@.contains(kind) <==> entry_has_kind(state, position as int, kind),
            is_derived == primary_is_derived(state),
            crate::container::avif::association_entry_from(state.item_property_associations@, primary_item_id, 0) == Some(
                position as int,
            ),
            state.primary_item_id is Some && !primary_is_tmap(state) ==> primary_item_id == state.primary_item_id->0,
        decreases required@.len() - r,
    {
        if !kinds_contain(&kinds, required[r]) {
            proof {
                assert(!entry_has_kind(state, position as int, required@[r as int]));
            }
            let head = crate::text::concat("primary item ", crate::text::decimal(primary_item_id as u64).as_str());
            let head = crate::text::concat(head.as_str(), " is missing required ");
            let head = crate::text::concat(head.as_str(), required[r].debug_name());
            return Err(DecoderError::Bitstream(crate::text::concat(head.as_str(), " property")));
        }
        r = r + 1;
    }
    proof {
        assert(kinds@.contains(required@[0]));
        assert(kinds@.contains(required@[1]));
        if !is_derived {
            assert(kinds@.contains(required@[2]));
        }
        assert(decoded_item_complete(state, primary_item_id));
    }
    Ok(())
}

} // verus!
