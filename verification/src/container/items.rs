//! The item boxes of a `meta` box: item information, locations, references and
//! property associations.
use vstd::prelude::*;
use crate::container::boxes::{
    box_extent, box_payload, boxes_tile, header_within, lemma_tile_progress_next, lemma_tile_progress_start,
    lemma_tile_progress_step, read_box_header, tile_progress, BoxHeader,
};
use crate::container::bytes::{
    addressable, be_uint, checked_add, fits, read_fourcc, read_item_id, read_sized_int, read_u16, read_u24,
    read_u32, read_u8, validate_collection_count, validate_field_size,
};
use crate::container::properties::{code4, fourcc_code, fourcc_eq};
use crate::container::types::{
    CleanAperture, ColorInformation, ImageMirror, ImageRotation, ImageSpatialExtents, PixelInformation,
};
use crate::error::{DecoderError, ErrorKind};

verus! {

/// Where an item's bytes are: a base offset and its extents.
#[derive(Debug, Clone, PartialEq, Eq)]
pub struct ItemLocation {
    pub item_id: u32,
    pub base_offset: u64,
    pub extents: Vec<ItemExtent>,
}

/// One extent of an item: `length` bytes at `base_offset + offset`.
#[derive(Debug, Clone, Copy, PartialEq, Eq, Structural)]
pub struct ItemExtent {
    pub offset: u64,
    pub length: u64,
}

/// A typed reference from one item to others (`dimg`, `auxl`, `iloc`, ...).
#[derive(Debug, Clone, PartialEq, Eq)]
pub struct ItemReference {
    pub reference_type: [u8; 4],
    pub from_item_id: u32,
    pub to_item_ids: Vec<u32>,
}

/// The properties associated with one item, in order.
#[derive(Debug, Clone, PartialEq, Eq)]
pub struct ItemPropertyAssociation {
    pub item_id: u32,
    pub associations: Vec<PropertyAssociation>,
}

/// A 1-based index into the property container and whether the property is essential.
#[derive(Debug, Clone, Copy, PartialEq, Eq, Structural)]
pub struct PropertyAssociation {
    pub index: u16,
    pub essential: bool,
}

/// An `infe` entry: item ID, four-character type and name.
#[derive(Debug, Clone, PartialEq, Eq)]
pub struct ItemInfo {
    pub item_id: u32,
    pub item_type: [u8; 4],
    pub item_name: String,
}

/// A property of the `ipco` container.
#[derive(Debug, Clone, PartialEq, Eq)]
pub enum ItemProperty {
    AuxiliaryType(String),
    CleanAperture(CleanAperture),
    Rotation(ImageRotation),
    Mirror(ImageMirror),
    SpatialExtents(ImageSpatialExtents),
    PixelInformation(PixelInformation),
    Av1Config(Vec<u8>),
    ColorInformation(ColorInformation),
    Premultiplied,
    OperatingPointSelector(u8),
    LayerSelector(u16),
    LayerIndexing([u64; 3]),
    Other,
}

/// The kind of a property, without its value.
#[derive(Debug, Clone, Copy, PartialEq, Eq, Structural)]
pub enum PropertyKind {
    AuxiliaryType,
    CleanAperture,
    Rotation,
    Mirror,
    SpatialExtents,
    PixelInformation,
    Av1Config,
    ColorInformation,
    Premultiplied,
    OperatingPointSelector,
    LayerSelector,
    LayerIndexing,
    Other,
}

/// The name of a property kind, as `{:?}` renders it.
pub open spec fn property_kind_name(value: PropertyKind) -> Seq<char> {
    match value {
        PropertyKind::AuxiliaryType => "AuxiliaryType"@,
        PropertyKind::CleanAperture => "CleanAperture"@,
        PropertyKind::Rotation => "Rotation"@,
        PropertyKind::Mirror => "Mirror"@,
        PropertyKind::SpatialExtents => "SpatialExtents"@,
        PropertyKind::PixelInformation => "PixelInformation"@,
        PropertyKind::Av1Config => "Av1Config"@,
        PropertyKind::ColorInformation => "ColorInformation"@,
        PropertyKind::Premultiplied => "Premultiplied"@,
        PropertyKind::OperatingPointSelector => "OperatingPointSelector"@,
        PropertyKind::LayerSelector => "LayerSelector"@,
        PropertyKind::LayerIndexing => "LayerIndexing"@,
        PropertyKind::Other => "Other"@,
    }
}

impl PropertyKind {
    /// Every known property kind may be associated with an item at most once.
    pub fn is_singleton(self) -> (singleton: bool)
        ensures
            singleton == (self != PropertyKind::Other),
    {
        match self {
            PropertyKind::Other => false,
            _ => true,
        }
    }

    /// The variant's name, as `{:?}` renders it.
    pub fn debug_name(self) -> (name: &'static str)
        ensures
            name@ == property_kind_name(self),
    {
        match self {
            PropertyKind::AuxiliaryType => "AuxiliaryType",
            PropertyKind::CleanAperture => "CleanAperture",
            PropertyKind::Rotation => "Rotation",
            PropertyKind::Mirror => "Mirror",
            PropertyKind::SpatialExtents => "SpatialExtents",
            PropertyKind::PixelInformation => "PixelInformation",
            PropertyKind::Av1Config => "Av1Config",
            PropertyKind::ColorInformation => "ColorInformation",
            PropertyKind::Premultiplied => "Premultiplied",
            PropertyKind::OperatingPointSelector => "OperatingPointSelector",
            PropertyKind::LayerSelector => "LayerSelector",
            PropertyKind::LayerIndexing => "LayerIndexing",
            PropertyKind::Other => "Other",
        }
    }
}

/// The kind of a property.
pub open spec fn kind_of(property: ItemProperty) -> PropertyKind {
    match property {
        ItemProperty::AuxiliaryType(_) => PropertyKind::AuxiliaryType,
        ItemProperty::CleanAperture(_) => PropertyKind::CleanAperture,
        ItemProperty::Rotation(_) => PropertyKind::Rotation,
        ItemProperty::Mirror(_) => PropertyKind::Mirror,
        ItemProperty::SpatialExtents(_) => PropertyKind::SpatialExtents,
        ItemProperty::PixelInformation(_) => PropertyKind::PixelInformation,
        ItemProperty::Av1Config(_) => PropertyKind::Av1Config,
        ItemProperty::ColorInformation(_) => PropertyKind::ColorInformation,
        ItemProperty::Premultiplied => PropertyKind::Premultiplied,
        ItemProperty::OperatingPointSelector(_) => PropertyKind::OperatingPointSelector,
        ItemProperty::LayerSelector(_) => PropertyKind::LayerSelector,
        ItemProperty::LayerIndexing(_) => PropertyKind::LayerIndexing,
        ItemProperty::Other => PropertyKind::Other,
    }
}

/// The kind of a property.
pub fn property_kind(property: &ItemProperty) -> (kind: PropertyKind)
    ensures
        kind == kind_of(*property),
{
    match property {
        ItemProperty::AuxiliaryType(_) => PropertyKind::AuxiliaryType,
        ItemProperty::CleanAperture(_) => PropertyKind::CleanAperture,
        ItemProperty::Rotation(_) => PropertyKind::Rotation,
        ItemProperty::Mirror(_) => PropertyKind::Mirror,
        ItemProperty::SpatialExtents(_) => PropertyKind::SpatialExtents,
        ItemProperty::PixelInformation(_) => PropertyKind::PixelInformation,
        ItemProperty::Av1Config(_) => PropertyKind::Av1Config,
        ItemProperty::ColorInformation(_) => PropertyKind::ColorInformation,
        ItemProperty::Premultiplied => PropertyKind::Premultiplied,
        ItemProperty::OperatingPointSelector(_) => PropertyKind::OperatingPointSelector,
        ItemProperty::LayerSelector(_) => PropertyKind::LayerSelector,
        ItemProperty::LayerIndexing(_) => PropertyKind::LayerIndexing,
        ItemProperty::Other => PropertyKind::Other,
    }
}

/// Everything gathered from a `meta` box.
#[derive(Debug)]
pub struct MetaState {
    pub primary_item_id: Option<u32>,
    pub item_locations: Vec<ItemLocation>,
    pub item_construction_methods: Vec<(u32, u16)>,
    pub item_extent_indexes: Vec<(u32, Vec<u64>)>,
    pub idat_payload: Option<Vec<u8>>,
    pub item_infos: Vec<ItemInfo>,
    pub item_references: Vec<ItemReference>,
    pub item_property_associations: Vec<ItemPropertyAssociation>,
    pub item_properties: Vec<ItemProperty>,
}

impl MetaState {
    /// Nothing gathered yet.
    pub open spec fn is_empty(&self) -> bool {
        &&& self.primary_item_id is None
        &&& self.item_locations@.len() == 0
        &&& self.item_construction_methods@.len() == 0
        &&& self.item_extent_indexes@.len() == 0
        &&& self.idat_payload is None
        &&& self.item_infos@.len() == 0
        &&& self.item_references@.len() == 0
        &&& self.item_property_associations@.len() == 0
        &&& self.item_properties@.len() == 0
    }
}

impl Default for MetaState {
    fn default() -> (state: Self)
        ensures
            state.is_empty(),
    {
        MetaState {
            primary_item_id: None,
            item_locations: Vec::new(),
            item_construction_methods: Vec::new(),
            item_extent_indexes: Vec::new(),
            idat_payload: None,
            item_infos: Vec::new(),
            item_references: Vec::new(),
            item_property_associations: Vec::new(),
            item_properties: Vec::new(),
        }
    }
}

fn version_message(prefix: &str, version: u8) -> (message: String)
    ensures
        message@ == prefix@ + crate::text::decimal_spec(version as nat) + " is not supported"@,
{
    let head = crate::text::concat(prefix, crate::text::decimal(version as u64).as_str());
    crate::text::concat(head.as_str(), " is not supported")
}

/// Parses `pitm`: the primary item ID (16 bits in version 0, 32 in version 1).
pub fn parse_pitm(payload: &[u8]) -> (result: Result<Option<u32>, DecoderError>)
    ensures
        match result {
            Ok(id) => payload@.len() >= 6 && (payload@[0] == 0 || payload@[0] == 1) && id == Some(
                (if payload@[0] == 0 { be_uint(payload@, 4, 2) } else { be_uint(payload@, 4, 4) }) as u32,
            ),
            Err(error) => if payload@.len() < 6 {
                error.kind() == ErrorKind::NotEnoughData
            } else if payload@[0] == 1 {
                payload@.len() < 8 && error.kind() == ErrorKind::NotEnoughData
            } else {
                payload@[0] > 1 && error.kind() == ErrorKind::Unsupported
            },
        },
{
    if payload.len() < 6 {
        return Err(DecoderError::NotEnoughData("pitm payload is too short".to_string()));
    }
    let version = payload[0];
    let item_id = if version == 0 {
        read_u16(payload, 4)? as u32
    } else if version == 1 {
        read_u32(payload, 4)?
    } else {
        return Err(DecoderError::Unsupported(version_message("pitm version ", version)));
    };
    Ok(Some(item_id))
}

/// The bytes of a NUL-terminated string starting at `offset` (to the end when
/// there is no NUL).
pub open spec fn c_string_end(data: Seq<u8>, offset: int, end: int) -> bool {
    &&& offset <= end <= data.len()
    &&& (end == data.len() || data[end] == 0)
    &&& forall|k: int| offset <= k < end ==> data[k] != 0
}

/// The NUL-terminated string at `offset` is valid UTF-8.
pub open spec fn c_string_valid(data: Seq<u8>, offset: int) -> bool {
    forall|end: int| #[trigger] c_string_end(data, offset, end) ==> vstd::utf8::valid_utf8(data.subrange(offset, end))
}

/// A NUL-terminated string has one end.
proof fn lemma_c_string_end_unique(data: Seq<u8>, offset: int, end: int, other: int)
    requires
        c_string_end(data, offset, end),
        c_string_end(data, offset, other),
    ensures
        end == other,
{
    if other < end {
        assert(data[other] != 0);
    } else if end < other {
        assert(data[end] != 0);
    }
}

/// Reads a NUL-terminated UTF-8 string at `offset`.
pub fn read_c_string(data: &[u8], offset: usize) -> (result: Result<String, DecoderError>)
    ensures
        result is Ok <==> offset <= data@.len() && c_string_valid(data@, offset as int),
        match result {
            Ok(text) => exists|end: int|
                #![trigger data@.subrange(offset as int, end)]
                c_string_end(data@, offset as int, end) && vstd::utf8::valid_utf8(data@.subrange(offset as int, end))
                    && text@ == vstd::utf8::decode_utf8(data@.subrange(offset as int, end)),
            Err(error) => if offset > data@.len() {
                error.kind() == ErrorKind::NotEnoughData
            } else {
                error.kind() == ErrorKind::Bitstream
            },
        },
{
    if offset > data.len() {
        return Err(DecoderError::NotEnoughData("string offset exceeds input".to_string()));
    }
    let mut end = offset;
    while end < data.len() && data[end] != 0
        invariant
            offset <= end <= data@.len(),
            forall|k: int| offset <= k < end ==> data@[k] != 0,
        decreases data@.len() - end,
    {
        end = end + 1;
    }
    let bytes = vstd::slice::slice_subrange(data, offset, end);
    proof {
        assert(c_string_end(data@, offset as int, end as int));
        assert forall|other: int| #[trigger] c_string_end(data@, offset as int, other) implies other == end by {
            lemma_c_string_end_unique(data@, offset as int, end as int, other);
        }
    }
    match crate::text::utf8_string(bytes) {
        Some(text) => Ok(text),
        None => {
            proof {
                assert(!c_string_valid(data@, offset as int));
            }
            Err(DecoderError::Bitstream("box string is not UTF-8".to_string()))
        },
    }
}

/// What an `infe` entry gives, as (item ID, item type): a version 2 or 3 entry of
/// at least 12 bytes whose fields fit and whose name is valid UTF-8.
pub open spec fn infe_outcome(p: Seq<u8>) -> Option<(u32, Seq<u8>)> {
    if p.len() < 12 || !(p[0] == 2 || p[0] == 3) {
        None
    } else {
        let id_width: int = if p[0] == 2 { 2 } else { 4 };
        let at_type = 4 + id_width + 2;
        if !fits(p, at_type, 4) || !c_string_valid(p, at_type + 4) {
            None
        } else {
            Some((be_uint(p, 4, id_width as nat) as u32, p.subrange(at_type, at_type + 4)))
        }
    }
}

/// Parses an `infe` item information entry (versions 2 and 3).
pub fn parse_infe(payload: &[u8]) -> (result: Result<ItemInfo, DecoderError>)
    ensures
        match result {
            Ok(info) => infe_outcome(payload@) == Some((info.item_id, info.item_type@)),
            Err(_) => infe_outcome(payload@) is None,
        },
        match result {
            Ok(info) => {
                let id_width: int = if payload@[0] == 2 { 2 } else { 4 };
                &&& payload@.len() >= 12
                &&& (payload@[0] == 2 || payload@[0] == 3)
                &&& info.item_id == be_uint(payload@, 4, id_width as nat)
                &&& fits(payload@, 4 + id_width + 2, 4)
                &&& info.item_type@ == payload@.subrange(4 + id_width + 2, 4 + id_width + 6)
            },
            Err(error) => payload@.len() < 12 && error.kind() == ErrorKind::NotEnoughData || payload@.len() >= 12
                && !(payload@[0] == 2 || payload@[0] == 3) && error.kind() == ErrorKind::Unsupported || payload@.len()
                >= 12 && (payload@[0] == 2 || payload@[0] == 3),
        },
{
    if payload.len() < 12 {
        return Err(DecoderError::NotEnoughData("infe payload is too short".to_string()));
    }
    let version = payload[0];
    let mut cursor: usize = 4;
    let item_id = if version == 2 {
        let value = read_u16(payload, cursor)? as u32;
        cursor = cursor + 2;
        value
    } else if version == 3 {
        let value = read_u32(payload, cursor)?;
        cursor = cursor + 4;
        value
    } else {
        return Err(DecoderError::Unsupported(version_message("infe version ", version)));
    };
    let _item_protection_index = read_u16(payload, cursor)?;
    cursor = cursor + 2;
    let item_type = read_fourcc(payload, cursor)?;
    cursor = cursor + 4;
    let item_name = read_c_string(payload, cursor)?;
    Ok(ItemInfo { item_id, item_type, item_name })
}

} // verus!

verus! {

/// The (item ID, item type) pairs of item information entries.
pub open spec fn infos_view(infos: Seq<ItemInfo>) -> Seq<(u32, Seq<u8>)> {
    Seq::new(infos.len(), |i: int| (infos[i].item_id, infos[i].item_type@))
}

/// The `infe` entries among `n` boxes of an `iinf` payload from `offset`, or `None`
/// when a box header or an `infe` entry does not parse. Other boxes are skipped.
pub open spec fn iinf_entries(p: Seq<u8>, offset: int, n: nat) -> Option<Seq<(u32, Seq<u8>)>>
    decreases n,
{
    if n == 0 {
        Some(Seq::empty())
    } else {
        match box_extent(p, offset, p.len() as int) {
            Err(_) => None,
            Ok((size, header_size)) => {
                let rest = iinf_entries(p, offset + size, (n - 1) as nat);
                if p.subrange(offset + 4, offset + 8) == code4(0x69, 0x6e, 0x66, 0x65) {
                    match (infe_outcome(p.subrange(offset + header_size, offset + size)), rest) {
                        (Some(entry), Some(others)) => Some(seq![entry] + others),
                        _ => None,
                    }
                } else {
                    rest
                }
            },
        }
    }
}

/// What an `iinf` payload holds: version 0 or 1, an entry count (16 or 32 bits)
/// that the bytes left can hold at 8 bytes each, then that many boxes.
pub open spec fn iinf_outcome(p: Seq<u8>) -> Option<Seq<(u32, Seq<u8>)>> {
    if p.len() < 6 || p[0] > 1 || (p[0] == 1 && !fits(p, 4, 4)) {
        None
    } else {
        let count = if p[0] == 0 { be_uint(p, 4, 2) } else { be_uint(p, 4, 4) };
        let start: int = if p[0] == 0 { 6 } else { 8 };
        if count * 8 > bytes_left(p, start) {
            None
        } else {
            iinf_entries(p, start, count as nat)
        }
    }
}

/// Parses `iinf`: a count, then that many boxes, of which the `infe` ones are kept.
pub fn parse_iinf(payload: &[u8]) -> (result: Result<Vec<ItemInfo>, DecoderError>)
    requires
        addressable(payload@.len() as int),
    ensures
        match result {
            Ok(infos) => payload@.len() >= 6 && payload@[0] <= 1,
            Err(error) => payload@.len() < 6 && error.kind() == ErrorKind::NotEnoughData || payload@.len() >= 6
                && payload@[0] > 1 && error.kind() == ErrorKind::Unsupported || payload@.len() >= 6 && payload@[0] <= 1,
        },
        match result {
            Ok(infos) => iinf_outcome(payload@) == Some(infos_view(infos@)),
            Err(_) => iinf_outcome(payload@) is None,
        },
{
    if payload.len() < 6 {
        return Err(DecoderError::NotEnoughData("iinf payload is too short".to_string()));
    }
    let version = payload[0];
    if version > 1 {
        return Err(DecoderError::Unsupported(version_message("iinf version ", version)));
    }
    let (entry_count, mut offset) = if version == 0 {
        (read_u16(payload, 4)? as usize, 6usize)
    } else {
        (read_u32(payload, 4)? as usize, 8usize)
    };
    let remaining = if payload.len() > offset { payload.len() - offset } else { 0 };
    validate_collection_count(entry_count, remaining, 8, "iinf entry")?;
    let ghost p = payload@;
    let ghost start = offset as int;
    assert(iinf_outcome(p) == iinf_entries(p, start, entry_count as nat));
    let mut infos: Vec<ItemInfo> = Vec::new();
    let mut entry: usize = 0;
    while entry < entry_count
        invariant
            addressable(payload@.len() as int),
            offset <= payload@.len() + 8,
            payload@.len() >= 6,
            payload@[0] <= 1,
            p == payload@,
            entry <= entry_count,
            iinf_outcome(p) == iinf_entries(p, start, entry_count as nat),
            match iinf_entries(p, offset as int, (entry_count - entry) as nat) {
                None => iinf_entries(p, start, entry_count as nat) is None,
                Some(rest) => iinf_entries(p, start, entry_count as nat) == Some(infos_view(infos@) + rest),
            },
        decreases entry_count - entry,
    {
        let ghost at = offset as int;
        let ghost before = infos_view(infos@);
        let header = match read_box_header(payload, offset, payload.len()) {
            Ok(header) => header,
            Err(error) => {
                assert(iinf_entries(p, at, (entry_count - entry) as nat) is None);
                return Err(error);
            },
        };
        let child_payload = box_payload(payload, header)?;
        let infe_code: [u8; 4] = fourcc_code(0x69, 0x6e, 0x66, 0x65);
        let ghost rest = iinf_entries(p, at + header.size, (entry_count - entry - 1) as nat);
        if fourcc_eq(&header.box_type, &infe_code) {
            let info = match parse_infe(child_payload) {
                Ok(info) => info,
                Err(error) => {
                    assert(iinf_entries(p, at, (entry_count - entry) as nat) is None);
                    return Err(error);
                },
            };
            infos.push(info);
            proof {
                assert(infos_view(infos@) =~= before.push((info.item_id, info.item_type@)));
                if let Some(others) = rest {
                    assert(before + (seq![(info.item_id, info.item_type@)] + others) =~= infos_view(infos@) + others);
                }
            }
        } else {
            proof {
                assert(infos_view(infos@) =~= before);
            }
        }
        offset = checked_add(header.offset, header.size, "iinf child box end")?;
        entry = entry + 1;
    }
    assert(infos_view(infos@) + Seq::empty() =~= infos_view(infos@));
    Ok(infos)
}

/// What `iloc` gives: the locations, each item's construction method and each
/// item's extent indexes.
pub type IlocTables = (Vec<ItemLocation>, Vec<(u32, u16)>, Vec<(u32, Vec<u64>)>);

/// The three `iloc` tables describe the same items in the same order.
pub open spec fn iloc_tables_aligned(
    locations: Seq<ItemLocation>,
    methods: Seq<(u32, u16)>,
    indexes: Seq<(u32, Vec<u64>)>,
) -> bool {
    &&& locations.len() == methods.len()
    &&& locations.len() == indexes.len()
    &&& forall|i: int|
        0 <= i < locations.len() ==> (#[trigger] methods[i]).0 == locations[i].item_id && methods[i].1 <= 2
            && indexes[i].0 == locations[i].item_id && indexes[i].1@.len() == locations[i].extents@.len()
}

/// A field of `size` bytes (0, 4 or 8) at `cursor`: 0 when the size is 0, `None`
/// when the bytes run past the end.
pub open spec fn sized_field(p: Seq<u8>, cursor: int, size: int) -> Option<int> {
    if size == 0 {
        Some(0)
    } else if fits(p, cursor, size) {
        Some(be_uint(p, cursor, size as nat))
    } else {
        None
    }
}

/// The bytes left after `cursor` (none when it is past the end).
pub open spec fn bytes_left(p: Seq<u8>, cursor: int) -> int {
    if p.len() > cursor {
        p.len() - cursor
    } else {
        0
    }
}

/// The extent at `cursor` of an item of construction method `method`, as (extent
/// index, offset, length), and where it ends; `None` when it runs past the end or,
/// for method 2, names extent index 0. Without index bytes the extent index is 1.
#[verifier::opaque]
pub open spec fn iloc_extent(
    p: Seq<u8>,
    offset_size: int,
    length_size: int,
    index_size: int,
    method: int,
    cursor: int,
) -> Option<((int, int, int), int)> {
    match sized_field(p, cursor, index_size) {
        None => None,
        Some(raw) => if method == 2 && index_size != 0 && raw == 0 {
            None
        } else {
            let index = if index_size == 0 { 1 } else { raw };
            let at = cursor + index_size;
            match (sized_field(p, at, offset_size), sized_field(p, at + offset_size, length_size)) {
                (Some(offset), Some(length)) => Some(((index, offset, length), at + offset_size + length_size)),
                _ => None,
            }
        },
    }
}

/// The `n` extents from `cursor` (see `iloc_extent`), and where they end.
pub open spec fn iloc_extents(
    p: Seq<u8>,
    offset_size: int,
    length_size: int,
    index_size: int,
    method: int,
    cursor: int,
    n: nat,
) -> Option<(Seq<(int, int, int)>, int)>
    decreases n,
{
    if n == 0 {
        Some((Seq::empty(), cursor))
    } else {
        match iloc_extent(p, offset_size, length_size, index_size, method, cursor) {
            None => None,
            Some((extent, next)) => match iloc_extents(
                p,
                offset_size,
                length_size,
                index_size,
                method,
                next,
                (n - 1) as nat,
            ) {
                None => None,
                Some((rest, end)) => Some((seq![extent] + rest, end)),
            },
        }
    }
}

/// `count` entries of `size` bytes each fit in `left` bytes.
#[verifier::opaque]
pub open spec fn entries_fit(count: int, size: int, left: int) -> bool {
    count * size <= left
}

/// The item ID at `cursor` (16 bits before version 2, else 32) and where it ends.
pub open spec fn iloc_item_id(p: Seq<u8>, version: int, cursor: int) -> Option<(int, int)> {
    let size: int = if version < 2 { 2 } else { 4 };
    if fits(p, cursor, size) {
        Some((be_uint(p, cursor, size as nat), cursor + size))
    } else {
        None
    }
}

/// The construction method at `cursor` (from version 1: the low four bits of 16,
/// at most 2; before, 0 and no bytes) and where it ends.
pub open spec fn iloc_item_method(p: Seq<u8>, version: int, cursor: int) -> Option<(int, int)> {
    if version == 1 || version == 2 {
        if !fits(p, cursor, 2) || be_uint(p, cursor, 2) % 16 > 2 {
            None
        } else {
            Some((be_uint(p, cursor, 2) % 16, cursor + 2))
        }
    } else {
        Some((0, cursor))
    }
}

/// The item ID, construction method and data reference of the item at `cursor`,
/// as (item ID, construction method, where they end); the data reference must be
/// 0 (the file itself).
pub open spec fn iloc_item_prefix(p: Seq<u8>, version: int, cursor: int) -> Option<(int, int, int)> {
    match iloc_item_id(p, version, cursor) {
        None => None,
        Some((id, after_id)) => match iloc_item_method(p, version, after_id) {
            None => None,
            Some((method, after_method)) => if !fits(p, after_method, 2) || be_uint(p, after_method, 2) != 0 {
                None
            } else {
                Some((id, method, after_method + 2))
            },
        },
    }
}

/// The fields before the extents of the item at `cursor` in an `iloc` box of
/// `version`, as (item ID, construction method, base offset, extent count, where
/// the extents start): its ID, construction method and data reference, base
/// offset and extent count, which the bytes left must be able to hold.
#[verifier::opaque]
pub open spec fn iloc_item_head(
    p: Seq<u8>,
    version: int,
    offset_size: int,
    length_size: int,
    base_offset_size: int,
    index_size: int,
    cursor: int,
) -> Option<(int, int, int, int, int)> {
    match iloc_item_prefix(p, version, cursor) {
        None => None,
        Some((id, method, after_reference)) => match sized_field(p, after_reference, base_offset_size) {
            None => None,
            Some(base) => {
                let at_count = after_reference + base_offset_size;
                let count = be_uint(p, at_count, 2);
                let extent_size = index_size + offset_size + length_size;
                if !fits(p, at_count, 2) || (extent_size > 0 && !entries_fit(count, extent_size, bytes_left(p, at_count + 2))) {
                    None
                } else {
                    Some((id, method, base, count, at_count + 2))
                }
            },
        },
    }
}

/// The item at `cursor` in an `iloc` box of `version` with the given field sizes,
/// and where it ends: its fields (see `iloc_item_head`) and its extents.
pub open spec fn iloc_item(
    p: Seq<u8>,
    version: int,
    offset_size: int,
    length_size: int,
    base_offset_size: int,
    index_size: int,
    cursor: int,
) -> Option<((int, int, int, Seq<(int, int, int)>), int)> {
    match iloc_item_head(p, version, offset_size, length_size, base_offset_size, index_size, cursor) {
        None => None,
        Some((id, method, base, count, start)) => match iloc_extents(
            p,
            offset_size,
            length_size,
            index_size,
            method,
            start,
            count as nat,
        ) {
            None => None,
            Some((extents, end)) => Some(((id, method, base, extents), end)),
        },
    }
}

/// The `n` items of an `iloc` box from `cursor`, and where they end.
pub open spec fn iloc_items(
    p: Seq<u8>,
    version: int,
    offset_size: int,
    length_size: int,
    base_offset_size: int,
    index_size: int,
    cursor: int,
    n: nat,
) -> Option<(Seq<(int, int, int, Seq<(int, int, int)>)>, int)>
    decreases n,
{
    if n == 0 {
        Some((Seq::empty(), cursor))
    } else {
        match iloc_item(p, version, offset_size, length_size, base_offset_size, index_size, cursor) {
            None => None,
            Some((item, next)) => match iloc_items(
                p,
                version,
                offset_size,
                length_size,
                base_offset_size,
                index_size,
                next,
                (n - 1) as nat,
            ) {
                None => None,
                Some((rest, end)) => Some((seq![item] + rest, end)),
            },
        }
    }
}

/// What an `iloc` payload holds: its items, or `None` when it does not parse.
/// After the version (at most 2) and flags come the offset and length sizes, the
/// base offset size and, from version 1, the index size (each 0, 4 or 8 bytes),
/// then the item count (16 bits before version 2, else 32), which the bytes left
/// must be able to hold, and the items.
#[verifier::opaque]
pub open spec fn iloc_spec(p: Seq<u8>) -> Option<Seq<(int, int, int, Seq<(int, int, int)>)>> {
    if p.len() < 8 || p[0] > 2 {
        None
    } else {
        let version = p[0] as int;
        let offset_size = (p[4] / 16) as int;
        let length_size = (p[4] % 16) as int;
        let base_offset_size = (p[5] / 16) as int;
        let index_size: int = if version == 1 || version == 2 { (p[5] % 16) as int } else { 0 };
        let count_size: int = if version < 2 { 2 } else { 4 };
        let start: int = if version < 2 { 8 } else { 10 };
        let id_size: int = if version < 2 { 2 } else { 4 };
        let method_size: int = if version == 1 || version == 2 { 2 } else { 0 };
        let count = be_uint(p, 6, count_size as nat);
        if !(offset_size == 0 || offset_size == 4 || offset_size == 8) || !(length_size == 0 || length_size == 4
            || length_size == 8) || !(base_offset_size == 0 || base_offset_size == 4 || base_offset_size == 8)
            || !(index_size == 0 || index_size == 4 || index_size == 8) || !fits(p, 6, count_size) || count * (
        id_size + method_size + 2 + base_offset_size + 2) > bytes_left(p, start) {
            None
        } else {
            match iloc_items(p, version, offset_size, length_size, base_offset_size, index_size, start, count as nat) {
                None => None,
                Some((items, end)) => Some(items),
            }
        }
    }
}

/// The items that parsed `iloc` tables hold, in the shape of `iloc_spec`.
pub open spec fn iloc_tables_view(
    locations: Seq<ItemLocation>,
    methods: Seq<(u32, u16)>,
    indexes: Seq<(u32, Vec<u64>)>,
) -> Seq<(int, int, int, Seq<(int, int, int)>)> {
    Seq::new(
        locations.len(),
        |i: int|
            (
                locations[i].item_id as int,
                methods[i].1 as int,
                locations[i].base_offset as int,
                extents_view(indexes[i].1@, locations[i].extents@),
            ),
    )
}

/// Extent indexes and extents, in the shape of `iloc_extents`.
pub open spec fn extents_view(indexes: Seq<u64>, extents: Seq<ItemExtent>) -> Seq<(int, int, int)> {
    Seq::new(extents.len(), |k: int| (indexes[k] as int, extents[k].offset as int, extents[k].length as int))
}

/// Parses `iloc` (versions 0 to 2): every item's location, construction method and
/// extent indexes.
/// Parses the `iloc` item at `cursor` (see `iloc_item`): its ID, construction
/// method, base offset, extents with their indexes, and where it ends.
/// Reads the item ID, construction method and data reference of the `iloc` item
/// at `cursor` (see `iloc_item_prefix`).
fn parse_iloc_item_prefix(payload: &[u8], cursor: usize, version: u8) -> (result: Result<(u32, u16, usize), DecoderError>)
    requires
        addressable(payload@.len() as int),
        cursor <= payload@.len() + 10,
        version <= 2,
    ensures
        match result {
            Ok((item_id, method, next)) => {
                &&& iloc_item_prefix(payload@, version as int, cursor as int) == Some((item_id as int, method as int, next as int))
                &&& method <= 2
                &&& next <= payload@.len()
            },
            Err(_) => iloc_item_prefix(payload@, version as int, cursor as int) is None,
        },
{
    let mut cursor = cursor;
    let item_id = if version < 2 {
        let value = read_u16(payload, cursor)? as u32;
        cursor = cursor + 2;
        value
    } else {
        let value = read_u32(payload, cursor)?;
        cursor = cursor + 4;
        value
    };
    let construction_method = if version == 1 || version == 2 {
        let construction_method = read_u16(payload, cursor)? % 16;
        cursor = cursor + 2;
        if construction_method > 2 {
            return Err(DecoderError::Unsupported(crate::text::concat(
                crate::text::concat(
                    "iloc construction_method ",
                    crate::text::decimal(construction_method as u64).as_str(),
                ).as_str(),
                " is not supported",
            )));
        }
        construction_method
    } else {
        0
    };
    let data_reference_index = read_u16(payload, cursor)?;
    cursor = cursor + 2;
    if data_reference_index != 0 {
        return Err(DecoderError::Unsupported("external AVIF item data references are not supported".to_string()));
    }
    Ok((item_id, construction_method, cursor))
}

/// Reads the fields of the `iloc` item at `cursor` that come before its extents
/// (see `iloc_item_head`).
fn parse_iloc_item_head(
    payload: &[u8],
    cursor: usize,
    version: u8,
    offset_size: u8,
    length_size: u8,
    base_offset_size: u8,
    index_size: u8,
) -> (result: Result<(u32, u16, u64, usize, usize), DecoderError>)
    requires
        addressable(payload@.len() as int),
        cursor <= payload@.len() + 10,
        version <= 2,
        index_size == 0 || index_size == 4 || index_size == 8,
        offset_size == 0 || offset_size == 4 || offset_size == 8,
        length_size == 0 || length_size == 4 || length_size == 8,
        base_offset_size == 0 || base_offset_size == 4 || base_offset_size == 8,
    ensures
        match result {
            Ok((item_id, method, base_offset, count, next)) => {
                &&& iloc_item_head(
                    payload@,
                    version as int,
                    offset_size as int,
                    length_size as int,
                    base_offset_size as int,
                    index_size as int,
                    cursor as int,
                ) == Some((item_id as int, method as int, base_offset as int, count as int, next as int))
                &&& method <= 2
                &&& next <= payload@.len()
            },
            Err(_) => iloc_item_head(
                payload@,
                version as int,
                offset_size as int,
                length_size as int,
                base_offset_size as int,
                index_size as int,
                cursor as int,
            ) is None,
        },
{
    proof {
        reveal(iloc_item_head);
    }
    let ghost p = payload@;
    let (item_id, construction_method, after_reference) = parse_iloc_item_prefix(payload, cursor, version)?;
    let mut cursor = after_reference;
    let base_offset = match read_sized_int(payload, &mut cursor, base_offset_size) {
        Ok(value) => value,
        Err(error) => {
            assert(sized_field(p, after_reference as int, base_offset_size as int) is None);
            return Err(error);
        },
    };
    assert(sized_field(p, after_reference as int, base_offset_size as int) == Some(base_offset as int));
    let at_count = cursor;
    let extent_count = match read_u16(payload, cursor) {
        Ok(value) => value as usize,
        Err(error) => {
            assert(!fits(p, at_count as int, 2));
            return Err(error);
        },
    };
    cursor = cursor + 2;
    let minimum_extent_size = index_size as usize + offset_size as usize + length_size as usize;
    let ghost head_sizes = index_size as int + offset_size as int + length_size as int;
    assert(minimum_extent_size == head_sizes);
    if minimum_extent_size > 0 {
        let remaining = if payload.len() > cursor { payload.len() - cursor } else { 0 };
        assert(remaining == bytes_left(p, cursor as int));
        let checked = validate_collection_count(extent_count, remaining, minimum_extent_size, "iloc extent");
        assert(checked is Ok <==> entries_fit(extent_count as int, minimum_extent_size as int, remaining as int)) by {
            reveal(entries_fit);
        }
        if let Err(error) = checked {
            assert(!entries_fit(be_uint(p, at_count as int, 2), head_sizes, bytes_left(p, at_count + 2)));
            return Err(error);
        }
    }
    Ok((item_id, construction_method, base_offset, extent_count, cursor))
}

/// Reads the `iloc` extent at `cursor` (see `iloc_extent`).
fn parse_iloc_extent(
    payload: &[u8],
    cursor: usize,
    version: u8,
    method: u16,
    offset_size: u8,
    length_size: u8,
    index_size: u8,
) -> (result: Result<(u64, u64, u64, usize), DecoderError>)
    requires
        addressable(payload@.len() as int),
        cursor <= payload@.len(),
        version <= 2,
        version == 0 ==> index_size == 0,
        index_size == 0 || index_size == 4 || index_size == 8,
        offset_size == 0 || offset_size == 4 || offset_size == 8,
        length_size == 0 || length_size == 4 || length_size == 8,
    ensures
        match result {
            Ok((index, offset, length, next)) => {
                &&& iloc_extent(payload@, offset_size as int, length_size as int, index_size as int, method as int, cursor as int)
                    == Some(((index as int, offset as int, length as int), next as int))
                &&& next <= payload@.len()
            },
            Err(_) => iloc_extent(
                payload@,
                offset_size as int,
                length_size as int,
                index_size as int,
                method as int,
                cursor as int,
            ) is None,
        },
{
    proof {
        reveal(iloc_extent);
    }
    let mut cursor = cursor;
    let extent_index = if version == 1 || version == 2 {
        let value = read_sized_int(payload, &mut cursor, index_size)?;
        if method == 2 && index_size != 0 && value == 0 {
            return Err(DecoderError::Bitstream("iloc item_offset extent index is zero".to_string()));
        }
        if index_size == 0 { 1 } else { value }
    } else {
        1
    };
    let offset = read_sized_int(payload, &mut cursor, offset_size)?;
    let length = read_sized_int(payload, &mut cursor, length_size)?;
    Ok((extent_index, offset, length, cursor))
}

/// Parses the `iloc` item at `cursor` (see `iloc_item`): its ID, construction
/// method, base offset, extents with their indexes, and where it ends.
fn parse_iloc_item(
    payload: &[u8],
    cursor: usize,
    version: u8,
    offset_size: u8,
    length_size: u8,
    base_offset_size: u8,
    index_size: u8,
) -> (result: Result<(u32, u16, u64, Vec<ItemExtent>, Vec<u64>, usize), DecoderError>)
    requires
        addressable(payload@.len() as int),
        cursor <= payload@.len() + 10,
        version <= 2,
        version == 0 ==> index_size == 0,
        index_size == 0 || index_size == 4 || index_size == 8,
        offset_size == 0 || offset_size == 4 || offset_size == 8,
        length_size == 0 || length_size == 4 || length_size == 8,
        base_offset_size == 0 || base_offset_size == 4 || base_offset_size == 8,
    ensures
        match result {
            Ok((item_id, method, base_offset, extents, indexes, next)) => {
                &&& iloc_item(
                    payload@,
                    version as int,
                    offset_size as int,
                    length_size as int,
                    base_offset_size as int,
                    index_size as int,
                    cursor as int,
                ) == Some(((item_id as int, method as int, base_offset as int, extents_view(indexes@, extents@)), next as int))
                &&& method <= 2
                &&& indexes@.len() == extents@.len()
                &&& next <= payload@.len()
            },
            Err(_) => iloc_item(
                payload@,
                version as int,
                offset_size as int,
                length_size as int,
                base_offset_size as int,
                index_size as int,
                cursor as int,
            ) is None,
        },
{
    let ghost p = payload@;
    let ghost item_start = cursor as int;
    let (item_id, construction_method, base_offset, extent_count, first) = parse_iloc_item_head(
        payload,
        cursor,
        version,
        offset_size,
        length_size,
        base_offset_size,
        index_size,
    )?;
    let ghost osz = offset_size as int;
    let ghost lsz = length_size as int;
    let ghost isz = index_size as int;
    let ghost method = construction_method as int;
    let mut at = first;
    let mut extents: Vec<ItemExtent> = Vec::new();
    let mut extent_indexes: Vec<u64> = Vec::new();
    let mut extent: usize = 0;
    while extent < extent_count
        invariant
            addressable(payload@.len() as int),
            at <= payload@.len(),
            item_start == cursor as int,
            version <= 2,
            version == 0 ==> index_size == 0,
            index_size == 0 || index_size == 4 || index_size == 8,
            offset_size == 0 || offset_size == 4 || offset_size == 8,
            length_size == 0 || length_size == 4 || length_size == 8,
            extents@.len() == extent_indexes@.len(),
            p == payload@,
            osz == offset_size as int,
            lsz == length_size as int,
            isz == index_size as int,
            method == construction_method as int,
            extent <= extent_count,
            iloc_item_head(p, version as int, osz, lsz, base_offset_size as int, isz, item_start) == Some(
                (item_id as int, method, base_offset as int, extent_count as int, first as int),
            ),
            match iloc_extents(p, osz, lsz, isz, method, at as int, (extent_count - extent) as nat) {
                None => iloc_extents(p, osz, lsz, isz, method, first as int, extent_count as nat) is None,
                Some((rest, end)) => iloc_extents(p, osz, lsz, isz, method, first as int, extent_count as nat) == Some(
                    (extents_view(extent_indexes@, extents@) + rest, end),
                ),
            },
        decreases extent_count - extent,
    {
        let ghost before_view = extents_view(extent_indexes@, extents@);
        let (extent_index, offset, length, next) = match parse_iloc_extent(
            payload,
            at,
            version,
            construction_method,
            offset_size,
            length_size,
            index_size,
        ) {
            Ok(read) => read,
            Err(error) => {
                assert(iloc_extents(p, osz, lsz, isz, method, at as int, (extent_count - extent) as nat) is None);
                assert(iloc_extents(p, osz, lsz, isz, method, first as int, extent_count as nat) is None);
                assert(iloc_item(p, version as int, osz, lsz, base_offset_size as int, isz, item_start) is None);
                return Err(error);
            },
        };
        at = next;
        extent_indexes.push(extent_index);
        extents.push(ItemExtent { offset, length });
        proof {
            let entry = (extent_index as int, offset as int, length as int);
            assert(extents_view(extent_indexes@, extents@) =~= before_view.push(entry));
            let after = iloc_extents(p, osz, lsz, isz, method, at as int, (extent_count - extent - 1) as nat);
            if let Some((rest, end)) = after {
                assert(before_view + (seq![entry] + rest) =~= before_view.push(entry) + rest);
            }
        }
        extent = extent + 1;
    }
    assert(extents_view(extent_indexes@, extents@) + Seq::empty() =~= extents_view(extent_indexes@, extents@));
    Ok((item_id, construction_method, base_offset, extents, extent_indexes, at))
}

#[verifier::rlimit(60)]
pub fn parse_iloc_with_indexes(payload: &[u8]) -> (result: Result<IlocTables, DecoderError>)
    requires
        addressable(payload@.len() as int),
    ensures
        match result {
            Ok(tables) => payload@.len() >= 8 && payload@[0] <= 2 && iloc_tables_aligned(
                tables.0@,
                tables.1@,
                tables.2@,
            ),
            Err(error) => payload@.len() < 8 && error.kind() == ErrorKind::NotEnoughData || payload@.len() >= 8
                && payload@[0] > 2 && error.kind() == ErrorKind::Unsupported || payload@.len() >= 8 && payload@[0] <= 2,
        },
        match result {
            Ok(tables) => iloc_spec(payload@) == Some(iloc_tables_view(tables.0@, tables.1@, tables.2@)),
            Err(_) => iloc_spec(payload@) is None,
        },
{
    proof {
        reveal(iloc_spec);
    }
    if payload.len() < 8 {
        return Err(DecoderError::NotEnoughData("iloc payload is too short".to_string()));
    }
    let version = payload[0];
    if version > 2 {
        return Err(DecoderError::Unsupported(version_message("iloc version ", version)));
    }
    let size_byte = payload[4];
    let offset_size = size_byte / 16;
    let length_size = size_byte % 16;
    let base_byte = payload[5];
    let base_offset_size = base_byte / 16;
    let index_size = if version == 1 || version == 2 { base_byte % 16 } else { 0 };
    validate_field_size(offset_size, "iloc offset_size")?;
    validate_field_size(length_size, "iloc length_size")?;
    validate_field_size(base_offset_size, "iloc base_offset_size")?;
    validate_field_size(index_size, "iloc index_size")?;
    let (item_count, mut cursor) = if version < 2 {
        (read_u16(payload, 6)? as usize, 8usize)
    } else {
        (read_u32(payload, 6)? as usize, 10usize)
    };
    let item_id_size: usize = if version < 2 { 2 } else { 4 };
    let construction_method_size: usize = if version == 1 || version == 2 { 2 } else { 0 };
    let minimum_item_size = item_id_size + construction_method_size + 2 + base_offset_size as usize + 2;
    let remaining = if payload.len() > cursor { payload.len() - cursor } else { 0 };
    validate_collection_count(item_count, remaining, minimum_item_size, "iloc item")?;
    let ghost p = payload@;
    let ghost v = version as int;
    let ghost osz = offset_size as int;
    let ghost lsz = length_size as int;
    let ghost bsz = base_offset_size as int;
    let ghost isz = index_size as int;
    let ghost start = cursor as int;
    assert(iloc_spec(p) == match iloc_items(p, v, osz, lsz, bsz, isz, start, item_count as nat) {
        None => None,
        Some((items, end)) => Some(items),
    }) by {
        reveal(iloc_spec);
    }
    let mut locations: Vec<ItemLocation> = Vec::new();
    let mut construction_methods: Vec<(u32, u16)> = Vec::new();
    let mut all_extent_indexes: Vec<(u32, Vec<u64>)> = Vec::new();
    let mut item: usize = 0;
    while item < item_count
        invariant
            addressable(payload@.len() as int),
            cursor <= payload@.len() + 10,
            payload@.len() >= 8,
            payload@[0] == version,
            version <= 2,
            index_size == 0 || index_size == 4 || index_size == 8,
            offset_size == 0 || offset_size == 4 || offset_size == 8,
            length_size == 0 || length_size == 4 || length_size == 8,
            base_offset_size == 0 || base_offset_size == 4 || base_offset_size == 8,
            iloc_tables_aligned(locations@, construction_methods@, all_extent_indexes@),
            p == payload@,
            v == version as int,
            osz == offset_size as int,
            lsz == length_size as int,
            bsz == base_offset_size as int,
            isz == index_size as int,
            version == 0 ==> index_size == 0,
            item <= item_count,
            iloc_spec(p) == match iloc_items(p, v, osz, lsz, bsz, isz, start, item_count as nat) {
                None => None,
                Some((items, end)) => Some(items),
            },
            match iloc_items(p, v, osz, lsz, bsz, isz, cursor as int, (item_count - item) as nat) {
                None => iloc_items(p, v, osz, lsz, bsz, isz, start, item_count as nat) is None,
                Some((rest, end)) => iloc_items(p, v, osz, lsz, bsz, isz, start, item_count as nat) == Some(
                    (iloc_tables_view(locations@, construction_methods@, all_extent_indexes@) + rest, end),
                ),
            },
        decreases item_count - item,
    {
        let ghost left = (item_count - item) as nat;
        let ghost item_start = cursor as int;
        let (item_id, construction_method, base_offset, extents, extent_indexes, next) = parse_iloc_item(
            payload,
            cursor,
            version,
            offset_size,
            length_size,
            base_offset_size,
            index_size,
        )?;
        let ghost entry = (item_id as int, construction_method as int, base_offset as int, extents_view(extent_indexes@, extents@));
        let ghost before_view = iloc_tables_view(locations@, construction_methods@, all_extent_indexes@);
        cursor = next;
        construction_methods.push((item_id, construction_method));
        locations.push(ItemLocation { item_id, base_offset, extents });
        all_extent_indexes.push((item_id, extent_indexes));
        proof {
            assert(iloc_tables_view(locations@, construction_methods@, all_extent_indexes@) =~= before_view.push(entry));
            let after = iloc_items(p, v, osz, lsz, bsz, isz, cursor as int, (left - 1) as nat);
            if let Some((rest, end)) = after {
                assert(before_view + (seq![entry] + rest) =~= before_view.push(entry) + rest);
            }
        }
        item = item + 1;
    }
    assert(iloc_tables_view(locations@, construction_methods@, all_extent_indexes@) + Seq::empty() =~= iloc_tables_view(
        locations@,
        construction_methods@,
        all_extent_indexes@,
    ));
    Ok((locations, construction_methods, all_extent_indexes))
}

/// The locations hold the items' IDs, base offsets and extents' offsets and
/// lengths, in order.
pub open spec fn locations_match(locations: Seq<ItemLocation>, items: Seq<(int, int, int, Seq<(int, int, int)>)>) -> bool {
    &&& locations.len() == items.len()
    &&& forall|i: int|
        0 <= i < items.len() ==> {
            let location = #[trigger] locations[i];
            &&& location.item_id == items[i].0
            &&& location.base_offset == items[i].2
            &&& location.extents@.len() == items[i].3.len()
            &&& forall|k: int|
                0 <= k < items[i].3.len() ==> (#[trigger] location.extents@[k]).offset == items[i].3[k].1
                    && location.extents@[k].length == items[i].3[k].2
        }
}

/// The construction methods hold the items' IDs and methods, in order.
pub open spec fn methods_match(methods: Seq<(u32, u16)>, items: Seq<(int, int, int, Seq<(int, int, int)>)>) -> bool {
    &&& methods.len() == items.len()
    &&& forall|i: int| 0 <= i < items.len() ==> (#[trigger] methods[i]).0 == items[i].0 && methods[i].1 == items[i].1
}

/// The locations of `iloc`.
pub fn parse_iloc(payload: &[u8]) -> (result: Result<Vec<ItemLocation>, DecoderError>)
    requires
        addressable(payload@.len() as int),
    ensures
        result is Ok ==> payload@.len() >= 8 && payload@[0] <= 2,
        match result {
            Ok(locations) => iloc_spec(payload@) is Some && locations_match(locations@, iloc_spec(payload@)->0),
            Err(_) => iloc_spec(payload@) is None,
        },
{
    match parse_iloc_with_indexes(payload) {
        Ok((locations, methods, indexes)) => {
            proof {
                lemma_iloc_tables_match(locations@, methods@, indexes@);
            }
            Ok(locations)
        },
        Err(error) => Err(error),
    }
}

/// The locations and construction methods of `iloc`.
pub fn parse_iloc_with_methods(payload: &[u8]) -> (result: Result<(Vec<ItemLocation>, Vec<(u32, u16)>), DecoderError>)
    requires
        addressable(payload@.len() as int),
    ensures
        result is Ok ==> payload@.len() >= 8 && payload@[0] <= 2 && result->Ok_0.0@.len() == result->Ok_0.1@.len(),
        match result {
            Ok((locations, methods)) => iloc_spec(payload@) is Some && locations_match(locations@, iloc_spec(payload@)->0)
                && methods_match(methods@, iloc_spec(payload@)->0),
            Err(_) => iloc_spec(payload@) is None,
        },
{
    match parse_iloc_with_indexes(payload) {
        Ok((locations, methods, indexes)) => {
            proof {
                lemma_iloc_tables_match(locations@, methods@, indexes@);
            }
            Ok((locations, methods))
        },
        Err(error) => Err(error),
    }
}

/// Aligned tables match the items they are seen as.
proof fn lemma_iloc_tables_match(locations: Seq<ItemLocation>, methods: Seq<(u32, u16)>, indexes: Seq<(u32, Vec<u64>)>)
    requires
        iloc_tables_aligned(locations, methods, indexes),
    ensures
        locations_match(locations, iloc_tables_view(locations, methods, indexes)),
        methods_match(methods, iloc_tables_view(locations, methods, indexes)),
{
}

} // verus!

verus! {

/// The (from item, target items) of an `iref` child box payload: the from item ID
/// (32 bits when `large`, else 16), a 16-bit count, then that many item IDs.
pub open spec fn iref_child(c: Seq<u8>, large: bool) -> Option<(u32, Seq<u32>)> {
    let width: int = if large { 4 } else { 2 };
    let count = be_uint(c, width, 2);
    if !fits(c, 0, width) || !fits(c, width, 2) || !fits(c, width + 2, count * width) {
        None
    } else {
        Some((be_uint(c, 0, width as nat) as u32, Seq::new(count as nat, |k: int| be_uint(c, width + 2 + k * width, width as nat) as u32)))
    }
}

/// The references of the child boxes of an `iref` payload from `offset` to its end,
/// as (reference type, from item, target items), or `None` when one does not parse.
pub open spec fn iref_boxes(p: Seq<u8>, offset: int, large: bool) -> Option<Seq<(Seq<u8>, u32, Seq<u32>)>>
    decreases p.len() - offset,
{
    if offset >= p.len() || offset < 0 {
        Some(Seq::empty())
    } else {
        match box_extent(p, offset, p.len() as int) {
            Err(_) => None,
            Ok((size, header_size)) => if size < 8 {
                None
            } else {
                match iref_child(p.subrange(offset + header_size, offset + size), large) {
                    None => None,
                    Some((from, targets)) => match iref_boxes(p, offset + size, large) {
                        None => None,
                        Some(rest) => Some(seq![(p.subrange(offset + 4, offset + 8), from, targets)] + rest),
                    },
                }
            },
        }
    }
}

/// What an `iref` payload holds: version 0 (16-bit item IDs) or 1 (32-bit), then
/// its reference boxes.
pub open spec fn iref_outcome(p: Seq<u8>) -> Option<Seq<(Seq<u8>, u32, Seq<u32>)>> {
    if p.len() < 4 || p[0] > 1 {
        None
    } else {
        iref_boxes(p, 4, p[0] == 1)
    }
}

/// The (type, from item, target items) of references.
pub open spec fn references_view(references: Seq<ItemReference>) -> Seq<(Seq<u8>, u32, Seq<u32>)> {
    Seq::new(
        references.len(),
        |i: int| (references[i].reference_type@, references[i].from_item_id, references[i].to_item_ids@),
    )
}

/// Reads one `iref` child box payload (see `iref_child`).
fn parse_iref_child(child: &[u8], large_ids: bool) -> (result: Result<(u32, Vec<u32>), DecoderError>)
    requires
        addressable(child@.len() as int),
    ensures
        match result {
            Ok((from, targets)) => iref_child(child@, large_ids) == Some((from, targets@)),
            Err(_) => iref_child(child@, large_ids) is None,
        },
{
    let ghost c = child@;
    let ghost width: int = if large_ids { 4 } else { 2 };
    let mut cursor: usize = 0;
    let from_item_id = read_item_id(child, &mut cursor, large_ids)?;
    let reference_count = read_u16(child, cursor)? as usize;
    cursor = cursor + 2;
    let ghost start = cursor as int;
    let mut to_item_ids: Vec<u32> = Vec::new();
    let mut index: usize = 0;
    while index < reference_count
        invariant
            addressable(child@.len() as int),
            c == child@,
            width == (if large_ids { 4int } else { 2int }),
            start == width + 2,
            reference_count == be_uint(c, width, 2),
            fits(c, 0, width),
            fits(c, width, 2),
            index <= reference_count,
            cursor == start + index * width,
            cursor <= child@.len(),
            to_item_ids@.len() == index,
            forall|k: int| 0 <= k < index ==> #[trigger] to_item_ids@[k] == be_uint(c, start + k * width, width as nat) as u32,
        decreases reference_count - index,
    {
        let value = match read_item_id(child, &mut cursor, large_ids) {
            Ok(value) => value,
            Err(error) => {
                proof {
                    assert(start + index * width + width <= start + reference_count * width) by (nonlinear_arith)
                        requires
                            index < reference_count,
                            width > 0,
                    ;
                }
                return Err(error);
            },
        };
        to_item_ids.push(value);
        proof {
            assert(cursor == start + (index + 1) * width) by (nonlinear_arith)
                requires
                    cursor == start + index * width + width,
            ;
        }
        index = index + 1;
    }
    proof {
        assert(to_item_ids@ =~= Seq::new(reference_count as nat, |k: int| be_uint(c, width + 2 + k * width, width as nat) as u32));
    }
    Ok((from_item_id, to_item_ids))
}

/// Parses `iref`: one reference box per (type, from item), each listing target items.
/// Version 1 uses 32-bit item IDs.
pub fn parse_iref(payload: &[u8]) -> (result: Result<Vec<ItemReference>, DecoderError>)
    requires
        addressable(payload@.len() as int),
    ensures
        match result {
            Ok(references) => payload@.len() >= 4 && payload@[0] <= 1,
            Err(error) => payload@.len() < 4 && error.kind() == ErrorKind::NotEnoughData || payload@.len() >= 4
                && payload@[0] > 1 && error.kind() == ErrorKind::Unsupported || payload@.len() >= 4 && payload@[0] <= 1,
        },
        match result {
            Ok(references) => iref_outcome(payload@) == Some(references_view(references@)),
            Err(_) => iref_outcome(payload@) is None,
        },
{
    if payload.len() < 4 {
        return Err(DecoderError::NotEnoughData("iref full-box header is missing".to_string()));
    }
    let version = payload[0];
    if version > 1 {
        return Err(DecoderError::Unsupported(version_message("iref version ", version)));
    }
    let large_ids = version == 1;
    let ghost p = payload@;
    let mut references: Vec<ItemReference> = Vec::new();
    let mut offset: usize = 4;
    while offset < payload.len()
        invariant
            addressable(payload@.len() as int),
            offset <= payload@.len(),
            payload@.len() >= 4,
            payload@[0] <= 1,
            p == payload@,
            large_ids == (p[0] == 1),
            match iref_boxes(p, offset as int, large_ids) {
                None => iref_boxes(p, 4, large_ids) is None,
                Some(rest) => iref_boxes(p, 4, large_ids) == Some(references_view(references@) + rest),
            },
        decreases payload@.len() - offset,
    {
        let ghost at = offset as int;
        let ghost before = references_view(references@);
        let header = match read_box_header(payload, offset, payload.len()) {
            Ok(header) => header,
            Err(error) => {
                assert(iref_boxes(p, at, large_ids) is None);
                return Err(error);
            },
        };
        let child_payload = box_payload(payload, header)?;
        let (from_item_id, to_item_ids) = match parse_iref_child(child_payload, large_ids) {
            Ok(read) => read,
            Err(error) => {
                assert(iref_boxes(p, at, large_ids) is None);
                return Err(error);
            },
        };
        let ghost entry = (header.box_type@, from_item_id, to_item_ids@);
        references.push(ItemReference { reference_type: header.box_type, from_item_id, to_item_ids });
        proof {
            assert(references_view(references@) =~= before.push(entry));
            if let Some(others) = iref_boxes(p, at + header.size, large_ids) {
                assert(before + (seq![entry] + others) =~= references_view(references@) + others);
            }
        }
        offset = checked_add(header.offset, header.size, "iref child box end")?;
    }
    assert(references_view(references@) + Seq::empty() =~= references_view(references@));
    Ok(references)
}

/// Every association index has the essential flag removed (7 or 15 bits).
pub open spec fn association_indices_in_range(entries: Seq<ItemPropertyAssociation>) -> bool {
    forall|i: int, j: int|
        0 <= i < entries.len() && 0 <= j < entries[i].associations@.len() ==> (#[trigger] entries[i].associations@[j]).index
            < 0x8000
}

/// Where the `ipma` entry at `cursor` ends, when its item ID (`id_size` bytes), its
/// association count and its associations (two bytes each when `wide`, else one)
/// fit in `p`.
pub open spec fn ipma_entry_end(p: Seq<u8>, cursor: int, id_size: int, wide: bool) -> Option<int> {
    if !fits(p, cursor, id_size + 1) {
        None
    } else {
        let count = p[cursor + id_size] as int;
        let start = cursor + id_size + 1;
        let size = if wide { 2 * count } else { count };
        if size > p.len() - start {
            None
        } else {
            Some(start + size)
        }
    }
}

/// The item IDs of `n` `ipma` entries from `cursor`, when they all fit.
pub open spec fn ipma_entry_ids(p: Seq<u8>, cursor: int, n: nat, id_size: int, wide: bool) -> Option<Seq<int>>
    decreases n,
{
    if n == 0 {
        Some(Seq::empty())
    } else {
        match ipma_entry_end(p, cursor, id_size, wide) {
            None => None,
            Some(next) => match ipma_entry_ids(p, next, (n - 1) as nat, id_size, wide) {
                Some(rest) => Some(seq![be_uint(p, cursor, id_size as nat)] + rest),
                None => None,
            },
        }
    }
}

/// The item IDs that an `ipma` payload lists, in order, when it parses.
pub open spec fn ipma_item_ids(p: Seq<u8>) -> Option<Seq<int>> {
    if p.len() < 8 || p[0] > 1 {
        None
    } else {
        let n = be_uint(p, 4, 4);
        let id_size: int = if p[0] == 1 { 4 } else { 2 };
        let table = if p[0] == 1 { 5 * n } else { 3 * n };
        if table > p.len() - 8 {
            None
        } else {
            ipma_entry_ids(p, 8, n as nat, id_size, be_uint(p, 1, 3) % 2 != 0)
        }
    }
}

/// `prefix`, then what `rest` holds; nothing when `rest` holds nothing.
pub open spec fn ids_after(prefix: Seq<int>, rest: Option<Seq<int>>) -> Option<Seq<int>> {
    match rest {
        Some(tail) => Some(prefix + tail),
        None => None,
    }
}

/// The item IDs of association entries.
pub open spec fn entry_ids(entries: Seq<ItemPropertyAssociation>) -> Seq<int> {
    Seq::new(entries.len(), |i: int| entries[i].item_id as int)
}

/// Parses `ipma`: for each item, its property indexes and essential flags.
pub fn parse_ipma(payload: &[u8]) -> (result: Result<Vec<ItemPropertyAssociation>, DecoderError>)
    requires
        addressable(payload@.len() as int),
    ensures
        match result {
            Ok(entries) => payload@.len() >= 8 && payload@[0] <= 1 && entries@.len() == be_uint(payload@, 4, 4)
                && association_indices_in_range(entries@),
            Err(error) => payload@.len() < 8 && error.kind() == ErrorKind::NotEnoughData || payload@.len() >= 8
                && payload@[0] > 1 && error.kind() == ErrorKind::Unsupported || payload@.len() >= 8 && payload@[0] <= 1,
        },
        match result {
            Ok(entries) => ipma_item_ids(payload@) == Some(entry_ids(entries@)),
            Err(_) => ipma_item_ids(payload@) is None,
        },
{
    if payload.len() < 8 {
        return Err(DecoderError::NotEnoughData("ipma payload is too short".to_string()));
    }
    let version = payload[0];
    if version > 1 {
        return Err(DecoderError::Unsupported(version_message("ipma version ", version)));
    }
    let flags = read_u24(payload, 1)?;
    let large_property_index = flags % 2 != 0;
    let entry_count = read_u32(payload, 4)? as usize;
    let mut cursor: usize = 8;
    let item_id_size: usize = if version == 1 { 4 } else { 2 };
    let ghost p = payload@;
    let ghost n = be_uint(p, 4, 4);
    let ghost id_size = item_id_size as int;
    assert(entry_count * (item_id_size + 1) == if version == 1 { 5 * n } else { 3 * n }) by (nonlinear_arith)
        requires
            entry_count == n,
            item_id_size == if version == 1 { 4usize } else { 2usize },
    ;
    validate_collection_count(entry_count, payload.len() - cursor, item_id_size + 1, "ipma entry")?;
    let mut item_associations: Vec<ItemPropertyAssociation> = Vec::new();
    let mut entry: usize = 0;
    while entry < entry_count
        invariant
            addressable(payload@.len() as int),
            p == payload@,
            8 <= cursor <= payload@.len(),
            payload@.len() >= 8,
            payload@[0] == version,
            version <= 1,
            entry_count == be_uint(payload@, 4, 4),
            n == entry_count,
            id_size == item_id_size,
            item_id_size == if version == 1 { 4usize } else { 2usize },
            large_property_index == (be_uint(p, 1, 3) % 2 != 0),
            (if version == 1 { 5 * n } else { 3 * n }) <= p.len() - 8,
            entry <= entry_count,
            item_associations@.len() == entry,
            association_indices_in_range(item_associations@),
            ipma_item_ids(p) == ids_after(
                entry_ids(item_associations@),
                ipma_entry_ids(p, cursor as int, (entry_count - entry) as nat, id_size, large_property_index),
            ),
        decreases entry_count - entry,
    {
        let ghost at = cursor as int;
        let ghost left = (entry_count - entry) as nat;
        let ghost before = entry_ids(item_associations@);
        let item_id = read_item_id(payload, &mut cursor, version == 1)?;
        let association_count = read_u8(payload, cursor)? as usize;
        cursor = cursor + 1;
        let ghost start = cursor as int;
        assert(association_count == p[at + id_size]);
        validate_collection_count(
            association_count,
            payload.len() - cursor,
            if large_property_index { 2 } else { 1 },
            "ipma association",
        )?;
        let ghost size: int = if large_property_index { 2 * association_count } else { association_count as int };
        assert(association_count * (if large_property_index { 2usize } else { 1usize }) == size) by (nonlinear_arith)
            requires
                size == if large_property_index { 2 * association_count } else { association_count as int },
        ;
        assert(ipma_entry_end(p, at, id_size, large_property_index) == Some(start + size));
        let mut property_associations: Vec<PropertyAssociation> = Vec::new();
        let mut index: usize = 0;
        while index < association_count
            invariant
                addressable(payload@.len() as int),
                cursor <= payload@.len(),
                payload@.len() >= 8,
                payload@[0] <= 1,
                index <= association_count,
                start + size <= payload@.len(),
                size == if large_property_index { 2 * association_count } else { association_count as int },
                cursor == start + if large_property_index { 2 * index } else { index as int },
                forall|j: int| 0 <= j < property_associations@.len() ==> (#[trigger] property_associations@[j]).index < 0x8000,
            decreases association_count - index,
        {
            let association = if large_property_index {
                let value = read_u16(payload, cursor)?;
                cursor = cursor + 2;
                PropertyAssociation { index: value % 0x8000, essential: value >= 0x8000 }
            } else {
                let value = read_u8(payload, cursor)?;
                cursor = cursor + 1;
                PropertyAssociation { index: (value % 0x80) as u16, essential: value >= 0x80 }
            };
            property_associations.push(association);
            index = index + 1;
        }
        item_associations.push(ItemPropertyAssociation { item_id, associations: property_associations });
        entry = entry + 1;
        proof {
            assert(cursor == start + size);
            assert(entry_ids(item_associations@) =~= before.push(item_id as int));
            assert(item_id as int == be_uint(p, at, id_size as nat));
            match ipma_entry_ids(p, cursor as int, (entry_count - entry) as nat, id_size, large_property_index) {
                Some(rest) => {
                    assert(before + (seq![item_id as int] + rest) =~= before.push(item_id as int) + rest);
                },
                None => {},
            }
        }
    }
    proof {
        assert(entry_ids(item_associations@) + Seq::<int>::empty() =~= entry_ids(item_associations@));
    }
    Ok(item_associations)
}

} // verus!

verus! {

/// The associations listed for item `id`, across all entries in order.
pub open spec fn associations_of(entries: Seq<ItemPropertyAssociation>, id: u32) -> Seq<PropertyAssociation>
    decreases entries.len(),
{
    if entries.len() == 0 {
        Seq::empty()
    } else {
        associations_of(entries.drop_last(), id) + (if entries.last().item_id == id {
            entries.last().associations@
        } else {
            Seq::empty()
        })
    }
}

/// No two entries are for the same item.
pub open spec fn item_ids_unique(entries: Seq<ItemPropertyAssociation>) -> bool {
    forall|i: int, j: int| 0 <= i < j < entries.len() ==> entries[i].item_id != entries[j].item_id
}

/// No item lists the same property index twice.
pub open spec fn association_indices_distinct(entries: Seq<ItemPropertyAssociation>) -> bool {
    forall|i: int, j: int, k: int|
        0 <= i < entries.len() && 0 <= j < k < entries[i].associations@.len() ==> (#[trigger] entries[i].associations@[j]).index
            != (#[trigger] entries[i].associations@[k]).index
}

proof fn lemma_associations_of_absent(entries: Seq<ItemPropertyAssociation>, id: u32)
    requires
        forall|i: int| 0 <= i < entries.len() ==> entries[i].item_id != id,
    ensures
        associations_of(entries, id) == Seq::<PropertyAssociation>::empty(),
    decreases entries.len(),
{
    if entries.len() > 0 {
        lemma_associations_of_absent(entries.drop_last(), id);
        assert(associations_of(entries, id) =~= Seq::<PropertyAssociation>::empty());
    }
}

proof fn lemma_associations_of_unique(entries: Seq<ItemPropertyAssociation>, pos: int)
    requires
        item_ids_unique(entries),
        0 <= pos < entries.len(),
    ensures
        associations_of(entries, entries[pos].item_id) == entries[pos].associations@,
    decreases entries.len(),
{
    let id = entries[pos].item_id;
    if pos == entries.len() - 1 {
        lemma_associations_of_absent(entries.drop_last(), id);
        assert(associations_of(entries, id) =~= entries[pos].associations@);
    } else {
        lemma_associations_of_unique(entries.drop_last(), pos);
        assert(associations_of(entries, id) =~= entries[pos].associations@);
    }
}

proof fn lemma_associations_of_update(entries: Seq<ItemPropertyAssociation>, pos: int, entry: ItemPropertyAssociation, id: u32)
    requires
        0 <= pos < entries.len(),
        entries[pos].item_id == entry.item_id,
        id != entry.item_id,
    ensures
        associations_of(entries.update(pos, entry), id) == associations_of(entries, id),
    decreases entries.len(),
{
    let updated = entries.update(pos, entry);
    if pos == entries.len() - 1 {
        assert(updated.drop_last() =~= entries.drop_last());
    } else {
        lemma_associations_of_update(entries.drop_last(), pos, entry, id);
        assert(updated.drop_last() =~= entries.drop_last().update(pos, entry));
    }
}

/// Whether any association in `associations` has `index`.
fn has_index(associations: &Vec<PropertyAssociation>, index: u16) -> (found: bool)
    ensures
        found == exists|k: int| 0 <= k < associations@.len() && (#[trigger] associations@[k]).index == index,
{
    let mut k: usize = 0;
    while k < associations.len()
        invariant
            k <= associations@.len(),
            forall|j: int| 0 <= j < k ==> (#[trigger] associations@[j]).index != index,
        decreases associations@.len() - k,
    {
        if associations[k].index == index {
            return true;
        }
        k = k + 1;
    }
    false
}

/// Merges a further `ipma` box into the associations gathered so far: an item seen
/// before gets the new associations appended (a repeated property index is an
/// error), a new item is added at the end.
pub fn merge_ipma(target: &mut Vec<ItemPropertyAssociation>, incoming: Vec<ItemPropertyAssociation>) -> (result: Result<(), DecoderError>)
    requires
        item_ids_unique(old(target)@),
    ensures
        item_ids_unique(final(target)@),
        result is Ok ==> forall|id: u32|
            #[trigger] associations_of(final(target)@, id) == associations_of(old(target)@, id) + associations_of(
                incoming@,
                id,
            ),
        result is Err ==> result->Err_0.kind() == ErrorKind::Bitstream,
        old(target)@.len() == 0 && item_ids_unique(incoming@) ==> result is Ok,
{
    let ghost original = target@;
    let ghost fresh = original.len() == 0 && item_ids_unique(incoming@);
    let mut position: usize = 0;
    while position < incoming.len()
        invariant
            position <= incoming@.len(),
            item_ids_unique(target@),
            forall|id: u32|
                #[trigger] associations_of(target@, id) == associations_of(original, id) + associations_of(
                    incoming@.take(position as int),
                    id,
                ),
            fresh == (original.len() == 0 && item_ids_unique(incoming@)),
            original == old(target)@,
            fresh ==> target@.len() == position && forall|j: int| 0 <= j < position ==> (#[trigger] target@[j]).item_id
                == incoming@[j].item_id,
        decreases incoming@.len() - position,
    {
        let item_id = incoming[position].item_id;
        let ghost incoming_item = incoming@[position as int];
        let ghost taken = incoming@.take(position as int);
        let ghost next = incoming@.take(position + 1);
        assert(next.drop_last() =~= taken);
        assert(next.last() == incoming_item);
        let mut found: usize = 0;
        while found < target.len() && target[found].item_id != item_id
            invariant
                found <= target@.len(),
                forall|j: int| 0 <= j < found ==> target@[j].item_id != item_id,
            decreases target@.len() - found,
        {
            found = found + 1;
        }
        let ghost before = target@;
        proof {
            if fresh && found < target@.len() {
                assert(target@[found as int].item_id == incoming@[found as int].item_id);
                assert(false);
            }
        }
        if found == target.len() {
            let mut associations: Vec<PropertyAssociation> = Vec::new();
            let mut a: usize = 0;
            while a < incoming[position].associations.len()
                invariant
                    position < incoming@.len(),
                    incoming_item == incoming@[position as int],
                    a <= incoming_item.associations@.len(),
                    target@ == before,
                    associations@ == incoming_item.associations@.take(a as int),
                decreases incoming_item.associations@.len() - a,
            {
                associations.push(incoming[position].associations[a]);
                a = a + 1;
                assert(associations@ =~= incoming_item.associations@.take(a as int));
            }
            assert(associations@ =~= incoming_item.associations@);
            target.push(ItemPropertyAssociation { item_id, associations });
            proof {
                if fresh {
                    assert forall|j: int| 0 <= j < position + 1 implies (#[trigger] target@[j]).item_id == incoming@[j].item_id by {
                        if j < position {
                            assert(target@[j] == before[j]);
                        }
                    }
                }
                assert(target@.drop_last() =~= before);
                assert forall|id: u32|
                    #[trigger] associations_of(target@, id) == associations_of(original, id) + associations_of(next, id) by {
                    assert(associations_of(before, id) == associations_of(original, id) + associations_of(taken, id));
                    assert(target@.last().associations@ == incoming_item.associations@);
                    assert(associations_of(target@, id) == associations_of(before, id) + (if item_id == id {
                        incoming_item.associations@
                    } else {
                        Seq::empty()
                    }));
                    assert(associations_of(next, id) == associations_of(taken, id) + (if item_id == id {
                        incoming_item.associations@
                    } else {
                        Seq::empty()
                    }));
                    assert(associations_of(original, id) + associations_of(taken, id) + (if item_id == id {
                        incoming_item.associations@
                    } else {
                        Seq::empty()
                    }) =~= associations_of(original, id) + associations_of(next, id));
                }
            }
        } else {
            let mut entry = target.remove(found);
            assert(entry == before[found as int]);
            let ghost old_associations = entry.associations@;
            let mut a: usize = 0;
            while a < incoming[position].associations.len()
                invariant
                    position < incoming@.len(),
                    incoming_item == incoming@[position as int],
                    a <= incoming_item.associations@.len(),
                    found < before.len(),
                    target@ == before.remove(found as int),
                    item_ids_unique(before),
                    before[found as int].item_id == item_id,
                    entry.item_id == item_id,
                    entry.associations@ == old_associations + incoming_item.associations@.take(a as int),
                    !fresh,
                    fresh == (original.len() == 0 && item_ids_unique(incoming@)),
                    original == old(target)@,
                decreases incoming_item.associations@.len() - a,
            {
                let association = incoming[position].associations[a];
                if has_index(&entry.associations, association.index) {
                    let head = crate::text::concat("item ", crate::text::decimal(entry.item_id as u64).as_str());
                    let head = crate::text::concat(head.as_str(), " has duplicate property association index ");
                    let message = crate::text::concat(head.as_str(), crate::text::decimal(association.index as u64).as_str());
                    let ghost entry_after = entry;
                    target.insert(found, entry);
                    proof {
                        assert forall|i: int, j: int| 0 <= i < j < target@.len() implies target@[i].item_id != target@[j].item_id by {
                            assert(target@ =~= before.update(found as int, entry_after));
                        }
                    }
                    return Err(DecoderError::Bitstream(message));
                }
                entry.associations.push(association);
                a = a + 1;
                assert(entry.associations@ =~= old_associations + incoming_item.associations@.take(a as int));
            }
            assert(incoming_item.associations@.take(a as int) =~= incoming_item.associations@);
            let ghost updated = entry;
            target.insert(found, entry);
            proof {
                assert(target@ =~= before.update(found as int, updated));
                assert(item_ids_unique(target@));
                lemma_associations_of_unique(before, found as int);
                lemma_associations_of_unique(target@, found as int);
                assert forall|id: u32|
                    #[trigger] associations_of(target@, id) == associations_of(original, id) + associations_of(next, id) by {
                    if id == item_id {
                        assert(associations_of(next, id) == associations_of(taken, id) + incoming_item.associations@);
                        assert(associations_of(target@, id) =~= associations_of(original, id) + associations_of(next, id));
                    } else {
                        lemma_associations_of_update(before, found as int, updated, id);
                        assert(associations_of(next, id) =~= associations_of(taken, id));
                    }
                }
            }
        }
        position = position + 1;
    }
    assert(incoming@.take(incoming@.len() as int) =~= incoming@);
    Ok(())
}

} // verus!

verus! {

/// Whether a box has the given four-character type.
pub fn box_is(header: &BoxHeader, code: [u8; 4]) -> (matches: bool)
    ensures
        matches == (header.box_type@ == code@),
{
    fourcc_eq(&header.box_type, &code)
}

/// The `meta` state keeps one association entry per item.
pub open spec fn meta_state_valid(state: &MetaState) -> bool {
    item_ids_unique(state.item_property_associations@)
}


/// The kind of property that a child box of `ipco` of type `box_type` gives.
pub open spec fn property_kind_for(box_type: Seq<u8>) -> PropertyKind {
    if box_type == code4(0x61, 0x75, 0x78, 0x43) {
        PropertyKind::AuxiliaryType
    } else if box_type == code4(0x63, 0x6c, 0x61, 0x70) {
        PropertyKind::CleanAperture
    } else if box_type == code4(0x69, 0x72, 0x6f, 0x74) {
        PropertyKind::Rotation
    } else if box_type == code4(0x69, 0x6d, 0x69, 0x72) {
        PropertyKind::Mirror
    } else if box_type == code4(0x69, 0x73, 0x70, 0x65) {
        PropertyKind::SpatialExtents
    } else if box_type == code4(0x70, 0x69, 0x78, 0x69) {
        PropertyKind::PixelInformation
    } else if box_type == code4(0x61, 0x76, 0x31, 0x43) {
        PropertyKind::Av1Config
    } else if box_type == code4(0x63, 0x6f, 0x6c, 0x72) {
        PropertyKind::ColorInformation
    } else if box_type == code4(0x70, 0x72, 0x65, 0x6d) {
        PropertyKind::Premultiplied
    } else if box_type == code4(0x61, 0x31, 0x6f, 0x70) {
        PropertyKind::OperatingPointSelector
    } else if box_type == code4(0x6c, 0x73, 0x65, 0x6c) {
        PropertyKind::LayerSelector
    } else if box_type == code4(0x61, 0x31, 0x6c, 0x78) {
        PropertyKind::LayerIndexing
    } else {
        PropertyKind::Other
    }
}

/// `added` holds one property per box that tiles `payload`, in order, each of the
/// kind its box's type names; an `av1C` property holds its box's payload.
pub open spec fn properties_of_boxes(payload: Seq<u8>, headers: Seq<BoxHeader>, added: Seq<ItemProperty>) -> bool {
    &&& added.len() == headers.len()
    &&& forall|i: int| 0 <= i < headers.len() ==> kind_of(#[trigger] added[i]) == property_kind_for(headers[i].box_type@)
    &&& forall|i: int|
        0 <= i < headers.len() ==> (#[trigger] added[i] matches ItemProperty::Av1Config(bytes) ==> bytes@ == payload.subrange(
            headers[i].offset + headers[i].header_size,
            headers[i].offset + headers[i].size,
        ))
}

/// A box of type `box_type` with payload `p` gives a property: the payload is long
/// enough for its kind and holds values the parser accepts (a `pixi` box with no
/// channel descriptors, an `auxC` type that is UTF-8).
#[verifier::opaque]
pub open spec fn property_parses(box_type: Seq<u8>, p: Seq<u8>) -> bool {
    if box_type == code4(0x61, 0x75, 0x78, 0x43) {
        p.len() >= 4 && c_string_valid(p, 4)
    } else if box_type == code4(0x63, 0x6c, 0x61, 0x70) {
        p.len() >= 32
    } else if box_type == code4(0x69, 0x72, 0x6f, 0x74) || box_type == code4(0x69, 0x6d, 0x69, 0x72) {
        p.len() >= 1
    } else if box_type == code4(0x69, 0x73, 0x70, 0x65) {
        p.len() >= 12
    } else if box_type == code4(0x70, 0x69, 0x78, 0x69) {
        p.len() >= 5 && p[0] == 0 && p.len() >= 5 + p[4] && be_uint(p, 1, 3) == 0
    } else if box_type == code4(0x63, 0x6f, 0x6c, 0x72) {
        p.len() >= 4
    } else if box_type == code4(0x61, 0x31, 0x6f, 0x70) {
        p.len() == 1
    } else if box_type == code4(0x6c, 0x73, 0x65, 0x6c) {
        p.len() == 2
    } else if box_type == code4(0x61, 0x31, 0x6c, 0x78) {
        p.len() >= 1 && p[0] < 2 && p.len() == 1 + 3 * crate::container::properties::a1lx_field_bytes(p[0])
    } else {
        true
    }
}

/// Each of the boxes `headers` of an `ipco` payload `p` gives a property.
#[verifier::opaque]
pub open spec fn properties_parse(p: Seq<u8>, headers: Seq<BoxHeader>) -> bool {
    forall|i: int| 0 <= i < headers.len() ==> property_parses((#[trigger] headers[i]).box_type@, child_bytes(p, headers[i]))
}

/// An `ipco` payload whose child boxes tile it and each give a property.
pub open spec fn ipco_parses(p: Seq<u8>) -> bool {
    exists|headers: Seq<BoxHeader>| #![trigger boxes_tile(p, headers)] boxes_tile(p, headers) && properties_parse(p, headers)
}

/// The `k`-th box of a tiling whose boxes all give properties gives one.
proof fn lemma_property_at(p: Seq<u8>, headers: Seq<BoxHeader>, k: int)
    requires
        properties_parse(p, headers),
        0 <= k < headers.len(),
    ensures
        property_parses(headers[k].box_type@, child_bytes(p, headers[k])),
{
    reveal(properties_parse);
}

/// The property that the child box `header` of `ipco`, with payload `child`, gives.
fn parse_property(header: &BoxHeader, child: &[u8]) -> (result: Result<ItemProperty, DecoderError>)
    requires
        crate::container::bytes::addressable(child@.len() as int),
    ensures
        match result {
            Ok(property) => kind_of(property) == property_kind_for(header.box_type@) && (property matches ItemProperty::Av1Config(
                bytes,
            ) ==> bytes@ == child@),
            Err(_) => true,
        },
        property_parses(header.box_type@, child@) ==> result is Ok,
{
    proof {
        reveal(property_parses);
    }
    let property = if box_is(header, fourcc_code(0x61, 0x75, 0x78, 0x43)) {
        ItemProperty::AuxiliaryType(crate::container::properties::parse_auxc(child)?)
    } else if box_is(header, fourcc_code(0x63, 0x6c, 0x61, 0x70)) {
        ItemProperty::CleanAperture(crate::container::properties::parse_clap(child)?)
    } else if box_is(header, fourcc_code(0x69, 0x72, 0x6f, 0x74)) {
        ItemProperty::Rotation(crate::container::properties::parse_irot(child)?)
    } else if box_is(header, fourcc_code(0x69, 0x6d, 0x69, 0x72)) {
        ItemProperty::Mirror(crate::container::properties::parse_imir(child)?)
    } else if box_is(header, fourcc_code(0x69, 0x73, 0x70, 0x65)) {
        ItemProperty::SpatialExtents(crate::container::properties::parse_ispe(child)?)
    } else if box_is(header, fourcc_code(0x70, 0x69, 0x78, 0x69)) {
        ItemProperty::PixelInformation(crate::container::properties::parse_pixi(child)?)
    } else if box_is(header, fourcc_code(0x61, 0x76, 0x31, 0x43)) {
        ItemProperty::Av1Config(vstd::slice::slice_to_vec(child))
    } else if box_is(header, fourcc_code(0x63, 0x6f, 0x6c, 0x72)) {
        ItemProperty::ColorInformation(crate::container::properties::parse_colr(child)?)
    } else if box_is(header, fourcc_code(0x70, 0x72, 0x65, 0x6d)) {
        ItemProperty::Premultiplied
    } else if box_is(header, fourcc_code(0x61, 0x31, 0x6f, 0x70)) {
        ItemProperty::OperatingPointSelector(crate::container::properties::parse_a1op(child)?)
    } else if box_is(header, fourcc_code(0x6c, 0x73, 0x65, 0x6c)) {
        ItemProperty::LayerSelector(crate::container::properties::parse_lsel(child)?)
    } else if box_is(header, fourcc_code(0x61, 0x31, 0x6c, 0x78)) {
        ItemProperty::LayerIndexing(crate::container::properties::parse_a1lx(child)?)
    } else {
        ItemProperty::Other
    };
    Ok(property)
}

/// Parses the `ipco` property container, appending one property per child box
/// (unknown boxes become `Other`, keeping the 1-based indexes aligned).
#[verifier::spinoff_prover]
#[verifier::rlimit(40)]
pub fn parse_ipco(payload: &[u8], state: &mut MetaState) -> (result: Result<(), DecoderError>)
    requires
        addressable(payload@.len() as int),
        meta_state_valid(old(state)),
    ensures
        meta_state_valid(final(state)),
        final(state).item_property_associations@ == old(state).item_property_associations@,
        final(state).item_infos@ == old(state).item_infos@,
        final(state).item_infos == old(state).item_infos,
        final(state).item_references == old(state).item_references,
        final(state).primary_item_id == old(state).primary_item_id,
        final(state).item_locations == old(state).item_locations,
        final(state).item_construction_methods == old(state).item_construction_methods,
        final(state).item_extent_indexes == old(state).item_extent_indexes,
        final(state).idat_payload == old(state).idat_payload,
        old(state).item_properties@.len() <= final(state).item_properties@.len(),
        forall|i: int| 0 <= i < old(state).item_properties@.len() ==> final(state).item_properties@[i] == old(state).item_properties@[i],
        result is Ok ==> exists|headers: Seq<BoxHeader>|
            #![trigger crate::container::boxes::boxes_tile(payload@, headers)]
            crate::container::boxes::boxes_tile(payload@, headers) && properties_of_boxes(
                payload@,
                headers,
                final(state).item_properties@.skip(old(state).item_properties@.len() as int),
            ),
        ipco_parses(payload@) ==> result is Ok,
{
    let ghost original = state.item_properties@;
    let ghost mut headers: Seq<BoxHeader> = Seq::empty();
    let ghost parses = ipco_parses(payload@);
    let ghost tiles = choose|hs: Seq<BoxHeader>| boxes_tile(payload@, hs) && properties_parse(payload@, hs);
    proof {
        if parses {
            lemma_tile_progress_start(payload@, tiles);
        }
    }
    let mut offset: usize = 0;
    while offset < payload.len()
        invariant
            addressable(payload@.len() as int),
            offset <= payload@.len(),
            meta_state_valid(state),
            state.item_property_associations@ == old(state).item_property_associations@,
            state.item_infos@ == old(state).item_infos@,
            state.item_infos == old(state).item_infos,
            state.item_references == old(state).item_references,
            state.primary_item_id == old(state).primary_item_id,
            state.item_locations == old(state).item_locations,
            state.item_construction_methods == old(state).item_construction_methods,
            state.item_extent_indexes == old(state).item_extent_indexes,
            state.idat_payload == old(state).idat_payload,
            original == old(state).item_properties@,
            original.len() <= state.item_properties@.len(),
            forall|i: int| 0 <= i < original.len() ==> state.item_properties@[i] == original[i],
            crate::container::boxes::boxes_reach(payload@, headers, offset as int),
            properties_of_boxes(payload@, headers, state.item_properties@.skip(original.len() as int)),
            parses == ipco_parses(payload@),
            parses ==> properties_parse(payload@, tiles) && tile_progress(payload@, tiles, headers.len() as int, offset as int),
        decreases payload@.len() - offset,
    {
        let ghost k = headers.len() as int;
        proof {
            if parses {
                lemma_tile_progress_next(payload@, tiles, k, offset as int);
            }
        }
        let header = read_box_header(payload, offset, payload.len())?;
        let child = box_payload(payload, header)?;
        proof {
            if parses {
                lemma_tile_progress_step(payload@, tiles, k, header);
                assert(child@ == child_bytes(payload@, tiles[k]));
                lemma_property_at(payload@, tiles, k);
            }
        }
        let property = parse_property(&header, child)?;
        assert(kind_of(property) == property_kind_for(header.box_type@));
        assert(property matches ItemProperty::Av1Config(bytes) ==> bytes@ == payload@.subrange(
            header.offset + header.header_size,
            header.offset + header.size,
        ));
        let ghost before_headers = headers;
        let ghost before_added = state.item_properties@.skip(original.len() as int);
        state.item_properties.push(property);
        proof {
            headers = headers.push(header);
            assert(state.item_properties@.skip(original.len() as int) =~= before_added.push(property));
            assert forall|i: int| 0 < i < headers.len() implies (#[trigger] headers[i]).offset == headers[i - 1].offset
                + headers[i - 1].size by {
                if i < before_headers.len() {
                    assert(headers[i] == before_headers[i] && headers[i - 1] == before_headers[i - 1]);
                }
            }
        }
        offset = checked_add(header.offset, header.size, "ipco child box end")?;
    }
    assert(crate::container::boxes::boxes_tile(payload@, headers));
    Ok(())
}

/// An `ipma` payload that parses and lists each item once.
pub open spec fn ipma_parses(p: Seq<u8>) -> bool {
    ipma_item_ids(p) matches Some(ids) && ids.no_duplicates()
}

/// A child of `iprp`: an `ipco` whose boxes give properties, an `ipma` that parses,
/// or another box.
#[verifier::opaque]
pub open spec fn iprp_child_parses(box_type: Seq<u8>, c: Seq<u8>) -> bool {
    if box_type == code4(0x69, 0x70, 0x63, 0x6f) {
        ipco_parses(c)
    } else if box_type == code4(0x69, 0x70, 0x6d, 0x61) {
        ipma_parses(c)
    } else {
        true
    }
}

/// The children `headers` of an `iprp` payload `p` parse, and at most one is `ipma`.
#[verifier::opaque]
pub open spec fn iprp_children_parse(p: Seq<u8>, headers: Seq<BoxHeader>) -> bool {
    &&& forall|i: int| 0 <= i < headers.len() ==> iprp_child_parses((#[trigger] headers[i]).box_type@, child_bytes(p, headers[i]))
    &&& forall|i: int, j: int|
        0 <= i < j < headers.len() && (#[trigger] headers[i]).box_type@ == code4(0x69, 0x70, 0x6d, 0x61) ==> (#[trigger] headers[j]).box_type@
            != code4(0x69, 0x70, 0x6d, 0x61)
}

/// An `iprp` payload whose child boxes tile it and parse, with at most one `ipma`.
pub open spec fn iprp_parses(p: Seq<u8>) -> bool {
    exists|headers: Seq<BoxHeader>| #![trigger boxes_tile(p, headers)] boxes_tile(p, headers) && iprp_children_parse(p, headers)
}

/// What the `k`-th child of a parsing `iprp` payload promises.
proof fn lemma_iprp_child_at(p: Seq<u8>, headers: Seq<BoxHeader>, k: int)
    requires
        iprp_children_parse(p, headers),
        0 <= k < headers.len(),
    ensures
        headers[k].box_type@ == code4(0x69, 0x70, 0x63, 0x6f) ==> ipco_parses(child_bytes(p, headers[k])),
        headers[k].box_type@ == code4(0x69, 0x70, 0x6d, 0x61) ==> ipma_parses(child_bytes(p, headers[k])),
        headers[k].box_type@ == code4(0x69, 0x70, 0x6d, 0x61) ==> forall|j: int|
            k < j < headers.len() ==> (#[trigger] headers[j]).box_type@ != code4(0x69, 0x70, 0x6d, 0x61),
{
    reveal(iprp_children_parse);
    reveal(iprp_child_parses);
    assert(iprp_child_parses(headers[k].box_type@, child_bytes(p, headers[k])));
    lemma_meta_codes_distinct();
    assert(code4(0x69, 0x70, 0x63, 0x6f)[2] != code4(0x69, 0x70, 0x6d, 0x61)[2]);
}

/// Parses `iprp`: its `ipco` properties and `ipma` associations.
pub fn parse_iprp(payload: &[u8], state: &mut MetaState) -> (result: Result<(), DecoderError>)
    requires
        addressable(payload@.len() as int),
        meta_state_valid(old(state)),
    ensures
        meta_state_valid(final(state)),
        final(state).primary_item_id == old(state).primary_item_id,
        final(state).item_locations == old(state).item_locations,
        final(state).item_construction_methods == old(state).item_construction_methods,
        final(state).item_extent_indexes == old(state).item_extent_indexes,
        final(state).idat_payload == old(state).idat_payload,
        final(state).item_infos == old(state).item_infos,
        final(state).item_references == old(state).item_references,
        result is Ok ==> exists|headers: Seq<BoxHeader>|
            #![trigger crate::container::boxes::boxes_tile(payload@, headers)]
            crate::container::boxes::boxes_tile(payload@, headers),
        old(state).item_property_associations@.len() == 0 && iprp_parses(payload@) ==> result is Ok,
{
    let mut offset: usize = 0;
    let ghost mut headers: Seq<BoxHeader> = Seq::empty();
    let ghost parses = old(state).item_property_associations@.len() == 0 && iprp_parses(payload@);
    let ghost tiles = choose|hs: Seq<BoxHeader>| boxes_tile(payload@, hs) && iprp_children_parse(payload@, hs);
    proof {
        if parses {
            lemma_tile_progress_start(payload@, tiles);
        }
    }
    while offset < payload.len()
        invariant
            addressable(payload@.len() as int),
            offset <= payload@.len(),
            meta_state_valid(state),
            state.primary_item_id == old(state).primary_item_id,
            state.item_locations == old(state).item_locations,
            state.item_construction_methods == old(state).item_construction_methods,
            state.item_extent_indexes == old(state).item_extent_indexes,
            state.idat_payload == old(state).idat_payload,
            state.item_infos == old(state).item_infos,
            state.item_references == old(state).item_references,
            crate::container::boxes::boxes_reach(payload@, headers, offset as int),
            parses == (old(state).item_property_associations@.len() == 0 && iprp_parses(payload@)),
            parses ==> iprp_children_parse(payload@, tiles) && tile_progress(payload@, tiles, headers.len() as int, offset as int),
            parses ==> state.item_property_associations@.len() == 0 || forall|j: int|
                headers.len() <= j < tiles.len() ==> (#[trigger] tiles[j]).box_type@ != code4(0x69, 0x70, 0x6d, 0x61),
        decreases payload@.len() - offset,
    {
        let ghost k = headers.len() as int;
        proof {
            if parses {
                lemma_tile_progress_next(payload@, tiles, k, offset as int);
            }
        }
        let header = read_box_header(payload, offset, payload.len())?;
        let child = box_payload(payload, header)?;
        proof {
            if parses {
                lemma_tile_progress_step(payload@, tiles, k, header);
                assert(child@ == child_bytes(payload@, tiles[k]));
                lemma_iprp_child_at(payload@, tiles, k);
            }
        }
        if box_is(&header, fourcc_code(0x69, 0x70, 0x63, 0x6f)) {
            parse_ipco(child, state)?;
        } else if box_is(&header, fourcc_code(0x69, 0x70, 0x6d, 0x61)) {
            let incoming = parse_ipma(child)?;
            proof {
                if parses {
                    assert(state.item_property_associations@.len() == 0);
                    let ids = ipma_item_ids(child@)->0;
                    assert forall|i: int, j: int| 0 <= i < j < incoming@.len() implies incoming@[i].item_id != incoming@[j].item_id by {
                        assert(entry_ids(incoming@)[i] == incoming@[i].item_id as int);
                        assert(entry_ids(incoming@)[j] == incoming@[j].item_id as int);
                        assert(ids[i] != ids[j]);
                    }
                }
            }
            merge_ipma(&mut state.item_property_associations, incoming)?;
        }
        offset = checked_add(header.offset, header.size, "iprp child box end")?;
        proof {
            let before_headers = headers;
            headers = headers.push(header);
            assert forall|i: int| 0 < i < headers.len() implies (#[trigger] headers[i]).offset == headers[i - 1].offset
                + headers[i - 1].size by {
                if i < before_headers.len() {
                    assert(headers[i] == before_headers[i] && headers[i - 1] == before_headers[i - 1]);
                }
            }
        }
    }
    assert(crate::container::boxes::boxes_tile(payload@, headers));
    Ok(())
}

/// The headers of boxes that follow one another in `payload` from `start`, each
/// read where the one before ends, and together reach `end`.
pub open spec fn boxes_between(payload: Seq<u8>, headers: Seq<BoxHeader>, start: int, end: int) -> bool {
    &&& forall|i: int| 0 <= i < headers.len() ==> header_within(#[trigger] headers[i], payload.len() as int)
    &&& headers.len() > 0 ==> headers[0].offset == start
    &&& forall|i: int| 0 < i < headers.len() ==> (#[trigger] headers[i]).offset == headers[i - 1].offset
        + headers[i - 1].size
    &&& headers.len() > 0 ==> headers.last().offset + headers.last().size == end
    &&& headers.len() == 0 ==> end == start
    &&& forall|i: int|
        0 <= i < headers.len() ==> box_extent(payload, (#[trigger] headers[i]).offset as int, payload.len() as int)
            == Ok::<(int, int), ErrorKind>((headers[i].size as int, headers[i].header_size as int))
            && headers[i].box_type@ == payload.subrange(headers[i].offset + 4, headers[i].offset + 8)
}

/// Where the children read from `start` end: the end of the payload, or `start`
/// itself when it lies past that end.
pub open spec fn children_end(len: int, start: int) -> int {
    if start <= len {
        len
    } else {
        start
    }
}

/// The position of the last of the first `n` boxes that has type `box_type`.
pub open spec fn last_box_of_type(headers: Seq<BoxHeader>, box_type: Seq<u8>, n: int) -> Option<int>
    decreases n,
{
    if n <= 0 {
        None
    } else if headers[n - 1].box_type@ == box_type {
        Some(n - 1)
    } else {
        last_box_of_type(headers, box_type, n - 1)
    }
}

/// The payload of box `header` of `payload`.
pub open spec fn child_bytes(payload: Seq<u8>, header: BoxHeader) -> Seq<u8> {
    payload.subrange(header.offset + header.header_size, header.offset + header.size)
}

/// The primary item ID that a `pitm` payload names.
pub open spec fn pitm_id(p: Seq<u8>) -> u32 {
    (if p[0] == 0 { be_uint(p, 4, 2) } else { be_uint(p, 4, 4) }) as u32
}

/// The primary item ID after the first `n` children: that of the last `pitm`.
pub open spec fn primary_after(before: Option<u32>, payload: Seq<u8>, headers: Seq<BoxHeader>, n: int) -> Option<u32> {
    match last_box_of_type(headers, code4(0x70, 0x69, 0x74, 0x6d), n) {
        None => before,
        Some(k) => Some(pitm_id(child_bytes(payload, headers[k]))),
    }
}

/// The `idat` bytes after the first `n` children: those of the last `idat`.
pub open spec fn idat_after(before: Option<Seq<u8>>, payload: Seq<u8>, headers: Seq<BoxHeader>, n: int) -> Option<Seq<u8>> {
    match last_box_of_type(headers, code4(0x69, 0x64, 0x61, 0x74), n) {
        None => before,
        Some(k) => Some(child_bytes(payload, headers[k])),
    }
}

/// The view of stored `idat` bytes.
pub open spec fn idat_view(idat: Option<Vec<u8>>) -> Option<Seq<u8>> {
    match idat {
        Some(bytes) => Some(bytes@),
        None => None,
    }
}

/// The item locations, construction methods and extent indexes of `state` after
/// the first `n` children, from `initial`: those of the last `iloc` child, or those
/// of `initial` when there is none.
pub open spec fn iloc_fields_after(initial: MetaState, state: MetaState, payload: Seq<u8>, headers: Seq<BoxHeader>, n: int) -> bool {
    match last_box_of_type(headers, code4(0x69, 0x6c, 0x6f, 0x63), n) {
        None => state.item_locations == initial.item_locations && state.item_construction_methods
            == initial.item_construction_methods && state.item_extent_indexes == initial.item_extent_indexes,
        Some(k) => iloc_spec(child_bytes(payload, headers[k])) == Some(
            iloc_tables_view(state.item_locations@, state.item_construction_methods@, state.item_extent_indexes@),
        ),
    }
}

/// What the `pitm`, `idat`, `iloc`, `iinf` and `iref` children among `headers` leave in `state`,
/// from `initial`: the last of each type decides; without one the field keeps its
/// value.
#[verifier::opaque]
pub open spec fn meta_fields_after(initial: MetaState, state: MetaState, payload: Seq<u8>, headers: Seq<BoxHeader>) -> bool {
    &&& state.primary_item_id == primary_after(initial.primary_item_id, payload, headers, headers.len() as int)
    &&& idat_view(state.idat_payload) == idat_after(idat_view(initial.idat_payload), payload, headers, headers.len() as int)
    &&& iloc_fields_after(initial, state, payload, headers, headers.len() as int)
    &&& match last_box_of_type(headers, code4(0x69, 0x69, 0x6e, 0x66), headers.len() as int) {
        None => state.item_infos == initial.item_infos,
        Some(k) => iinf_outcome(child_bytes(payload, headers[k])) == Some(infos_view(state.item_infos@)),
    }
    &&& match last_box_of_type(headers, code4(0x69, 0x72, 0x65, 0x66), headers.len() as int) {
        None => state.item_references == initial.item_references,
        Some(k) => iref_outcome(child_bytes(payload, headers[k])) == Some(references_view(state.item_references@)),
    }
}

/// What one child box `header` does to the primary item, `idat` bytes, item
/// locations, item information and references.
pub open spec fn meta_child_effect(before: MetaState, after: MetaState, payload: Seq<u8>, header: BoxHeader) -> bool {
    let child = child_bytes(payload, header);
    &&& after.primary_item_id == if header.box_type@ == code4(0x70, 0x69, 0x74, 0x6d) {
        Some(pitm_id(child))
    } else {
        before.primary_item_id
    }
    &&& idat_view(after.idat_payload) == if header.box_type@ == code4(0x69, 0x64, 0x61, 0x74) {
        Some(child)
    } else {
        idat_view(before.idat_payload)
    }
    &&& if header.box_type@ == code4(0x69, 0x6c, 0x6f, 0x63) {
        iloc_spec(child) == Some(iloc_tables_view(after.item_locations@, after.item_construction_methods@, after.item_extent_indexes@))
    } else {
        after.item_locations == before.item_locations && after.item_construction_methods == before.item_construction_methods
            && after.item_extent_indexes == before.item_extent_indexes
    }
    &&& if header.box_type@ == code4(0x69, 0x69, 0x6e, 0x66) {
        iinf_outcome(child) == Some(infos_view(after.item_infos@))
    } else {
        after.item_infos == before.item_infos
    }
    &&& if header.box_type@ == code4(0x69, 0x72, 0x65, 0x66) {
        iref_outcome(child) == Some(references_view(after.item_references@))
    } else {
        after.item_references == before.item_references
    }
}

/// Appending a box leaves the last box of a type among the earlier ones as it was.
proof fn lemma_last_box_prefix(headers: Seq<BoxHeader>, header: BoxHeader, box_type: Seq<u8>, n: int)
    requires
        0 <= n <= headers.len(),
    ensures
        last_box_of_type(headers.push(header), box_type, n) == last_box_of_type(headers, box_type, n),
    decreases n,
{
    if n > 0 {
        assert(headers.push(header)[n - 1] == headers[n - 1]);
        lemma_last_box_prefix(headers, header, box_type, n - 1);
    }
}

/// The last box of a type among `n + 1` boxes is the new one when it has the type,
/// else the last among the first `n`.
proof fn lemma_last_box_step(headers: Seq<BoxHeader>, header: BoxHeader, box_type: Seq<u8>)
    ensures
        last_box_of_type(headers.push(header), box_type, headers.len() + 1int) == if header.box_type@ == box_type {
            Some(headers.len() as int)
        } else {
            last_box_of_type(headers, box_type, headers.len() as int)
        },
{
    assert(headers.push(header)[headers.len() as int] == header);
    lemma_last_box_prefix(headers, header, box_type, headers.len() as int);
}

/// The box types that `meta` children are told apart by differ from one another.
proof fn lemma_meta_codes_distinct()
    ensures
        code4(0x70, 0x69, 0x74, 0x6d) != code4(0x69, 0x64, 0x61, 0x74),
        code4(0x70, 0x69, 0x74, 0x6d) != code4(0x69, 0x6c, 0x6f, 0x63),
        code4(0x69, 0x64, 0x61, 0x74) != code4(0x69, 0x6c, 0x6f, 0x63),
        code4(0x69, 0x69, 0x6e, 0x66) != code4(0x70, 0x69, 0x74, 0x6d),
        code4(0x69, 0x69, 0x6e, 0x66) != code4(0x69, 0x64, 0x61, 0x74),
        code4(0x69, 0x69, 0x6e, 0x66) != code4(0x69, 0x6c, 0x6f, 0x63),
        code4(0x69, 0x72, 0x65, 0x66) != code4(0x70, 0x69, 0x74, 0x6d),
        code4(0x69, 0x72, 0x65, 0x66) != code4(0x69, 0x64, 0x61, 0x74),
        code4(0x69, 0x72, 0x65, 0x66) != code4(0x69, 0x6c, 0x6f, 0x63),
        code4(0x69, 0x70, 0x72, 0x70) != code4(0x70, 0x69, 0x74, 0x6d),
        code4(0x69, 0x70, 0x72, 0x70) != code4(0x69, 0x64, 0x61, 0x74),
        code4(0x69, 0x70, 0x72, 0x70) != code4(0x69, 0x6c, 0x6f, 0x63),
        code4(0x69, 0x69, 0x6e, 0x66) != code4(0x69, 0x72, 0x65, 0x66),
        code4(0x69, 0x70, 0x72, 0x70) != code4(0x69, 0x69, 0x6e, 0x66),
        code4(0x69, 0x70, 0x72, 0x70) != code4(0x69, 0x72, 0x65, 0x66),
{
    assert(code4(0x69, 0x69, 0x6e, 0x66)[1] != code4(0x69, 0x72, 0x65, 0x66)[1]);
    assert(code4(0x69, 0x70, 0x72, 0x70)[1] != code4(0x69, 0x69, 0x6e, 0x66)[1]);
    assert(code4(0x69, 0x70, 0x72, 0x70)[1] != code4(0x69, 0x72, 0x65, 0x66)[1]);
    assert(code4(0x70, 0x69, 0x74, 0x6d)[0] != code4(0x69, 0x64, 0x61, 0x74)[0]);
    assert(code4(0x70, 0x69, 0x74, 0x6d)[0] != code4(0x69, 0x6c, 0x6f, 0x63)[0]);
    assert(code4(0x69, 0x64, 0x61, 0x74)[1] != code4(0x69, 0x6c, 0x6f, 0x63)[1]);
    assert(code4(0x69, 0x69, 0x6e, 0x66)[0] != code4(0x70, 0x69, 0x74, 0x6d)[0]);
    assert(code4(0x69, 0x69, 0x6e, 0x66)[1] != code4(0x69, 0x64, 0x61, 0x74)[1]);
    assert(code4(0x69, 0x69, 0x6e, 0x66)[1] != code4(0x69, 0x6c, 0x6f, 0x63)[1]);
    assert(code4(0x69, 0x72, 0x65, 0x66)[0] != code4(0x70, 0x69, 0x74, 0x6d)[0]);
    assert(code4(0x69, 0x72, 0x65, 0x66)[1] != code4(0x69, 0x64, 0x61, 0x74)[1]);
    assert(code4(0x69, 0x72, 0x65, 0x66)[1] != code4(0x69, 0x6c, 0x6f, 0x63)[1]);
    assert(code4(0x69, 0x70, 0x72, 0x70)[0] != code4(0x70, 0x69, 0x74, 0x6d)[0]);
    assert(code4(0x69, 0x70, 0x72, 0x70)[1] != code4(0x69, 0x64, 0x61, 0x74)[1]);
    assert(code4(0x69, 0x70, 0x72, 0x70)[1] != code4(0x69, 0x6c, 0x6f, 0x63)[1]);
}

/// No child leaves every field as it was.
proof fn lemma_meta_fields_start(initial: MetaState, payload: Seq<u8>)
    ensures
        meta_fields_after(initial, initial, payload, Seq::empty()),
{
    reveal(meta_fields_after);
}

/// One more child keeps `meta_fields_after`.
proof fn lemma_meta_fields_step(
    initial: MetaState,
    before: MetaState,
    after: MetaState,
    payload: Seq<u8>,
    previous: Seq<BoxHeader>,
    header: BoxHeader,
)
    requires
        meta_fields_after(initial, before, payload, previous),
        meta_child_effect(before, after, payload, header),
    ensures
        meta_fields_after(initial, after, payload, previous.push(header)),
{
    reveal(meta_fields_after);
    let pitm = code4(0x70, 0x69, 0x74, 0x6d);
    let idat = code4(0x69, 0x64, 0x61, 0x74);
    let iloc = code4(0x69, 0x6c, 0x6f, 0x63);
    let headers = previous.push(header);
    lemma_last_box_step(previous, header, pitm);
    lemma_last_box_step(previous, header, idat);
    lemma_last_box_step(previous, header, iloc);
    let n = previous.len() as int;
    assert(headers[n] == header);
    if header.box_type@ == pitm {
        assert(header.box_type@[0] != iloc[0] && header.box_type@[0] != idat[0]);
    } else if header.box_type@ == iloc {
        assert(header.box_type@[0] != pitm[0] && header.box_type@[1] != idat[1]);
    } else if header.box_type@ == idat {
        assert(header.box_type@[0] != pitm[0] && header.box_type@[1] != iloc[1]);
    }
    if let Some(k) = last_box_of_type(previous, pitm, n) {
        lemma_last_box_index(previous, pitm, n);
        assert(headers[k] == previous[k]);
    }
    if let Some(k) = last_box_of_type(previous, idat, n) {
        lemma_last_box_index(previous, idat, n);
        assert(headers[k] == previous[k]);
    }
    if let Some(k) = last_box_of_type(previous, iloc, n) {
        lemma_last_box_index(previous, iloc, n);
        assert(headers[k] == previous[k]);
    }
    let iinf = code4(0x69, 0x69, 0x6e, 0x66);
    let iref = code4(0x69, 0x72, 0x65, 0x66);
    lemma_meta_codes_distinct();
    lemma_last_box_step(previous, header, iinf);
    lemma_last_box_step(previous, header, iref);
    if let Some(k) = last_box_of_type(previous, iinf, n) {
        lemma_last_box_index(previous, iinf, n);
        assert(headers[k] == previous[k]);
    }
    if let Some(k) = last_box_of_type(previous, iref, n) {
        lemma_last_box_index(previous, iref, n);
        assert(headers[k] == previous[k]);
    }
    assert(after.primary_item_id == primary_after(initial.primary_item_id, payload, headers, n + 1));
    assert(idat_view(after.idat_payload) == idat_after(idat_view(initial.idat_payload), payload, headers, n + 1));
    assert(iloc_fields_after(initial, after, payload, headers, n + 1));
}

/// The last box of a type lies among the first `n`.
proof fn lemma_last_box_index(headers: Seq<BoxHeader>, box_type: Seq<u8>, n: int)
    ensures
        last_box_of_type(headers, box_type, n) matches Some(k) ==> 0 <= k < n,
    decreases n,
{
    if n > 0 {
        lemma_last_box_index(headers, box_type, n - 1);
    }
}

/// Reading boxes from `start` has read the first `k` of `tiles`, which run from
/// `start` to the end of `payload`, and stands at `offset`.
#[verifier::opaque]
pub open spec fn between_progress(payload: Seq<u8>, tiles: Seq<BoxHeader>, start: int, k: int, offset: int) -> bool {
    &&& boxes_between(payload, tiles, start, payload.len() as int)
    &&& 0 <= k <= tiles.len()
    &&& offset == crate::container::boxes::tile_position(tiles, k, payload.len() as int)
}

/// Nothing is read yet.
proof fn lemma_between_progress_start(payload: Seq<u8>, tiles: Seq<BoxHeader>, start: int)
    requires
        boxes_between(payload, tiles, start, payload.len() as int),
        start <= payload.len(),
    ensures
        between_progress(payload, tiles, start, 0, start),
{
    reveal(between_progress);
}

/// Reading the next box gives the next box of `tiles` and moves past it.
proof fn lemma_between_progress_step(payload: Seq<u8>, tiles: Seq<BoxHeader>, start: int, k: int, offset: int, header: BoxHeader)
    requires
        between_progress(payload, tiles, start, k, offset),
        offset < payload.len(),
    ensures
        k < tiles.len(),
        tiles[k].offset == offset,
        box_extent(payload, offset, payload.len() as int) == Ok::<(int, int), ErrorKind>(
            (tiles[k].size as int, tiles[k].header_size as int),
        ),
        header.offset == offset && box_extent(payload, offset, payload.len() as int) == Ok::<(int, int), ErrorKind>(
            (header.size as int, header.header_size as int),
        ) && header.box_type@ == payload.subrange(offset + 4, offset + 8) ==> {
            &&& header.size == tiles[k].size
            &&& header.header_size == tiles[k].header_size
            &&& header.box_type@ == tiles[k].box_type@
            &&& between_progress(payload, tiles, start, k + 1, header.offset + header.size)
        },
{
    reveal(between_progress);
    if tiles.len() == 0 {
        assert(offset == start);
    }
    if k + 1 < tiles.len() {
        assert(tiles[k + 1].offset == tiles[k].offset + tiles[k].size);
    }
}

/// A child of `meta` that parses: `pitm` of version 0 or 1 with room for its item
/// ID, `iinf`, `iloc` and `iref` payloads that parse, an `iprp` that parses, or
/// another box.
#[verifier::opaque]
pub open spec fn meta_child_parses(box_type: Seq<u8>, c: Seq<u8>) -> bool {
    if box_type == code4(0x70, 0x69, 0x74, 0x6d) {
        c.len() >= 6 && (c[0] == 0 || (c[0] == 1 && c.len() >= 8))
    } else if box_type == code4(0x69, 0x69, 0x6e, 0x66) {
        iinf_outcome(c) is Some
    } else if box_type == code4(0x69, 0x6c, 0x6f, 0x63) {
        iloc_spec(c) is Some
    } else if box_type == code4(0x69, 0x72, 0x65, 0x66) {
        iref_outcome(c) is Some
    } else if box_type == code4(0x69, 0x70, 0x72, 0x70) {
        iprp_parses(c)
    } else {
        true
    }
}

/// The children `headers` of a `meta` payload `p` parse, and at most one is `iprp`.
#[verifier::opaque]
pub open spec fn meta_children_parse(p: Seq<u8>, headers: Seq<BoxHeader>) -> bool {
    &&& forall|i: int| 0 <= i < headers.len() ==> meta_child_parses((#[trigger] headers[i]).box_type@, child_bytes(p, headers[i]))
    &&& forall|i: int, j: int|
        0 <= i < j < headers.len() && (#[trigger] headers[i]).box_type@ == code4(0x69, 0x70, 0x72, 0x70) ==> (#[trigger] headers[j]).box_type@
            != code4(0x69, 0x70, 0x72, 0x70)
}

/// The boxes of `p` from `start` to its end tile it and parse as `meta` children.
pub open spec fn meta_children_from(p: Seq<u8>, start: int) -> bool {
    &&& start <= p.len()
    &&& exists|headers: Seq<BoxHeader>|
        #![trigger boxes_between(p, headers, start, p.len() as int)]
        boxes_between(p, headers, start, p.len() as int) && meta_children_parse(p, headers)
}

/// A `meta` payload that parses: its full-box header, then children that parse.
pub open spec fn meta_box_parses(p: Seq<u8>) -> bool {
    p.len() >= 4 && meta_children_from(p, 4)
}

/// What the `k`-th child of a parsing `meta` payload promises.
proof fn lemma_meta_child_at(p: Seq<u8>, headers: Seq<BoxHeader>, k: int)
    requires
        meta_children_parse(p, headers),
        0 <= k < headers.len(),
    ensures
        meta_child_parses(headers[k].box_type@, child_bytes(p, headers[k])),
        headers[k].box_type@ == code4(0x69, 0x70, 0x72, 0x70) ==> forall|j: int|
            k < j < headers.len() ==> (#[trigger] headers[j]).box_type@ != code4(0x69, 0x70, 0x72, 0x70),
{
    reveal(meta_children_parse);
}

/// Parses the children of a `meta` box from `offset` on. Of the `pitm`, `idat` and
/// `iloc` children, the last of each type decides the primary item, the `idat`
/// bytes and the item locations; without one the state keeps what it held.
#[verifier::rlimit(100)]
pub fn parse_meta_children(source: &[u8], payload: &[u8], offset: usize, state: &mut MetaState) -> (result: Result<(), DecoderError>)
    requires
        addressable(payload@.len() as int),
        meta_state_valid(old(state)),
    ensures
        meta_state_valid(final(state)),
        result is Ok ==> exists|headers: Seq<BoxHeader>|
            #![trigger boxes_between(payload@, headers, offset as int, children_end(payload@.len() as int, offset as int))]
            {
                &&& boxes_between(payload@, headers, offset as int, children_end(payload@.len() as int, offset as int))
                &&& meta_fields_after(*old(state), *final(state), payload@, headers)
            },
        old(state).item_property_associations@.len() == 0 && meta_children_from(payload@, offset as int) ==> result is Ok,
{
    let ghost start = offset as int;
    let ghost mut headers: Seq<BoxHeader> = Seq::empty();
    let mut position = offset;
    let ghost parses = old(state).item_property_associations@.len() == 0 && meta_children_from(payload@, offset as int);
    let ghost tiles = choose|hs: Seq<BoxHeader>|
        boxes_between(payload@, hs, offset as int, payload@.len() as int) && meta_children_parse(payload@, hs);
    proof {
        lemma_meta_fields_start(*state, payload@);
        if parses {
            lemma_between_progress_start(payload@, tiles, start);
        }
    }
    while position < payload.len()
        invariant
            addressable(payload@.len() as int),
            meta_state_valid(state),
            start == offset as int,
            boxes_between(payload@, headers, start, position as int),
            headers.len() > 0 ==> position <= payload@.len(),
            meta_fields_after(*old(state), *state, payload@, headers),
            parses == (old(state).item_property_associations@.len() == 0 && meta_children_from(payload@, start)),
            parses ==> meta_children_parse(payload@, tiles) && between_progress(payload@, tiles, start, headers.len() as int, position as int),
            parses ==> state.item_property_associations@.len() == 0 || forall|j: int|
                headers.len() <= j < tiles.len() ==> (#[trigger] tiles[j]).box_type@ != code4(0x69, 0x70, 0x72, 0x70),
        decreases payload@.len() - position,
    {
        let ghost k = headers.len() as int;
        proof {
            if parses {
                lemma_between_progress_step(payload@, tiles, start, k, position as int, tiles[k]);
            }
        }
        let header = read_box_header(payload, position, payload.len())?;
        let child = box_payload(payload, header)?;
        proof {
            if parses {
                lemma_between_progress_step(payload@, tiles, start, k, position as int, header);
                assert(child@ == child_bytes(payload@, tiles[k]));
                lemma_meta_child_at(payload@, tiles, k);
                reveal(meta_child_parses);
            }
        }
        let ghost before = *state;
        proof {
            lemma_meta_codes_distinct();
            assert(child@ == child_bytes(payload@, header));
        }
        if box_is(&header, fourcc_code(0x70, 0x69, 0x74, 0x6d)) {
            state.primary_item_id = parse_pitm(child)?;
            proof {
                assert(meta_child_effect(before, *state, payload@, header));
            }
        } else if box_is(&header, fourcc_code(0x69, 0x69, 0x6e, 0x66)) {
            state.item_infos = parse_iinf(child)?;
            proof {
                assert(meta_child_effect(before, *state, payload@, header));
            }
        } else if box_is(&header, fourcc_code(0x69, 0x6c, 0x6f, 0x63)) {
            let (locations, construction_methods, extent_indexes) = parse_iloc_with_indexes(child)?;
            state.item_locations = locations;
            state.item_construction_methods = construction_methods;
            state.item_extent_indexes = extent_indexes;
            proof {
                assert(meta_child_effect(before, *state, payload@, header));
            }
        } else if box_is(&header, fourcc_code(0x69, 0x64, 0x61, 0x74)) {
            state.idat_payload = Some(vstd::slice::slice_to_vec(child));
            proof {
                assert(meta_child_effect(before, *state, payload@, header));
            }
        } else if box_is(&header, fourcc_code(0x69, 0x72, 0x65, 0x66)) {
            state.item_references = parse_iref(child)?;
            proof {
                assert(meta_child_effect(before, *state, payload@, header));
            }
        } else if box_is(&header, fourcc_code(0x69, 0x70, 0x72, 0x70)) {
            parse_iprp(child, state)?;
            proof {
                assert(meta_child_effect(before, *state, payload@, header));
            }
        } else {
            proof {
                assert(meta_child_effect(before, *state, payload@, header));
            }
        }
        proof {
            lemma_meta_fields_step(*old(state), before, *state, payload@, headers, header);
            let previous = headers;
            headers = headers.push(header);
            assert forall|i: int| 0 < i < headers.len() implies (#[trigger] headers[i]).offset == headers[i - 1].offset
                + headers[i - 1].size by {
                if i < previous.len() {
                    assert(headers[i] == previous[i] && headers[i - 1] == previous[i - 1]);
                }
            }
        }
        position = checked_add(header.offset, header.size, "meta child box end")?;
    }
    assert(boxes_between(payload@, headers, start, children_end(payload@.len() as int, start)));
    Ok(())
}

/// Parses a `meta` box: its full-box header, then its children.
pub fn parse_meta(data: &[u8], header: BoxHeader, state: &mut MetaState) -> (result: Result<(), DecoderError>)
    requires
        addressable(data@.len() as int),
        header_within(header, data@.len() as int),
        meta_state_valid(old(state)),
    ensures
        meta_state_valid(final(state)),
        header.size - header.header_size < 4 ==> result is Err && result->Err_0.kind() == ErrorKind::NotEnoughData
            && *final(state) == *old(state),
        result is Ok ==> exists|headers: Seq<BoxHeader>|
            #![trigger boxes_between(child_bytes(data@, header), headers, 4, children_end(header.size - header.header_size, 4))]
            {
                &&& boxes_between(child_bytes(data@, header), headers, 4, children_end(header.size - header.header_size, 4))
                &&& meta_fields_after(*old(state), *final(state), child_bytes(data@, header), headers)
            },
        old(state).item_property_associations@.len() == 0 && meta_box_parses(child_bytes(data@, header)) ==> result is Ok,
{
    let payload = box_payload(data, header)?;
    if payload.len() < 4 {
        return Err(DecoderError::NotEnoughData("meta full-box header is missing".to_string()));
    }
    let ghost before = *state;
    let result = parse_meta_children(data, payload, 4, state);
    proof {
        if result is Ok {
            let headers = choose|headers: Seq<BoxHeader>|
                #![trigger boxes_between(payload@, headers, 4, children_end(payload@.len() as int, 4))]
                boxes_between(payload@, headers, 4, children_end(payload@.len() as int, 4)) && meta_fields_after(
                    before,
                    *state,
                    payload@,
                    headers,
                );
            assert(payload@ == child_bytes(data@, header));
            assert(boxes_between(child_bytes(data@, header), headers, 4, children_end(header.size - header.header_size, 4)));
        }
    }
    result
}

} // verus!
