//! The integer layout of ICC matrix/shaper profiles: the header, the tag table and
//! the XYZ and tone-curve tags, read into the values that the colour math needs.
use vstd::prelude::*;
use crate::container::bytes::{be_uint, fits, read_u16, read_u32};
use crate::error::{DecoderError, ErrorKind};
use crate::text::{concat, decimal, decimal_spec};

verus! {

/// The text of every error of the matrix/shaper reader: a common prefix, then `message`.
pub open spec fn icc_message(message: Seq<char>) -> Seq<char> {
    "ICC matrix-shaper profile: "@ + message
}

/// Whether `error` is the reader's `Unsupported` error carrying `message`.
pub open spec fn icc_error(error: DecoderError, message: Seq<char>) -> bool {
    error.kind() == ErrorKind::Unsupported && error.detail() == icc_message(message)
}

/// The message of a field that lies past the end of the profile.
pub open spec fn truncated_field() -> Seq<char> {
    "ICC profile field is truncated"@
}

fn unsupported(message: &str) -> (error: DecoderError)
    ensures
        icc_error(error, message@),
{
    DecoderError::Unsupported(concat("ICC matrix-shaper profile: ", message))
}

/// Whether the four bytes at `at` are `a`, `b`, `c`, `d`.
pub open spec fn code_at(p: Seq<u8>, at: int, a: u8, b: u8, c: u8, d: u8) -> bool {
    p[at] == a && p[at + 1] == b && p[at + 2] == c && p[at + 3] == d
}

fn code_matches(p: &[u8], at: usize, a: u8, b: u8, c: u8, d: u8) -> (matches: bool)
    requires
        at + 4 <= p@.len(),
    ensures
        matches == code_at(p@, at as int, a, b, c, d),
{
    p[at] == a && p[at + 1] == b && p[at + 2] == c && p[at + 3] == d
}

fn icc_u16(profile: &[u8], offset: usize) -> (result: Result<u16, DecoderError>)
    requires
        offset + 2 <= usize::MAX,
    ensures
        match result {
            Ok(value) => fits(profile@, offset as int, 2) && value == be_uint(profile@, offset as int, 2),
            Err(error) => !fits(profile@, offset as int, 2) && icc_error(error, truncated_field()),
        },
{
    match read_u16(profile, offset) {
        Ok(value) => Ok(value),
        Err(_) => Err(unsupported("ICC profile field is truncated")),
    }
}

fn icc_u32(profile: &[u8], offset: usize) -> (result: Result<u32, DecoderError>)
    requires
        offset + 4 <= usize::MAX,
    ensures
        match result {
            Ok(value) => fits(profile@, offset as int, 4) && value == be_uint(profile@, offset as int, 4),
            Err(error) => !fits(profile@, offset as int, 4) && icc_error(error, truncated_field()),
        },
{
    match read_u32(profile, offset) {
        Ok(value) => Ok(value),
        Err(_) => Err(unsupported("ICC profile field is truncated")),
    }
}

/// The signed value of a 32-bit two's-complement field (an `s15Fixed16Number`
/// times 65536).
pub open spec fn s15_fixed16(raw: int) -> int {
    if raw >= 0x8000_0000 {
        raw - 0x1_0000_0000
    } else {
        raw
    }
}

fn signed_field(raw: u32) -> (value: i32)
    ensures
        value as int == s15_fixed16(raw as int),
{
    if raw >= 0x8000_0000 {
        ((raw - 0x8000_0000) as i32) + i32::MIN
    } else {
        raw as i32
    }
}

/// The slot of the tag whose signature stands at `at`: `wtpt`, `rXYZ`, `gXYZ`,
/// `bXYZ`, `rTRC`, `gTRC`, `bTRC` in that order, or none for any other tag.
pub open spec fn icc_tag_slot(p: Seq<u8>, at: int) -> Option<int> {
    if code_at(p, at, 0x77, 0x74, 0x70, 0x74) {
        Some(0)
    } else if code_at(p, at, 0x72, 0x58, 0x59, 0x5a) {
        Some(1)
    } else if code_at(p, at, 0x67, 0x58, 0x59, 0x5a) {
        Some(2)
    } else if code_at(p, at, 0x62, 0x58, 0x59, 0x5a) {
        Some(3)
    } else if code_at(p, at, 0x72, 0x54, 0x52, 0x43) {
        Some(4)
    } else if code_at(p, at, 0x67, 0x54, 0x52, 0x43) {
        Some(5)
    } else if code_at(p, at, 0x62, 0x54, 0x52, 0x43) {
        Some(6)
    } else {
        None
    }
}

fn tag_slot(profile: &[u8], at: usize) -> (slot: Option<usize>)
    requires
        at + 4 <= profile@.len(),
    ensures
        match slot {
            Some(s) => icc_tag_slot(profile@, at as int) == Some(s as int),
            None => icc_tag_slot(profile@, at as int) is None,
        },
{
    if code_matches(profile, at, 0x77, 0x74, 0x70, 0x74) {
        Some(0)
    } else if code_matches(profile, at, 0x72, 0x58, 0x59, 0x5a) {
        Some(1)
    } else if code_matches(profile, at, 0x67, 0x58, 0x59, 0x5a) {
        Some(2)
    } else if code_matches(profile, at, 0x62, 0x58, 0x59, 0x5a) {
        Some(3)
    } else if code_matches(profile, at, 0x72, 0x54, 0x52, 0x43) {
        Some(4)
    } else if code_matches(profile, at, 0x67, 0x54, 0x52, 0x43) {
        Some(5)
    } else if code_matches(profile, at, 0x62, 0x54, 0x52, 0x43) {
        Some(6)
    } else {
        None
    }
}

/// Where entry `index` of the tag table starts.
pub open spec fn icc_entry(index: int) -> int {
    132 + index * 12
}

/// The tags by slot (see `icc_tag_slot`), as (offset, size), after the first
/// `count` entries of the tag table of a profile of `declared` bytes, or the
/// message of the first entry that is refused. A later entry of a slot replaces
/// an earlier one.
pub open spec fn icc_tags_after(p: Seq<u8>, declared: int, count: nat) -> Result<Seq<Option<(usize, usize)>>, Seq<char>>
    decreases count,
{
    if count == 0 {
        Ok(Seq::new(7, |i: int| None))
    } else {
        match icc_tags_after(p, declared, (count - 1) as nat) {
            Err(message) => Err(message),
            Ok(tags) => {
                let entry = icc_entry(count - 1);
                let offset = be_uint(p, entry + 4, 4);
                let size = be_uint(p, entry + 8, 4);
                if offset + size > usize::MAX {
                    Err("ICC profile tag overflows"@)
                } else if offset < 132 || offset + size > declared || size < 8 {
                    Err("ICC profile tag is outside the profile"@)
                } else {
                    match icc_tag_slot(p, entry) {
                        Some(slot) => Ok(tags.update(slot, Some((offset as usize, size as usize)))),
                        None => Ok(tags),
                    }
                }
            },
        }
    }
}

/// The signature of the tag kept in each slot: `wtpt`, `rXYZ`, `gXYZ`, `bXYZ`,
/// `rTRC`, `gTRC`, `bTRC`.
pub open spec fn icc_slot_signature(slot: int) -> Seq<u8> {
    seq![
        seq![0x77u8, 0x74u8, 0x70u8, 0x74u8],
        seq![0x72u8, 0x58u8, 0x59u8, 0x5au8],
        seq![0x67u8, 0x58u8, 0x59u8, 0x5au8],
        seq![0x62u8, 0x58u8, 0x59u8, 0x5au8],
        seq![0x72u8, 0x54u8, 0x52u8, 0x43u8],
        seq![0x67u8, 0x54u8, 0x52u8, 0x43u8],
        seq![0x62u8, 0x54u8, 0x52u8, 0x43u8],
    ][slot]
}

/// Whether the four bytes of `p` at `at` are `signature`.
pub open spec fn signature_at(p: Seq<u8>, at: int, signature: Seq<u8>) -> bool {
    p[at] == signature[0] && p[at + 1] == signature[1] && p[at + 2] == signature[2] && p[at + 3] == signature[3]
}

/// A tag lands in the slot whose signature it carries, and a tag whose signature
/// is none of the seven lands in no slot.
pub proof fn lemma_icc_tag_slots(p: Seq<u8>, at: int)
    ensures
        forall|slot: int|
            0 <= slot < 7 && #[trigger] signature_at(p, at, icc_slot_signature(slot)) ==> icc_tag_slot(p, at) == Some(slot),
        (forall|slot: int| 0 <= slot < 7 ==> !#[trigger] signature_at(p, at, icc_slot_signature(slot))) ==> icc_tag_slot(
            p,
            at,
        ) is None,
        icc_tag_slot(p, at) matches Some(slot) ==> 0 <= slot < 7 && signature_at(p, at, icc_slot_signature(slot)),
{
    assert(icc_slot_signature(0) == seq![0x77u8, 0x74u8, 0x70u8, 0x74u8]);
    assert(icc_slot_signature(1) == seq![0x72u8, 0x58u8, 0x59u8, 0x5au8]);
    assert(icc_slot_signature(2) == seq![0x67u8, 0x58u8, 0x59u8, 0x5au8]);
    assert(icc_slot_signature(3) == seq![0x62u8, 0x58u8, 0x59u8, 0x5au8]);
    assert(icc_slot_signature(4) == seq![0x72u8, 0x54u8, 0x52u8, 0x43u8]);
    assert(icc_slot_signature(5) == seq![0x67u8, 0x54u8, 0x52u8, 0x43u8]);
    assert(icc_slot_signature(6) == seq![0x62u8, 0x54u8, 0x52u8, 0x43u8]);
    assert forall|slot: int|
        0 <= slot < 7 && #[trigger] signature_at(p, at, icc_slot_signature(slot)) implies icc_tag_slot(p, at) == Some(
        slot,
    ) by {
        if slot == 0 {
        } else if slot == 1 {
        } else if slot == 2 {
        } else if slot == 3 {
        } else if slot == 4 {
        } else if slot == 5 {
        } else {
        }
    }
    if icc_tag_slot(p, at) is Some {
        let slot = icc_tag_slot(p, at)->Some_0;
        if slot == 0 {
            assert(signature_at(p, at, icc_slot_signature(0)));
        } else if slot == 1 {
            assert(signature_at(p, at, icc_slot_signature(1)));
        } else if slot == 2 {
            assert(signature_at(p, at, icc_slot_signature(2)));
        } else if slot == 3 {
            assert(signature_at(p, at, icc_slot_signature(3)));
        } else if slot == 4 {
            assert(signature_at(p, at, icc_slot_signature(4)));
        } else if slot == 5 {
            assert(signature_at(p, at, icc_slot_signature(5)));
        } else {
            assert(signature_at(p, at, icc_slot_signature(6)));
        }
    }
}

/// The offset and the size that entry `index` of the tag table declares.
pub open spec fn icc_entry_tag(p: Seq<u8>, index: int) -> (usize, usize) {
    (be_uint(p, icc_entry(index) + 4, 4) as usize, be_uint(p, icc_entry(index) + 8, 4) as usize)
}

proof fn lemma_tags_after_slot(p: Seq<u8>, declared: int, count: nat, slot: int)
    requires
        icc_tags_after(p, declared, count) is Ok,
        0 <= slot < 7,
    ensures
        icc_tags_after(p, declared, count)->Ok_0.len() == 7,
        (forall|k: int| 0 <= k < count ==> !#[trigger] signature_at(p, icc_entry(k), icc_slot_signature(slot)))
            ==> icc_tags_after(p, declared, count)->Ok_0[slot] is None,
        forall|k: int|
            0 <= k < count && #[trigger] signature_at(p, icc_entry(k), icc_slot_signature(slot)) && (forall|j: int|
                k < j < count ==> !#[trigger] signature_at(p, icc_entry(j), icc_slot_signature(slot)))
                ==> icc_tags_after(p, declared, count)->Ok_0[slot] == Some(icc_entry_tag(p, k)),
    decreases count,
{
    if count > 0 {
        let last = count - 1;
        lemma_tags_after_slot(p, declared, last as nat, slot);
        lemma_icc_tag_slots(p, icc_entry(last));
        let before = icc_tags_after(p, declared, last as nat)->Ok_0;
        let after = icc_tags_after(p, declared, count)->Ok_0;
        if signature_at(p, icc_entry(last), icc_slot_signature(slot)) {
            assert(after[slot] == Some(icc_entry_tag(p, last)));
        } else {
            assert(after[slot] == before[slot]);
            assert forall|k: int|
                0 <= k < count && #[trigger] signature_at(p, icc_entry(k), icc_slot_signature(slot)) && (forall|j: int|
                    k < j < count ==> !#[trigger] signature_at(p, icc_entry(j), icc_slot_signature(slot)))
                    implies after[slot] == Some(icc_entry_tag(p, k)) by {
                assert(k < last);
            }
        }
    }
}

/// The tag table keeps, in the slot of each signature, the offset and size of the
/// last entry that carries that signature, and nothing where no entry carries it.
pub proof fn lemma_icc_tag_table_slots(p: Seq<u8>, slot: int)
    requires
        icc_tag_table(p) is Ok,
        0 <= slot < 7,
    ensures
        ({
            let count = be_uint(p, 128, 4);
            let tags = icc_tag_table(p)->Ok_0.1;
            &&& tags.len() == 7
            &&& (forall|k: int| 0 <= k < count ==> !#[trigger] signature_at(p, icc_entry(k), icc_slot_signature(slot)))
                ==> tags[slot] is None
            &&& forall|k: int|
                0 <= k < count && #[trigger] signature_at(p, icc_entry(k), icc_slot_signature(slot)) && (forall|j: int|
                    k < j < count ==> !#[trigger] signature_at(p, icc_entry(j), icc_slot_signature(slot)))
                    ==> tags[slot] == Some(icc_entry_tag(p, k))
        }),
{
    let declared = be_uint(p, 0, 4);
    let count = be_uint(p, 128, 4);
    crate::container::bytes::lemma_be_uint_bounds(p, 128, 4);
    assert(icc_tags_after(p, declared, count as nat) is Ok);
    assert(icc_tag_table(p)->Ok_0.1 == icc_tags_after(p, declared, count as nat)->Ok_0);
    lemma_tags_after_slot(p, declared, count as nat, slot);
}

/// A raw 32-bit field reads as the one `i32` value congruent to it modulo 2^32.
pub proof fn lemma_s15_fixed16(raw: int)
    requires
        0 <= raw < 0x1_0000_0000,
    ensures
        i32::MIN <= s15_fixed16(raw) <= i32::MAX,
        s15_fixed16(raw) == raw || s15_fixed16(raw) == raw - 0x1_0000_0000,
{
}

proof fn lemma_tags_error_persists(p: Seq<u8>, declared: int, count: nat, later: nat)
    requires
        count <= later,
        icc_tags_after(p, declared, count) is Err,
    ensures
        icc_tags_after(p, declared, later) == icc_tags_after(p, declared, count),
    decreases later - count,
{
    if count < later {
        lemma_tags_error_persists(p, declared, count, (later - 1) as nat);
    }
}

/// The declared size and the tags of a matrix/shaper profile, or the message of
/// the first check it fails: the header holds 132 bytes, the declared size lies
/// between 132 and the profile's length, the device class is `mntr` or `prtr`,
/// the colour spaces are `RGB ` and `XYZ `, and the tag table and each of its
/// tags lie within the declared size.
pub open spec fn icc_tag_table(p: Seq<u8>) -> Result<(int, Seq<Option<(usize, usize)>>), Seq<char>> {
    if p.len() < 132 {
        Err("ICC profile header is truncated"@)
    } else {
        let declared = be_uint(p, 0, 4);
        let count = be_uint(p, 128, 4);
        if declared < 132 || declared > p.len() {
            Err("ICC profile size is invalid"@)
        } else if !code_at(p, 12, 0x6d, 0x6e, 0x74, 0x72) && !code_at(p, 12, 0x70, 0x72, 0x74, 0x72) {
            Err("ICC profile device class is not supported"@)
        } else if !code_at(p, 16, 0x52, 0x47, 0x42, 0x20) || !code_at(p, 20, 0x58, 0x59, 0x5a, 0x20) {
            Err("ICC profile colour space is not RGB/XYZ"@)
        } else if count * 12 > usize::MAX {
            Err("ICC profile tag table is too large"@)
        } else if 132 + count * 12 > usize::MAX {
            Err("ICC profile tag table overflows"@)
        } else if 132 + count * 12 > declared {
            Err("ICC profile tag table is truncated"@)
        } else {
            match icc_tags_after(p, declared, count as nat) {
                Ok(tags) => Ok((declared, tags)),
                Err(message) => Err(message),
            }
        }
    }
}

/// The declared size and the tags of a matrix/shaper profile, by slot: `wtpt`,
/// `rXYZ`, `gXYZ`, `bXYZ`, `rTRC`, `gTRC`, `bTRC`.
#[derive(Debug, Clone, Copy, PartialEq, Eq)]
pub struct IccTagTable {
    pub declared_size: usize,
    pub tags: [Option<(usize, usize)>; 7],
}

/// Whether every tag of `tags` lies within the first `declared` bytes, past the
/// header, and holds at least 8 bytes.
pub open spec fn tags_within(tags: Seq<Option<(usize, usize)>>, declared: int) -> bool {
    forall|slot: int|
        0 <= slot < tags.len() && #[trigger] tags[slot] is Some ==> {
            let (offset, size) = tags[slot]->Some_0;
            132 <= offset && offset + size <= declared && size >= 8
        }
}

/// Reads the header and the tag table of a matrix/shaper profile.
pub fn parse_icc_tag_table(profile: &[u8]) -> (result: Result<IccTagTable, DecoderError>)
    ensures
        match result {
            Ok(table) => {
                &&& icc_tag_table(profile@) == Ok::<(int, Seq<Option<(usize, usize)>>), Seq<char>>(
                    (table.declared_size as int, table.tags@),
                )
                &&& table.declared_size <= profile@.len()
                &&& tags_within(table.tags@, table.declared_size as int)
            },
            Err(error) => icc_tag_table(profile@) is Err && icc_error(error, icc_tag_table(profile@)->Err_0),
        },
{
    if profile.len() < 132 {
        return Err(unsupported("ICC profile header is truncated"));
    }
    let declared_size = icc_u32(profile, 0)? as usize;
    if declared_size < 132 || declared_size > profile.len() {
        return Err(unsupported("ICC profile size is invalid"));
    }
    if !code_matches(profile, 12, 0x6d, 0x6e, 0x74, 0x72) && !code_matches(profile, 12, 0x70, 0x72, 0x74, 0x72) {
        return Err(unsupported("ICC profile device class is not supported"));
    }
    if !code_matches(profile, 16, 0x52, 0x47, 0x42, 0x20) || !code_matches(profile, 20, 0x58, 0x59, 0x5a, 0x20) {
        return Err(unsupported("ICC profile colour space is not RGB/XYZ"));
    }
    let tag_count = icc_u32(profile, 128)? as usize;
    let table_bytes = match tag_count.checked_mul(12) {
        Some(bytes) => bytes,
        None => return Err(unsupported("ICC profile tag table is too large")),
    };
    let table_end = match 132usize.checked_add(table_bytes) {
        Some(end) => end,
        None => return Err(unsupported("ICC profile tag table overflows")),
    };
    if table_end > declared_size {
        return Err(unsupported("ICC profile tag table is truncated"));
    }
    let ghost p = profile@;
    let mut tags: [Option<(usize, usize)>; 7] = [None; 7];
    proof {
        assert(tags@ =~= Seq::new(7, |i: int| None::<(usize, usize)>));
    }
    let mut index: usize = 0;
    while index < tag_count
        invariant
            p == profile@,
            index <= tag_count,
            tag_count == be_uint(p, 128, 4),
            132 + tag_count * 12 <= declared_size,
            declared_size <= p.len(),
            declared_size >= 132,
            declared_size == be_uint(p, 0, 4),
            icc_tag_table(p) == match icc_tags_after(p, declared_size as int, tag_count as nat) {
                Ok(t) => Ok::<(int, Seq<Option<(usize, usize)>>), Seq<char>>((declared_size as int, t)),
                Err(m) => Err(m),
            },
            icc_tags_after(p, declared_size as int, index as nat) == Ok::<Seq<Option<(usize, usize)>>, Seq<char>>(tags@),
            tags_within(tags@, declared_size as int),
        decreases tag_count - index,
    {
        assert(index * 12 + 12 <= tag_count * 12) by (nonlinear_arith)
            requires
                index < tag_count,
        ;
        let entry = 132 + index * 12;
        let offset = icc_u32(profile, entry + 4)? as usize;
        let size = icc_u32(profile, entry + 8)? as usize;
        let end = match offset.checked_add(size) {
            Some(end) => end,
            None => {
                proof {
                    assert(icc_entry(index as int) == entry);
                    lemma_tags_error_persists(p, declared_size as int, (index + 1) as nat, tag_count as nat);
                }
                return Err(unsupported("ICC profile tag overflows"));
            },
        };
        assert(icc_entry(index as int) == entry);
        if offset < 132 || end > declared_size || size < 8 {
            proof {
                lemma_tags_error_persists(p, declared_size as int, (index + 1) as nat, tag_count as nat);
            }
            return Err(unsupported("ICC profile tag is outside the profile"));
        }
        let ghost before = tags@;
        match tag_slot(profile, entry) {
            Some(slot) => {
                tags[slot] = Some((offset, size));
                proof {
                    assert(tags@ =~= before.update(slot as int, Some((offset, size))));
                }
            },
            None => {},
        }
        index = index + 1;
    }
    Ok(IccTagTable { declared_size, tags })
}

/// The three values of an XYZ tag at `offset` of `size` bytes (its `s15Fixed16`
/// numbers times 65536), or the message of the first check it fails: the tag holds
/// 20 bytes and starts with `XYZ `.
pub open spec fn icc_xyz(p: Seq<u8>, offset: int, size: int) -> Result<Seq<int>, Seq<char>> {
    if size < 20 || !code_at(p, offset, 0x58, 0x59, 0x5a, 0x20) {
        Err("ICC XYZ tag is invalid"@)
    } else if !fits(p, offset + 8, 12) {
        Err(truncated_field())
    } else {
        Ok(
            seq![
                s15_fixed16(be_uint(p, offset + 8, 4)),
                s15_fixed16(be_uint(p, offset + 12, 4)),
                s15_fixed16(be_uint(p, offset + 16, 4)),
            ],
        )
    }
}

/// Reads an XYZ tag, given as (offset, size), into its three `s15Fixed16`
/// numbers times 65536.
pub fn read_icc_xyz(profile: &[u8], tag: (usize, usize)) -> (result: Result<[i32; 3], DecoderError>)
    requires
        tag.1 < 20 || (tag.0 + 4 <= profile@.len() && tag.0 + 20 <= usize::MAX),
    ensures
        match result {
            Ok(xyz) => icc_xyz(profile@, tag.0 as int, tag.1 as int) == Ok::<Seq<int>, Seq<char>>(
                seq![xyz[0] as int, xyz[1] as int, xyz[2] as int],
            ),
            Err(error) => icc_xyz(profile@, tag.0 as int, tag.1 as int) is Err && icc_error(
                error,
                icc_xyz(profile@, tag.0 as int, tag.1 as int)->Err_0,
            ),
        },
{
    let (offset, size) = tag;
    if size < 20 || !code_matches(profile, offset, 0x58, 0x59, 0x5a, 0x20) {
        return Err(unsupported("ICC XYZ tag is invalid"));
    }
    let x = signed_field(icc_u32(profile, offset + 8)?);
    let y = signed_field(icc_u32(profile, offset + 12)?);
    let z = signed_field(icc_u32(profile, offset + 16)?);
    Ok([x, y, z])
}

/// A tone curve as a profile stores it.
#[derive(Debug, Clone, PartialEq, Eq)]
pub enum IccCurve {
    /// The identity curve.
    Identity,
    /// A pure power curve, its exponent a `u8Fixed8Number` (times 256).
    Gamma(u16),
    /// A lookup table of 16-bit samples spread evenly over the input range.
    Table(Vec<u16>),
    /// A parametric curve: its function type and its `s15Fixed16` parameters
    /// (times 65536), those past the function's count zero.
    Parametric { function: u16, parameters: [i32; 7] },
}

/// What a tone curve holds, over plain numbers.
pub enum IccCurveShape {
    Identity,
    Gamma(int),
    Table(Seq<int>),
    Parametric(int, Seq<int>),
}

impl IccCurve {
    /// What the curve holds, over plain numbers.
    pub open spec fn shape(self) -> IccCurveShape {
        match self {
            IccCurve::Identity => IccCurveShape::Identity,
            IccCurve::Gamma(gamma) => IccCurveShape::Gamma(gamma as int),
            IccCurve::Table(table) => IccCurveShape::Table(table@.map_values(|v: u16| v as int)),
            IccCurve::Parametric { function, parameters } => IccCurveShape::Parametric(
                function as int,
                parameters@.map_values(|v: i32| v as int),
            ),
        }
    }
}

/// How many parameters the parametric function type `function` takes.
pub open spec fn parametric_count(function: int) -> Option<int> {
    if function == 0 {
        Some(1)
    } else if function == 1 {
        Some(3)
    } else if function == 2 {
        Some(4)
    } else if function == 3 {
        Some(5)
    } else if function == 4 {
        Some(7)
    } else {
        None
    }
}

/// The parametric curve of a `para` tag at `offset` of `size` bytes, or the
/// message of the first check it fails.
pub open spec fn icc_parametric(p: Seq<u8>, offset: int, size: int) -> Result<IccCurveShape, Seq<char>> {
    if !fits(p, offset + 8, 2) {
        Err(truncated_field())
    } else {
        let function = be_uint(p, offset + 8, 2);
        match parametric_count(function) {
            None => Err(
                "ICC parametric tone curve function "@ + decimal_spec(function as nat) + " is not supported"@,
            ),
            Some(count) => if size < 12 + 4 * count {
                Err("ICC parametric tone curve is truncated"@)
            } else if !fits(p, offset + 12, 4 * count) {
                Err(truncated_field())
            } else {
                let parameters = Seq::new(
                    7,
                    |i: int|
                        if i < count {
                            s15_fixed16(be_uint(p, offset + 12 + 4 * i, 4))
                        } else {
                            0
                        },
                );
                if (function == 1 || function == 2) && parameters[1] == 0 {
                    Err("ICC parametric tone curve has a zero division coefficient"@)
                } else {
                    Ok(IccCurveShape::Parametric(function, parameters))
                }
            },
        }
    }
}

/// The tone curve of a tag at `offset` of `size` bytes, or the message of the
/// first check it fails: a `curv` tag with no entry is the identity, with one
/// entry (and room for it) a power curve, with more a lookup table of at most
/// 65536 entries; a `para` tag is a parametric curve.
pub open spec fn icc_curve(p: Seq<u8>, offset: int, size: int) -> Result<IccCurveShape, Seq<char>> {
    if size < 12 {
        Err("ICC tone curve tag is truncated"@)
    } else if !fits(p, offset, 4) {
        Err("ICC tone curve tag is outside the profile"@)
    } else if code_at(p, offset, 0x70, 0x61, 0x72, 0x61) {
        icc_parametric(p, offset, size)
    } else if !code_at(p, offset, 0x63, 0x75, 0x72, 0x76) {
        Err("ICC tone curve is not a supported curv/para tag"@)
    } else if !fits(p, offset + 8, 4) {
        Err(truncated_field())
    } else {
        let count = be_uint(p, offset + 8, 4);
        if count == 0 {
            Ok(IccCurveShape::Identity)
        } else if count == 1 && size >= 14 {
            if !fits(p, offset + 12, 2) {
                Err(truncated_field())
            } else {
                Ok(IccCurveShape::Gamma(be_uint(p, offset + 12, 2)))
            }
        } else if count > 65536 {
            Err("ICC tone curve lookup table is too large"@)
        } else if size < 12 + 2 * count {
            Err("ICC tone curve lookup table is truncated"@)
        } else if !fits(p, offset + 12, 2 * count) {
            Err(truncated_field())
        } else {
            Ok(IccCurveShape::Table(Seq::new(count as nat, |i: int| be_uint(p, offset + 12 + 2 * i, 2))))
        }
    }
}

fn read_parametric_curve(profile: &[u8], offset: usize, size: usize) -> (result: Result<IccCurve, DecoderError>)
    requires
        size >= 12,
        offset + size <= usize::MAX,
    ensures
        match result {
            Ok(curve) => icc_parametric(profile@, offset as int, size as int) == Ok::<IccCurveShape, Seq<char>>(
                curve.shape(),
            ),
            Err(error) => icc_parametric(profile@, offset as int, size as int) is Err && icc_error(
                error,
                icc_parametric(profile@, offset as int, size as int)->Err_0,
            ),
        },
{
    let ghost p = profile@;
    let function = icc_u16(profile, offset + 8)?;
    let count: usize = if function == 0 {
        1
    } else if function == 1 {
        3
    } else if function == 2 {
        4
    } else if function == 3 {
        5
    } else if function == 4 {
        7
    } else {
        let text = concat("ICC parametric tone curve function ", decimal(function as u64).as_str());
        return Err(unsupported(concat(text.as_str(), " is not supported").as_str()));
    };
    if size < 12 + count * 4 {
        return Err(unsupported("ICC parametric tone curve is truncated"));
    }
    let mut parameters = [0i32; 7];
    let mut index: usize = 0;
    while index < count
        invariant
            p == profile@,
            count <= 7,
            parametric_count(function as int) == Some(count as int),
            12 + count * 4 <= size,
            offset + size <= usize::MAX,
            index <= count,
            index > 0 ==> fits(p, offset + 12, 4 * index),
            fits(p, offset + 8, 2),
            function == be_uint(p, offset + 8, 2),
            forall|i: int| 0 <= i < index ==> #[trigger] parameters@[i] as int == s15_fixed16(be_uint(p, offset + 12 + 4 * i, 4)),
            forall|i: int| index <= i < 7 ==> #[trigger] parameters@[i] == 0,
        decreases count - index,
    {
        let raw = match icc_u32(profile, offset + 12 + index * 4) {
            Ok(raw) => raw,
            Err(error) => {
                assert(!fits(p, offset + 12, 4 * count));
                return Err(error);
            },
        };
        parameters[index] = signed_field(raw);
        index = index + 1;
    }
    let ghost expected = Seq::new(
        7,
        |i: int|
            if i < count {
                s15_fixed16(be_uint(p, offset + 12 + 4 * i, 4))
            } else {
                0
            },
    );
    assert(parameters@.map_values(|v: i32| v as int) =~= expected);
    if (function == 1 || function == 2) && parameters[1] == 0 {
        assert(expected[1] == 0);
        return Err(unsupported("ICC parametric tone curve has a zero division coefficient"));
    }
    Ok(IccCurve::Parametric { function, parameters })
}

/// Reads a tone-curve tag, given as (offset, size).
pub fn read_icc_curve(profile: &[u8], tag: (usize, usize)) -> (result: Result<IccCurve, DecoderError>)
    requires
        tag.1 < 12 || tag.0 + tag.1 <= usize::MAX,
    ensures
        match result {
            Ok(curve) => icc_curve(profile@, tag.0 as int, tag.1 as int) == Ok::<IccCurveShape, Seq<char>>(
                curve.shape(),
            ),
            Err(error) => icc_curve(profile@, tag.0 as int, tag.1 as int) is Err && icc_error(
                error,
                icc_curve(profile@, tag.0 as int, tag.1 as int)->Err_0,
            ),
        },
{
    let ghost p = profile@;
    let (offset, size) = tag;
    if size < 12 {
        return Err(unsupported("ICC tone curve tag is truncated"));
    }
    if offset + 4 > profile.len() {
        return Err(unsupported("ICC tone curve tag is outside the profile"));
    }
    if code_matches(profile, offset, 0x70, 0x61, 0x72, 0x61) {
        return read_parametric_curve(profile, offset, size);
    }
    if !code_matches(profile, offset, 0x63, 0x75, 0x72, 0x76) {
        return Err(unsupported("ICC tone curve is not a supported curv/para tag"));
    }
    let count = icc_u32(profile, offset + 8)?;
    if count == 0 {
        return Ok(IccCurve::Identity);
    }
    if count == 1 && size >= 14 {
        let gamma = icc_u16(profile, offset + 12)?;
        return Ok(IccCurve::Gamma(gamma));
    }
    if count > 65536 {
        return Err(unsupported("ICC tone curve lookup table is too large"));
    }
    let count = count as usize;
    if size < 12 + count * 2 {
        return Err(unsupported("ICC tone curve lookup table is truncated"));
    }
    let mut table: Vec<u16> = Vec::new();
    let mut index: usize = 0;
    while index < count
        invariant
            p == profile@,
            count <= 65536,
            12 + count * 2 <= size,
            offset + size <= usize::MAX,
            index <= count,
            table@.len() == index,
            index > 0 ==> fits(p, offset + 12, 2 * index),
            tag.0 == offset,
            tag.1 == size,
            fits(p, offset as int, 4),
            !code_at(p, offset as int, 0x70, 0x61, 0x72, 0x61),
            code_at(p, offset as int, 0x63, 0x75, 0x72, 0x76),
            fits(p, offset + 8, 4),
            count == be_uint(p, offset + 8, 4),
            count != 0,
            !(count == 1 && size >= 14),
            forall|i: int| 0 <= i < index ==> #[trigger] table@[i] as int == be_uint(p, offset + 12 + 2 * i, 2),
        decreases count - index,
    {
        let value = match icc_u16(profile, offset + 12 + index * 2) {
            Ok(value) => value,
            Err(error) => {
                assert(!fits(p, offset + 12, 2 * count));
                return Err(error);
            },
        };
        table.push(value);
        index = index + 1;
    }
    let ghost expected = Seq::new(count as nat, |i: int| be_uint(p, offset + 12 + 2 * i, 2));
    assert(table@.map_values(|v: u16| v as int) =~= expected);
    Ok(IccCurve::Table(table))
}

/// The tag that `tag` holds, or the error that names `name` as missing.
pub fn required_icc_tag(tag: Option<(usize, usize)>, name: &str) -> (result: Result<(usize, usize), DecoderError>)
    ensures
        match result {
            Ok(found) => tag == Some(found),
            Err(error) => tag is None && icc_error(error, "ICC profile tag "@ + name@ + " is missing"@),
        },
{
    match tag {
        Some(found) => Ok(found),
        None => {
            let text = concat("ICC profile tag ", name);
            Err(unsupported(concat(text.as_str(), " is missing").as_str()))
        },
    }
}

/// The XYZ values are read in order from the three 4-byte fields that follow the
/// tag's 8-byte head.
pub proof fn lemma_icc_xyz_fields(p: Seq<u8>, offset: int, size: int)
    ensures
        icc_xyz(p, offset, size) matches Ok(values) ==> {
            &&& size >= 20
            &&& signature_at(p, offset, seq![0x58u8, 0x59u8, 0x5au8, 0x20u8])
            &&& values.len() == 3
            &&& forall|i: int| 0 <= i < 3 ==> #[trigger] values[i] == s15_fixed16(be_uint(p, offset + 8 + 4 * i, 4))
        },
{
}

/// What each form of tone curve holds, in terms of the tag's bytes: `curv` with
/// count 0 is the identity, with count 1 (and room for it) a power curve read from
/// the 2 bytes after the count, with a larger count a table of that many 2-byte
/// samples; `para` gives its function type from bytes 8..10 and, for the function
/// types 0 to 4, 1, 3, 4, 5 and 7 parameters, the rest zero; the function types
/// 1 and 2, which divide by their second parameter, never have it zero.
pub proof fn lemma_icc_curve_forms(p: Seq<u8>, offset: int, size: int)
    ensures
        icc_curve(p, offset, size) is Ok ==> size >= 12 && offset + 4 <= p.len() && (signature_at(
            p,
            offset,
            seq![0x63u8, 0x75u8, 0x72u8, 0x76u8],
        ) || signature_at(p, offset, seq![0x70u8, 0x61u8, 0x72u8, 0x61u8])),
        icc_curve(p, offset, size) matches Ok(IccCurveShape::Identity) ==> be_uint(p, offset + 8, 4) == 0,
        icc_curve(p, offset, size) matches Ok(IccCurveShape::Gamma(g)) ==> be_uint(p, offset + 8, 4) == 1 && g == be_uint(
            p,
            offset + 12,
            2,
        ),
        icc_curve(p, offset, size) matches Ok(IccCurveShape::Table(samples)) ==> {
            &&& samples.len() == be_uint(p, offset + 8, 4)
            &&& 2 <= samples.len() <= 65536
            &&& forall|i: int| 0 <= i < samples.len() ==> #[trigger] samples[i] == be_uint(p, offset + 12 + 2 * i, 2)
        },
        icc_curve(p, offset, size) matches Ok(IccCurveShape::Parametric(function, parameters)) ==> {
            let counts = seq![1int, 3int, 4int, 5int, 7int];
            &&& signature_at(p, offset, seq![0x70u8, 0x61u8, 0x72u8, 0x61u8])
            &&& function == be_uint(p, offset + 8, 2)
            &&& 0 <= function <= 4
            &&& parameters.len() == 7
            &&& forall|i: int| 0 <= i < counts[function] ==> #[trigger] parameters[i] == s15_fixed16(
                be_uint(p, offset + 12 + 4 * i, 4),
            )
            &&& forall|i: int| counts[function] <= i < 7 ==> #[trigger] parameters[i] == 0
            &&& (function == 1 || function == 2) ==> parameters[1] != 0
        },
{
    if icc_curve(p, offset, size) is Ok && fits(p, offset + 8, 2) && code_at(p, offset, 0x70, 0x61, 0x72, 0x61) {
        crate::container::bytes::lemma_be_uint_bounds(p, offset + 8, 2);
    }
    if icc_curve(p, offset, size) is Ok && fits(p, offset + 8, 4) {
        crate::container::bytes::lemma_be_uint_bounds(p, offset + 8, 4);
    }
}

/// A profile whose tag table is read has a full 132-byte header, declares a size
/// between 132 and its length, has the device class `mntr` or `prtr`, the colour
/// spaces `RGB ` and `XYZ `, and a tag table that ends within the declared size.
pub proof fn lemma_icc_header(p: Seq<u8>)
    ensures
        icc_tag_table(p) matches Ok((declared, tags)) ==> {
            let count = be_uint(p, 128, 4);
            &&& p.len() >= 132
            &&& declared == be_uint(p, 0, 4)
            &&& 132 <= declared <= p.len()
            &&& signature_at(p, 12, seq![0x6du8, 0x6eu8, 0x74u8, 0x72u8]) || signature_at(
                p,
                12,
                seq![0x70u8, 0x72u8, 0x74u8, 0x72u8],
            )
            &&& signature_at(p, 16, seq![0x52u8, 0x47u8, 0x42u8, 0x20u8])
            &&& signature_at(p, 20, seq![0x58u8, 0x59u8, 0x5au8, 0x20u8])
            &&& 132 + count * 12 <= declared
        },
{
}

} // verus!
