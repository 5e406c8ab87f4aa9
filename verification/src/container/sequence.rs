//! AVIS image sequences: sample tables and per-sample frame classification.
use vstd::prelude::*;
use crate::container::boxes::{
    box_extent, box_payload, boxes_fail, boxes_tile, child_box, child_boxes, first_box_of_type, header_within,
    lemma_reach_follows_tiling, lemma_tile_progress_next, lemma_tile_progress_start, lemma_tile_progress_step,
    lemma_tiling_does_not_fail, no_box_of_type, read_box_header, same_box, tile_progress, BoxHeader,
};
use crate::container::bytes::{addressable, be_uint, checked_add, fits, read_u32, read_u64};
use crate::container::properties::{code4, fourcc_code, fourcc_eq};
use crate::container::types::{AvifSequenceSampleInfo, AvifSequenceSampleKind};
use crate::error::{DecoderError, ErrorKind};
use crate::obu::{obu_stream, obus_view, parse_obu_stream, ObuType};

verus! {

/// The frame kind that the first byte of a frame header announces:
/// `show_existing_frame` (top bit) with the frame slot in the next three bits, or
/// the two-bit `frame_type`.
pub open spec fn frame_kind_spec(first: u8) -> AvifSequenceSampleKind {
    if first >= 128 {
        AvifSequenceSampleKind::ShowExisting { frame_to_show_map_idx: ((first / 16) % 8) as u8 }
    } else if (first / 32) % 4 == 0 {
        AvifSequenceSampleKind::Key
    } else if (first / 32) % 4 == 1 {
        AvifSequenceSampleKind::Inter
    } else if (first / 32) % 4 == 2 {
        AvifSequenceSampleKind::IntraOnly
    } else {
        AvifSequenceSampleKind::Switch
    }
}

/// The frame kind that the first byte of a frame header announces.
pub fn frame_kind(first: u8) -> (kind: AvifSequenceSampleKind)
    ensures
        kind == frame_kind_spec(first),
{
    if first >= 128 {
        return AvifSequenceSampleKind::ShowExisting { frame_to_show_map_idx: (first / 16) % 8 };
    }
    let frame_type = (first / 32) % 4;
    if frame_type == 0 {
        AvifSequenceSampleKind::Key
    } else if frame_type == 1 {
        AvifSequenceSampleKind::Inter
    } else if frame_type == 2 {
        AvifSequenceSampleKind::IntraOnly
    } else {
        AvifSequenceSampleKind::Switch
    }
}

/// Whether an OBU carries a frame header (a `Frame` or a `FrameHeader`).
pub open spec fn is_frame_obu(obu_type: ObuType) -> bool {
    obu_type == ObuType::Frame || obu_type == ObuType::FrameHeader
}

/// Whether the OBUs include a sequence header.
pub open spec fn has_sequence_header_obu(obus: Seq<(ObuType, Seq<u8>)>) -> bool {
    exists|i: int| 0 <= i < obus.len() && (#[trigger] obus[i]).0 == ObuType::SequenceHeader
}

/// The position of the first OBU at or after `k` that carries a frame header.
pub open spec fn first_frame_obu(obus: Seq<(ObuType, Seq<u8>)>, k: int) -> Option<int>
    decreases obus.len() - k,
{
    if k < 0 || k >= obus.len() {
        None
    } else if is_frame_obu(obus[k].0) {
        Some(k)
    } else {
        first_frame_obu(obus, k + 1)
    }
}

/// What inspecting a sample gives: the OBU stream's error; an empty first frame
/// header (not enough data); or whether a sequence header is present and the kind
/// that the first frame header's first byte announces, if there is a frame header.
pub open spec fn sample_outcome(payload: Seq<u8>) -> Result<AvifSequenceSampleInfo, ErrorKind> {
    match obu_stream(payload, 0) {
        Err(kind) => Err(kind),
        Ok(obus) => match first_frame_obu(obus, 0) {
            None => Ok(AvifSequenceSampleInfo { kind: None, has_sequence_header: has_sequence_header_obu(obus) }),
            Some(f) => if obus[f].1.len() == 0 {
                Err(ErrorKind::NotEnoughData)
            } else {
                Ok(
                    AvifSequenceSampleInfo {
                        kind: Some(frame_kind_spec(obus[f].1[0])),
                        has_sequence_header: has_sequence_header_obu(obus),
                    },
                )
            },
        },
    }
}

/// Inspects one AVIS sample: whether it has a sequence header, and the kind of its
/// first coded frame (from the first byte of that frame's header).
pub fn inspect_av1_sequence_sample(payload: &[u8]) -> (result: Result<AvifSequenceSampleInfo, DecoderError>)
    ensures
        match result {
            Ok(info) => sample_outcome(payload@) == Ok::<AvifSequenceSampleInfo, ErrorKind>(info),
            Err(error) => sample_outcome(payload@) == Err::<AvifSequenceSampleInfo, ErrorKind>(error.kind()),
        },
        result is Err ==> result->Err_0.kind() == ErrorKind::NotEnoughData || result->Err_0.kind() == ErrorKind::Bitstream,
        (obu_stream(payload@, 0) matches Ok(obus) && (first_frame_obu(obus, 0) matches Some(f) && obus[f].1.len() == 0))
            ==> result is Err && result->Err_0.detail() == "AV1 frame header is empty"@,
{
    let obus = parse_obu_stream(payload)?;
    let ghost view = obus_view(obus@);
    let mut has_sequence_header = false;
    let mut k: usize = 0;
    while k < obus.len()
        invariant
            k <= obus@.len(),
            view == obus_view(obus@),
            has_sequence_header == exists|i: int| 0 <= i < k && (#[trigger] view[i]).0 == ObuType::SequenceHeader,
        decreases obus@.len() - k,
    {
        if obus[k].obu_type == ObuType::SequenceHeader {
            has_sequence_header = true;
            assert(view[k as int].0 == ObuType::SequenceHeader);
        }
        k = k + 1;
    }
    assert(has_sequence_header == has_sequence_header_obu(view));
    let mut f: usize = 0;
    while f < obus.len() && !(obus[f].obu_type == ObuType::Frame || obus[f].obu_type == ObuType::FrameHeader)
        invariant
            f <= obus@.len(),
            view == obus_view(obus@),
            first_frame_obu(view, 0) == first_frame_obu(view, f as int),
        decreases obus@.len() - f,
    {
        f = f + 1;
    }
    if f == obus.len() {
        return Ok(AvifSequenceSampleInfo { kind: None, has_sequence_header });
    }
    assert(first_frame_obu(view, 0) == Some(f as int));
    if obus[f].payload.len() == 0 {
        return Err(DecoderError::NotEnoughData("AV1 frame header is empty".to_string()));
    }
    let first = obus[f].payload[0];
    Ok(AvifSequenceSampleInfo { kind: Some(frame_kind(first)), has_sequence_header })
}

/// Classifies the first coded-frame OBU in one AVIS track sample.
pub fn classify_av1_sequence_sample(payload: &[u8]) -> (result: Result<Option<AvifSequenceSampleKind>, DecoderError>)
    ensures
        match result {
            Ok(kind) => sample_outcome(payload@) is Ok && sample_outcome(payload@)->Ok_0.kind == kind,
            Err(error) => sample_outcome(payload@) == Err::<AvifSequenceSampleInfo, ErrorKind>(error.kind()),
        },
        match result {
            Ok(Some(kind)) => exists|b: u8| kind == #[trigger] frame_kind_spec(b),
            Ok(None) => true,
            Err(error) => error.kind() == ErrorKind::NotEnoughData || error.kind() == ErrorKind::Bitstream,
        },
        (obu_stream(payload@, 0) matches Ok(obus) && (first_frame_obu(obus, 0) matches Some(f) && obus[f].1.len() == 0))
            ==> result is Err && result->Err_0.detail() == "AV1 frame header is empty"@,
{
    match inspect_av1_sequence_sample(payload) {
        Ok(info) => {
            proof {
                let obus = obu_stream(payload@, 0)->Ok_0;
                if let Some(f) = first_frame_obu(obus, 0) {
                    assert(info.kind == Some(frame_kind_spec(obus[f].1[0])));
                }
            }
            Ok(info.kind)
        },
        Err(error) => Err(error),
    }
}

/// Whether a sample carries a sequence header OBU.
pub fn sample_contains_sequence_header(sample: &[u8]) -> (result: Result<bool, DecoderError>)
    ensures
        match result {
            Ok(found) => obu_stream(sample@, 0) is Ok && found == has_sequence_header_obu(obu_stream(sample@, 0)->Ok_0),
            Err(error) => obu_stream(sample@, 0) == Err::<Seq<(ObuType, Seq<u8>)>, ErrorKind>(error.kind()),
        },
        result is Err ==> result->Err_0.kind() == ErrorKind::NotEnoughData || result->Err_0.kind() == ErrorKind::Bitstream,
{
    let obus = parse_obu_stream(sample)?;
    let ghost view = obus_view(obus@);
    let mut k: usize = 0;
    while k < obus.len()
        invariant
            k <= obus@.len(),
            view == obus_view(obus@),
            forall|i: int| 0 <= i < k ==> (#[trigger] view[i]).0 != ObuType::SequenceHeader,
            obu_stream(sample@, 0) == Ok::<Seq<(ObuType, Seq<u8>)>, ErrorKind>(view),
        decreases obus@.len() - k,
    {
        if obus[k].obu_type == ObuType::SequenceHeader {
            assert(view[k as int].0 == ObuType::SequenceHeader);
            return Ok(true);
        }
        k = k + 1;
    }
    Ok(false)
}

/// Whether two byte strings are equal.
pub fn bytes_equal(a: &[u8], b: &[u8]) -> (equal: bool)
    ensures
        equal == (a@ == b@),
{
    if a.len() != b.len() {
        return false;
    }
    let mut k: usize = 0;
    while k < a.len()
        invariant
            k <= a@.len(),
            a@.len() == b@.len(),
            forall|j: int| 0 <= j < k ==> a@[j] == b@[j],
        decreases a@.len() - k,
    {
        if a[k] != b[k] {
            return false;
        }
        k = k + 1;
    }
    assert(a@ =~= b@);
    true
}

/// A sample whose description differs from the first one must carry its own
/// sequence header.
pub fn validate_sequence_sample_description(description: &[u8], first_description: &[u8], sample: &[u8]) -> (result: Result<(), DecoderError>)
    ensures
        description@ == first_description@ ==> result is Ok,
        description@ != first_description@ ==> match obu_stream(sample@, 0) {
            Err(kind) => result is Err && result->Err_0.kind() == kind,
            Ok(obus) => if has_sequence_header_obu(obus) {
                result is Ok
            } else {
                result is Err && result->Err_0.kind() == ErrorKind::Unsupported
            },
        },
        result is Err && description@ != first_description@ ==> result->Err_0.kind() != ErrorKind::InvalidParam,
{
    if !bytes_equal(description, first_description) && !sample_contains_sequence_header(sample)? {
        return Err(DecoderError::Unsupported(
            "AVIS differing sample descriptions require a sequence header in each changed sample".to_string(),
        ));
    }
    Ok(())
}

/// Parses `stsz`: a uniform sample size and count, or one 32-bit size per sample.
pub fn parse_sample_sizes(payload: &[u8]) -> (result: Result<Vec<usize>, DecoderError>)
    ensures
        match result {
            Ok(sizes) => {
                let p = payload@;
                let size = be_uint(p, 4, 4);
                let count = be_uint(p, 8, 4);
                &&& p.len() >= 12
                &&& sizes@.len() == count
                &&& size != 0 ==> forall|i: int| 0 <= i < count ==> #[trigger] sizes@[i] == size
                &&& size == 0 ==> 12 + 4 * count <= p.len() && forall|i: int|
                    0 <= i < count ==> #[trigger] sizes@[i] == be_uint(p, 12 + 4 * i, 4)
            },
            Err(error) => {
                let p = payload@;
                if p.len() < 12 {
                    error.kind() == ErrorKind::NotEnoughData
                } else {
                    be_uint(p, 4, 4) == 0 && (12 + 4 * be_uint(p, 8, 4) > p.len() && error.kind()
                        == ErrorKind::NotEnoughData || 12 + 4 * be_uint(p, 8, 4) > usize::MAX && error.kind()
                        == ErrorKind::Bitstream)
                }
            },
        },
{
    if payload.len() < 12 {
        return Err(DecoderError::NotEnoughData("stsz payload is too short".to_string()));
    }
    let sample_size = read_u32(payload, 4)? as usize;
    let sample_count = read_u32(payload, 8)? as usize;
    if sample_size != 0 {
        let sizes = vec![sample_size; sample_count];
        proof {
            assert forall|i: int| 0 <= i < sample_count implies #[trigger] sizes@[i] == sample_size by {
                assert(cloned(sample_size, sizes@[i]));
            }
        }
        return Ok(sizes);
    }
    if sample_count > (usize::MAX - 12) / 4 {
        return Err(DecoderError::Bitstream("stsz sample count overflows usize".to_string()));
    }
    let end = 12 + sample_count * 4;
    if end > payload.len() {
        return Err(DecoderError::NotEnoughData("stsz entries are truncated".to_string()));
    }
    let mut sizes: Vec<usize> = Vec::new();
    let mut index: usize = 0;
    while index < sample_count
        invariant
            index <= sample_count,
            12 + 4 * sample_count <= payload@.len(),
            12 + 4 * sample_count <= usize::MAX,
            sizes@.len() == index,
            forall|i: int| 0 <= i < index ==> #[trigger] sizes@[i] == be_uint(payload@, 12 + 4 * i, 4),
        decreases sample_count - index,
    {
        proof {
            assert(index * 4 + 4 <= sample_count * 4) by (nonlinear_arith)
                requires
                    index < sample_count,
            ;
        }
        sizes.push(read_u32(payload, 12 + index * 4)? as usize);
        index = index + 1;
    }
    Ok(sizes)
}

/// Parses a chunk offset table (`stco` with 4-byte entries, `co64` with 8-byte ones).
pub fn parse_chunk_offsets(payload: &[u8], width: usize) -> (result: Result<Vec<u64>, DecoderError>)
    ensures
        match result {
            Ok(offsets) => {
                let count = be_uint(payload@, 4, 4);
                &&& width == 4 || width == 8
                &&& 8 + count * width <= payload@.len()
                &&& offsets@.len() == count
                &&& forall|i: int| 0 <= i < count ==> #[trigger] offsets@[i] == be_uint(payload@, 8 + i * width, width as nat)
            },
            Err(error) => if width != 4 && width != 8 {
                error.kind() == ErrorKind::Bitstream
            } else if payload@.len() < 8 {
                error.kind() == ErrorKind::NotEnoughData
            } else {
                8 + be_uint(payload@, 4, 4) * width > payload@.len() || 8 + be_uint(payload@, 4, 4) * width > usize::MAX
            },
        },
{
    if width != 4 && width != 8 {
        return Err(DecoderError::Bitstream("invalid chunk offset width".to_string()));
    }
    if payload.len() < 8 {
        return Err(DecoderError::NotEnoughData("chunk offset table is too short".to_string()));
    }
    let count = read_u32(payload, 4)? as usize;
    if count > (usize::MAX - 8) / width {
        proof {
            let limit: int = (usize::MAX - 8) as int;
            assert(count * width > limit) by (nonlinear_arith)
                requires
                    count > limit / (width as int),
                    width == 4 || width == 8,
                    limit >= 0,
            ;
        }
        return Err(DecoderError::Bitstream("chunk count overflows usize".to_string()));
    }
    proof {
        let limit: int = (usize::MAX - 8) as int;
        assert(count * width <= limit) by (nonlinear_arith)
            requires
                count <= limit / (width as int),
                width == 4 || width == 8,
                limit >= 0,
        ;
    }
    let end = 8 + count * width;
    if end > payload.len() {
        return Err(DecoderError::NotEnoughData("chunk offsets are truncated".to_string()));
    }
    let mut offsets: Vec<u64> = Vec::new();
    let mut index: usize = 0;
    while index < count
        invariant
            index <= count,
            width == 4 || width == 8,
            8 + count * width <= payload@.len(),
            8 + count * width <= usize::MAX,
            offsets@.len() == index,
            forall|i: int| 0 <= i < index ==> #[trigger] offsets@[i] == be_uint(payload@, 8 + i * width, width as nat),
        decreases count - index,
    {
        proof {
            assert(8 + index * width + width <= 8 + count * width) by (nonlinear_arith)
                requires
                    index < count,
                    width == 4 || width == 8,
            ;
        }
        let value = if width == 8 {
            read_u64(payload, 8 + index * width)?
        } else {
            read_u32(payload, 8 + index * width)? as u64
        };
        offsets.push(value);
        index = index + 1;
    }
    Ok(offsets)
}

/// Parses `stsc`: (first chunk, samples per chunk, description index) records.
pub fn parse_samples_per_chunk(payload: &[u8]) -> (result: Result<Vec<(u32, u32, u32)>, DecoderError>)
    ensures
        match result {
            Ok(records) => {
                let count = be_uint(payload@, 4, 4);
                &&& 8 + 12 * count <= payload@.len()
                &&& records@.len() == count
                &&& forall|i: int|
                    0 <= i < count ==> (#[trigger] records@[i]).0 == be_uint(payload@, 8 + 12 * i, 4) && records@[i].1
                        == be_uint(payload@, 12 + 12 * i, 4) && records@[i].2 == be_uint(payload@, 16 + 12 * i, 4)
            },
            Err(error) => payload@.len() < 8 && error.kind() == ErrorKind::NotEnoughData || payload@.len() >= 8 && 8 + 12
                * be_uint(payload@, 4, 4) > payload@.len(),
        },
{
    if payload.len() < 8 {
        return Err(DecoderError::NotEnoughData("stsc payload is too short".to_string()));
    }
    let count = read_u32(payload, 4)? as usize;
    if count > (usize::MAX - 8) / 12 {
        return Err(DecoderError::Bitstream("stsc count overflows usize".to_string()));
    }
    let end = 8 + count * 12;
    if end > payload.len() {
        return Err(DecoderError::NotEnoughData("stsc entries are truncated".to_string()));
    }
    let mut records: Vec<(u32, u32, u32)> = Vec::new();
    let mut index: usize = 0;
    while index < count
        invariant
            index <= count,
            8 + 12 * count <= payload@.len(),
            8 + 12 * count <= usize::MAX,
            records@.len() == index,
            forall|i: int|
                0 <= i < index ==> (#[trigger] records@[i]).0 == be_uint(payload@, 8 + 12 * i, 4) && records@[i].1
                    == be_uint(payload@, 12 + 12 * i, 4) && records@[i].2 == be_uint(payload@, 16 + 12 * i, 4),
        decreases count - index,
    {
        proof {
            assert(index * 12 + 12 <= count * 12) by (nonlinear_arith)
                requires
                    index < count,
            ;
        }
        let offset = 8 + index * 12;
        let first = read_u32(payload, offset)?;
        let samples = read_u32(payload, offset + 4)?;
        let description = read_u32(payload, offset + 8)?;
        records.push((first, samples, description));
        index = index + 1;
    }
    Ok(records)
}

} // verus!

verus! {

/// The sample entry of `size` bytes at `offset` of an `stsd` payload: its bytes when
/// it is an `av01` entry.
pub open spec fn stsd_entry(p: Seq<u8>, offset: int, size: int) -> Option<Seq<u8>> {
    if p.subrange(offset + 4, offset + 8) == code4(0x61, 0x76, 0x30, 0x31) {
        Some(p.subrange(offset, offset + size))
    } else {
        None
    }
}

/// The `n` sample entries of an `stsd` payload from `offset`, each read by
/// `stsd_entry`; or the kind of error that reading an entry's box header gives.
pub open spec fn stsd_entries(p: Seq<u8>, offset: int, n: nat) -> Result<Seq<Option<Seq<u8>>>, ErrorKind>
    decreases n,
{
    if n == 0 {
        Ok(Seq::empty())
    } else {
        match box_extent(p, offset, p.len() as int) {
            Err(kind) => Err(kind),
            Ok((size, _)) => match stsd_entries(p, offset + size, (n - 1) as nat) {
                Ok(rest) => Ok(seq![stsd_entry(p, offset, size)] + rest),
                Err(kind) => Err(kind),
            },
        }
    }
}

/// Sample descriptions as byte sequences.
pub open spec fn descriptions_view(descriptions: Seq<Option<Vec<u8>>>) -> Seq<Option<Seq<u8>>> {
    Seq::new(
        descriptions.len(),
        |i: int|
            match descriptions[i] {
                Some(bytes) => Some(bytes@),
                None => None,
            },
    )
}

/// `prefix`, then what `rest` holds, or the error of `rest`.
pub open spec fn after_prefix(
    prefix: Seq<Option<Seq<u8>>>,
    rest: Result<Seq<Option<Seq<u8>>>, ErrorKind>,
) -> Result<Seq<Option<Seq<u8>>>, ErrorKind> {
    match rest {
        Ok(tail) => Ok(prefix + tail),
        Err(kind) => Err(kind),
    }
}

/// The sample descriptions of `stsd`: the whole `av01` entry box for each AV1 entry,
/// `None` for any other entry.
pub fn stsd_av01_descriptions(payload: &[u8]) -> (result: Result<Vec<Option<Vec<u8>>>, DecoderError>)
    requires
        addressable(payload@.len() as int),
    ensures
        match result {
            Ok(descriptions) => payload@.len() >= 8 && descriptions@.len() == be_uint(payload@, 4, 4) && stsd_entries(
                payload@,
                8,
                be_uint(payload@, 4, 4) as nat,
            ) == Ok::<Seq<Option<Seq<u8>>>, ErrorKind>(descriptions_view(descriptions@)),
            Err(error) => if payload@.len() < 8 {
                error.kind() == ErrorKind::NotEnoughData
            } else {
                stsd_entries(payload@, 8, be_uint(payload@, 4, 4) as nat) == Err::<Seq<Option<Seq<u8>>>, ErrorKind>(
                    error.kind(),
                )
            },
        },
{
    if payload.len() < 8 {
        return Err(DecoderError::NotEnoughData("stsd payload is too short".to_string()));
    }
    let entry_count = read_u32(payload, 4)? as usize;
    let ghost total = be_uint(payload@, 4, 4) as nat;
    let mut offset: usize = 8;
    let mut descriptions: Vec<Option<Vec<u8>>> = Vec::new();
    let mut entry: usize = 0;
    while entry < entry_count
        invariant
            addressable(payload@.len() as int),
            8 <= offset <= payload@.len() + 8,
            entry <= entry_count,
            descriptions@.len() == entry,
            payload@.len() >= 8,
            entry_count == be_uint(payload@, 4, 4),
            total == entry_count,
            stsd_entries(payload@, 8, total) == after_prefix(
                descriptions_view(descriptions@),
                stsd_entries(payload@, offset as int, (total - entry) as nat),
            ),
        decreases entry_count - entry,
    {
        let ghost before = descriptions_view(descriptions@);
        let ghost m = (total - entry) as nat;
        let header = read_box_header(payload, offset, payload.len())?;
        let end = checked_add(header.offset, header.size, "stsd av01 entry end")?;
        let ghost entry_view = stsd_entry(payload@, offset as int, header.size as int);
        if fourcc_eq(&header.box_type, &fourcc_code(0x61, 0x76, 0x30, 0x31)) {
            descriptions.push(Some(vstd::slice::slice_to_vec(vstd::slice::slice_subrange(payload, header.offset, end))));
        } else {
            descriptions.push(None);
        }
        assert(descriptions_view(descriptions@) =~= before.push(entry_view));
        offset = checked_add(header.offset, header.size, "stsd entry end")?;
        entry = entry + 1;
        proof {
            let rest = stsd_entries(payload@, offset as int, (total - entry) as nat);
            match rest {
                Ok(tail) => {
                    assert(before + (seq![entry_view] + tail) =~= before.push(entry_view) + tail);
                },
                Err(_) => {},
            }
        }
    }
    proof {
        assert(stsd_entries(payload@, offset as int, 0) == Ok::<Seq<Option<Seq<u8>>>, ErrorKind>(Seq::empty()));
        assert(descriptions_view(descriptions@) + Seq::<Option<Seq<u8>>>::empty() =~= descriptions_view(descriptions@));
    }
    Ok(descriptions)
}

/// The `stsc` record that chunk number `n` (1-based) falls in, looking at the first
/// `r` records: the position (1-based) of the last whose first chunk is at most `n`,
/// or 0 when there is none.
pub open spec fn stsc_run(stsc: Seq<(u32, u32, u32)>, n: int, r: int) -> int
    decreases r,
{
    if r <= 0 {
        0
    } else if stsc[r - 1].0 > n {
        stsc_run(stsc, n, r - 1)
    } else {
        r
    }
}

/// The sum of `sizes[start..end]`.
pub open spec fn size_sum(sizes: Seq<usize>, start: int, end: int) -> int
    decreases end - start,
{
    if end <= start {
        0
    } else {
        size_sum(sizes, start, end - 1) + sizes[end - 1]
    }
}

/// The `count` samples of a chunk at file offset `base` whose sizes start at
/// `sizes[start]`: each one's offset, and the description index `description`.
pub open spec fn chunk_layout(base: int, sizes: Seq<usize>, start: int, count: nat, description: int) -> Seq<(int, int)> {
    Seq::new(count, |k: int| (base + size_sum(sizes, start, start + k), description))
}

/// The samples of the chunks from `c` on, the first of them being sample `s`: each
/// one's file offset and description index; `None` when a chunk falls in no `stsc`
/// record, names a description that is no `av01` entry, runs past the sizes or
/// past the largest offset, or the sizes are not used up.
pub open spec fn sample_layout(
    chunks: Seq<u64>,
    stsc: Seq<(u32, u32, u32)>,
    sizes: Seq<usize>,
    descriptions: Seq<Option<Seq<u8>>>,
    c: int,
    s: int,
) -> Option<Seq<(int, int)>>
    decreases chunks.len() - c,
{
    if c < 0 || c >= chunks.len() {
        if s == sizes.len() {
            Some(Seq::empty())
        } else {
            None
        }
    } else if c >= u32::MAX {
        None
    } else {
        let r = stsc_run(stsc, c + 1, stsc.len() as int);
        if r == 0 {
            None
        } else {
            let count = stsc[r - 1].1 as int;
            let d = stsc[r - 1].2 as int;
            if d == 0 || !(d - 1 < descriptions.len() && descriptions[d - 1] is Some) {
                None
            } else if s + count > sizes.len() {
                None
            } else if chunks[c] + size_sum(sizes, s, s + count) > u64::MAX {
                None
            } else {
                match sample_layout(chunks, stsc, sizes, descriptions, c + 1, s + count) {
                    Some(rest) => Some(chunk_layout(chunks[c] as int, sizes, s, count as nat, d - 1) + rest),
                    None => None,
                }
            }
        }
    }
}

/// The whole layout: none without `stsc` records.
pub open spec fn samples_layout(
    chunks: Seq<u64>,
    stsc: Seq<(u32, u32, u32)>,
    sizes: Seq<usize>,
    descriptions: Seq<Option<Seq<u8>>>,
) -> Option<Seq<(int, int)>> {
    if stsc.len() == 0 {
        None
    } else {
        sample_layout(chunks, stsc, sizes, descriptions, 0, 0)
    }
}

/// Sample offsets and description indexes as pairs.
pub open spec fn layout_pairs(offsets: Seq<u64>, indices: Seq<usize>) -> Seq<(int, int)> {
    Seq::new(offsets.len(), |i: int| (offsets[i] as int, indices[i] as int))
}

/// `prefix`, then what `rest` holds; nothing when `rest` holds nothing.
pub open spec fn pairs_after(prefix: Seq<(int, int)>, rest: Option<Seq<(int, int)>>) -> Option<Seq<(int, int)>> {
    match rest {
        Some(tail) => Some(prefix + tail),
        None => None,
    }
}

/// Sums of sizes grow with their end.
proof fn lemma_size_sum_monotone(sizes: Seq<usize>, start: int, a: int, b: int)
    requires
        start <= a <= b,
    ensures
        size_sum(sizes, start, a) <= size_sum(sizes, start, b),
    decreases b - a,
{
    if a < b {
        lemma_size_sum_monotone(sizes, start, a, b - 1);
    }
}

/// Lays the samples out in their chunks: each sample's file offset and the index of
/// its (AV1) sample description.
pub fn build_sample_offsets_with_descriptions(
    chunk_offsets: &[u64],
    samples_per_chunk: &[(u32, u32, u32)],
    sizes: &[usize],
    sample_descriptions: &[Option<Vec<u8>>],
) -> (result: Result<(Vec<u64>, Vec<usize>), DecoderError>)
    ensures
        match result {
            Ok((offsets, indices)) => {
                &&& offsets@.len() == sizes@.len()
                &&& indices@.len() == sizes@.len()
                &&& forall|i: int|
                    0 <= i < indices@.len() ==> (#[trigger] indices@[i]) < sample_descriptions@.len()
                        && sample_descriptions@[indices@[i] as int] is Some
            },
            Err(error) => error.kind() == ErrorKind::Bitstream,
        },
        match result {
            Ok((offsets, indices)) => samples_layout(chunk_offsets@, samples_per_chunk@, sizes@, descriptions_view(sample_descriptions@)) == Some(
                layout_pairs(offsets@, indices@),
            ),
            Err(_) => samples_layout(chunk_offsets@, samples_per_chunk@, sizes@, descriptions_view(sample_descriptions@)) is None,
        },
{
    let ghost whole = samples_layout(chunk_offsets@, samples_per_chunk@, sizes@, descriptions_view(sample_descriptions@));
    if samples_per_chunk.len() == 0 {
        return Err(DecoderError::Bitstream("stsc table is empty".to_string()));
    }
    let mut offsets: Vec<u64> = Vec::new();
    let mut description_indices: Vec<usize> = Vec::new();
    let mut sample_index: usize = 0;
    let mut chunk_index: usize = 0;
    while chunk_index < chunk_offsets.len()
        invariant
            chunk_index <= chunk_offsets@.len(),
            sample_index <= sizes@.len(),
            offsets@.len() == sample_index,
            description_indices@.len() == sample_index,
            forall|i: int|
                0 <= i < description_indices@.len() ==> (#[trigger] description_indices@[i]) < sample_descriptions@.len()
                    && sample_descriptions@[description_indices@[i] as int] is Some,
            samples_per_chunk@.len() > 0,
            whole == samples_layout(chunk_offsets@, samples_per_chunk@, sizes@, descriptions_view(sample_descriptions@)),
            whole == pairs_after(
                layout_pairs(offsets@, description_indices@),
                sample_layout(chunk_offsets@, samples_per_chunk@, sizes@, descriptions_view(sample_descriptions@), chunk_index as int, sample_index as int),
            ),
        decreases chunk_offsets@.len() - chunk_index,
    {
        if chunk_index >= u32::MAX as usize {
            return Err(DecoderError::Bitstream("chunk number is too large".to_string()));
        }
        let chunk_number = (chunk_index + 1) as u32;
        let mut r = samples_per_chunk.len();
        while r > 0 && samples_per_chunk[r - 1].0 > chunk_number
            invariant
                r <= samples_per_chunk@.len(),
                stsc_run(samples_per_chunk@, chunk_number as int, samples_per_chunk@.len() as int) == stsc_run(
                    samples_per_chunk@,
                    chunk_number as int,
                    r as int,
                ),
            decreases r,
        {
            r = r - 1;
        }
        let ghost c = chunk_index as int;
        let ghost s0 = sample_index as int;
        let ghost prefix = layout_pairs(offsets@, description_indices@);
        assert(r > 0 ==> stsc_run(samples_per_chunk@, chunk_number as int, r as int) == r);
        assert(chunk_number as int == c + 1);
        if r == 0 {
            return Err(DecoderError::Bitstream("stsc first_chunk is invalid".to_string()));
        }
        let record = samples_per_chunk[r - 1];
        let description_index = record.2 as usize;
        if description_index == 0 {
            return Err(DecoderError::Bitstream("AVIS sample description index is zero".to_string()));
        }
        let present = description_index - 1 < sample_descriptions.len() && sample_descriptions[description_index - 1].is_some();
        if !present {
            let head = crate::text::concat("AVIS sample description index ", crate::text::decimal(record.2 as u64).as_str());
            return Err(DecoderError::Bitstream(crate::text::concat(head.as_str(), " is missing an av01 entry")));
        }
        let mut offset = chunk_offsets[chunk_index];
        let ghost base = chunk_offsets@[c] as int;
        let mut emitted: u32 = 0;
        while emitted < record.1
            invariant
                emitted <= record.1,
                0 <= c < chunk_offsets@.len(),
                base == chunk_offsets@[c] as int,
                offset == base + size_sum(sizes@, s0, s0 + emitted),
                sample_index == s0 + emitted,
                layout_pairs(offsets@, description_indices@) == prefix + chunk_layout(
                    base,
                    sizes@,
                    s0,
                    emitted as nat,
                    description_index - 1,
                ),
                prefix.len() == s0,
                record == samples_per_chunk@[stsc_run(samples_per_chunk@, c + 1, samples_per_chunk@.len() as int) - 1],
                stsc_run(samples_per_chunk@, c + 1, samples_per_chunk@.len() as int) >= 1,
                c < u32::MAX,
                description_index == record.2,
                whole == samples_layout(chunk_offsets@, samples_per_chunk@, sizes@, descriptions_view(sample_descriptions@)),
                whole == pairs_after(
                    prefix,
                    sample_layout(chunk_offsets@, samples_per_chunk@, sizes@, descriptions_view(sample_descriptions@), c, s0),
                ),
                sample_index <= sizes@.len(),
                offsets@.len() == sample_index,
                description_indices@.len() == sample_index,
                description_index >= 1,
                description_index - 1 < sample_descriptions@.len(),
                sample_descriptions@[description_index - 1] is Some,
                forall|i: int|
                    0 <= i < description_indices@.len() ==> (#[trigger] description_indices@[i]) < sample_descriptions@.len()
                        && sample_descriptions@[description_indices@[i] as int] is Some,
            decreases record.1 - emitted,
        {
            if sample_index >= sizes.len() {
                return Err(DecoderError::Bitstream("stsc references more samples than stsz".to_string()));
            }
            let size = sizes[sample_index];
            let ghost pushed = layout_pairs(offsets@, description_indices@);
            offsets.push(offset);
            description_indices.push(description_index - 1);
            if offset > u64::MAX - size as u64 {
                proof {
                    lemma_size_sum_monotone(sizes@, s0, s0 + emitted + 1, s0 + record.1);
                }
                return Err(DecoderError::Bitstream("AVIS sample offset overflows u64".to_string()));
            }
            proof {
                assert(layout_pairs(offsets@, description_indices@) =~= pushed.push((offset as int, description_index - 1)));
                assert(chunk_layout(base, sizes@, s0, (emitted + 1) as nat, description_index - 1) =~= chunk_layout(
                    base,
                    sizes@,
                    s0,
                    emitted as nat,
                    description_index - 1,
                ).push((offset as int, description_index - 1)));
                assert(size_sum(sizes@, s0, s0 + emitted + 1) == size_sum(sizes@, s0, s0 + emitted) + sizes@[s0 + emitted]);
            }
            offset = offset + size as u64;
            sample_index = sample_index + 1;
            emitted = emitted + 1;
        }
        proof {
            let rest = sample_layout(chunk_offsets@, samples_per_chunk@, sizes@, descriptions_view(sample_descriptions@), c + 1, sample_index as int);
            if let Some(tail) = rest {
                assert(prefix + (chunk_layout(base, sizes@, s0, record.1 as nat, description_index - 1) + tail) =~= layout_pairs(
                    offsets@,
                    description_indices@,
                ) + tail);
            }
        }
        chunk_index = chunk_index + 1;
    }
    if sample_index != sizes.len() {
        return Err(DecoderError::Bitstream("stsz contains samples not covered by stsc".to_string()));
    }
    assert(layout_pairs(offsets@, description_indices@) + Seq::<(int, int)>::empty() =~= layout_pairs(offsets@, description_indices@));
    Ok((offsets, description_indices))
}

} // verus!

verus! {

/// Every sample is a run of bytes of `data`.
pub open spec fn samples_from(data: Seq<u8>, samples: Seq<Vec<u8>>) -> bool {
    forall|i: int| 0 <= i < samples.len() ==> crate::obu::is_slice_of((#[trigger] samples[i])@, data)
}

/// The child box of the given type, as a (header, payload) pair.
fn child_payload<'a>(payload: &'a [u8], box_type: [u8; 4]) -> (result: Result<Option<&'a [u8]>, DecoderError>)
    requires
        addressable(payload@.len() as int),
    ensures
        match result {
            Ok(Some(child)) => child@.len() <= payload@.len() && child_is(payload@, box_type@, child@),
            Ok(None) => lacks_child(payload@, box_type@),
            Err(error) => boxes_fail(payload@, error.kind()),
        },
{
    match child_box(payload, &box_type)? {
        Some(header) => {
            proof {
                let (headers, k) = choose|headers: Seq<BoxHeader>, k: int|
                    boxes_tile(payload@, headers) && 0 <= k < headers.len() && headers[k] == header && forall|j: int|
                        0 <= j < k ==> (#[trigger] headers[j]).box_type@ != box_type@;
                assert(first_box_of_type(payload@, headers, k, box_type@));
                reveal(child_is);
            }
            Ok(Some(box_payload(payload, header)?))
        },
        None => {
            proof {
                let headers = choose|headers: Seq<BoxHeader>|
                    boxes_tile(payload@, headers) && forall|j: int|
                        0 <= j < headers.len() ==> (#[trigger] headers[j]).box_type@ != box_type@;
                assert(no_box_of_type(payload@, headers, box_type@));
                reveal(lacks_child);
            }
            Ok(None)
        },
    }
}

/// The payload of the box `header` within `payload`.
pub open spec fn box_bytes(payload: Seq<u8>, header: BoxHeader) -> Seq<u8> {
    payload.subrange(header.offset + header.header_size, header.offset + header.size)
}

/// `child` is the payload of the first box of type `box_type` among those that tile
/// `payload`.
#[verifier::opaque]
pub open spec fn child_is(payload: Seq<u8>, box_type: Seq<u8>, child: Seq<u8>) -> bool {
    exists|headers: Seq<BoxHeader>, k: int|
        #![trigger first_box_of_type(payload, headers, k, box_type)]
        first_box_of_type(payload, headers, k, box_type) && child == box_bytes(payload, headers[k])
}

/// None of the boxes that tile `payload` has type `box_type`.
#[verifier::opaque]
pub open spec fn lacks_child(payload: Seq<u8>, box_type: Seq<u8>) -> bool {
    exists|headers: Seq<BoxHeader>| #![trigger no_box_of_type(payload, headers, box_type)] no_box_of_type(payload, headers, box_type)
}

/// Two tilings of one payload hold the same boxes.
proof fn lemma_tilings_agree(payload: Seq<u8>, first: Seq<BoxHeader>, second: Seq<BoxHeader>)
    requires
        boxes_tile(payload, first),
        boxes_tile(payload, second),
    ensures
        first.len() == second.len(),
        forall|i: int| 0 <= i < first.len() ==> same_box(#[trigger] first[i], second[i]),
{
    lemma_reach_follows_tiling(payload, first, payload.len() as int, second);
    lemma_reach_follows_tiling(payload, second, payload.len() as int, first);
}

/// A payload has one first child of a type.
proof fn lemma_child_is_unique(payload: Seq<u8>, box_type: Seq<u8>, one: Seq<u8>, other: Seq<u8>)
    requires
        child_is(payload, box_type, one),
        child_is(payload, box_type, other),
    ensures
        one == other,
{
    reveal(child_is);
    let (h1, k1) = choose|h: Seq<BoxHeader>, k: int|
        #![trigger first_box_of_type(payload, h, k, box_type)]
        first_box_of_type(payload, h, k, box_type) && one == box_bytes(payload, h[k]);
    let (h2, k2) = choose|h: Seq<BoxHeader>, k: int|
        #![trigger first_box_of_type(payload, h, k, box_type)]
        first_box_of_type(payload, h, k, box_type) && other == box_bytes(payload, h[k]);
    lemma_tilings_agree(payload, h1, h2);
    assert(same_box(h1[k1], h2[k1]));
    assert(same_box(h1[k2], h2[k2]));
    if k1 < k2 {
        assert(h2[k1].box_type@ != box_type);
    } else if k2 < k1 {
        assert(h1[k2].box_type@ != box_type);
    }
}

/// A payload with a first child of a type does not lack one, and reading its
/// boxes does not fail.
proof fn lemma_child_is_found(payload: Seq<u8>, box_type: Seq<u8>, child: Seq<u8>)
    requires
        child_is(payload, box_type, child),
    ensures
        !lacks_child(payload, box_type),
        forall|kind: ErrorKind| !#[trigger] boxes_fail(payload, kind),
{
    reveal(child_is);
    reveal(lacks_child);
    let (h1, k1) = choose|h: Seq<BoxHeader>, k: int|
        #![trigger first_box_of_type(payload, h, k, box_type)]
        first_box_of_type(payload, h, k, box_type) && child == box_bytes(payload, h[k]);
    if lacks_child(payload, box_type) {
        let h2 = choose|h: Seq<BoxHeader>| #![trigger no_box_of_type(payload, h, box_type)] no_box_of_type(payload, h, box_type);
        lemma_tilings_agree(payload, h1, h2);
        assert(same_box(h1[k1], h2[k1]));
    }
    assert forall|kind: ErrorKind| !#[trigger] boxes_fail(payload, kind) by {
        lemma_tiling_does_not_fail(payload, h1, kind);
    }
}

/// A payload that lacks a child of a type does not fail to be read as boxes.
proof fn lemma_lacking_does_not_fail(payload: Seq<u8>, box_type: Seq<u8>)
    requires
        lacks_child(payload, box_type),
    ensures
        forall|kind: ErrorKind| !#[trigger] boxes_fail(payload, kind),
{
    reveal(lacks_child);
    let h = choose|h: Seq<BoxHeader>| #![trigger no_box_of_type(payload, h, box_type)] no_box_of_type(payload, h, box_type);
    assert forall|kind: ErrorKind| !#[trigger] boxes_fail(payload, kind) by {
        lemma_tiling_does_not_fail(payload, h, kind);
    }
}

/// A handler box payload naming a video (`vide`) or picture (`pict`) track.
pub open spec fn video_handler(hdlr: Seq<u8>) -> bool {
    &&& hdlr.len() >= 12
    &&& (hdlr.subrange(8, 12) == code4(0x76, 0x69, 0x64, 0x65) || hdlr.subrange(8, 12) == code4(0x70, 0x69, 0x63, 0x74))
}

/// An `stsd` payload whose sample entries are all read and none is `av01`.
pub open spec fn no_av1_entries(stsd: Seq<u8>) -> bool {
    &&& stsd.len() >= 8
    &&& stsd_entries(stsd, 8, be_uint(stsd, 4, 4) as nat) matches Ok(entries) && forall|i: int|
        0 <= i < entries.len() ==> entries[i] is None
}

/// A sample table that gives no AV1 samples: no `stsd`, or one without `av01`
/// entries, or no `stsc`, no `stsz`, or neither `stco` nor `co64`.
pub open spec fn stbl_skipped(stbl: Seq<u8>) -> bool {
    ||| lacks_child(stbl, code4(0x73, 0x74, 0x73, 0x64))
    ||| exists|stsd: Seq<u8>| #[trigger] child_is(stbl, code4(0x73, 0x74, 0x73, 0x64), stsd) && no_av1_entries(stsd)
    ||| lacks_child(stbl, code4(0x73, 0x74, 0x73, 0x63))
    ||| lacks_child(stbl, code4(0x73, 0x74, 0x73, 0x7a))
    ||| lacks_child(stbl, code4(0x73, 0x74, 0x63, 0x6f)) && lacks_child(stbl, code4(0x63, 0x6f, 0x36, 0x34))
}

/// A media information box without an `stbl` that gives AV1 samples.
#[verifier::opaque]
pub open spec fn minf_skipped(minf: Seq<u8>) -> bool {
    ||| lacks_child(minf, code4(0x73, 0x74, 0x62, 0x6c))
    ||| exists|stbl: Seq<u8>| #[trigger] child_is(minf, code4(0x73, 0x74, 0x62, 0x6c), stbl) && stbl_skipped(stbl)
}

/// A media box that is no video track with AV1 samples.
#[verifier::opaque]
pub open spec fn mdia_skipped(mdia: Seq<u8>) -> bool {
    ||| lacks_child(mdia, code4(0x68, 0x64, 0x6c, 0x72))
    ||| exists|hdlr: Seq<u8>| #[trigger] child_is(mdia, code4(0x68, 0x64, 0x6c, 0x72), hdlr) && !video_handler(hdlr)
    ||| lacks_child(mdia, code4(0x6d, 0x69, 0x6e, 0x66))
    ||| exists|minf: Seq<u8>| #[trigger] child_is(mdia, code4(0x6d, 0x69, 0x6e, 0x66), minf) && minf_skipped(minf)
}

/// A box of `moov` that is no video track with AV1 samples.
#[verifier::opaque]
pub open spec fn track_skipped(trak: Seq<u8>) -> bool {
    ||| lacks_child(trak, code4(0x6d, 0x64, 0x69, 0x61))
    ||| exists|mdia: Seq<u8>| #[trigger] child_is(trak, code4(0x6d, 0x64, 0x69, 0x61), mdia) && mdia_skipped(mdia)
}

/// No box of the `moov` payload is a video track with AV1 samples.
pub open spec fn no_sequence_track(moov: Seq<u8>) -> bool {
    exists|traks: Seq<BoxHeader>|
        #![trigger boxes_tile(moov, traks)]
        boxes_tile(moov, traks) && forall|j: int| 0 <= j < traks.len() ==> track_skipped(#[trigger] box_bytes(moov, traks[j]))
}

/// A track without `mdia` is skipped.
proof fn lemma_track_without_media(trak: Seq<u8>)
    requires
        lacks_child(trak, code4(0x6d, 0x64, 0x69, 0x61)),
    ensures
        track_skipped(trak),
{
    reveal(track_skipped);
}

/// A track whose `mdia` is skipped is skipped.
proof fn lemma_track_with_skipped_media(trak: Seq<u8>, mdia: Seq<u8>)
    requires
        child_is(trak, code4(0x6d, 0x64, 0x69, 0x61), mdia),
        mdia_skipped(mdia),
    ensures
        track_skipped(trak),
{
    reveal(track_skipped);
}

/// A media box without `hdlr`, with a handler other than video, or without `minf`
/// is skipped.
proof fn lemma_media_without_video(mdia: Seq<u8>, hdlr: Seq<u8>)
    requires
        lacks_child(mdia, code4(0x68, 0x64, 0x6c, 0x72)) || (child_is(mdia, code4(0x68, 0x64, 0x6c, 0x72), hdlr)
            && !video_handler(hdlr)) || lacks_child(mdia, code4(0x6d, 0x69, 0x6e, 0x66)),
    ensures
        mdia_skipped(mdia),
{
    reveal(mdia_skipped);
}

/// A media box whose `minf` is skipped is skipped.
proof fn lemma_media_with_skipped_information(mdia: Seq<u8>, minf: Seq<u8>)
    requires
        child_is(mdia, code4(0x6d, 0x69, 0x6e, 0x66), minf),
        minf_skipped(minf),
    ensures
        mdia_skipped(mdia),
{
    reveal(mdia_skipped);
}

/// A media information box without `stbl`, or with a skipped one, is skipped.
proof fn lemma_information_skipped(minf: Seq<u8>, stbl: Seq<u8>)
    requires
        lacks_child(minf, code4(0x73, 0x74, 0x62, 0x6c)) || (child_is(minf, code4(0x73, 0x74, 0x62, 0x6c), stbl)
            && stbl_skipped(stbl)),
    ensures
        minf_skipped(minf),
{
    reveal(minf_skipped);
}

/// `stbl` is the sample table of the video track `trak`: the payload of the `stbl`
/// of the `minf` of its `mdia`, whose `hdlr` names a video handler.
pub open spec fn track_table_is(trak: Seq<u8>, stbl: Seq<u8>) -> bool {
    exists|mdia: Seq<u8>, hdlr: Seq<u8>, minf: Seq<u8>|
        #![trigger child_is(trak, code4(0x6d, 0x64, 0x69, 0x61), mdia), child_is(mdia, code4(0x68, 0x64, 0x6c, 0x72), hdlr), child_is(mdia, code4(0x6d, 0x69, 0x6e, 0x66), minf)]
        {
            &&& child_is(trak, code4(0x6d, 0x64, 0x69, 0x61), mdia)
            &&& child_is(mdia, code4(0x68, 0x64, 0x6c, 0x72), hdlr)
            &&& video_handler(hdlr)
            &&& child_is(mdia, code4(0x6d, 0x69, 0x6e, 0x66), minf)
            &&& child_is(minf, code4(0x73, 0x74, 0x62, 0x6c), stbl)
        }
}

/// A box of `moov` passed over without error: one without `mdia`, or whose `mdia`
/// has an `hdlr` that names no video handler.
pub open spec fn track_passes(trak: Seq<u8>) -> bool {
    ||| lacks_child(trak, code4(0x6d, 0x64, 0x69, 0x61))
    ||| exists|mdia: Seq<u8>, hdlr: Seq<u8>|
        #![trigger child_is(trak, code4(0x6d, 0x64, 0x69, 0x61), mdia), child_is(mdia, code4(0x68, 0x64, 0x6c, 0x72), hdlr)]
        child_is(trak, code4(0x6d, 0x64, 0x69, 0x61), mdia) && child_is(mdia, code4(0x68, 0x64, 0x6c, 0x72), hdlr)
            && !video_handler(hdlr)
}

/// A video track has one sample table.
proof fn lemma_track_table_unique(trak: Seq<u8>, one: Seq<u8>, other: Seq<u8>)
    requires
        track_table_is(trak, one),
        track_table_is(trak, other),
    ensures
        one == other,
{
    let (m1, h1, i1) = choose|mdia: Seq<u8>, hdlr: Seq<u8>, minf: Seq<u8>|
        #![trigger child_is(trak, code4(0x6d, 0x64, 0x69, 0x61), mdia), child_is(mdia, code4(0x68, 0x64, 0x6c, 0x72), hdlr), child_is(mdia, code4(0x6d, 0x69, 0x6e, 0x66), minf)]
        {
            &&& child_is(trak, code4(0x6d, 0x64, 0x69, 0x61), mdia)
            &&& child_is(mdia, code4(0x68, 0x64, 0x6c, 0x72), hdlr)
            &&& video_handler(hdlr)
            &&& child_is(mdia, code4(0x6d, 0x69, 0x6e, 0x66), minf)
            &&& child_is(minf, code4(0x73, 0x74, 0x62, 0x6c), one)
        };
    let (m2, h2, i2) = choose|mdia: Seq<u8>, hdlr: Seq<u8>, minf: Seq<u8>|
        #![trigger child_is(trak, code4(0x6d, 0x64, 0x69, 0x61), mdia), child_is(mdia, code4(0x68, 0x64, 0x6c, 0x72), hdlr), child_is(mdia, code4(0x6d, 0x69, 0x6e, 0x66), minf)]
        {
            &&& child_is(trak, code4(0x6d, 0x64, 0x69, 0x61), mdia)
            &&& child_is(mdia, code4(0x68, 0x64, 0x6c, 0x72), hdlr)
            &&& video_handler(hdlr)
            &&& child_is(mdia, code4(0x6d, 0x69, 0x6e, 0x66), minf)
            &&& child_is(minf, code4(0x73, 0x74, 0x62, 0x6c), other)
        };
    lemma_child_is_unique(trak, code4(0x6d, 0x64, 0x69, 0x61), m1, m2);
    lemma_child_is_unique(m1, code4(0x6d, 0x69, 0x6e, 0x66), i1, i2);
    lemma_child_is_unique(i1, code4(0x73, 0x74, 0x62, 0x6c), one, other);
}

/// The sample table (`stbl`) of a video (`vide` or `pict`) track, found through
/// `mdia`, `hdlr` and `minf`; `None` when the box is no such track.
#[verifier::spinoff_prover]
fn track_sample_table(trak_payload: &[u8]) -> (result: Result<Option<&[u8]>, DecoderError>)
    requires
        addressable(trak_payload@.len() as int),
    ensures
        match result {
            Ok(Some(stbl)) => stbl@.len() <= trak_payload@.len() && (stbl_skipped(stbl@) ==> track_skipped(trak_payload@)),
            Ok(None) => track_skipped(trak_payload@),
            Err(_) => true,
        },
        track_passes(trak_payload@) ==> result matches Ok(None),
        (exists|stbl: Seq<u8>| #[trigger] track_table_is(trak_payload@, stbl)) ==> (result matches Ok(Some(found))
            && track_table_is(trak_payload@, found@)),
{
    let ghost trak_bytes = trak_payload@;
    let ghost table = exists|stbl: Seq<u8>| #[trigger] track_table_is(trak_bytes, stbl);
    let ghost w_stbl = choose|stbl: Seq<u8>| #[trigger] track_table_is(trak_bytes, stbl);
    let ghost (w_mdia, w_hdlr, w_minf) = choose|mdia: Seq<u8>, hdlr: Seq<u8>, minf: Seq<u8>|
        #![trigger child_is(trak_bytes, code4(0x6d, 0x64, 0x69, 0x61), mdia), child_is(mdia, code4(0x68, 0x64, 0x6c, 0x72), hdlr), child_is(mdia, code4(0x6d, 0x69, 0x6e, 0x66), minf)]
        {
            &&& child_is(trak_bytes, code4(0x6d, 0x64, 0x69, 0x61), mdia)
            &&& child_is(mdia, code4(0x68, 0x64, 0x6c, 0x72), hdlr)
            &&& video_handler(hdlr)
            &&& child_is(mdia, code4(0x6d, 0x69, 0x6e, 0x66), minf)
            &&& child_is(minf, code4(0x73, 0x74, 0x62, 0x6c), w_stbl)
        };
    let ghost handled = exists|mdia: Seq<u8>, hdlr: Seq<u8>|
        #![trigger child_is(trak_bytes, code4(0x6d, 0x64, 0x69, 0x61), mdia), child_is(mdia, code4(0x68, 0x64, 0x6c, 0x72), hdlr)]
        child_is(trak_bytes, code4(0x6d, 0x64, 0x69, 0x61), mdia) && child_is(mdia, code4(0x68, 0x64, 0x6c, 0x72), hdlr)
            && !video_handler(hdlr);
    let ghost (p_mdia, p_hdlr) = choose|mdia: Seq<u8>, hdlr: Seq<u8>|
        #![trigger child_is(trak_bytes, code4(0x6d, 0x64, 0x69, 0x61), mdia), child_is(mdia, code4(0x68, 0x64, 0x6c, 0x72), hdlr)]
        child_is(trak_bytes, code4(0x6d, 0x64, 0x69, 0x61), mdia) && child_is(mdia, code4(0x68, 0x64, 0x6c, 0x72), hdlr)
            && !video_handler(hdlr);
    proof {
        if table {
            lemma_child_is_found(trak_bytes, code4(0x6d, 0x64, 0x69, 0x61), w_mdia);
        }
        if handled {
            lemma_child_is_found(trak_bytes, code4(0x6d, 0x64, 0x69, 0x61), p_mdia);
        }
        if lacks_child(trak_bytes, code4(0x6d, 0x64, 0x69, 0x61)) {
            lemma_lacking_does_not_fail(trak_bytes, code4(0x6d, 0x64, 0x69, 0x61));
        }
    }
    let mdia_payload = match child_payload(trak_payload, fourcc_code(0x6d, 0x64, 0x69, 0x61))? {
        Some(payload) => payload,
        None => {
            proof {
                lemma_track_without_media(trak_bytes);
            }
            return Ok(None);
        },
    };
    assert(child_is(trak_bytes, code4(0x6d, 0x64, 0x69, 0x61), mdia_payload@));
    proof {
        if table {
            lemma_child_is_unique(trak_bytes, code4(0x6d, 0x64, 0x69, 0x61), mdia_payload@, w_mdia);
            lemma_child_is_found(w_mdia, code4(0x68, 0x64, 0x6c, 0x72), w_hdlr);
        }
        if handled {
            lemma_child_is_unique(trak_bytes, code4(0x6d, 0x64, 0x69, 0x61), mdia_payload@, p_mdia);
            lemma_child_is_found(p_mdia, code4(0x68, 0x64, 0x6c, 0x72), p_hdlr);
        }
        if lacks_child(trak_bytes, code4(0x6d, 0x64, 0x69, 0x61)) {
            lemma_child_is_found(trak_bytes, code4(0x6d, 0x64, 0x69, 0x61), mdia_payload@);
        }
    }
    let hdlr_payload = match child_payload(mdia_payload, fourcc_code(0x68, 0x64, 0x6c, 0x72))? {
        Some(payload) => payload,
        None => {
            proof {
                lemma_media_without_video(mdia_payload@, Seq::empty());
                lemma_track_with_skipped_media(trak_bytes, mdia_payload@);
            }
            return Ok(None);
        },
    };
    assert(child_is(mdia_payload@, code4(0x68, 0x64, 0x6c, 0x72), hdlr_payload@));
    proof {
        if table {
            lemma_child_is_unique(mdia_payload@, code4(0x68, 0x64, 0x6c, 0x72), hdlr_payload@, w_hdlr);
            lemma_child_is_found(w_mdia, code4(0x6d, 0x69, 0x6e, 0x66), w_minf);
        }
        if handled {
            lemma_child_is_unique(mdia_payload@, code4(0x68, 0x64, 0x6c, 0x72), hdlr_payload@, p_hdlr);
        }
    }
    if hdlr_payload.len() < 12 {
        proof {
            lemma_media_without_video(mdia_payload@, hdlr_payload@);
            lemma_track_with_skipped_media(trak_bytes, mdia_payload@);
        }
        return Ok(None);
    }
    let handler = fourcc_code(hdlr_payload[8], hdlr_payload[9], hdlr_payload[10], hdlr_payload[11]);
    assert(handler@ =~= hdlr_payload@.subrange(8, 12));
    if !fourcc_eq(&handler, &fourcc_code(0x76, 0x69, 0x64, 0x65)) && !fourcc_eq(&handler, &fourcc_code(0x70, 0x69, 0x63, 0x74)) {
        assert(!video_handler(hdlr_payload@));
        proof {
            lemma_media_without_video(mdia_payload@, hdlr_payload@);
            lemma_track_with_skipped_media(trak_bytes, mdia_payload@);
        }
        return Ok(None);
    }
    let minf_payload = match child_payload(mdia_payload, fourcc_code(0x6d, 0x69, 0x6e, 0x66))? {
        Some(payload) => payload,
        None => {
            proof {
                lemma_media_without_video(mdia_payload@, Seq::empty());
                lemma_track_with_skipped_media(trak_bytes, mdia_payload@);
            }
            return Ok(None);
        },
    };
    assert(child_is(mdia_payload@, code4(0x6d, 0x69, 0x6e, 0x66), minf_payload@));
    proof {
        if table {
            lemma_child_is_unique(mdia_payload@, code4(0x6d, 0x69, 0x6e, 0x66), minf_payload@, w_minf);
            lemma_child_is_found(w_minf, code4(0x73, 0x74, 0x62, 0x6c), w_stbl);
        }
    }
    let stbl_payload = match child_payload(minf_payload, fourcc_code(0x73, 0x74, 0x62, 0x6c))? {
        Some(payload) => payload,
        None => {
            proof {
                lemma_information_skipped(minf_payload@, Seq::empty());
                lemma_media_with_skipped_information(mdia_payload@, minf_payload@);
                lemma_track_with_skipped_media(trak_bytes, mdia_payload@);
            }
            return Ok(None);
        },
    };
    assert(child_is(minf_payload@, code4(0x73, 0x74, 0x62, 0x6c), stbl_payload@));
    proof {
        if table {
            lemma_child_is_unique(minf_payload@, code4(0x73, 0x74, 0x62, 0x6c), stbl_payload@, w_stbl);
        }
    }
    proof {
        if stbl_skipped(stbl_payload@) {
            lemma_information_skipped(minf_payload@, stbl_payload@);
            lemma_media_with_skipped_information(mdia_payload@, minf_payload@);
            lemma_track_with_skipped_media(trak_bytes, mdia_payload@);
        }
    }
    Ok(Some(stbl_payload))
}

/// `chunks` are the chunk offsets of a `stco` (`width` 4) or `co64` (`width` 8)
/// payload.
pub open spec fn chunk_offsets_are(p: Seq<u8>, width: int, chunks: Seq<u64>) -> bool {
    &&& chunks.len() == be_uint(p, 4, 4)
    &&& forall|i: int| 0 <= i < chunks.len() ==> #[trigger] chunks[i] == be_uint(p, 8 + i * width, width as nat)
}

/// `records` are the records of an `stsc` payload.
pub open spec fn stsc_records_are(p: Seq<u8>, records: Seq<(u32, u32, u32)>) -> bool {
    &&& records.len() == be_uint(p, 4, 4)
    &&& forall|i: int|
        0 <= i < records.len() ==> (#[trigger] records[i]).0 == be_uint(p, 8 + 12 * i, 4) && records[i].1 == be_uint(
            p,
            12 + 12 * i,
            4,
        ) && records[i].2 == be_uint(p, 16 + 12 * i, 4)
}

/// `sizes` are the sample sizes of an `stsz` payload.
pub open spec fn sample_sizes_are(p: Seq<u8>, sizes: Seq<usize>) -> bool {
    &&& sizes.len() == be_uint(p, 8, 4)
    &&& be_uint(p, 4, 4) != 0 ==> forall|i: int| 0 <= i < sizes.len() ==> #[trigger] sizes[i] == be_uint(p, 4, 4)
    &&& be_uint(p, 4, 4) == 0 ==> forall|i: int| 0 <= i < sizes.len() ==> #[trigger] sizes[i] == be_uint(p, 12 + 4 * i, 4)
}

/// The position of the first description from `k` on that is an `av01` entry (the
/// length when there is none).
pub open spec fn first_entry(entries: Seq<Option<Seq<u8>>>, k: int) -> int
    decreases entries.len() - k,
{
    if k < 0 || k >= entries.len() {
        entries.len() as int
    } else if entries[k] is Some {
        k
    } else {
        first_entry(entries, k + 1)
    }
}

/// The `stsd`, `stsc`, `stsz` and chunk-offset payloads of a sample table parse, an
/// `stsd` entry is `av01`, and the samples they lay out read.
pub open spec fn tables_parse(data: Seq<u8>, stsd: Seq<u8>, stsc: Seq<u8>, stsz: Seq<u8>, chunk_box: Seq<u8>, width: int) -> bool {
    &&& stsd.len() >= 8
    &&& stsc.len() >= 8 && 8 + 12 * be_uint(stsc, 4, 4) <= stsc.len()
    &&& stsz.len() >= 12 && (be_uint(stsz, 4, 4) != 0 || 12 + 4 * be_uint(stsz, 8, 4) <= stsz.len())
    &&& chunk_box.len() >= 8 && 8 + be_uint(chunk_box, 4, 4) * width <= chunk_box.len()
    &&& stsd_entries(stsd, 8, be_uint(stsd, 4, 4) as nat) matches Ok(entries) && first_entry(entries, 0) < entries.len() && forall|
        chunks: Seq<u64>,
        records: Seq<(u32, u32, u32)>,
        sizes: Seq<usize>,
    |
        #![trigger chunk_offsets_are(chunk_box, width, chunks), stsc_records_are(stsc, records), sample_sizes_are(stsz, sizes)]
        chunk_offsets_are(chunk_box, width, chunks) && stsc_records_are(stsc, records) && sample_sizes_are(stsz, sizes)
            ==> tables_read(data, chunks, records, sizes, entries, first_entry(entries, 0))
}

/// A sample table whose `stsd`, `stsc`, `stsz` and `stco` (or, without one, `co64`)
/// children parse and lay out samples that read.
pub open spec fn stbl_reads(data: Seq<u8>, stbl: Seq<u8>) -> bool {
    exists|stsd: Seq<u8>, stsc: Seq<u8>, stsz: Seq<u8>, chunk_box: Seq<u8>, width: int|
        #![trigger tables_parse(data, stsd, stsc, stsz, chunk_box, width)]
        {
            &&& child_is(stbl, code4(0x73, 0x74, 0x73, 0x64), stsd)
            &&& child_is(stbl, code4(0x73, 0x74, 0x73, 0x63), stsc)
            &&& child_is(stbl, code4(0x73, 0x74, 0x73, 0x7a), stsz)
            &&& (width == 4 && child_is(stbl, code4(0x73, 0x74, 0x63, 0x6f), chunk_box)) || (width == 8 && lacks_child(
                stbl,
                code4(0x73, 0x74, 0x63, 0x6f),
            ) && child_is(stbl, code4(0x63, 0x6f, 0x36, 0x34), chunk_box))
            &&& tables_parse(data, stsd, stsc, stsz, chunk_box, width)
        }
}

/// The samples that a sample table gives when it has AV1 sample descriptions and
/// complete tables; each sample whose description differs from the first must carry
/// a sequence header.
#[verifier::spinoff_prover]
#[verifier::rlimit(40)]
fn table_samples(data: &[u8], stbl_payload: &[u8]) -> (result: Result<Option<Vec<Vec<u8>>>, DecoderError>)
    requires
        addressable(stbl_payload@.len() as int),
    ensures
        match result {
            Ok(Some(samples)) => samples_from(data@, samples@),
            Ok(None) => stbl_skipped(stbl_payload@),
            Err(_) => true,
        },
        stbl_reads(data@, stbl_payload@) ==> result matches Ok(Some(_)),
{
    let ghost stbl_bytes = stbl_payload@;
    let ghost reads = stbl_reads(data@, stbl_payload@);
    let ghost (w_stsd, w_stsc, w_stsz, w_co, w_width) = choose|stsd: Seq<u8>, stsc: Seq<u8>, stsz: Seq<u8>, chunk_box: Seq<u8>, width: int|
        #![trigger tables_parse(data@, stsd, stsc, stsz, chunk_box, width)]
        {
            &&& child_is(stbl_bytes, code4(0x73, 0x74, 0x73, 0x64), stsd)
            &&& child_is(stbl_bytes, code4(0x73, 0x74, 0x73, 0x63), stsc)
            &&& child_is(stbl_bytes, code4(0x73, 0x74, 0x73, 0x7a), stsz)
            &&& (width == 4 && child_is(stbl_bytes, code4(0x73, 0x74, 0x63, 0x6f), chunk_box)) || (width == 8 && lacks_child(
                stbl_bytes,
                code4(0x73, 0x74, 0x63, 0x6f),
            ) && child_is(stbl_bytes, code4(0x63, 0x6f, 0x36, 0x34), chunk_box))
            &&& tables_parse(data@, stsd, stsc, stsz, chunk_box, width)
        };
    proof {
        if reads {
            lemma_child_is_found(stbl_bytes, code4(0x73, 0x74, 0x73, 0x64), w_stsd);
            lemma_child_is_found(stbl_bytes, code4(0x73, 0x74, 0x73, 0x63), w_stsc);
            lemma_child_is_found(stbl_bytes, code4(0x73, 0x74, 0x73, 0x7a), w_stsz);
        }
    }
    let stsd_payload = match child_payload(stbl_payload, fourcc_code(0x73, 0x74, 0x73, 0x64))? {
        Some(payload) => payload,
        None => {
            assert(stbl_skipped(stbl_bytes));
            return Ok(None);
        },
    };
    assert(child_is(stbl_bytes, code4(0x73, 0x74, 0x73, 0x64), stsd_payload@));
    proof {
        if reads {
            lemma_child_is_unique(stbl_bytes, code4(0x73, 0x74, 0x73, 0x64), stsd_payload@, w_stsd);
        }
    }
    let sample_descriptions = stsd_av01_descriptions(stsd_payload)?;
    let ghost entries = descriptions_view(sample_descriptions@);
    let mut first_description: Option<usize> = None;
    let mut d: usize = 0;
    while d < sample_descriptions.len()
        invariant
            d <= sample_descriptions@.len(),
            first_description is Some ==> first_description->0 < sample_descriptions@.len()
                && sample_descriptions@[first_description->0 as int] is Some,
            first_description is None ==> forall|i: int| 0 <= i < d ==> sample_descriptions@[i] is None,
            entries == descriptions_view(sample_descriptions@),
            first_description is None ==> first_entry(entries, 0) == first_entry(entries, d as int),
            first_description matches Some(f) ==> first_entry(entries, 0) == f,
        decreases sample_descriptions@.len() - d,
    {
        if first_description.is_none() && sample_descriptions[d].is_some() {
            first_description = Some(d);
        }
        d = d + 1;
    }
    let first_index = match first_description {
        Some(index) => index,
        None => {
            assert(no_av1_entries(stsd_payload@)) by {
                let entries = descriptions_view(sample_descriptions@);
                assert forall|i: int| 0 <= i < entries.len() implies entries[i] is None by {
                    assert(sample_descriptions@[i] is None);
                }
            }
            assert(stbl_skipped(stbl_bytes));
            return Ok(None);
        },
    };
    proof {
        if reads {
            assert(first_entry(entries, 0) == first_index);
        }
    }
    let stsc_payload = match child_payload(stbl_payload, fourcc_code(0x73, 0x74, 0x73, 0x63))? {
        Some(payload) => payload,
        None => {
            assert(stbl_skipped(stbl_bytes));
            return Ok(None);
        },
    };
    proof {
        if reads {
            lemma_child_is_unique(stbl_bytes, code4(0x73, 0x74, 0x73, 0x63), stsc_payload@, w_stsc);
        }
    }
    let stsz_payload = match child_payload(stbl_payload, fourcc_code(0x73, 0x74, 0x73, 0x7a))? {
        Some(payload) => payload,
        None => {
            assert(stbl_skipped(stbl_bytes));
            return Ok(None);
        },
    };
    proof {
        if reads {
            lemma_child_is_unique(stbl_bytes, code4(0x73, 0x74, 0x73, 0x7a), stsz_payload@, w_stsz);
            if w_width == 4 {
                lemma_child_is_found(stbl_bytes, code4(0x73, 0x74, 0x63, 0x6f), w_co);
            } else {
                lemma_lacking_does_not_fail(stbl_bytes, code4(0x73, 0x74, 0x63, 0x6f));
                lemma_child_is_found(stbl_bytes, code4(0x63, 0x6f, 0x36, 0x34), w_co);
            }
        }
    }
    let (chunk_offset_payload, chunk_offset_width) = match child_payload(stbl_payload, fourcc_code(0x73, 0x74, 0x63, 0x6f))? {
        Some(payload) => {
            proof {
                if reads {
                    if w_width == 8 {
                        lemma_child_is_found(stbl_bytes, code4(0x73, 0x74, 0x63, 0x6f), payload@);
                    }
                    lemma_child_is_unique(stbl_bytes, code4(0x73, 0x74, 0x63, 0x6f), payload@, w_co);
                }
            }
            (Some(payload), 4usize)
        },
        None => {
            assert(lacks_child(stbl_bytes, code4(0x73, 0x74, 0x63, 0x6f)));
            match child_payload(stbl_payload, fourcc_code(0x63, 0x6f, 0x36, 0x34))? {
                Some(payload) => {
                    proof {
                        if reads {
                            lemma_child_is_unique(stbl_bytes, code4(0x63, 0x6f, 0x36, 0x34), payload@, w_co);
                        }
                    }
                    (Some(payload), 8usize)
                },
                None => {
                    assert(stbl_skipped(stbl_bytes));
                    (None, 0usize)
                },
            }
        },
    };
    let chunk_offset_payload = match chunk_offset_payload {
        Some(payload) => payload,
        None => return Ok(None),
    };
    proof {
        if reads {
            assert(chunk_offset_payload@ == w_co && chunk_offset_width == w_width);
        }
    }
    let chunk_offsets = parse_chunk_offsets(chunk_offset_payload, chunk_offset_width)?;
    let sizes = parse_sample_sizes(stsz_payload)?;
    let samples_per_chunk = parse_samples_per_chunk(stsc_payload)?;
    proof {
        if reads {
            assert(chunk_offsets_are(w_co, w_width, chunk_offsets@));
            assert(stsc_records_are(w_stsc, samples_per_chunk@));
            assert(sample_sizes_are(w_stsz, sizes@));
            assert(tables_read(data@, chunk_offsets@, samples_per_chunk@, sizes@, entries, first_index as int));
        }
    }
    let samples = samples_from_tables(
        data,
        chunk_offsets.as_slice(),
        samples_per_chunk.as_slice(),
        sizes.as_slice(),
        sample_descriptions.as_slice(),
        first_index,
    )?;
    Ok(Some(samples))
}

/// A sample of the layout reads: it lies within the file, and when its description
/// differs from the first it starts with OBUs that include a sequence header.
pub open spec fn sample_reads(data: Seq<u8>, descriptions: Seq<Option<Seq<u8>>>, first: int, placed: (int, int), size: int) -> bool {
    &&& placed.0 <= usize::MAX
    &&& placed.0 + size <= data.len()
    &&& descriptions[placed.1] != descriptions[first] ==> (obu_stream(data.subrange(placed.0, placed.0 + size), 0) matches Ok(
        obus,
    ) && has_sequence_header_obu(obus))
}

/// The sample tables lay the samples out, and each sample reads.
pub open spec fn tables_read(
    data: Seq<u8>,
    chunks: Seq<u64>,
    stsc: Seq<(u32, u32, u32)>,
    sizes: Seq<usize>,
    descriptions: Seq<Option<Seq<u8>>>,
    first: int,
) -> bool {
    samples_layout(chunks, stsc, sizes, descriptions) matches Some(pairs) && forall|i: int|
        0 <= i < pairs.len() ==> sample_reads(data, descriptions, first, #[trigger] pairs[i], sizes[i] as int)
}

/// The samples that the tables lay out in `data`, each checked against the first
/// description.
#[verifier::spinoff_prover]
fn samples_from_tables(
    data: &[u8],
    chunk_offsets: &[u64],
    samples_per_chunk: &[(u32, u32, u32)],
    sizes: &[usize],
    sample_descriptions: &[Option<Vec<u8>>],
    first_index: usize,
) -> (result: Result<Vec<Vec<u8>>, DecoderError>)
    requires
        first_index < sample_descriptions@.len(),
        sample_descriptions@[first_index as int] is Some,
    ensures
        match result {
            Ok(samples) => samples_from(data@, samples@),
            Err(_) => true,
        },
        tables_read(data@, chunk_offsets@, samples_per_chunk@, sizes@, descriptions_view(sample_descriptions@), first_index as int)
            ==> result is Ok,
{
    let ghost well = tables_read(
        data@,
        chunk_offsets@,
        samples_per_chunk@,
        sizes@,
        descriptions_view(sample_descriptions@),
        first_index as int,
    );
    let (sample_offsets, description_indices) = build_sample_offsets_with_descriptions(
        chunk_offsets,
        samples_per_chunk,
        sizes,
        sample_descriptions,
    )?;
    let ghost pairs = layout_pairs(sample_offsets@, description_indices@);
    let mut samples: Vec<Vec<u8>> = Vec::new();
    let mut s: usize = 0;
    while s < sample_offsets.len()
        invariant
            s <= sample_offsets@.len(),
            sample_offsets@.len() == sizes@.len(),
            description_indices@.len() == sizes@.len(),
            forall|i: int|
                0 <= i < description_indices@.len() ==> (#[trigger] description_indices@[i]) < sample_descriptions@.len()
                    && sample_descriptions@[description_indices@[i] as int] is Some,
            first_index < sample_descriptions@.len(),
            sample_descriptions@[first_index as int] is Some,
            samples_from(data@, samples@),
            well == tables_read(
                data@,
                chunk_offsets@,
                samples_per_chunk@,
                sizes@,
                descriptions_view(sample_descriptions@),
                first_index as int,
            ),
            well ==> samples_layout(chunk_offsets@, samples_per_chunk@, sizes@, descriptions_view(sample_descriptions@)) == Some(pairs),
            pairs == layout_pairs(sample_offsets@, description_indices@),
        decreases sample_offsets@.len() - s,
    {
        proof {
            if well {
                let laid = samples_layout(chunk_offsets@, samples_per_chunk@, sizes@, descriptions_view(sample_descriptions@))->Some_0;
                assert(laid == pairs);
                assert(s < laid.len());
                assert(sample_reads(data@, descriptions_view(sample_descriptions@), first_index as int, laid[s as int], sizes@[s as int] as int));
            }
        }
        let data_len = data.len();
        let offset = sample_offsets[s];
        let size = sizes[s];
        if offset > usize::MAX as u64 {
            return Err(DecoderError::Bitstream("AVIS sample offset is too large".to_string()));
        }
        let start = offset as usize;
        if start > usize::MAX - size {
            return Err(DecoderError::Bitstream("AVIS sample end overflows usize".to_string()));
        }
        let end = start + size;
        if end > data.len() {
            return Err(DecoderError::NotEnoughData("AVIS sample extends beyond the file".to_string()));
        }
        let sample = vstd::slice::slice_to_vec(vstd::slice::slice_subrange(data, start, end));
        assert(sample@ == data@.subrange(start as int, start + sample@.len()));
        let description_index = description_indices[s];
        let description = match &sample_descriptions[description_index] {
            Some(bytes) => bytes,
            None => return Err(DecoderError::Bitstream("AVIS sample description is missing".to_string())),
        };
        let first = match &sample_descriptions[first_index] {
            Some(bytes) => bytes,
            None => return Err(DecoderError::Bitstream("AVIS sample description is missing".to_string())),
        };
        proof {
            let views = descriptions_view(sample_descriptions@);
            assert(views[description_index as int] == Some(description@));
            assert(views[first_index as int] == Some(first@));
            assert(pairs[s as int] == (offset as int, description_index as int));
            assert(sample@ =~= data@.subrange(offset as int, offset + size));
        }
        validate_sequence_sample_description(description.as_slice(), first.as_slice(), sample.as_slice())?;
        samples.push(sample);
        s = s + 1;
    }
    Ok(samples)
}

/// The samples of one box of `moov` when it is a video track with AV1 sample
/// descriptions and complete sample tables.
fn track_samples(data: &[u8], trak_payload: &[u8]) -> (result: Result<Option<Vec<Vec<u8>>>, DecoderError>)
    requires
        addressable(trak_payload@.len() as int),
    ensures
        match result {
            Ok(Some(samples)) => samples_from(data@, samples@),
            Ok(None) => track_skipped(trak_payload@),
            Err(_) => true,
        },
        track_passes(trak_payload@) ==> result matches Ok(None),
        track_reads(data@, trak_payload@) ==> result matches Ok(Some(_)),
{
    match track_sample_table(trak_payload)? {
        Some(stbl_payload) => {
            proof {
                if track_reads(data@, trak_payload@) {
                    let stbl = choose|stbl: Seq<u8>| #[trigger] track_table_is(trak_payload@, stbl) && stbl_reads(data@, stbl);
                    lemma_track_table_unique(trak_payload@, stbl, stbl_payload@);
                }
            }
            table_samples(data, stbl_payload)
        },
        None => Ok(None),
    }
}

/// A video track whose sample table lays out samples that read.
pub open spec fn track_reads(data: Seq<u8>, trak: Seq<u8>) -> bool {
    exists|stbl: Seq<u8>| #[trigger] track_table_is(trak, stbl) && stbl_reads(data, stbl)
}

/// A `moov` payload whose boxes tile it, where a video track whose samples read
/// comes after boxes that are passed over.
#[verifier::opaque]
pub open spec fn moov_reads(data: Seq<u8>, moov: Seq<u8>) -> bool {
    exists|traks: Seq<BoxHeader>, j: int|
        #![trigger boxes_tile(moov, traks), track_reads(data, box_bytes(moov, traks[j]))]
        {
            &&& boxes_tile(moov, traks)
            &&& 0 <= j < traks.len()
            &&& track_reads(data, box_bytes(moov, traks[j]))
            &&& forall|k: int| 0 <= k < j ==> track_passes(#[trigger] box_bytes(moov, traks[k]))
        }
}

/// The samples of the first video (`vide` or `pict`) track with AV1 sample
/// descriptions and complete sample tables; each sample whose description differs
/// from the first must carry a sequence header.
pub fn parse_sequence_track(data: &[u8], moov_payload: &[u8]) -> (result: Result<Option<Vec<Vec<u8>>>, DecoderError>)
    requires
        addressable(moov_payload@.len() as int),
    ensures
        match result {
            Ok(Some(samples)) => samples_from(data@, samples@),
            Ok(None) => no_sequence_track(moov_payload@),
            Err(_) => true,
        },
        moov_reads(data@, moov_payload@) ==> result matches Ok(Some(_)),
{
    let ghost reads = moov_reads(data@, moov_payload@);
    proof {
        reveal(moov_reads);
    }
    let ghost (w_traks, w_j) = choose|traks: Seq<BoxHeader>, j: int|
        #![trigger boxes_tile(moov_payload@, traks), track_reads(data@, box_bytes(moov_payload@, traks[j]))]
        {
            &&& boxes_tile(moov_payload@, traks)
            &&& 0 <= j < traks.len()
            &&& track_reads(data@, box_bytes(moov_payload@, traks[j]))
            &&& forall|k: int| 0 <= k < j ==> track_passes(#[trigger] box_bytes(moov_payload@, traks[k]))
        };
    proof {
        if reads {
            lemma_tiling_does_not_fail(moov_payload@, w_traks, ErrorKind::NotEnoughData);
            lemma_tiling_does_not_fail(moov_payload@, w_traks, ErrorKind::Bitstream);
            lemma_tiling_does_not_fail(moov_payload@, w_traks, ErrorKind::Unsupported);
            lemma_tiling_does_not_fail(moov_payload@, w_traks, ErrorKind::InvalidParam);
            lemma_tiling_does_not_fail(moov_payload@, w_traks, ErrorKind::Io);
        }
    }
    let traks = child_boxes(moov_payload)?;
    proof {
        if reads {
            lemma_tilings_agree(moov_payload@, traks@, w_traks);
        }
    }
    let mut t: usize = 0;
    while t < traks.len()
        invariant
            t <= traks@.len(),
            addressable(moov_payload@.len() as int),
            crate::container::boxes::boxes_tile(moov_payload@, traks@),
            forall|j: int| 0 <= j < t ==> track_skipped(#[trigger] box_bytes(moov_payload@, traks@[j])),
            reads == moov_reads(data@, moov_payload@),
            reads ==> boxes_tile(moov_payload@, w_traks) && 0 <= w_j < w_traks.len() && track_reads(
                data@,
                box_bytes(moov_payload@, w_traks[w_j]),
            ) && (forall|k: int| 0 <= k < w_j ==> track_passes(#[trigger] box_bytes(moov_payload@, w_traks[k]))),
            reads ==> traks@.len() == w_traks.len() && (forall|i: int| 0 <= i < traks@.len() ==> same_box(#[trigger] traks@[i], w_traks[i])),
            reads ==> t <= w_j,
        decreases traks@.len() - t,
    {
        let trak = traks[t];
        let ghost j = t as int;
        t = t + 1;
        let trak_payload = box_payload(moov_payload, trak)?;
        assert(trak_payload@ == box_bytes(moov_payload@, traks@[j]));
        proof {
            if reads {
                assert(same_box(traks@[j], w_traks[j]));
                assert(trak_payload@ == box_bytes(moov_payload@, w_traks[j]));
            }
        }
        match track_samples(data, trak_payload)? {
            Some(samples) => return Ok(Some(samples)),
            None => {},
        }
    }
    Ok(None)
}

/// Whether a brand list names `avis`.
fn has_avis_brand(major_brand: &[u8; 4], compatible_brands: &[[u8; 4]]) -> (found: bool)
    ensures
        found == (major_brand@ == code4(0x61, 0x76, 0x69, 0x73) || exists|k: int|
            0 <= k < compatible_brands@.len() && (#[trigger] compatible_brands@[k])@ == code4(0x61, 0x76, 0x69, 0x73)),
{
    let avis = fourcc_code(0x61, 0x76, 0x69, 0x73);
    if fourcc_eq(major_brand, &avis) {
        return true;
    }
    let mut k: usize = 0;
    while k < compatible_brands.len()
        invariant
            k <= compatible_brands@.len(),
            avis@ == code4(0x61, 0x76, 0x69, 0x73),
            forall|j: int| 0 <= j < k ==> (#[trigger] compatible_brands@[j])@ != code4(0x61, 0x76, 0x69, 0x73),
        decreases compatible_brands@.len() - k,
    {
        if fourcc_eq(&compatible_brands[k], &avis) {
            return true;
        }
        k = k + 1;
    }
    false
}

/// Box `header` is a `moov` box.
pub open spec fn is_moov(header: BoxHeader) -> bool {
    header.box_type@ == code4(0x6d, 0x6f, 0x6f, 0x76)
}

/// The `moov` boxes among the first `n` of `headers` hold no video track with AV1
/// samples.
pub open spec fn no_track_before(data: Seq<u8>, headers: Seq<BoxHeader>, n: int) -> bool {
    forall|k: int| 0 <= k < n && #[trigger] is_moov(headers[k]) ==> no_sequence_track(box_bytes(data, headers[k]))
}

/// The top-level boxes of `data` tile it, and the samples come from the first `moov`
/// box holding a video track with AV1 samples; with no such box there are none.
pub open spec fn samples_of_first_track(data: Seq<u8>, samples: Seq<Vec<u8>>) -> bool {
    exists|headers: Seq<BoxHeader>|
        #![trigger boxes_tile(data, headers)]
        boxes_tile(data, headers) && ((samples.len() == 0 && no_track_before(data, headers, headers.len() as int))
            || exists|j: int| 0 <= j < headers.len() && #[trigger] is_moov(headers[j]) && no_track_before(data, headers, j))
}

/// An image sequence whose samples read: small enough to address, its top-level
/// boxes tile it, and the first `moov` box holds a video track whose samples read.
pub open spec fn sequence_reads(data: Seq<u8>) -> bool {
    &&& data.len() <= usize::MAX / 8
    &&& exists|boxes: Seq<BoxHeader>, j: int|
        #![trigger boxes_tile(data, boxes), moov_reads(data, box_bytes(data, boxes[j]))]
        {
            &&& boxes_tile(data, boxes)
            &&& 0 <= j < boxes.len()
            &&& is_moov(boxes[j])
            &&& (forall|k: int| 0 <= k < j ==> !#[trigger] is_moov(boxes[k]))
            &&& moov_reads(data, box_bytes(data, boxes[j]))
        }
}

/// Reading the top-level boxes has read the first `k` of `boxes` and stands at
/// `offset`; `boxes[j]` is the first `moov`, whose video track reads; unless the
/// samples are `done`, that box is not read yet.
#[verifier::opaque]
pub open spec fn sequence_progress(data: Seq<u8>, boxes: Seq<BoxHeader>, j: int, k: int, offset: int, done: bool) -> bool {
    &&& tile_progress(data, boxes, k, offset)
    &&& 0 <= j < boxes.len()
    &&& is_moov(boxes[j])
    &&& forall|i: int| 0 <= i < j ==> !#[trigger] is_moov(boxes[i])
    &&& moov_reads(data, box_bytes(data, boxes[j]))
    &&& done || k <= j
}

/// The start of the reading.
proof fn lemma_sequence_progress_start(data: Seq<u8>, boxes: Seq<BoxHeader>, j: int)
    requires
        boxes_tile(data, boxes),
        0 <= j < boxes.len(),
        is_moov(boxes[j]),
        forall|i: int| 0 <= i < j ==> !#[trigger] is_moov(boxes[i]),
        moov_reads(data, box_bytes(data, boxes[j])),
    ensures
        sequence_progress(data, boxes, j, 0, 0, false),
{
    reveal(sequence_progress);
    lemma_tile_progress_start(data, boxes);
}

/// Before the end a box header can be read.
proof fn lemma_sequence_progress_next(data: Seq<u8>, boxes: Seq<BoxHeader>, j: int, k: int, offset: int, done: bool)
    requires
        sequence_progress(data, boxes, j, k, offset, done),
        offset < data.len(),
    ensures
        box_extent(data, offset, data.len() as int) is Ok,
{
    reveal(sequence_progress);
    lemma_tile_progress_next(data, boxes, k, offset);
}

/// Reading the next box: before the first `moov` it is none; at it, it is a `moov`
/// whose track reads.
proof fn lemma_sequence_progress_step(data: Seq<u8>, boxes: Seq<BoxHeader>, j: int, k: int, done: bool, header: BoxHeader)
    requires
        sequence_progress(data, boxes, j, k, header.offset as int, done),
        header.offset < data.len(),
        box_extent(data, header.offset as int, data.len() as int) == Ok::<(int, int), ErrorKind>(
            (header.size as int, header.header_size as int),
        ),
        header.box_type@ == data.subrange(header.offset + 4, header.offset + 8),
    ensures
        !done ==> k <= j,
        k < j ==> !is_moov(header),
        !done && k == j ==> is_moov(header) && moov_reads(data, box_bytes(data, header)),
        sequence_progress(data, boxes, j, k + 1, header.offset + header.size, done || k == j),
{
    reveal(sequence_progress);
    lemma_tile_progress_next(data, boxes, k, header.offset as int);
    lemma_tile_progress_step(data, boxes, k, header);
    assert(box_bytes(data, header) == box_bytes(data, boxes[k]));
    assert(is_moov(header) == is_moov(boxes[k]));
}

/// The samples of an AVIS file's sequence track (none for a still image): the
/// first `moov` box holding a suitable track gives them.
#[verifier::spinoff_prover]
#[verifier::rlimit(60)]
pub fn sequence_sample_payloads(data: &[u8], major_brand: &[u8; 4], compatible_brands: &[[u8; 4]]) -> (result: Result<Vec<Vec<u8>>, DecoderError>)
    ensures
        match result {
            Ok(samples) => {
                &&& samples_from(data@, samples@)
                &&& !(major_brand@ == code4(0x61, 0x76, 0x69, 0x73) || exists|k: int|
                    0 <= k < compatible_brands@.len() && (#[trigger] compatible_brands@[k])@ == code4(0x61, 0x76, 0x69, 0x73)) ==> samples@.len() == 0
                &&& (major_brand@ == code4(0x61, 0x76, 0x69, 0x73) || exists|k: int|
                    0 <= k < compatible_brands@.len() && (#[trigger] compatible_brands@[k])@ == code4(0x61, 0x76, 0x69, 0x73))
                    ==> samples_of_first_track(data@, samples@)
            },
            Err(_) => true,
        },
        !(major_brand@ == code4(0x61, 0x76, 0x69, 0x73) || exists|k: int|
            0 <= k < compatible_brands@.len() && (#[trigger] compatible_brands@[k])@ == code4(0x61, 0x76, 0x69, 0x73))
            ==> result is Ok && result->Ok_0@.len() == 0,
        data@.len() > usize::MAX / 8 && (major_brand@ == code4(0x61, 0x76, 0x69, 0x73) || exists|k: int|
            0 <= k < compatible_brands@.len() && (#[trigger] compatible_brands@[k])@ == code4(0x61, 0x76, 0x69, 0x73))
            ==> result is Err && result->Err_0.kind() == ErrorKind::InvalidParam,
        sequence_reads(data@) ==> result is Ok,
{
    if !has_avis_brand(major_brand, compatible_brands) {
        return Ok(Vec::new());
    }
    if data.len() > usize::MAX / 8 {
        return Err(DecoderError::InvalidParam("input is too large".to_string()));
    }
    let ghost reads = sequence_reads(data@);
    let ghost (w_boxes, w_j) = choose|boxes: Seq<BoxHeader>, j: int|
        #![trigger boxes_tile(data@, boxes), moov_reads(data@, box_bytes(data@, boxes[j]))]
        {
            &&& boxes_tile(data@, boxes)
            &&& 0 <= j < boxes.len()
            &&& is_moov(boxes[j])
            &&& (forall|k: int| 0 <= k < j ==> !#[trigger] is_moov(boxes[k]))
            &&& moov_reads(data@, box_bytes(data@, boxes[j]))
        };
    proof {
        if reads {
            lemma_sequence_progress_start(data@, w_boxes, w_j);
        }
    }
    let mut samples: Option<Vec<Vec<u8>>> = None;
    let mut offset: usize = 0;
    let ghost mut headers: Seq<BoxHeader> = Seq::empty();
    let ghost mut found: int = 0;
    while offset < data.len()
        invariant
            addressable(data@.len() as int),
            offset <= data@.len(),
            crate::container::boxes::boxes_reach(data@, headers, offset as int),
            samples is Some ==> samples_from(data@, samples->0@),
            samples is None ==> no_track_before(data@, headers, headers.len() as int),
            samples is Some ==> 0 <= found < headers.len() && is_moov(headers[found]) && no_track_before(data@, headers, found),
            major_brand@ == code4(0x61, 0x76, 0x69, 0x73) || exists|k: int|
                0 <= k < compatible_brands@.len() && (#[trigger] compatible_brands@[k])@ == code4(0x61, 0x76, 0x69, 0x73),
            reads == sequence_reads(data@),
            reads ==> sequence_progress(data@, w_boxes, w_j, headers.len() as int, offset as int, samples is Some),
        decreases data@.len() - offset,
    {
        let ghost k = headers.len() as int;
        let ghost done = samples is Some;
        proof {
            if reads {
                lemma_sequence_progress_next(data@, w_boxes, w_j, k, offset as int, done);
            }
        }
        let header = read_box_header(data, offset, data.len())?;
        proof {
            if reads {
                lemma_sequence_progress_step(data@, w_boxes, w_j, k, done, header);
            }
        }
        offset = checked_add(header.offset, header.size, "top-level box end")?;
        let ghost before_headers = headers;
        let ghost was_none = samples is None;
        if fourcc_eq(&header.box_type, &fourcc_code(0x6d, 0x6f, 0x6f, 0x76)) && samples.is_none() {
            let payload = box_payload(data, header)?;
            match parse_sequence_track(data, payload)? {
                Some(track_samples) => {
                    samples = Some(track_samples);
                    proof {
                        found = before_headers.len() as int;
                    }
                },
                None => {},
            }
        }
        proof {
            headers = headers.push(header);
            assert forall|i: int| 0 < i < headers.len() implies (#[trigger] headers[i]).offset == headers[i - 1].offset
                + headers[i - 1].size by {
                if i < before_headers.len() {
                    assert(headers[i] == before_headers[i] && headers[i - 1] == before_headers[i - 1]);
                }
            }
            assert forall|k: int| 0 <= k < before_headers.len() implies headers[k] == before_headers[k] by {}
            if samples is None {
                assert forall|k: int| 0 <= k < headers.len() && #[trigger] is_moov(headers[k]) implies no_sequence_track(
                    box_bytes(data@, headers[k]),
                ) by {
                    if k < before_headers.len() {
                        assert(headers[k] == before_headers[k]);
                    }
                }
            } else {
                assert forall|k: int| 0 <= k < found && #[trigger] is_moov(headers[k]) implies no_sequence_track(
                    box_bytes(data@, headers[k]),
                ) by {
                    assert(headers[k] == before_headers[k]);
                }
            }
        }
    }
    assert(boxes_tile(data@, headers));
    match samples {
        Some(found_samples) => Ok(found_samples),
        None => Ok(Vec::new()),
    }
}

} // verus!
