//! ISO-BMFF box headers and payloads.
use vstd::prelude::*;
use crate::container::bytes::{be_uint, checked_add, fits, read_fourcc, read_u32, read_u64};
use crate::error::{DecoderError, ErrorKind};

verus! {

/// A box header: where the box starts, its total size, the size of its header
/// and its four-character type.
#[derive(Debug, Clone, Copy, PartialEq, Eq)]
pub struct BoxHeader {
    pub offset: usize,
    pub size: usize,
    pub header_size: usize,
    pub box_type: [u8; 4],
}

/// The (size, header size) declared by the box at `offset` within `limit`, or the
/// kind of error that reading it gives.
pub open spec fn box_extent(data: Seq<u8>, offset: int, limit: int) -> Result<(int, int), ErrorKind> {
    if offset + 8 > limit || limit > data.len() {
        Err(ErrorKind::NotEnoughData)
    } else {
        let small_size = be_uint(data, offset, 4);
        if small_size == 1 && offset + 16 > limit {
            Err(ErrorKind::NotEnoughData)
        } else if small_size == 1 && be_uint(data, offset + 8, 8) > usize::MAX {
            Err(ErrorKind::Bitstream)
        } else {
            let size = if small_size == 1 {
                be_uint(data, offset + 8, 8)
            } else if small_size == 0 {
                limit - offset
            } else {
                small_size
            };
            let header_size = if small_size == 1 { 16 } else { 8 };
            if size < header_size {
                Err(ErrorKind::Bitstream)
            } else if offset + size > usize::MAX {
                Err(ErrorKind::Bitstream)
            } else if offset + size > limit {
                Err(ErrorKind::NotEnoughData)
            } else {
                Ok((size, header_size))
            }
        }
    }
}

/// The header describes a box lying inside `data[..limit]`.
pub open spec fn header_within(header: BoxHeader, limit: int) -> bool {
    &&& header.header_size <= header.size
    &&& header.offset + header.size <= limit
}

/// Reads the box header at `offset`; the box must end within `limit`.
///
/// A 32-bit size of 1 announces a 64-bit size after the type; a size of 0 means the
/// box runs to `limit`.
pub fn read_box_header(data: &[u8], offset: usize, limit: usize) -> (result: Result<BoxHeader, DecoderError>)
    requires
        offset + 16 <= usize::MAX,
    ensures
        match result {
            Ok(header) => {
                &&& box_extent(data@, offset as int, limit as int) == Ok::<(int, int), ErrorKind>(
                    (header.size as int, header.header_size as int),
                )
                &&& header.offset == offset
                &&& header.box_type@ == data@.subrange(offset + 4, offset + 8)
                &&& header_within(header, limit as int)
                &&& limit <= data@.len()
            },
            Err(error) => box_extent(data@, offset as int, limit as int) == Err::<(int, int), ErrorKind>(error.kind()),
        },
        offset + 8 > limit || limit > data@.len() ==> result is Err && result->Err_0.kind() == ErrorKind::NotEnoughData
            && result->Err_0.detail() == "box header is truncated"@,
{
    if offset + 8 > limit || limit > data.len() {
        return Err(DecoderError::NotEnoughData("box header is truncated".to_string()));
    }
    let small_size = match read_u32(data, offset) {
        Ok(value) => value,
        Err(error) => return Err(error),
    };
    let box_type = match read_fourcc(data, offset + 4) {
        Ok(value) => value,
        Err(error) => return Err(error),
    };
    let size: usize;
    let header_size: usize;
    if small_size == 1 {
        if offset + 16 > limit {
            return Err(DecoderError::NotEnoughData("large box header is truncated".to_string()));
        }
        let large_size = match read_u64(data, offset + 8) {
            Ok(value) => value,
            Err(error) => return Err(error),
        };
        if large_size > usize::MAX as u64 {
            return Err(DecoderError::Bitstream("box size is too large".to_string()));
        }
        size = large_size as usize;
        header_size = 16;
    } else if small_size == 0 {
        size = limit - offset;
        header_size = 8;
    } else {
        size = small_size as usize;
        header_size = 8;
    }
    if size < header_size {
        return Err(DecoderError::Bitstream("box size is smaller than its header".to_string()));
    }
    let end = match checked_add(offset, size, "box end") {
        Ok(value) => value,
        Err(error) => return Err(error),
    };
    if end > limit {
        return Err(DecoderError::NotEnoughData("box extends beyond parent".to_string()));
    }
    Ok(BoxHeader { offset, size, header_size, box_type })
}

/// The payload of a box: the bytes after its header.
pub fn box_payload<'a>(data: &'a [u8], header: BoxHeader) -> (result: Result<&'a [u8], DecoderError>)
    requires
        header_within(header, data@.len() as int),
    ensures
        result is Ok,
        result->Ok_0@ == data@.subrange(header.offset + header.header_size, header.offset + header.size),
{
    let total = data.len();
    assert(header.offset + header.size <= total);
    let start = header.offset + header.header_size;
    let end = header.offset + header.size;
    Ok(vstd::slice::slice_subrange(data, start, end))
}

/// The headers of boxes that follow one another from the start of `payload`, each
/// read where the one before ends, and together reach offset `end`.
pub open spec fn boxes_reach(payload: Seq<u8>, headers: Seq<BoxHeader>, end: int) -> bool {
    &&& forall|i: int| 0 <= i < headers.len() ==> header_within(#[trigger] headers[i], payload.len() as int)
    &&& headers.len() > 0 ==> headers[0].offset == 0
    &&& forall|i: int| 0 < i < headers.len() ==> (#[trigger] headers[i]).offset == headers[i - 1].offset
        + headers[i - 1].size
    &&& headers.len() > 0 ==> headers.last().offset + headers.last().size == end
    &&& headers.len() == 0 ==> end == 0
    &&& forall|i: int|
        0 <= i < headers.len() ==> box_extent(payload, (#[trigger] headers[i]).offset as int, payload.len() as int)
            == Ok::<(int, int), ErrorKind>((headers[i].size as int, headers[i].header_size as int))
            && headers[i].box_type@ == payload.subrange(headers[i].offset + 4, headers[i].offset + 8)
}

/// Two headers describe the same box.
pub open spec fn same_box(a: BoxHeader, b: BoxHeader) -> bool {
    &&& a.offset == b.offset
    &&& a.size == b.size
    &&& a.header_size == b.header_size
    &&& a.box_type@ == b.box_type@
}

/// Boxes read one after another from the start follow the tiling of the payload:
/// they are its first boxes, and they end where its next box starts.
pub proof fn lemma_reach_follows_tiling(payload: Seq<u8>, read: Seq<BoxHeader>, end: int, tiles: Seq<BoxHeader>)
    requires
        boxes_reach(payload, read, end),
        boxes_tile(payload, tiles),
    ensures
        read.len() <= tiles.len(),
        forall|i: int| 0 <= i < read.len() ==> same_box(#[trigger] read[i], tiles[i]),
        end == tile_position(tiles, read.len() as int, payload.len() as int),
    decreases read.len(),
{
    if read.len() > 0 {
        let n = read.len() - 1;
        let prefix = read.drop_last();
        let last = read[n];
        assert(boxes_reach(payload, prefix, last.offset as int)) by {
            assert forall|i: int| 0 <= i < prefix.len() implies header_within(#[trigger] prefix[i], payload.len() as int) by {
                assert(prefix[i] == read[i]);
            }
            assert forall|i: int| 0 < i < prefix.len() implies (#[trigger] prefix[i]).offset == prefix[i - 1].offset
                + prefix[i - 1].size by {
                assert(prefix[i] == read[i] && prefix[i - 1] == read[i - 1]);
            }
            assert forall|i: int| 0 <= i < prefix.len() implies box_extent(payload, (#[trigger] prefix[i]).offset as int, payload.len() as int)
                == Ok::<(int, int), ErrorKind>((prefix[i].size as int, prefix[i].header_size as int))
                && prefix[i].box_type@ == payload.subrange(prefix[i].offset + 4, prefix[i].offset + 8) by {
                assert(prefix[i] == read[i]);
            }
            if n > 0 {
                assert(read[n].offset == read[n - 1].offset + read[n - 1].size);
                assert(prefix.last() == read[n - 1]);
            }
        }
        lemma_reach_follows_tiling(payload, prefix, last.offset as int, tiles);
        assert(header_within(last, payload.len() as int));
        assert(box_extent(payload, last.offset as int, payload.len() as int) == Ok::<(int, int), ErrorKind>(
            (last.size as int, last.header_size as int),
        ));
        assert(last.header_size >= 8);
        assert(n < tiles.len());
        assert(box_extent(payload, tiles[n].offset as int, payload.len() as int) == Ok::<(int, int), ErrorKind>(
            (tiles[n].size as int, tiles[n].header_size as int),
        ));
        assert forall|i: int| 0 <= i < read.len() implies same_box(#[trigger] read[i], tiles[i]) by {
            if i < n {
                assert(read[i] == prefix[i]);
            }
        }
        if n + 1 < tiles.len() {
            assert(tiles[n + 1].offset == tiles[n].offset + tiles[n].size);
        }
    }
}

/// A payload that boxes tile cannot fail to be read as boxes.
pub proof fn lemma_tiling_does_not_fail(payload: Seq<u8>, tiles: Seq<BoxHeader>, kind: ErrorKind)
    requires
        boxes_tile(payload, tiles),
    ensures
        !boxes_fail(payload, kind),
{
    if boxes_fail(payload, kind) {
        let (read, end) = choose|read: Seq<BoxHeader>, end: int|
            #![trigger boxes_reach(payload, read, end)]
            boxes_reach(payload, read, end) && end < payload.len() && box_extent(payload, end, payload.len() as int)
                == Err::<(int, int), ErrorKind>(kind);
        lemma_reach_follows_tiling(payload, read, end, tiles);
        assert(box_extent(payload, tiles[read.len() as int].offset as int, payload.len() as int) is Ok);
    }
}

/// Where the `k`-th of `headers` starts, or `end` past the last.
pub open spec fn tile_position(headers: Seq<BoxHeader>, k: int, end: int) -> int {
    if k < headers.len() {
        headers[k].offset as int
    } else {
        end
    }
}

/// Reading the boxes of `payload` one after another has read the first `k` of the
/// tiling `tiles` and stands at `offset`.
#[verifier::opaque]
pub open spec fn tile_progress(payload: Seq<u8>, tiles: Seq<BoxHeader>, k: int, offset: int) -> bool {
    &&& boxes_tile(payload, tiles)
    &&& 0 <= k <= tiles.len()
    &&& offset == tile_position(tiles, k, payload.len() as int)
}

/// Nothing is read yet.
pub proof fn lemma_tile_progress_start(payload: Seq<u8>, tiles: Seq<BoxHeader>)
    requires
        boxes_tile(payload, tiles),
    ensures
        tile_progress(payload, tiles, 0, 0),
{
    reveal(tile_progress);
}

/// Before the end, the next box of the tiling starts at `offset`.
pub proof fn lemma_tile_progress_next(payload: Seq<u8>, tiles: Seq<BoxHeader>, k: int, offset: int)
    requires
        tile_progress(payload, tiles, k, offset),
        offset < payload.len(),
    ensures
        0 <= k < tiles.len(),
        tiles[k].offset == offset,
        box_extent(payload, offset, payload.len() as int) == Ok::<(int, int), ErrorKind>(
            (tiles[k].size as int, tiles[k].header_size as int),
        ),
        tiles[k].box_type@ == payload.subrange(offset + 4, offset + 8),
{
    reveal(tile_progress);
}

/// Reading the next box of the tiling gives that box and moves past it.
pub proof fn lemma_tile_progress_step(payload: Seq<u8>, tiles: Seq<BoxHeader>, k: int, header: BoxHeader)
    requires
        tile_progress(payload, tiles, k, header.offset as int),
        header.offset < payload.len(),
        box_extent(payload, header.offset as int, payload.len() as int) == Ok::<(int, int), ErrorKind>(
            (header.size as int, header.header_size as int),
        ),
        header.box_type@ == payload.subrange(header.offset + 4, header.offset + 8),
    ensures
        k < tiles.len(),
        header.size == tiles[k].size,
        header.header_size == tiles[k].header_size,
        header.box_type@ == tiles[k].box_type@,
        tile_progress(payload, tiles, k + 1, header.offset + header.size),
{
    reveal(tile_progress);
    lemma_tile_progress_next(payload, tiles, k, header.offset as int);
    if k + 1 < tiles.len() {
        assert(tiles[k + 1].offset == tiles[k].offset + tiles[k].size);
    }
}

/// The headers of the boxes that tile `payload`, in order.
pub open spec fn boxes_tile(payload: Seq<u8>, headers: Seq<BoxHeader>) -> bool {
    boxes_reach(payload, headers, payload.len() as int)
}

/// Reading the boxes of `payload` one after another reaches an offset before its
/// end where no box header can be read, with an error of `kind`.
pub open spec fn boxes_fail(payload: Seq<u8>, kind: ErrorKind) -> bool {
    exists|headers: Seq<BoxHeader>, end: int|
        #![trigger boxes_reach(payload, headers, end)]
        boxes_reach(payload, headers, end) && end < payload.len() && box_extent(payload, end, payload.len() as int)
            == Err::<(int, int), ErrorKind>(kind)
}

/// Splits a payload into its child boxes.
pub fn child_boxes(payload: &[u8]) -> (result: Result<Vec<BoxHeader>, DecoderError>)
    requires
        crate::container::bytes::addressable(payload@.len() as int),
    ensures
        match result {
            Ok(headers) => boxes_tile(payload@, headers@),
            Err(error) => boxes_fail(payload@, error.kind()),
        },
        payload@.len() == 0 ==> result is Ok && result->Ok_0@.len() == 0,
{
    let mut headers: Vec<BoxHeader> = Vec::new();
    let mut offset: usize = 0;
    while offset < payload.len()
        invariant
            offset <= payload@.len(),
            crate::container::bytes::addressable(payload@.len() as int),
            boxes_reach(payload@, headers@, offset as int),
        decreases payload@.len() - offset,
    {
        let header = match read_box_header(payload, offset, payload.len()) {
            Ok(value) => value,
            Err(error) => {
                assert(boxes_reach(payload@, headers@, offset as int));
                return Err(error);
            },
        };
        let ghost before = headers@;
        offset = header.offset + header.size;
        headers.push(header);
        proof {
            assert forall|i: int| 0 < i < headers@.len() implies (#[trigger] headers@[i]).offset == headers@[i - 1].offset
                + headers@[i - 1].size by {
                if i < before.len() {
                    assert(headers@[i] == before[i] && headers@[i - 1] == before[i - 1]);
                }
            }
        }
    }
    Ok(headers)
}

/// Box `k` of the boxes that tile `payload` is the first of type `box_type`.
pub open spec fn first_box_of_type(payload: Seq<u8>, headers: Seq<BoxHeader>, k: int, box_type: Seq<u8>) -> bool {
    &&& boxes_tile(payload, headers)
    &&& 0 <= k < headers.len()
    &&& headers[k].box_type@ == box_type
    &&& forall|j: int| 0 <= j < k ==> (#[trigger] headers[j]).box_type@ != box_type
}

/// None of the boxes that tile `payload` is of type `box_type`.
pub open spec fn no_box_of_type(payload: Seq<u8>, headers: Seq<BoxHeader>, box_type: Seq<u8>) -> bool {
    &&& boxes_tile(payload, headers)
    &&& forall|j: int| 0 <= j < headers.len() ==> (#[trigger] headers[j]).box_type@ != box_type
}

/// The first child box of the given type, after all child boxes are read.
pub fn child_box(payload: &[u8], box_type: &[u8; 4]) -> (result: Result<Option<BoxHeader>, DecoderError>)
    requires
        crate::container::bytes::addressable(payload@.len() as int),
    ensures
        match result {
            Ok(Some(header)) => header_within(header, payload@.len() as int) && header.box_type@ == box_type@ && exists|
                headers: Seq<BoxHeader>,
                k: int,
            |
                #![trigger boxes_tile(payload@, headers), headers[k]]
                boxes_tile(payload@, headers) && 0 <= k < headers.len() && headers[k] == header && forall|j: int|
                    0 <= j < k ==> (#[trigger] headers[j]).box_type@ != box_type@,
            Ok(None) => exists|headers: Seq<BoxHeader>|
                #![trigger boxes_tile(payload@, headers)]
                boxes_tile(payload@, headers) && forall|j: int|
                    0 <= j < headers.len() ==> (#[trigger] headers[j]).box_type@ != box_type@,
            Err(error) => boxes_fail(payload@, error.kind()),
        },
{
    let headers = match child_boxes(payload) {
        Ok(value) => value,
        Err(error) => return Err(error),
    };
    let mut index: usize = 0;
    while index < headers.len()
        invariant
            index <= headers@.len(),
            boxes_tile(payload@, headers@),
            forall|j: int| 0 <= j < index ==> (#[trigger] headers@[j]).box_type@ != box_type@,
        decreases headers@.len() - index,
    {
        let header = headers[index];
        if header.box_type[0] == box_type[0] && header.box_type[1] == box_type[1] && header.box_type[2] == box_type[2]
            && header.box_type[3] == box_type[3] {
            assert(header.box_type@ =~= box_type@);
            assert(headers@[index as int] == header);
            return Ok(Some(header));
        }
        assert(header.box_type@ != box_type@) by {
            if header.box_type@ == box_type@ {
                assert(header.box_type@[0] == box_type@[0]);
                assert(header.box_type@[1] == box_type@[1]);
                assert(header.box_type@[2] == box_type@[2]);
                assert(header.box_type@[3] == box_type@[3]);
            }
        }
        index = index + 1;
    }
    Ok(None)
}

} // verus!
