//! Sample transform (`sato`) derived items: a postfix expression over input images.
use vstd::prelude::*;
use crate::container::avif::{collect_meta, collected_state, file_meta_parses, top_level_walk};
use crate::container::boxes::BoxHeader;
use crate::container::gain_map::{dimg_from, first_dimg_reference};
use crate::container::bytes::{addressable, be_uint, contains_code, contains_fourcc, read_u16, read_u32, read_u64, read_u8};
use crate::container::grid::{grid_decodable, parse_grid_item};
use crate::container::items::MetaState;
use crate::container::metadata::{
    association_entry, association_indices_checked, has_item_of_type, info_entry, item_metadata, metadata_matches,
    PrimaryItemMetadata,
};
use crate::container::payload::{item_bytes, item_payload};
use crate::container::properties::{code4, fourcc_code, fourcc_eq};
use crate::container::types::{ColorInformation, GridImage, PixelInformation};
use crate::error::{DecoderError, ErrorKind};

verus! {

/// One token of a sample transform expression, in postfix order.
#[derive(Debug, Clone, PartialEq, Eq, Structural)]
pub enum SampleTransformToken {
    /// A signed constant of the intermediate bit depth.
    Constant(i64),
    /// The sample of input image `n` (0-based).
    Input(usize),
    /// A unary operator applied to the top of the stack.
    Unary(u8),
    /// A binary operator applied to the two top values of the stack.
    Binary(u8),
}

/// The bytes a constant takes at the intermediate bit depth the header selects.
pub open spec fn sato_constant_width(header: u8) -> int {
    if header & 0x03 == 0 {
        1
    } else if header & 0x03 == 1 {
        2
    } else if header & 0x03 == 2 {
        4
    } else {
        8
    }
}

/// Half the range of a signed value of `count` bytes.
pub open spec fn sign_bound(count: int) -> int {
    if count == 1 {
        0x80
    } else if count == 2 {
        0x8000
    } else if count == 4 {
        0x8000_0000
    } else {
        0x8000_0000_0000_0000
    }
}

/// The big-endian two's-complement value of `count` bytes at `offset`.
pub open spec fn be_signed(bytes: Seq<u8>, offset: int, count: int) -> int {
    let value = be_uint(bytes, offset, count as nat);
    if value >= sign_bound(count) {
        value - 2 * sign_bound(count)
    } else {
        value
    }
}

/// Where a walk over the token list ends.
pub enum SatoWalk {
    /// All tokens were read: the cursor after them, the stack depth and the tokens.
    Finished(int, int, Seq<SampleTransformToken>),
    /// A token was rejected.
    Failed(ErrorKind),
    /// A token would be read past the end of the payload.
    Overrun,
}

/// Reads `remaining` tokens from `cursor`, with `depth` values on the stack and
/// `tokens` read so far. A constant takes `width` bytes after its token byte.
pub open spec fn sato_walk(
    payload: Seq<u8>,
    width: int,
    cursor: int,
    remaining: nat,
    depth: int,
    tokens: Seq<SampleTransformToken>,
) -> SatoWalk
    decreases remaining,
{
    if remaining == 0 {
        SatoWalk::Finished(cursor, depth, tokens)
    } else if cursor < 0 || cursor >= payload.len() {
        SatoWalk::Overrun
    } else {
        let token = payload[cursor];
        let rest = (remaining - 1) as nat;
        if token == 0 {
            if cursor + 1 + width > payload.len() {
                SatoWalk::Failed(ErrorKind::NotEnoughData)
            } else {
                sato_walk(
                    payload,
                    width,
                    cursor + 1 + width,
                    rest,
                    depth + 1,
                    tokens.push(SampleTransformToken::Constant(be_signed(payload, cursor + 1, width) as i64)),
                )
            }
        } else if 1 <= token <= 32 {
            sato_walk(payload, width, cursor + 1, rest, depth + 1, tokens.push(SampleTransformToken::Input((token - 1) as usize)))
        } else if 64 <= token <= 67 {
            if depth < 1 {
                SatoWalk::Failed(ErrorKind::Bitstream)
            } else {
                sato_walk(payload, width, cursor + 1, rest, depth, tokens.push(SampleTransformToken::Unary((token - 64) as u8)))
            }
        } else if 128 <= token <= 137 {
            if depth < 2 {
                SatoWalk::Failed(ErrorKind::Bitstream)
            } else {
                sato_walk(payload, width, cursor + 1, rest, depth - 1, tokens.push(SampleTransformToken::Binary((token - 128) as u8)))
            }
        } else {
            SatoWalk::Failed(ErrorKind::Unsupported)
        }
    }
}

/// The header is valid and announces a token list that fits the payload.
pub open spec fn sato_header_valid(payload: Seq<u8>) -> bool {
    &&& payload.len() >= 2
    &&& payload[0] >> 6 == 0
    &&& payload[0] & 0x3c == 0
    &&& payload[1] != 0
    &&& payload.len() >= payload[1] + 2
}

/// The walk over the whole token list.
pub open spec fn sato_tokens(payload: Seq<u8>) -> SatoWalk {
    sato_walk(payload, sato_constant_width(payload[0]), 2, payload[1] as nat, 0, Seq::empty())
}

/// Reading the token list would index past the payload: the token count outruns
/// the bytes that constants leave.
pub open spec fn sato_overruns(payload: Seq<u8>) -> bool {
    sato_header_valid(payload) && sato_tokens(payload) is Overrun
}

/// The intermediate bit depth the header selects.
pub open spec fn sato_bit_depth(header: u8) -> u8 {
    (8 * sato_constant_width(header)) as u8
}

/// What parsing a `sato` payload gives: the intermediate bit depth and the tokens.
pub open spec fn sato_outcome(payload: Seq<u8>) -> Result<(u8, Seq<SampleTransformToken>), ErrorKind> {
    if payload.len() < 2 {
        Err(ErrorKind::NotEnoughData)
    } else if payload[0] >> 6 != 0 || payload[0] & 0x3c != 0 {
        Err(ErrorKind::Unsupported)
    } else if payload[1] == 0 || payload.len() < payload[1] + 2 {
        Err(ErrorKind::Bitstream)
    } else {
        match sato_tokens(payload) {
            SatoWalk::Finished(cursor, depth, tokens) => if depth != 1 || cursor != payload.len() {
                Err(ErrorKind::Bitstream)
            } else {
                Ok((sato_bit_depth(payload[0]), tokens))
            },
            SatoWalk::Failed(kind) => Err(kind),
            SatoWalk::Overrun => Err(ErrorKind::NotEnoughData),
        }
    }
}

/// How many operands a token takes from the stack.
pub open spec fn token_operands(token: SampleTransformToken) -> int {
    match token {
        SampleTransformToken::Unary(_) => 1,
        SampleTransformToken::Binary(_) => 2,
        _ => 0,
    }
}

/// How a token changes the stack depth.
pub open spec fn token_depth_change(token: SampleTransformToken) -> int {
    match token {
        SampleTransformToken::Unary(_) => 0,
        SampleTransformToken::Binary(_) => -1,
        _ => 1,
    }
}

/// The stack depth after the first `count` tokens, or `None` if one of them lacks
/// operands.
pub open spec fn prefix_depth(tokens: Seq<SampleTransformToken>, count: nat) -> Option<int>
    decreases count,
{
    if count == 0 {
        Some(0)
    } else {
        match prefix_depth(tokens, (count - 1) as nat) {
            Some(depth) => if depth < token_operands(tokens[count - 1]) {
                None
            } else {
                Some(depth + token_depth_change(tokens[count - 1]))
            },
            None => None,
        }
    }
}

/// A postfix expression in which every operator finds its operands and which
/// leaves exactly one value.
pub open spec fn well_formed_postfix(tokens: Seq<SampleTransformToken>) -> bool {
    prefix_depth(tokens, tokens.len()) == Some(1int)
}

proof fn lemma_prefix_depth_push(tokens: Seq<SampleTransformToken>, token: SampleTransformToken, count: nat)
    requires
        count <= tokens.len(),
    ensures
        prefix_depth(tokens.push(token), count) == prefix_depth(tokens, count),
    decreases count,
{
    if count > 0 {
        lemma_prefix_depth_push(tokens, token, (count - 1) as nat);
        assert(tokens.push(token)[count - 1] == tokens[count - 1]);
    }
}

proof fn lemma_walk_depth(
    payload: Seq<u8>,
    width: int,
    cursor: int,
    remaining: nat,
    depth: int,
    tokens: Seq<SampleTransformToken>,
)
    requires
        prefix_depth(tokens, tokens.len()) == Some(depth),
    ensures
        sato_walk(payload, width, cursor, remaining, depth, tokens) matches SatoWalk::Finished(_, end_depth, all)
            ==> prefix_depth(all, all.len()) == Some(end_depth),
    decreases remaining,
{
    if remaining > 0 && 0 <= cursor < payload.len() {
        let token = payload[cursor];
        let rest = (remaining - 1) as nat;
        let next = if token == 0 {
            Some((cursor + 1 + width, depth + 1, SampleTransformToken::Constant(be_signed(payload, cursor + 1, width) as i64)))
        } else if 1 <= token <= 32 {
            Some((cursor + 1, depth + 1, SampleTransformToken::Input((token - 1) as usize)))
        } else if 64 <= token <= 67 {
            Some((cursor + 1, depth, SampleTransformToken::Unary((token - 64) as u8)))
        } else if 128 <= token <= 137 {
            Some((cursor + 1, depth - 1, SampleTransformToken::Binary((token - 128) as u8)))
        } else {
            None
        };
        if let Some((next_cursor, next_depth, produced)) = next {
            if depth >= token_operands(produced) {
                lemma_prefix_depth_push(tokens, produced, tokens.len());
                lemma_walk_depth(payload, width, next_cursor, rest, next_depth, tokens.push(produced));
            }
        }
    }
}

/// A walk that finishes has read all the tokens it was asked for.
proof fn lemma_walk_count(
    payload: Seq<u8>,
    width: int,
    cursor: int,
    remaining: nat,
    depth: int,
    tokens: Seq<SampleTransformToken>,
)
    ensures
        sato_walk(payload, width, cursor, remaining, depth, tokens) matches SatoWalk::Finished(_, _, all) ==> all.len()
            == tokens.len() + remaining,
    decreases remaining,
{
    if remaining > 0 && 0 <= cursor < payload.len() {
        let token = payload[cursor];
        let rest = (remaining - 1) as nat;
        if token == 0 {
            lemma_walk_count(
                payload,
                width,
                cursor + 1 + width,
                rest,
                depth + 1,
                tokens.push(SampleTransformToken::Constant(be_signed(payload, cursor + 1, width) as i64)),
            );
        } else if 1 <= token <= 32 {
            lemma_walk_count(payload, width, cursor + 1, rest, depth + 1, tokens.push(SampleTransformToken::Input((token - 1) as usize)));
        } else if 64 <= token <= 67 {
            lemma_walk_count(payload, width, cursor + 1, rest, depth, tokens.push(SampleTransformToken::Unary((token - 64) as u8)));
        } else if 128 <= token <= 137 {
            lemma_walk_count(payload, width, cursor + 1, rest, depth - 1, tokens.push(SampleTransformToken::Binary((token - 128) as u8)));
        }
    }
}

/// The byte that codes a token in a `sato` payload: 0 starts a constant, `1..=32`
/// name the inputs from the first, `64..=67` the unary operators and `128..=137`
/// the binary operators.
pub open spec fn token_code(token: SampleTransformToken) -> int {
    match token {
        SampleTransformToken::Constant(_) => 0,
        SampleTransformToken::Input(index) => index + 1,
        SampleTransformToken::Unary(op) => 64 + op,
        SampleTransformToken::Binary(op) => 128 + op,
    }
}

/// Each token a walk reads is the one its byte codes: the walk keeps the tokens
/// read so far, appends one token per byte it reads at `cursor`, that token is
/// coded by that byte, and a constant holds the signed big-endian value of the
/// `width` bytes that follow.
pub proof fn lemma_sato_walk_codes(
    payload: Seq<u8>,
    width: int,
    cursor: int,
    remaining: nat,
    depth: int,
    tokens: Seq<SampleTransformToken>,
)
    requires
        width >= 0,
    ensures
        sato_walk(payload, width, cursor, remaining, depth, tokens) matches SatoWalk::Finished(_, _, all) ==> {
            &&& all.len() >= tokens.len()
            &&& all.subrange(0, tokens.len() as int) == tokens
            &&& remaining > 0 ==> {
                &&& all.len() > tokens.len()
                &&& 0 <= cursor < payload.len()
                &&& token_code(all[tokens.len() as int]) == payload[cursor]
                &&& payload[cursor] == 0 ==> all[tokens.len() as int] == SampleTransformToken::Constant(
                    be_signed(payload, cursor + 1, width) as i64,
                )
            }
        },
    decreases remaining,
{
    if remaining > 0 && 0 <= cursor < payload.len() {
        let token = payload[cursor];
        let rest = (remaining - 1) as nat;
        let next = if token == 0 {
            SampleTransformToken::Constant(be_signed(payload, cursor + 1, width) as i64)
        } else if 1 <= token <= 32 {
            SampleTransformToken::Input((token - 1) as usize)
        } else if 64 <= token <= 67 {
            SampleTransformToken::Unary((token - 64) as u8)
        } else {
            SampleTransformToken::Binary((token - 128) as u8)
        };
        let step = if token == 0 { cursor + 1 + width } else { cursor + 1 };
        let change = if token == 0 || 1 <= token <= 32 { 1int } else if 64 <= token <= 67 { 0int } else { -1int };
        lemma_sato_walk_codes(payload, width, step, rest, depth + change, tokens.push(next));
        assert(sato_walk(payload, width, cursor, remaining, depth, tokens) is Finished ==> sato_walk(
            payload,
            width,
            cursor,
            remaining,
            depth,
            tokens,
        ) == sato_walk(payload, width, step, rest, depth + change, tokens.push(next)));
        match sato_walk(payload, width, cursor, remaining, depth, tokens) {
            SatoWalk::Finished(_, _, all) => {
                let pushed = tokens.push(next);
                assert(all.subrange(0, pushed.len() as int) == pushed);
                assert(all[tokens.len() as int] == pushed[tokens.len() as int]);
                assert forall|i: int| 0 <= i < tokens.len() implies all.subrange(0, tokens.len() as int)[i] == tokens[i] by {
                    assert(all[i] == all.subrange(0, pushed.len() as int)[i]);
                    assert(pushed[i] == tokens[i]);
                }
                assert(all.subrange(0, tokens.len() as int) =~= tokens);
            },
            _ => {},
        }
    }
}

/// A parsed sample transform expression is a well-formed postfix expression: every
/// operator finds its operands, and one value is left. Its header has no reserved
/// bit set, its bit depth is 8, 16, 32 or 64 as the low two header bits select, it
/// holds as many tokens as the count byte announces (at least one), and the tokens
/// take up the rest of the payload.
pub proof fn lemma_parsed_expression_well_formed(payload: Seq<u8>)
    requires
        sato_outcome(payload) is Ok,
    ensures
        well_formed_postfix(sato_outcome(payload)->Ok_0.1),
        payload[0] & 0xfc == 0,
        sato_outcome(payload)->Ok_0.0 == (if payload[0] & 3 == 0 {
            8u8
        } else if payload[0] & 3 == 1 {
            16u8
        } else if payload[0] & 3 == 2 {
            32u8
        } else {
            64u8
        }),
        sato_outcome(payload)->Ok_0.1.len() == payload[1] as int,
        payload[1] >= 1,
        sato_tokens(payload) matches SatoWalk::Finished(end, depth, _) && end == payload.len() && depth == 1,
{
    lemma_walk_depth(payload, sato_constant_width(payload[0]), 2, payload[1] as nat, 0, Seq::empty());
    lemma_walk_count(payload, sato_constant_width(payload[0]), 2, payload[1] as nat, 0, Seq::empty());
    let header = payload[0];
    assert(header >> 6 == 0 && header & 0x3c == 0 ==> header & 0xfc == 0) by (bit_vector);
}

/// Reads the signed constant of `width` bytes at `offset`.
fn read_sato_constant(payload: &[u8], offset: usize, width: usize) -> (value: i64)
    requires
        width == 1 || width == 2 || width == 4 || width == 8,
        offset + width <= payload@.len(),
    ensures
        value == be_signed(payload@, offset as int, width as int),
{
    assert(offset + width <= payload.len());
    proof {
        crate::container::bytes::lemma_be_uint_bounds(payload@, offset as int, width as nat);
        vstd::arithmetic::power2::lemma2_to64();
        vstd::arithmetic::power2::lemma2_to64_rest();
    }
    if width == 1 {
        let unsigned = match read_u8(payload, offset) {
            Ok(value) => value,
            Err(_) => 0,
        };
        assert(unsigned == be_uint(payload@, offset as int, 1)) by {
            reveal_with_fuel(be_uint, 2);
        }
        if unsigned >= 0x80 {
            unsigned as i64 - 0x100
        } else {
            unsigned as i64
        }
    } else if width == 2 {
        let unsigned = match read_u16(payload, offset) {
            Ok(value) => value,
            Err(_) => 0,
        };
        if unsigned >= 0x8000 {
            unsigned as i64 - 0x1_0000
        } else {
            unsigned as i64
        }
    } else if width == 4 {
        let unsigned = match read_u32(payload, offset) {
            Ok(value) => value,
            Err(_) => 0,
        };
        if unsigned >= 0x8000_0000 {
            unsigned as i64 - 0x1_0000_0000
        } else {
            unsigned as i64
        }
    } else {
        let unsigned = match read_u64(payload, offset) {
            Ok(value) => value,
            Err(_) => 0,
        };
        if unsigned >= 0x8000_0000_0000_0000 {
            (unsigned - 0x8000_0000_0000_0000) as i64 + i64::MIN
        } else {
            unsigned as i64
        }
    }
}

/// Whether the token list can be read without running past the payload (see
/// `sato_overruns`).
pub fn sato_tokens_fit(payload: &[u8]) -> (fit: bool)
    ensures
        fit == !sato_overruns(payload@),
{
    if payload.len() < 2 || payload[0] >> 6 != 0 || payload[0] & 0x3c != 0 || payload[1] == 0
        || payload.len() < payload[1] as usize + 2 {
        return true;
    }
    let width: usize = if payload[0] & 0x03 == 0 {
        1
    } else if payload[0] & 0x03 == 1 {
        2
    } else if payload[0] & 0x03 == 2 {
        4
    } else {
        8
    };
    let token_count = payload[1] as usize;
    let ghost tokens: Seq<SampleTransformToken> = Seq::empty();
    let mut cursor: usize = 2;
    let mut depth: usize = 0;
    let mut k: usize = 0;
    while k < token_count
        invariant
            sato_header_valid(payload@),
            width == sato_constant_width(payload@[0]),
            token_count == payload@[1],
            k <= token_count,
            2 <= cursor <= payload@.len(),
            depth <= k,
            sato_tokens(payload@) == sato_walk(payload@, width as int, cursor as int, (token_count - k) as nat, depth as int, tokens),
        decreases token_count - k,
    {
        if cursor >= payload.len() {
            return false;
        }
        let token = payload[cursor];
        let ghost rest = (token_count - k - 1) as nat;
        if token == 0 {
            if payload.len() - cursor < 1 + width {
                return true;
            }
            proof {
                tokens = tokens.push(SampleTransformToken::Constant(#[verifier::truncate] (be_signed(payload@, cursor + 1, width as int) as i64)));
            }
            cursor = cursor + 1 + width;
            depth = depth + 1;
        } else if 1 <= token && token <= 32 {
            proof {
                tokens = tokens.push(SampleTransformToken::Input((token - 1) as usize));
            }
            cursor = cursor + 1;
            depth = depth + 1;
        } else if 64 <= token && token <= 67 {
            if depth < 1 {
                return true;
            }
            proof {
                tokens = tokens.push(SampleTransformToken::Unary((token - 64) as u8));
            }
            cursor = cursor + 1;
        } else if 128 <= token && token <= 137 {
            if depth < 2 {
                return true;
            }
            proof {
                tokens = tokens.push(SampleTransformToken::Binary((token - 128) as u8));
            }
            cursor = cursor + 1;
            depth = depth - 1;
        } else {
            return true;
        }
        k = k + 1;
    }
    true
}

/// Parses a `sato` payload: a header byte (version 0, reserved bits clear, the
/// intermediate bit depth 8, 16, 32 or 64 in the low bits), a token count and the
/// tokens. The expression must leave exactly one value and use every byte.
///
/// A token list that runs past the payload once constants took their bytes is left
/// out: the walk would index past the end.
pub fn parse_sample_transform_payload(payload: &[u8]) -> (result: Result<(u8, Vec<SampleTransformToken>), DecoderError>)
    requires
        !sato_overruns(payload@),
    ensures
        match result {
            Ok((depth, tokens)) => sato_outcome(payload@) == Ok::<(u8, Seq<SampleTransformToken>), ErrorKind>((depth, tokens@)),
            Err(error) => sato_outcome(payload@) == Err::<(u8, Seq<SampleTransformToken>), ErrorKind>(error.kind()),
        },
{
    if payload.len() < 2 {
        return Err(DecoderError::NotEnoughData("sato payload is missing its header".to_string()));
    }
    let header = payload[0];
    let version = header >> 6;
    if version != 0 || header & 0x3c != 0 {
        return Err(DecoderError::Unsupported("unsupported sato version or reserved header bits".to_string()));
    }
    let intermediate_bit_depth: u8 = if header & 0x03 == 0 {
        8
    } else if header & 0x03 == 1 {
        16
    } else if header & 0x03 == 2 {
        32
    } else {
        64
    };
    let token_count = payload[1] as usize;
    if token_count == 0 || payload.len() < token_count + 2 {
        return Err(DecoderError::Bitstream("sato token count exceeds payload".to_string()));
    }
    let bytes = (intermediate_bit_depth / 8) as usize;
    assert(bytes == sato_constant_width(header));
    let mut cursor: usize = 2;
    let mut stack_depth: usize = 0;
    let mut tokens: Vec<SampleTransformToken> = Vec::new();
    let mut k: usize = 0;
    while k < token_count
        invariant
            sato_header_valid(payload@),
            !sato_overruns(payload@),
            header == payload@[0],
            bytes == sato_constant_width(header),
            token_count == payload@[1],
            k <= token_count,
            2 <= cursor <= payload@.len(),
            stack_depth <= k,
            sato_tokens(payload@) == sato_walk(payload@, bytes as int, cursor as int, (token_count - k) as nat, stack_depth as int, tokens@),
        decreases token_count - k,
    {
        assert(cursor < payload.len());
        let token = payload[cursor];
        cursor = cursor + 1;
        if token == 0 {
            if payload.len() - cursor < bytes {
                return Err(DecoderError::NotEnoughData("sato constant is truncated".to_string()));
            }
            let value = read_sato_constant(payload, cursor, bytes);
            cursor = cursor + bytes;
            tokens.push(SampleTransformToken::Constant(value));
            stack_depth = stack_depth + 1;
        } else if 1 <= token && token <= 32 {
            tokens.push(SampleTransformToken::Input((token - 1) as usize));
            stack_depth = stack_depth + 1;
        } else if 64 <= token && token <= 67 {
            if stack_depth < 1 {
                return Err(DecoderError::Bitstream("sato unary stack underflow".to_string()));
            }
            tokens.push(SampleTransformToken::Unary(token - 64));
        } else if 128 <= token && token <= 137 {
            if stack_depth < 2 {
                return Err(DecoderError::Bitstream("sato binary stack underflow".to_string()));
            }
            stack_depth = stack_depth - 1;
            tokens.push(SampleTransformToken::Binary(token - 128));
        } else {
            return Err(DecoderError::Unsupported(crate::text::concat("reserved sato token ", crate::text::decimal(token as u64).as_str())));
        }
        k = k + 1;
    }
    if stack_depth != 1 || cursor != payload.len() {
        return Err(DecoderError::Bitstream("sato expression does not leave exactly one result".to_string()));
    }
    Ok((intermediate_bit_depth, tokens))
}

/// The bit depth that every plane of a `pixi` property shares.
pub fn uniform_bit_depth(pixi: Option<&PixelInformation>) -> (result: Result<u8, DecoderError>)
    ensures
        match pixi {
            None => result is Err && result->Err_0.kind() == ErrorKind::Bitstream,
            Some(pixi) => if pixi.bits_per_channel@.len() == 0 {
                result is Err && result->Err_0.kind() == ErrorKind::Bitstream
            } else if exists|i: int| 0 <= i < pixi.bits_per_channel@.len() && #[trigger] pixi.bits_per_channel@[i] != pixi.bits_per_channel@[0] {
                result is Err && result->Err_0.kind() == ErrorKind::Unsupported
            } else {
                result == Ok::<u8, DecoderError>(pixi.bits_per_channel@[0])
            },
        },
{
    let info = match pixi {
        Some(info) => info,
        None => return Err(DecoderError::Bitstream("pixi property is missing".to_string())),
    };
    if info.bits_per_channel.len() == 0 {
        return Err(DecoderError::Bitstream("pixi has no channels".to_string()));
    }
    let depth = info.bits_per_channel[0];
    let mut i: usize = 0;
    while i < info.bits_per_channel.len()
        invariant
            pixi == Some(info),
            info.bits_per_channel@.len() > 0,
            i <= info.bits_per_channel@.len(),
            depth == info.bits_per_channel@[0],
            forall|j: int| 0 <= j < i ==> info.bits_per_channel@[j] == depth,
        decreases info.bits_per_channel@.len() - i,
    {
        if info.bits_per_channel[i] != depth {
            assert(info.bits_per_channel@[i as int] != info.bits_per_channel@[0]);
            return Err(DecoderError::Unsupported("sato requires a uniform bit depth across planes".to_string()));
        }
        i = i + 1;
    }
    Ok(depth)
}

/// A sample transform derived item: the output geometry and depth, the expression
/// and its inputs.
#[derive(Debug, Clone, PartialEq, Eq)]
pub struct SampleTransform {
    pub output_width: u32,
    pub output_height: u32,
    pub output_bit_depth: u8,
    pub intermediate_bit_depth: u8,
    pub tokens: Vec<SampleTransformToken>,
    pub inputs: Vec<SampleTransformInput>,
}

/// One input image of a sample transform.
#[derive(Debug, Clone, PartialEq, Eq)]
pub struct SampleTransformInput {
    pub item_id: u32,
    pub width: u32,
    pub height: u32,
    pub pixel_information: PixelInformation,
    pub color_information: Option<ColorInformation>,
    pub av1_config: Vec<u8>,
    pub payload: Vec<u8>,
    /// A `grid` input is composed before the expression is evaluated; plain `av01`
    /// inputs have none.
    pub grid: Option<GridImage>,
}

/// Whether some `dimg` reference from `from_item_id` lists `to_item_id`.
fn dimg_references(state: &MetaState, from_item_id: u32, to_item_id: u32) -> (found: bool)
    ensures
        found == exists|r: int| 0 <= r < state.item_references@.len() && {
            let reference = #[trigger] state.item_references@[r];
            reference.reference_type@ == code4(0x64, 0x69, 0x6d, 0x67) && reference.from_item_id == from_item_id
                && reference.to_item_ids@.contains(to_item_id)
        },
{
    let dimg = fourcc_code(0x64, 0x69, 0x6d, 0x67);
    let mut r: usize = 0;
    while r < state.item_references.len()
        invariant
            dimg@ == code4(0x64, 0x69, 0x6d, 0x67),
            r <= state.item_references@.len(),
            forall|q: int| 0 <= q < r ==> {
                let reference = #[trigger] state.item_references@[q];
                !(reference.reference_type@ == code4(0x64, 0x69, 0x6d, 0x67) && reference.from_item_id == from_item_id
                    && reference.to_item_ids@.contains(to_item_id))
            },
        decreases state.item_references@.len() - r,
    {
        let reference = &state.item_references[r];
        if fourcc_eq(&reference.reference_type, &dimg) && reference.from_item_id == from_item_id {
            let mut t: usize = 0;
            while t < reference.to_item_ids.len()
                invariant
                    r < state.item_references@.len(),
                    *reference == state.item_references@[r as int],
                    reference.reference_type@ == code4(0x64, 0x69, 0x6d, 0x67),
                    reference.from_item_id == from_item_id,
                    t <= reference.to_item_ids@.len(),
                    forall|u: int| 0 <= u < t ==> reference.to_item_ids@[u] != to_item_id,
                decreases reference.to_item_ids@.len() - t,
            {
                if reference.to_item_ids[t] == to_item_id {
                    assert(reference.to_item_ids@[t as int] == to_item_id);
                    assert(state.item_references@[r as int].to_item_ids@.contains(to_item_id));
                    return true;
                }
                t = t + 1;
            }
            assert(!reference.to_item_ids@.contains(to_item_id));
        }
        r = r + 1;
    }
    false
}

/// Item information entry `index` is a `sato` item that is the item `primary` or
/// lists it in one of its `dimg` references.
pub open spec fn sato_candidate(state: &MetaState, primary: u32, index: int) -> bool {
    &&& 0 <= index < state.item_infos@.len()
    &&& state.item_infos@[index].item_type@ == code4(0x73, 0x61, 0x74, 0x6f)
    &&& (state.item_infos@[index].item_id == primary || exists|r: int| 0 <= r < state.item_references@.len() && {
        let reference = #[trigger] state.item_references@[r];
        reference.reference_type@ == code4(0x64, 0x69, 0x6d, 0x67) && reference.from_item_id == state.item_infos@[index].item_id
            && reference.to_item_ids@.contains(primary)
    })
}

/// Entry `index` is the first `sato` candidate for the item `primary`.
pub open spec fn first_sato_candidate(state: &MetaState, primary: u32, index: int) -> bool {
    &&& sato_candidate(state, primary, index)
    &&& forall|j: int| 0 <= j < index ==> !sato_candidate(state, primary, j)
}

/// Some item information entry gives the item `item_id` type `sato`.
pub open spec fn is_sato_item(state: &MetaState, item_id: u32) -> bool {
    exists|k: int| 0 <= k < state.item_infos@.len() && (#[trigger] state.item_infos@[k]).item_id == item_id
        && state.item_infos@[k].item_type@ == code4(0x73, 0x61, 0x74, 0x6f)
}

/// `transform` is what the `sato` item of entry `index` gives: its inputs are the
/// items of the item's first `dimg` reference, in order, each with its bytes; its
/// output bit depth is supported; its expression is what the item's own bytes give.
pub open spec fn sample_transform_of(data: Seq<u8>, state: &MetaState, index: int, transform: SampleTransform) -> bool {
    exists|position: int|
        #[trigger] first_dimg_reference(state, state.item_infos@[index].item_id, position) && {
            let inputs = state.item_references@[position].to_item_ids@;
            &&& inputs.len() > 0
            &&& transform.inputs@.len() == inputs.len()
            &&& forall|n: int| 0 <= n < inputs.len() ==> (#[trigger] transform.inputs@[n]).item_id == inputs[n] && item_bytes(
                data,
                *state,
                inputs[n],
                Seq::empty(),
            ) == Ok::<Seq<u8>, ErrorKind>(transform.inputs@[n].payload@)
            &&& 8 <= transform.output_bit_depth <= 16
            &&& item_bytes(data, *state, state.item_infos@[index].item_id, Seq::empty()) matches Ok(payload)
                && sato_outcome(payload) == Ok::<(u8, Seq<SampleTransformToken>), ErrorKind>(
                (transform.intermediate_bit_depth, transform.tokens@),
            )
        }
}

/// A file whose sample transform parses: small enough to address, its `meta` box
/// parses, and the state gathered from it gives a sample transform (or has none).
pub open spec fn sample_transform_file_parses(data: Seq<u8>) -> bool {
    &&& data.len() <= usize::MAX / 8
    &&& file_meta_parses(data)
    &&& forall|state: MetaState| #[trigger] collected_state(data, state) ==> sample_transform_parses(data, &state)
}

/// Parses the first `sato` derived item that is the primary item or lists it among
/// its `dimg` inputs.
///
/// A file in which the bytes `sato` occur nowhere has none, and is not parsed. A
/// token list that runs past its payload is `NotEnoughData`, and a property
/// association index that names no property is a `Bitstream` error.
pub fn parse_sample_transform(data: &[u8]) -> (result: Result<Option<SampleTransform>, DecoderError>)
    ensures
        !contains_code(data@, code4(0x73, 0x61, 0x74, 0x6f)) ==> result matches Ok(None),
        match result {
            Ok(Some(transform)) => {
                &&& 8 <= transform.output_bit_depth <= 16
                &&& transform.inputs@.len() > 0
                &&& exists|state: MetaState| #[trigger] collected_state(data@, state) && state.primary_item_id is Some
                    && exists|index: int| #[trigger] first_sato_candidate(&state, state.primary_item_id->0, index)
                    && sample_transform_of(data@, &state, index, transform)
            },
            Ok(None) => !contains_code(data@, code4(0x73, 0x61, 0x74, 0x6f)) || exists|state: MetaState|
                #[trigger] collected_state(data@, state) && (state.primary_item_id is None || forall|index: int|
                    !sato_candidate(&state, state.primary_item_id->0, index)),
            Err(_) => contains_code(data@, code4(0x73, 0x61, 0x74, 0x6f)),
        },
        contains_code(data@, code4(0x73, 0x61, 0x74, 0x6f)) && data@.len() > usize::MAX / 8 ==> result is Err
            && result->Err_0.kind() == ErrorKind::InvalidParam,
        sample_transform_file_parses(data@) ==> result is Ok,
{
    let sato = fourcc_code(0x73, 0x61, 0x74, 0x6f);
    if !contains_fourcc(data, &sato) {
        return Ok(None);
    }
    if data.len() > usize::MAX / 8 {
        return Err(DecoderError::InvalidParam("input is too large".to_string()));
    }
    let mut meta = MetaState::default();
    let ghost initial = meta;
    collect_meta(data, &mut meta)?;
    proof {
        let (headers, states) = choose|headers: Seq<BoxHeader>, states: Seq<MetaState>|
            #![trigger crate::container::boxes::boxes_tile(data@, headers), top_level_walk(data@, headers, states)]
            {
                &&& crate::container::boxes::boxes_tile(data@, headers)
                &&& top_level_walk(data@, headers, states)
                &&& states[0] == initial
                &&& states.last() == meta
            };
        assert(collected_state(data@, meta));
    }
    let result = sample_transform_from_state(data, &meta);
    proof {
        if result matches Ok(Some(_)) {
            let transform = result->Ok_0->Some_0;
            let index = choose|index: int| #[trigger] first_sato_candidate(&meta, meta.primary_item_id->0, index)
                && sample_transform_of(data@, &meta, index, transform);
            assert(first_sato_candidate(&meta, meta.primary_item_id->0, index));
        }
    }
    result
}

/// An input of a sample transform that reads: an `av01` or `grid` item with item
/// information, a first association entry whose properties give its size, `pixi` and
/// `av1C`, bytes, and for a `grid` item a grid that decodes.
pub open spec fn sato_input_parses(data: Seq<u8>, state: &MetaState, item_id: u32) -> bool {
    &&& exists|k: int|
        #[trigger] info_entry(state, item_id, k) && (state.item_infos@[k].item_type@ == code4(0x61, 0x76, 0x30, 0x31)
            || state.item_infos@[k].item_type@ == code4(0x67, 0x72, 0x69, 0x64))
    &&& exists|e: int| #[trigger] association_entry(state, item_id, e)
    &&& forall|e: int, metadata: PrimaryItemMetadata|
        #![trigger association_entry(state, item_id, e), metadata_matches(state.item_properties@, state.item_property_associations@[e].associations@, metadata)]
        association_entry(state, item_id, e) && metadata_matches(
            state.item_properties@,
            state.item_property_associations@[e].associations@,
            metadata,
        ) ==> metadata.width is Some && metadata.height is Some && metadata.pixel_information is Some
            && metadata.av1_config is Some
    &&& item_bytes(data, *state, item_id, Seq::empty()) matches Ok(bytes) && (has_item_of_type(
        state,
        item_id,
        code4(0x67, 0x72, 0x69, 0x64),
    ) ==> grid_decodable(data, bytes, state, item_id))
}

/// One input image of a sample transform: item `item_id` with its size, `pixi`,
/// colour, `av1C` (from the first grid cell when the item has none), bytes and, for a
/// `grid` item, its grid.
#[verifier::spinoff_prover]
fn sample_transform_input(data: &[u8], meta: &MetaState, item_id: u32) -> (result: Result<SampleTransformInput, DecoderError>)
    requires
        crate::container::metadata::association_indices_valid(meta),
    ensures
        match result {
            Ok(input) => input.item_id == item_id && item_bytes(data@, *meta, item_id, Seq::empty()) == Ok::<Seq<u8>, ErrorKind>(
                input.payload@,
            ),
            Err(_) => true,
        },
        sato_input_parses(data@, meta, item_id) ==> result is Ok,
{
    let ghost well = sato_input_parses(data@, meta, item_id);
    let mut info: usize = 0;
    while info < meta.item_infos.len() && meta.item_infos[info].item_id != item_id
        invariant
            info <= meta.item_infos@.len(),
            forall|j: int| 0 <= j < info ==> meta.item_infos@[j].item_id != item_id,
        decreases meta.item_infos@.len() - info,
    {
        info = info + 1;
    }
    proof {
        if well {
            let k = choose|k: int| #[trigger] info_entry(meta, item_id, k) && (meta.item_infos@[k].item_type@ == code4(0x61, 0x76, 0x30, 0x31)
                || meta.item_infos@[k].item_type@ == code4(0x67, 0x72, 0x69, 0x64));
            assert(meta.item_infos@[k].item_id == item_id);
            if info < meta.item_infos@.len() {
                assert(info_entry(meta, item_id, info as int));
                if k < info {
                } else if info < k {
                    assert(meta.item_infos@[info as int].item_id == item_id);
                }
                assert(k == info);
            }
        }
    }
    if info == meta.item_infos.len() {
        let head = crate::text::concat("sato input item ", crate::text::decimal(item_id as u64).as_str());
        return Err(DecoderError::Bitstream(crate::text::concat(head.as_str(), " is missing item info")));
    }
    let is_grid = fourcc_eq(&meta.item_infos[info].item_type, &fourcc_code(0x67, 0x72, 0x69, 0x64));
    if !fourcc_eq(&meta.item_infos[info].item_type, &fourcc_code(0x61, 0x76, 0x30, 0x31)) && !is_grid {
        let head = crate::text::concat("sato input item ", crate::text::decimal(item_id as u64).as_str());
        let middle = crate::text::concat(head.as_str(), " has unsupported type ");
        let kind = crate::text::bytes4_debug(&meta.item_infos[info].item_type);
        return Err(DecoderError::Unsupported(crate::text::concat(middle.as_str(), kind.as_str())));
    }
    proof {
        if well {
            let e = choose|e: int| #[trigger] association_entry(meta, item_id, e);
            assert(meta.item_property_associations@[e].item_id == item_id);
            if is_grid {
                assert(has_item_of_type(meta, item_id, code4(0x67, 0x72, 0x69, 0x64))) by {
                    assert(meta.item_infos@[info as int].item_id == item_id);
                }
            }
        }
    }
    let metadata = item_metadata(meta, item_id)?;
    proof {
        if well {
            let index = choose|index: int|
                #[trigger] association_entry(meta, item_id, index) && metadata_matches(
                    meta.item_properties@,
                    meta.item_property_associations@[index].associations@,
                    metadata,
                );
            assert(metadata_matches(meta.item_properties@, meta.item_property_associations@[index].associations@, metadata));
        }
    }
    let width = match metadata.width {
        Some(width) => width,
        None => {
            let head = crate::text::concat("sato input item ", crate::text::decimal(item_id as u64).as_str());
            return Err(DecoderError::Bitstream(crate::text::concat(head.as_str(), " is missing ispe")));
        },
    };
    let height = match metadata.height {
        Some(height) => height,
        None => {
            let head = crate::text::concat("sato input item ", crate::text::decimal(item_id as u64).as_str());
            return Err(DecoderError::Bitstream(crate::text::concat(head.as_str(), " is missing ispe")));
        },
    };
    let grid = if is_grid {
        let payload = item_payload(data, meta, item_id)?;
        Some(parse_grid_item(data, payload.as_slice(), meta, item_id)?)
    } else {
        None
    };
    let av1_config = match metadata.av1_config {
        Some(config) => config,
        None => {
            let fallback = match &grid {
                Some(grid) => if grid.cells.len() > 0 {
                    match &grid.cells[0].av1_config {
                        Some(config) => Some(config.clone()),
                        None => None,
                    }
                } else {
                    None
                },
                None => None,
            };
            match fallback {
                Some(config) => config,
                None => {
                    let head = crate::text::concat("sato input item ", crate::text::decimal(item_id as u64).as_str());
                    return Err(DecoderError::Bitstream(crate::text::concat(head.as_str(), " is missing av1C")));
                },
            }
        },
    };
    let pixel_information = match metadata.pixel_information {
        Some(pixel_information) => pixel_information,
        None => {
            let fallback = match &grid {
                Some(grid) => if grid.cells.len() > 0 {
                    match &grid.cells[0].pixel_information {
                        Some(pixi) => Some(pixi.clone()),
                        None => None,
                    }
                } else {
                    None
                },
                None => None,
            };
            match fallback {
                Some(pixi) => pixi,
                None => {
                    let head = crate::text::concat("sato input item ", crate::text::decimal(item_id as u64).as_str());
                    return Err(DecoderError::Bitstream(crate::text::concat(head.as_str(), " is missing pixi")));
                },
            }
        },
    };
    let payload = item_payload(data, meta, item_id)?;
    let input = SampleTransformInput {
        item_id,
        width,
        height,
        pixel_information,
        color_information: metadata.color_information,
        av1_config,
        payload,
        grid,
    };
    Ok(input)
}

/// A `pixi` whose channels share one depth between 8 and 16 bits.
pub open spec fn pixi_depth_supported(pixi: Option<PixelInformation>) -> bool {
    pixi matches Some(info) && info.bits_per_channel@.len() > 0 && (forall|i: int|
        0 <= i < info.bits_per_channel@.len() ==> #[trigger] info.bits_per_channel@[i] == info.bits_per_channel@[0])
        && 8 <= info.bits_per_channel@[0] <= 16
}

/// The `sato` item of entry `index` gives a sample transform: its first `dimg`
/// reference names inputs, among them the primary item unless that is a `sato`
/// item, and each input reads; the association indexes name properties; its first
/// association entry gives its size and a supported `pixi`; and its bytes hold an
/// expression that parses.
pub open spec fn sato_item_parses(data: Seq<u8>, state: &MetaState, index: int) -> bool {
    let sato_id = state.item_infos@[index].item_id;
    let primary = state.primary_item_id->0;
    &&& crate::container::metadata::association_indices_valid(state)
    &&& exists|position: int|
        #[trigger] first_dimg_reference(state, sato_id, position) && {
            let inputs = state.item_references@[position].to_item_ids@;
            &&& inputs.len() > 0
            &&& inputs.contains(primary) || is_sato_item(state, primary)
            &&& forall|n: int| 0 <= n < inputs.len() ==> sato_input_parses(data, state, #[trigger] inputs[n])
        }
    &&& exists|e: int| #[trigger] association_entry(state, sato_id, e)
    &&& forall|e: int, metadata: PrimaryItemMetadata|
        #![trigger association_entry(state, sato_id, e), metadata_matches(state.item_properties@, state.item_property_associations@[e].associations@, metadata)]
        association_entry(state, sato_id, e) && metadata_matches(
            state.item_properties@,
            state.item_property_associations@[e].associations@,
            metadata,
        ) ==> metadata.width is Some && metadata.height is Some && pixi_depth_supported(metadata.pixel_information)
    &&& item_bytes(data, *state, sato_id, Seq::empty()) matches Ok(bytes) && !sato_overruns(bytes) && sato_outcome(bytes) is Ok
}

/// A gathered `state` gives a sample transform, or has no `sato` item to give one.
pub open spec fn sample_transform_parses(data: Seq<u8>, state: &MetaState) -> bool {
    ||| state.primary_item_id is None
    ||| forall|index: int| !sato_candidate(state, state.primary_item_id->0, index)
    ||| exists|index: int|
        #[trigger] first_sato_candidate(state, state.primary_item_id->0, index) && sato_item_parses(data, state, index)
}

/// The `sato` item of the metadata `meta`: the first `sato` item that is the primary
/// item or lists it among its `dimg` inputs, with its inputs and expression.
///
/// No `dimg` reference from that item, or a first one that names no input, is a
/// `Bitstream` error; inputs that leave out the primary item, when the primary item
/// is no `sato` item, are `Unsupported`.
pub fn sample_transform_from_state(data: &[u8], meta: &MetaState) -> (result: Result<Option<SampleTransform>, DecoderError>)
    ensures
        meta.primary_item_id is None ==> result matches Ok(None),
        match result {
            Ok(Some(transform)) => meta.primary_item_id is Some && exists|index: int|
                #[trigger] first_sato_candidate(meta, meta.primary_item_id->0, index) && sample_transform_of(
                    data@,
                    meta,
                    index,
                    transform,
                ),
            Ok(None) => meta.primary_item_id is None || forall|index: int| !sato_candidate(meta, meta.primary_item_id->0, index),
            Err(_) => true,
        },
        forall|index: int, position: int|
            #![trigger first_sato_candidate(meta, meta.primary_item_id->0, index), first_dimg_reference(meta, meta.item_infos@[index].item_id, position)]
            meta.primary_item_id is Some && first_sato_candidate(meta, meta.primary_item_id->0, index)
            && first_dimg_reference(meta, meta.item_infos@[index].item_id, position)
            && meta.item_references@[position].to_item_ids@.len() == 0 ==> result matches Err(DecoderError::Bitstream(_)),
        forall|index: int| #[trigger] first_sato_candidate(meta, meta.primary_item_id->0, index) && meta.primary_item_id is Some
            && (forall|position: int| !first_dimg_reference(meta, meta.item_infos@[index].item_id, position))
            ==> result matches Err(DecoderError::Bitstream(_)),
        forall|index: int, position: int|
            #![trigger first_sato_candidate(meta, meta.primary_item_id->0, index), first_dimg_reference(meta, meta.item_infos@[index].item_id, position)]
            meta.primary_item_id is Some && first_sato_candidate(meta, meta.primary_item_id->0, index)
            && first_dimg_reference(meta, meta.item_infos@[index].item_id, position)
            && meta.item_references@[position].to_item_ids@.len() > 0
            && !meta.item_references@[position].to_item_ids@.contains(meta.primary_item_id->0)
            && !is_sato_item(meta, meta.primary_item_id->0) ==> result matches Err(DecoderError::Unsupported(_)),
        sample_transform_parses(data@, meta) ==> result is Ok,
{
    let ghost well = sample_transform_parses(data@, meta);
    let sato = fourcc_code(0x73, 0x61, 0x74, 0x6f);
    let primary_item_id = match meta.primary_item_id {
        Some(id) => id,
        None => return Ok(None),
    };
    let mut primary_item_is_sato = false;
    let mut i: usize = 0;
    while i < meta.item_infos.len()
        invariant
            sato@ == code4(0x73, 0x61, 0x74, 0x6f),
            i <= meta.item_infos@.len(),
            primary_item_is_sato <==> exists|k: int| 0 <= k < i && (#[trigger] meta.item_infos@[k]).item_id == primary_item_id
                && meta.item_infos@[k].item_type@ == code4(0x73, 0x61, 0x74, 0x6f),
        decreases meta.item_infos@.len() - i,
    {
        if meta.item_infos[i].item_id == primary_item_id && fourcc_eq(&meta.item_infos[i].item_type, &sato) {
            primary_item_is_sato = true;
        }
        i = i + 1;
    }
    assert(primary_item_is_sato == is_sato_item(meta, primary_item_id));
    let mut i: usize = 0;
    while i < meta.item_infos.len() && !(fourcc_eq(&meta.item_infos[i].item_type, &sato) && (meta.item_infos[i].item_id
        == primary_item_id || dimg_references(meta, meta.item_infos[i].item_id, primary_item_id)))
        invariant
            sato@ == code4(0x73, 0x61, 0x74, 0x6f),
            meta.primary_item_id == Some(primary_item_id),
            i <= meta.item_infos@.len(),
            forall|j: int| 0 <= j < i ==> !sato_candidate(meta, primary_item_id, j),
        decreases meta.item_infos@.len() - i,
    {
        i = i + 1;
    }
    if i == meta.item_infos.len() {
        return Ok(None);
    }
    let sato_index = i;
    assert(first_sato_candidate(meta, primary_item_id, sato_index as int));
    assert forall|index: int| #[trigger] first_sato_candidate(meta, primary_item_id, index) implies index == sato_index as int by {
        if index < sato_index as int {
        } else if (sato_index as int) < index {
            assert(!sato_candidate(meta, primary_item_id, sato_index as int));
        }
    }
    let sato_item_id = meta.item_infos[sato_index].item_id;
    let ghost item_well = well && sato_item_parses(data@, meta, sato_index as int);
    proof {
        if well {
            assert(sato_candidate(meta, primary_item_id, sato_index as int));
            assert(sato_item_parses(data@, meta, sato_index as int));
        }
    }
    let dimg = fourcc_code(0x64, 0x69, 0x6d, 0x67);
    let mut position: usize = 0;
    while position < meta.item_references.len()
        && !(fourcc_eq(&meta.item_references[position].reference_type, &dimg)
        && meta.item_references[position].from_item_id == sato_item_id)
        invariant
            dimg@ == code4(0x64, 0x69, 0x6d, 0x67),
            position <= meta.item_references@.len(),
            forall|j: int| 0 <= j < position ==> !dimg_from(meta.item_references@[j], sato_item_id),
        decreases meta.item_references@.len() - position,
    {
        position = position + 1;
    }
    if position == meta.item_references.len() {
        proof {
            if item_well {
                let q = choose|q: int| #[trigger] first_dimg_reference(meta, sato_item_id, q);
                assert(dimg_from(meta.item_references@[q], sato_item_id));
            }
        }
        return Err(DecoderError::Bitstream("sato item is missing dimg input references".to_string()));
    }
    let ghost p = position as int;
    assert(first_dimg_reference(meta, sato_item_id, p));
    assert forall|q: int| #[trigger] first_dimg_reference(meta, sato_item_id, q) implies q == p by {
        if q < p {
            assert(!dimg_from(meta.item_references@[q], sato_item_id));
        } else if p < q {
            assert(!dimg_from(meta.item_references@[p], sato_item_id));
        }
    }
    let inputs = meta.item_references[position].to_item_ids.clone();
    assert(inputs@ == meta.item_references@[p].to_item_ids@);
    proof {
        if item_well {
            assert(first_dimg_reference(meta, sato_item_id, p));
            let e = choose|e: int| #[trigger] association_entry(meta, sato_item_id, e);
            assert(meta.item_property_associations@[e].item_id == sato_item_id);
        }
    }
    if inputs.len() == 0 {
        return Err(DecoderError::Bitstream("sato input reference list is empty".to_string()));
    }
    let mut lists_primary = false;
    let mut t: usize = 0;
    while t < inputs.len()
        invariant
            t <= inputs@.len(),
            lists_primary <==> exists|u: int| 0 <= u < t && inputs@[u] == primary_item_id,
        decreases inputs@.len() - t,
    {
        if inputs[t] == primary_item_id {
            lists_primary = true;
        }
        t = t + 1;
    }
    if !primary_item_is_sato && !lists_primary {
        return Err(DecoderError::Unsupported("sato inputs do not reference the primary item".to_string()));
    }
    if !association_indices_checked(meta) {
        return Err(DecoderError::Bitstream("property association index is out of range".to_string()));
    }
    let output_metadata = item_metadata(meta, sato_item_id)?;
    proof {
        if item_well {
            let index = choose|index: int|
                #[trigger] association_entry(meta, sato_item_id, index) && metadata_matches(
                    meta.item_properties@,
                    meta.item_property_associations@[index].associations@,
                    output_metadata,
                );
            assert(metadata_matches(meta.item_properties@, meta.item_property_associations@[index].associations@, output_metadata));
            assert(pixi_depth_supported(output_metadata.pixel_information));
        }
    }
    let output_width = match output_metadata.width {
        Some(width) => width,
        None => return Err(DecoderError::Bitstream("sato item is missing ispe dimensions".to_string())),
    };
    let output_height = match output_metadata.height {
        Some(height) => height,
        None => return Err(DecoderError::Bitstream("sato item is missing ispe dimensions".to_string())),
    };
    let output_bit_depth = uniform_bit_depth(output_metadata.pixel_information.as_ref())?;
    if output_bit_depth < 8 || output_bit_depth > 16 {
        let head = crate::text::concat("sato output bit depth ", crate::text::decimal(output_bit_depth as u64).as_str());
        return Err(DecoderError::Unsupported(crate::text::concat(head.as_str(), " is not supported")));
    }
    let mut transform_inputs: Vec<SampleTransformInput> = Vec::new();
    let mut n: usize = 0;
    while n < inputs.len()
        invariant
            n <= inputs@.len(),
            transform_inputs@.len() == n,
            crate::container::metadata::association_indices_valid(meta),
            8 <= output_bit_depth <= 16,
            meta.primary_item_id == Some(primary_item_id),
            sato_index < meta.item_infos@.len(),
            meta.item_infos@[sato_index as int].item_id == sato_item_id,
            forall|index: int| #[trigger] first_sato_candidate(meta, primary_item_id, index) ==> index == sato_index as int,
            0 <= p < meta.item_references@.len(),
            first_dimg_reference(meta, sato_item_id, p),
            forall|q: int| #[trigger] first_dimg_reference(meta, sato_item_id, q) ==> q == p,
            inputs@ == meta.item_references@[p].to_item_ids@,
            inputs@.len() > 0,
            inputs@.contains(primary_item_id) || is_sato_item(meta, primary_item_id),
            well == sample_transform_parses(data@, meta),
            well ==> item_well,
            item_well ==> sato_item_parses(data@, meta, sato_index as int),
            item_well ==> forall|k: int| 0 <= k < inputs@.len() ==> sato_input_parses(data@, meta, #[trigger] inputs@[k]),
            forall|m: int| 0 <= m < n ==> (#[trigger] transform_inputs@[m]).item_id == inputs@[m] && item_bytes(
                data@,
                *meta,
                inputs@[m],
                Seq::empty(),
            ) == Ok::<Seq<u8>, ErrorKind>(transform_inputs@[m].payload@),
        decreases inputs@.len() - n,
    {
        let item_id = inputs[n];
        let input = sample_transform_input(data, meta, item_id)?;
        let ghost before = transform_inputs@;
        transform_inputs.push(input);
        proof {
            assert forall|m: int| 0 <= m < n + 1 implies (#[trigger] transform_inputs@[m]).item_id == inputs@[m] && item_bytes(
                data@,
                *meta,
                inputs@[m],
                Seq::empty(),
            ) == Ok::<Seq<u8>, ErrorKind>(transform_inputs@[m].payload@) by {
                if m < n {
                    assert(transform_inputs@[m] == before[m]);
                }
            }
        }
        n = n + 1;
    }
    let payload = item_payload(data, meta, sato_item_id)?;
    if !sato_tokens_fit(payload.as_slice()) {
        return Err(DecoderError::NotEnoughData("sato token list runs past its payload".to_string()));
    }
    let (intermediate_bit_depth, tokens) = parse_sample_transform_payload(payload.as_slice())?;
    assert(sato_outcome(payload@) == Ok::<(u8, Seq<SampleTransformToken>), ErrorKind>((intermediate_bit_depth, tokens@)));
    let transform = SampleTransform {
        output_width,
        output_height,
        output_bit_depth,
        intermediate_bit_depth,
        tokens,
        inputs: transform_inputs,
    };
    assert(sample_transform_of(data@, meta, sato_index as int, transform));
    Ok(Some(transform))
}

} // verus!
