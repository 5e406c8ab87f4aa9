//! Decoder-side logic that works on decoded samples and images.
pub mod composition;
pub mod still;
pub mod frame;
pub mod grid_planes;
pub mod native;
pub mod tiles;
pub mod validate;

use vstd::prelude::*;
use crate::av1::headers::{Av1CodecConfiguration, CdefParams, SequenceHeader};
use crate::compat::DataMap;
use crate::container::sample_transform::{
    prefix_depth, sato_outcome, token_depth_change, token_operands, well_formed_postfix, SampleTransformToken,
};
use crate::container::types::AvifInfo;
use crate::error::{DecoderError, ErrorKind};

verus! {

/// `value` limited to `low..=high`.
pub open spec fn clamped(value: int, low: int, high: int) -> int {
    if value < low {
        low
    } else if value > high {
        high
    } else {
        value
    }
}

/// `value` saturated to the range of `i128`.
pub open spec fn saturated(value: int) -> int {
    clamped(value, i128::MIN as int, i128::MAX as int)
}

/// Division rounding toward zero.
pub open spec fn quotient_toward_zero(left: int, right: int) -> int {
    if (left >= 0) == (right > 0) || left == 0 {
        if left >= 0 { left / right } else { (-left) / (-right) }
    } else if left < 0 {
        -((-left) / right)
    } else {
        -(left / (-right))
    }
}

/// Saturating exponentiation by repeated squaring: `result` times `base` to the
/// power `exponent`, every product saturated to `i128`.
pub open spec fn saturating_power(base: int, result: int, exponent: nat) -> int
    decreases exponent,
{
    if exponent == 0 {
        result
    } else {
        let next = if exponent % 2 == 1 { saturated(result * base) } else { result };
        if exponent / 2 == 0 {
            next
        } else {
            saturating_power(saturated(base * base), next, exponent / 2)
        }
    }
}

fn saturating_mul(left: i128, right: i128) -> (product: i128)
    ensures
        product == saturated(left * right),
{
    match left.checked_mul(right) {
        Some(product) => product,
        None => {
            if (left < 0) == (right < 0) {
                assert(left * right >= 0) by (nonlinear_arith)
                    requires
                        (left < 0) == (right < 0),
                ;
                i128::MAX
            } else {
                assert(left * right <= 0) by (nonlinear_arith)
                    requires
                        (left < 0) != (right < 0),
                ;
                i128::MIN
            }
        },
    }
}

fn saturating_add(left: i128, right: i128) -> (sum: i128)
    ensures
        sum == saturated(left + right),
{
    match left.checked_add(right) {
        Some(sum) => sum,
        None => if right > 0 {
            i128::MAX
        } else {
            i128::MIN
        },
    }
}

fn saturating_sub(left: i128, right: i128) -> (difference: i128)
    ensures
        difference == saturated(left - right),
{
    match left.checked_sub(right) {
        Some(difference) => difference,
        None => if right < 0 {
            i128::MAX
        } else {
            i128::MIN
        },
    }
}

/// `base` to the power `exponent` (not negative), with every product saturated.
pub fn saturating_pow_i128(base: i128, exponent: i128) -> (power: i128)
    requires
        exponent >= 0,
    ensures
        power == saturating_power(base as int, 1, exponent as nat),
{
    let ghost first_base = base;
    let ghost first_exponent = exponent;
    let mut base = base;
    let mut result: i128 = 1;
    let mut exponent = exponent;
    while exponent != 0
        invariant
            exponent >= 0,
            saturating_power(base as int, result as int, exponent as nat) == saturating_power(first_base as int, 1, first_exponent as nat),
        decreases exponent,
    {
        if exponent % 2 == 1 {
            result = saturating_mul(result, base);
        }
        exponent = exponent / 2;
        if exponent != 0 {
            base = saturating_mul(base, base);
        }
    }
    result
}

/// The smallest and largest values of the intermediate bit depth.
pub open spec fn intermediate_min(bit_depth: u8) -> int {
    -vstd::arithmetic::power2::pow2((bit_depth - 1) as nat)
}

pub open spec fn intermediate_max(bit_depth: u8) -> int {
    vstd::arithmetic::power2::pow2((bit_depth - 1) as nat) - 1
}

/// A unary operator: negation, absolute value (both saturating), bitwise not, and
/// the index of the highest set bit (0 for values that are not positive).
pub open spec fn unary_value(op: u8, value: i128) -> int {
    if op == 0 {
        saturated(-value)
    } else if op == 1 {
        saturated(if value < 0 { -value } else { value as int })
    } else if op == 2 {
        -value - 1
    } else if value <= 0 {
        0
    } else {
        vstd::arithmetic::logarithm::log(2, value as int)
    }
}

/// A binary operator: saturating sum, difference and product, quotient rounding
/// toward zero, bitwise and, or and xor, saturating power, minimum and maximum.
pub open spec fn binary_value(op: u8, left: i128, right: i128) -> Result<int, ErrorKind> {
    if op == 0 {
        Ok(saturated(left + right))
    } else if op == 1 {
        Ok(saturated(left - right))
    } else if op == 2 {
        Ok(saturated(left * right))
    } else if op == 3 {
        if right == 0 { Err(ErrorKind::Bitstream) } else { Ok(quotient_toward_zero(left as int, right as int)) }
    } else if op == 4 {
        Ok((left & right) as int)
    } else if op == 5 {
        Ok((left | right) as int)
    } else if op == 6 {
        Ok((left ^ right) as int)
    } else if op == 7 {
        if right < 0 { Err(ErrorKind::Unsupported) } else { Ok(saturating_power(left as int, 1, right as nat)) }
    } else if op == 8 {
        Ok(if left < right { left as int } else { right as int })
    } else {
        Ok(if left < right { right as int } else { left as int })
    }
}

/// The stack after one token; operator results are clamped to `low..=high`. An
/// input index past the samples, or an operator short of operands, is a
/// `Bitstream` error.
pub open spec fn token_step(token: SampleTransformToken, stack: Seq<i128>, inputs: Seq<u16>, low: int, high: int) -> Result<Seq<i128>, ErrorKind> {
    match token {
        SampleTransformToken::Constant(value) => Ok(stack.push(value as i128)),
        SampleTransformToken::Input(index) => if index < inputs.len() {
            Ok(stack.push(inputs[index as int] as i128))
        } else {
            Err(ErrorKind::Bitstream)
        },
        SampleTransformToken::Unary(op) => if stack.len() < 1 {
            Err(ErrorKind::Bitstream)
        } else {
            Ok(stack.drop_last().push(clamped(unary_value(op, stack.last()), low, high) as i128))
        },
        SampleTransformToken::Binary(op) => if stack.len() < 2 {
            Err(ErrorKind::Bitstream)
        } else {
            match binary_value(op, stack[stack.len() - 2], stack.last()) {
                Ok(value) => Ok(stack.drop_last().drop_last().push(clamped(value, low, high) as i128)),
                Err(kind) => Err(kind),
            }
        },
    }
}

/// The stack after the first `count` tokens, from an empty one.
pub open spec fn tokens_run(tokens: Seq<SampleTransformToken>, count: nat, inputs: Seq<u16>, low: int, high: int) -> Result<Seq<i128>, ErrorKind>
    decreases count,
{
    if count == 0 {
        Ok(Seq::empty())
    } else {
        match tokens_run(tokens, (count - 1) as nat, inputs, low, high) {
            Ok(stack) => token_step(tokens[count - 1], stack, inputs, low, high),
            Err(kind) => Err(kind),
        }
    }
}

/// Once a token is rejected, the run stays rejected with the same error.
pub proof fn lemma_run_stays_failed(tokens: Seq<SampleTransformToken>, failed: nat, count: nat, inputs: Seq<u16>, low: int, high: int)
    requires
        failed <= count,
        tokens_run(tokens, failed, inputs, low, high) is Err,
    ensures
        tokens_run(tokens, count, inputs, low, high) == tokens_run(tokens, failed, inputs, low, high),
    decreases count - failed,
{
    if failed < count {
        lemma_run_stays_failed(tokens, failed, (count - 1) as nat, inputs, low, high);
    }
}

/// The value of a postfix sample transform expression for one sample position,
/// clamped to `0..=output_max` and kept to 16 bits.
pub open spec fn expression_value(tokens: Seq<SampleTransformToken>, inputs: Seq<u16>, bit_depth: u8, output_max: u32) -> Result<u16, ErrorKind> {
    if bit_depth < 8 || bit_depth > 64 {
        Err(ErrorKind::Unsupported)
    } else {
        match tokens_run(tokens, tokens.len(), inputs, intermediate_min(bit_depth), intermediate_max(bit_depth)) {
            Ok(stack) => if stack.len() == 1 {
                Ok(clamped(stack[0] as int, 0, output_max as int) as u16)
            } else {
                Err(ErrorKind::Bitstream)
            },
            Err(kind) => Err(kind),
        }
    }
}

/// The rules of evaluation: an intermediate bit depth outside `8..=64` is
/// unsupported; a division by zero is a bitstream error; a result is the single value
/// left on the stack, clamped to `0..=output_max`.
pub proof fn lemma_expression_value_rules(
    tokens: Seq<SampleTransformToken>,
    inputs: Seq<u16>,
    bit_depth: u8,
    output_max: u32,
    left: i128,
)
    requires
        output_max <= 0xffff,
    ensures
        bit_depth < 8 || bit_depth > 64 ==> expression_value(tokens, inputs, bit_depth, output_max) == Err::<u16, ErrorKind>(
            ErrorKind::Unsupported,
        ),
        binary_value(3, left, 0) == Err::<int, ErrorKind>(ErrorKind::Bitstream),
        expression_value(tokens, inputs, bit_depth, output_max) matches Ok(value) ==> {
            &&& 8 <= bit_depth <= 64
            &&& value <= output_max
            &&& tokens_run(tokens, tokens.len(), inputs, intermediate_min(bit_depth), intermediate_max(bit_depth)) matches Ok(
                stack,
            ) && stack.len() == 1 && value == clamped(stack[0] as int, 0, output_max as int)
        },
{
}

/// Clamping keeps a value within `low..=high` and leaves a value already there
/// unchanged; saturation does the same for the range of `i128`.
pub proof fn lemma_clamping(value: int, low: int, high: int)
    requires
        low <= high,
    ensures
        low <= clamped(value, low, high) <= high,
        low <= value <= high ==> clamped(value, low, high) == value,
        value < low ==> clamped(value, low, high) == low,
        value > high ==> clamped(value, low, high) == high,
        i128::MIN <= saturated(value) <= i128::MAX,
        i128::MIN <= value <= i128::MAX ==> saturated(value) == value,
        value > i128::MAX ==> saturated(value) == i128::MAX,
        value < i128::MIN ==> saturated(value) == i128::MIN,
{
}

/// The intermediate range of a bit depth is the two's-complement range of that many
/// bits: as many values as `2^bit_depth`, split evenly around zero.
pub proof fn lemma_intermediate_range(bit_depth: u8)
    requires
        1 <= bit_depth,
    ensures
        intermediate_max(bit_depth) - intermediate_min(bit_depth) + 1 == vstd::arithmetic::power2::pow2(bit_depth as nat),
        intermediate_min(bit_depth) == -(intermediate_max(bit_depth) + 1),
        intermediate_min(bit_depth) < 0 <= intermediate_max(bit_depth),
{
    vstd::arithmetic::power2::lemma_pow2_unfold(bit_depth as nat);
    vstd::arithmetic::power2::lemma_pow2_pos((bit_depth - 1) as nat);
}

/// What each binary operator computes, over all operands: 0 adds, 1 subtracts and 2
/// multiplies (each saturated to `i128`); 3 divides, rounding toward zero, and
/// refuses a zero divisor; 4, 5 and 6 are bitwise and, or and xor; 7 raises to a
/// power and refuses a negative exponent; 8 gives the smaller operand and 9 the
/// larger.
pub proof fn lemma_binary_operators(left: i128, right: i128)
    ensures
        binary_value(0, left, right) == Ok::<int, ErrorKind>(saturated(left + right)),
        binary_value(1, left, right) == Ok::<int, ErrorKind>(saturated(left - right)),
        binary_value(2, left, right) == Ok::<int, ErrorKind>(saturated(left * right)),
        right == 0 ==> binary_value(3, left, right) == Err::<int, ErrorKind>(ErrorKind::Bitstream),
        right > 0 ==> (binary_value(3, left, right) matches Ok(q) && ({
            let rest = left - q * right;
            &&& left >= 0 ==> 0 <= rest < right
            &&& left < 0 ==> -right < rest <= 0
        })),
        right < 0 ==> (binary_value(3, left, right) matches Ok(q) && ({
            let rest = left - q * right;
            &&& left >= 0 ==> 0 <= rest < -right
            &&& left < 0 ==> right < rest <= 0
        })),
        binary_value(4, left, right) == Ok::<int, ErrorKind>((left & right) as int),
        binary_value(5, left, right) == Ok::<int, ErrorKind>((left | right) as int),
        binary_value(6, left, right) == Ok::<int, ErrorKind>((left ^ right) as int),
        right < 0 ==> binary_value(7, left, right) == Err::<int, ErrorKind>(ErrorKind::Unsupported),
        binary_value(7, left, 0) == Ok::<int, ErrorKind>(1),
        binary_value(7, left, 1) == Ok::<int, ErrorKind>(left as int),
        binary_value(7, left, 2) == Ok::<int, ErrorKind>(saturated(left * left)),
        binary_value(8, left, right) matches Ok(m) && m <= left && m <= right && (m == left || m == right),
        binary_value(9, left, right) matches Ok(m) && m >= left && m >= right && (m == left || m == right),
{
    let l = left as int;
    let r = right as int;
    if r > 0 {
        let q = quotient_toward_zero(l, r);
        if l >= 0 {
            vstd::arithmetic::div_mod::lemma_fundamental_div_mod(l, r);
            vstd::arithmetic::div_mod::lemma_mod_pos_bound(l, r);
            assert(q == l / r);
        } else {
            vstd::arithmetic::div_mod::lemma_fundamental_div_mod(-l, r);
            vstd::arithmetic::div_mod::lemma_mod_pos_bound(-l, r);
            assert(q == -((-l) / r));
            assert(l - q * r == -((-l) % r)) by (nonlinear_arith)
                requires
                    -l == r * ((-l) / r) + (-l) % r,
                    q == -((-l) / r),
            ;
        }
    } else if r < 0 {
        let q = quotient_toward_zero(l, r);
        if l > 0 {
            vstd::arithmetic::div_mod::lemma_fundamental_div_mod(l, -r);
            vstd::arithmetic::div_mod::lemma_mod_pos_bound(l, -r);
            assert(q == -(l / (-r)));
            assert(l - q * r == l % (-r)) by (nonlinear_arith)
                requires
                    l == (-r) * (l / (-r)) + l % (-r),
                    q == -(l / (-r)),
            ;
        } else if l == 0 {
            vstd::arithmetic::div_mod::lemma_fundamental_div_mod(0, -r);
            vstd::arithmetic::div_mod::lemma_mod_pos_bound(0, -r);
            assert(0int / (-r) == 0) by (nonlinear_arith)
                requires
                    0 == (-r) * (0int / (-r)) + 0int % (-r),
                    0 <= 0int % (-r) < -r,
            ;
            assert(q == 0);
        } else {
            vstd::arithmetic::div_mod::lemma_fundamental_div_mod(-l, -r);
            vstd::arithmetic::div_mod::lemma_mod_pos_bound(-l, -r);
            assert(q == (-l) / (-r));
            assert(l - q * r == -((-l) % (-r))) by (nonlinear_arith)
                requires
                    -l == (-r) * ((-l) / (-r)) + (-l) % (-r),
                    q == (-l) / (-r),
            ;
        }
    }
    assert(saturating_power(l, 1, 1) == saturated(l));
    assert(saturating_power(l, 1, 2) == saturating_power(saturated(l * l), 1, 1));
    assert(saturated(1 * saturated(l * l)) == saturated(l * l));
}

/// What each unary operator computes, over all operands: 0 negates and 1 takes the
/// absolute value (both saturated to `i128`), 2 is bitwise not, and 3 gives the
/// index of the highest set bit of a positive value and 0 otherwise.
pub proof fn lemma_unary_operators(value: i128)
    ensures
        unary_value(0, value) == saturated(-value),
        value >= 0 ==> unary_value(1, value) == value,
        value < 0 ==> unary_value(1, value) == saturated(-value),
        unary_value(2, value) == -value - 1,
        value <= 0 ==> unary_value(3, value) == 0,
        value > 0 ==> unary_value(3, value) >= 0 && vstd::arithmetic::power2::pow2(unary_value(3, value) as nat) <= value
            < vstd::arithmetic::power2::pow2((unary_value(3, value) + 1) as nat),
{
    if value > 0 {
        lemma_log2_brackets(value as int);
    }
}

/// The base-2 logarithm of a positive value brackets it between two powers of two.
proof fn lemma_log2_brackets(x: int)
    requires
        x >= 1,
    ensures
        vstd::arithmetic::logarithm::log(2, x) >= 0,
        vstd::arithmetic::power2::pow2(vstd::arithmetic::logarithm::log(2, x) as nat) <= x,
        x < vstd::arithmetic::power2::pow2((vstd::arithmetic::logarithm::log(2, x) + 1) as nat),
    decreases x,
{
    vstd::arithmetic::power2::lemma2_to64();
    if x < 2 {
        vstd::arithmetic::logarithm::lemma_log0(2, x);
    } else {
        vstd::arithmetic::logarithm::lemma_log_s(2, x);
        let half = x / 2;
        lemma_log2_brackets(half);
        let k = vstd::arithmetic::logarithm::log(2, half);
        vstd::arithmetic::power2::lemma_pow2_unfold((k + 1) as nat);
        vstd::arithmetic::power2::lemma_pow2_unfold((k + 2) as nat);
        assert(vstd::arithmetic::logarithm::log(2, x) == k + 1);
    }
}

/// A two-constant expression with operator 8 evaluates to the smaller constant, one
/// with operator 9 to the larger, and one with operator 1 to the first minus the
/// second, each kept within the intermediate range and then clamped to
/// `0..=output_max`.
pub proof fn lemma_min_max_expressions(a: i64, b: i64, inputs: Seq<u16>, bit_depth: u8, output_max: u32)
    requires
        8 <= bit_depth <= 64,
    ensures
        expression_value(
            seq![SampleTransformToken::Constant(a), SampleTransformToken::Constant(b), SampleTransformToken::Binary(8)],
            inputs,
            bit_depth,
            output_max,
        ) == Ok::<u16, ErrorKind>(clamped(
            clamped(if a <= b { a as int } else { b as int }, intermediate_min(bit_depth), intermediate_max(bit_depth)),
            0,
            output_max as int,
        ) as u16),
        expression_value(
            seq![SampleTransformToken::Constant(a), SampleTransformToken::Constant(b), SampleTransformToken::Binary(9)],
            inputs,
            bit_depth,
            output_max,
        ) == Ok::<u16, ErrorKind>(clamped(
            clamped(if a <= b { b as int } else { a as int }, intermediate_min(bit_depth), intermediate_max(bit_depth)),
            0,
            output_max as int,
        ) as u16),
        expression_value(
            seq![SampleTransformToken::Constant(a), SampleTransformToken::Constant(b), SampleTransformToken::Binary(1)],
            inputs,
            bit_depth,
            output_max,
        ) == Ok::<u16, ErrorKind>(clamped(
            clamped(a - b, intermediate_min(bit_depth), intermediate_max(bit_depth)),
            0,
            output_max as int,
        ) as u16),
{
    let t1 = seq![SampleTransformToken::Constant(a), SampleTransformToken::Constant(b), SampleTransformToken::Binary(1)];
    let low = intermediate_min(bit_depth);
    let high = intermediate_max(bit_depth);
    lemma_binary_operators(a as i128, b as i128);
    let t8 = seq![SampleTransformToken::Constant(a), SampleTransformToken::Constant(b), SampleTransformToken::Binary(8)];
    let t9 = seq![SampleTransformToken::Constant(a), SampleTransformToken::Constant(b), SampleTransformToken::Binary(9)];
    assert(Seq::<i128>::empty().push(a as i128) =~= seq![a as i128]);
    assert(seq![a as i128].push(b as i128) =~= seq![a as i128, b as i128]);
    assert(t8[0] == SampleTransformToken::Constant(a) && t8[1] == SampleTransformToken::Constant(b));
    assert(t9[0] == SampleTransformToken::Constant(a) && t9[1] == SampleTransformToken::Constant(b));
    assert(t8[2] == SampleTransformToken::Binary(8) && t9[2] == SampleTransformToken::Binary(9));
    assert(t1[0] == SampleTransformToken::Constant(a) && t1[1] == SampleTransformToken::Constant(b));
    assert(t1[2] == SampleTransformToken::Binary(1) && t1.len() == 3);
    assert(tokens_run(t1, 0, inputs, low, high) == Ok::<Seq<i128>, ErrorKind>(Seq::empty()));
    assert(tokens_run(t1, 1, inputs, low, high) == Ok::<Seq<i128>, ErrorKind>(seq![a as i128]));
    assert(tokens_run(t1, 2, inputs, low, high) == Ok::<Seq<i128>, ErrorKind>(seq![a as i128, b as i128]));
    assert(tokens_run(t8, 0, inputs, low, high) == Ok::<Seq<i128>, ErrorKind>(Seq::empty()));
    assert(tokens_run(t8, 1, inputs, low, high) == Ok::<Seq<i128>, ErrorKind>(seq![a as i128]));
    assert(tokens_run(t8, 2, inputs, low, high) == Ok::<Seq<i128>, ErrorKind>(seq![a as i128, b as i128]));
    assert(tokens_run(t9, 0, inputs, low, high) == Ok::<Seq<i128>, ErrorKind>(Seq::empty()));
    assert(tokens_run(t9, 1, inputs, low, high) == Ok::<Seq<i128>, ErrorKind>(seq![a as i128]));
    assert(tokens_run(t9, 2, inputs, low, high) == Ok::<Seq<i128>, ErrorKind>(seq![a as i128, b as i128]));
    let s = seq![a as i128, b as i128];
    assert(s[s.len() - 2] == a as i128 && s.last() == b as i128);
    assert(s.drop_last().drop_last() =~= Seq::<i128>::empty());
    assert(t8.len() == 3 && t9.len() == 3);
}

/// An expression that is one input sample gives that sample, clamped to
/// `0..=output_max`; one that negates a constant gives its negation, kept within
/// the intermediate range and then clamped; an input index past the samples is a
/// `Bitstream` error.
pub proof fn lemma_input_and_negation_expressions(index: usize, a: i64, inputs: Seq<u16>, bit_depth: u8, output_max: u32)
    requires
        8 <= bit_depth <= 64,
    ensures
        index < inputs.len() ==> expression_value(seq![SampleTransformToken::Input(index)], inputs, bit_depth, output_max)
            == Ok::<u16, ErrorKind>(clamped(inputs[index as int] as int, 0, output_max as int) as u16),
        index >= inputs.len() ==> expression_value(seq![SampleTransformToken::Input(index)], inputs, bit_depth, output_max)
            == Err::<u16, ErrorKind>(ErrorKind::Bitstream),
        expression_value(
            seq![SampleTransformToken::Constant(a), SampleTransformToken::Unary(0)],
            inputs,
            bit_depth,
            output_max,
        ) == Ok::<u16, ErrorKind>(clamped(
            clamped(-a, intermediate_min(bit_depth), intermediate_max(bit_depth)),
            0,
            output_max as int,
        ) as u16),
{
    let low = intermediate_min(bit_depth);
    let high = intermediate_max(bit_depth);
    let ti = seq![SampleTransformToken::Input(index)];
    let tn = seq![SampleTransformToken::Constant(a), SampleTransformToken::Unary(0)];
    assert(ti[0] == SampleTransformToken::Input(index) && ti.len() == 1);
    assert(tn[0] == SampleTransformToken::Constant(a) && tn[1] == SampleTransformToken::Unary(0) && tn.len() == 2);
    assert(Seq::<i128>::empty().push(a as i128) =~= seq![a as i128]);
    assert(tokens_run(ti, 0, inputs, low, high) == Ok::<Seq<i128>, ErrorKind>(Seq::empty()));
    if index < inputs.len() {
        assert(Seq::<i128>::empty().push(inputs[index as int] as i128) =~= seq![inputs[index as int] as i128]);
        assert(tokens_run(ti, 1, inputs, low, high) == Ok::<Seq<i128>, ErrorKind>(seq![inputs[index as int] as i128]));
    }
    assert(tokens_run(tn, 0, inputs, low, high) == Ok::<Seq<i128>, ErrorKind>(Seq::empty()));
    assert(tokens_run(tn, 1, inputs, low, high) == Ok::<Seq<i128>, ErrorKind>(seq![a as i128]));
    let s = seq![a as i128];
    assert(s.last() == a as i128 && s.drop_last() =~= Seq::<i128>::empty());
}

/// Operators are within the ranges the format defines.
pub open spec fn operators_defined(tokens: Seq<SampleTransformToken>) -> bool {
    forall|k: int|
        0 <= k < tokens.len() ==> match #[trigger] tokens[k] {
            SampleTransformToken::Unary(op) => op <= 3,
            SampleTransformToken::Binary(op) => op <= 9,
            _ => true,
        }
}

/// Every value on the stack fits an `i64`.
pub open spec fn stack_in_i64(stack: Seq<i128>) -> bool {
    forall|k: int| 0 <= k < stack.len() ==> i64::MIN <= #[trigger] stack[k] <= i64::MAX
}

fn power_of_two(exponent: u32) -> (power: i128)
    requires
        exponent <= 63,
    ensures
        power == vstd::arithmetic::power2::pow2(exponent as nat),
{
    let mut power: i128 = 1;
    let mut k: u32 = 0;
    proof {
        vstd::arithmetic::power2::lemma_pow2(0);
        vstd::arithmetic::power::lemma_pow0(2);
    }
    while k < exponent
        invariant
            k <= exponent <= 63,
            power == vstd::arithmetic::power2::pow2(k as nat),
        decreases exponent - k,
    {
        proof {
            vstd::arithmetic::power2::lemma_pow2_adds(k as nat, 1);
            vstd::arithmetic::power2::lemma2_to64();
            vstd::arithmetic::power2::lemma2_to64_rest();
            vstd::arithmetic::power2::lemma_pow2_strictly_increases(k as nat, 63);
            assert(power < 0x8000_0000_0000_0000);
        }
        power = power * 2;
        k = k + 1;
    }
    power
}

fn clamp_i128(value: i128, low: i128, high: i128) -> (clamped_value: i128)
    requires
        low <= high,
    ensures
        clamped_value == clamped(value as int, low as int, high as int),
{
    if value < low {
        low
    } else if value > high {
        high
    } else {
        value
    }
}

fn highest_set_bit(value: i128) -> (index: i128)
    requires
        value > 0,
    ensures
        index == vstd::arithmetic::logarithm::log(2, value as int),
{
    let mut rest = value;
    let mut index: i128 = 0;
    while rest >= 2
        invariant
            rest >= 1,
            0 <= index,
            index + rest <= value,
            index + vstd::arithmetic::logarithm::log(2, rest as int) == vstd::arithmetic::logarithm::log(2, value as int),
        decreases rest,
    {
        proof {
            vstd::arithmetic::logarithm::lemma_log_s(2, rest as int);
        }
        rest = rest / 2;
        index = index + 1;
    }
    proof {
        vstd::arithmetic::logarithm::lemma_log0(2, rest as int);
    }
    index
}

/// Evaluates a postfix sample transform expression for one sample position, with
/// `input_samples[n]` the sample of input image `n` there.
///
/// An intermediate bit depth outside 8..=64 is `Unsupported`, as is a negative
/// exponent; a division by zero, an input index past the samples, an operator short
/// of operands, or an expression that does not leave exactly one value is a
/// `Bitstream` error. `stack` is scratch space.
pub fn evaluate_sample_transform_expression(
    tokens: &[SampleTransformToken],
    intermediate_bit_depth: u8,
    output_max: u32,
    input_samples: &[u16],
    stack: &mut Vec<i128>,
) -> (result: Result<u16, DecoderError>)
    requires
        operators_defined(tokens@),
    ensures
        match result {
            Ok(value) => expression_value(tokens@, input_samples@, intermediate_bit_depth, output_max) == Ok::<u16, ErrorKind>(value),
            Err(error) => expression_value(tokens@, input_samples@, intermediate_bit_depth, output_max) == Err::<u16, ErrorKind>(error.kind()),
        },
        result is Ok ==> final(stack)@.len() == 0,
{
    if intermediate_bit_depth < 8 || intermediate_bit_depth > 64 {
        let text = crate::text::concat("sato intermediate bit depth ", crate::text::decimal(intermediate_bit_depth as u64).as_str());
        return Err(DecoderError::Unsupported(crate::text::concat(text.as_str(), " is not supported")));
    }
    proof {
        vstd::arithmetic::power2::lemma2_to64();
        vstd::arithmetic::power2::lemma2_to64_rest();
        vstd::arithmetic::power2::lemma_pow2_pos((intermediate_bit_depth - 1) as nat);
        if intermediate_bit_depth < 64 {
            vstd::arithmetic::power2::lemma_pow2_strictly_increases((intermediate_bit_depth - 1) as nat, 63);
        }
        vstd::arithmetic::power2::lemma_pow2_strictly_increases(2, (intermediate_bit_depth - 1) as nat);
        assert(4 < vstd::arithmetic::power2::pow2((intermediate_bit_depth - 1) as nat) <= 0x8000_0000_0000_0000);
    }
    let half = power_of_two((intermediate_bit_depth - 1) as u32);
    let low: i128 = -half;
    let high: i128 = half - 1;
    let ghost lo = intermediate_min(intermediate_bit_depth);
    let ghost hi = intermediate_max(intermediate_bit_depth);
    stack.clear();
    let mut k: usize = 0;
    while k < tokens.len()
        invariant
            operators_defined(tokens@),
            8 <= intermediate_bit_depth <= 64,
            low == lo,
            high == hi,
            lo == intermediate_min(intermediate_bit_depth),
            hi == intermediate_max(intermediate_bit_depth),
            i64::MIN <= lo < 0 < hi <= i64::MAX,
            k <= tokens@.len(),
            tokens_run(tokens@, k as nat, input_samples@, lo, hi) == Ok::<Seq<i128>, ErrorKind>(stack@),
            stack_in_i64(stack@),
        decreases tokens@.len() - k,
    {
        let ghost before = stack@;
        assert(tokens_run(tokens@, (k + 1) as nat, input_samples@, lo, hi) == token_step(tokens@[k as int], before, input_samples@, lo, hi));
        match tokens[k] {
            SampleTransformToken::Constant(value) => {
                stack.push(value as i128);
            },
            SampleTransformToken::Input(index) => {
                if index >= input_samples.len() {
                    proof {
                        assert(tokens@[k as int] == SampleTransformToken::Input(index));
                        assert(token_step(tokens@[k as int], before, input_samples@, lo, hi) == Err::<Seq<i128>, ErrorKind>(ErrorKind::Bitstream));
                        lemma_run_stays_failed(tokens@, (k + 1) as nat, tokens@.len(), input_samples@, lo, hi);
                    }
                    let text = crate::text::concat("sato input reference ", crate::text::decimal(index as u64).as_str());
                    return Err(DecoderError::Bitstream(crate::text::concat(text.as_str(), " is out of range")));
                }
                stack.push(input_samples[index] as i128);
            },
            SampleTransformToken::Unary(op) => {
                let value = match stack.pop() {
                    Some(value) => value,
                    None => {
                        proof {
                            lemma_run_stays_failed(tokens@, (k + 1) as nat, tokens@.len(), input_samples@, lo, hi);
                        }
                        return Err(DecoderError::Bitstream("sato unary stack underflow".to_string()));
                    },
                };
                let result: i128 = if op == 0 {
                    -value
                } else if op == 1 {
                    if value < 0 { -value } else { value }
                } else if op == 2 {
                    -value - 1
                } else if value <= 0 {
                    0
                } else {
                    highest_set_bit(value)
                };
                stack.push(clamp_i128(result, low, high));
            },
            SampleTransformToken::Binary(op) => {
                let right = match stack.pop() {
                    Some(value) => value,
                    None => {
                        proof {
                            lemma_run_stays_failed(tokens@, (k + 1) as nat, tokens@.len(), input_samples@, lo, hi);
                        }
                        return Err(DecoderError::Bitstream("sato binary stack underflow".to_string()));
                    },
                };
                let left = match stack.pop() {
                    Some(value) => value,
                    None => {
                        proof {
                            assert(before.len() < 2);
                            assert(tokens@[k as int] == SampleTransformToken::Binary(op));
                            lemma_run_stays_failed(tokens@, (k + 1) as nat, tokens@.len(), input_samples@, lo, hi);
                        }
                        return Err(DecoderError::Bitstream("sato binary stack underflow".to_string()));
                    },
                };
                let value: i128 = if op == 0 {
                    saturating_add(left, right)
                } else if op == 1 {
                    saturating_sub(left, right)
                } else if op == 2 {
                    saturating_mul(left, right)
                } else if op == 3 {
                    if right == 0 {
                        proof {
                            lemma_run_stays_failed(tokens@, (k + 1) as nat, tokens@.len(), input_samples@, lo, hi);
                        }
                        return Err(DecoderError::Bitstream("sato division by zero".to_string()));
                    }
                    match left.checked_div(right) {
                        Some(quotient) => quotient,
                        None => 0,
                    }
                } else if op == 4 {
                    left & right
                } else if op == 5 {
                    left | right
                } else if op == 6 {
                    left ^ right
                } else if op == 7 {
                    if right < 0 {
                        proof {
                            lemma_run_stays_failed(tokens@, (k + 1) as nat, tokens@.len(), input_samples@, lo, hi);
                        }
                        return Err(DecoderError::Unsupported("negative sato exponent is not supported".to_string()));
                    }
                    saturating_pow_i128(left, right)
                } else if op == 8 {
                    if left < right { left } else { right }
                } else {
                    if left < right { right } else { left }
                };
                stack.push(clamp_i128(value, low, high));
            },
        }
        k = k + 1;
    }
    let value = match stack.pop() {
        Some(value) => value,
        None => return Err(DecoderError::Bitstream("sato expression produced no result".to_string())),
    };
    if stack.len() != 0 {
        return Err(DecoderError::Bitstream("sato expression produced multiple results".to_string()));
    }
    Ok(#[verifier::truncate] (clamp_i128(value, 0, output_max as i128) as u16))
}

/// The loop filter level of a block after its deltas: the segment and block deltas
/// always, the reference and mode deltas when delta coding is enabled; clamped to
/// `0..=63`.
pub fn apply_loop_filter_deltas(level: u8, enabled: bool, ref_delta: i8, mode_delta: i8, block_delta: i8, segment_delta: i8) -> (adjusted_level: u8)
    ensures
        adjusted_level == clamped(
            level + segment_delta + block_delta + if enabled { ref_delta + mode_delta } else { 0 },
            0,
            63,
        ),
{
    let adjusted: i16 = if !enabled {
        level as i16 + segment_delta as i16 + block_delta as i16
    } else {
        level as i16 + segment_delta as i16 + ref_delta as i16 + mode_delta as i16 + block_delta as i16
    };
    if adjusted < 0 {
        0
    } else if adjusted > 63 {
        63
    } else {
        adjusted as u8
    }
}

/// The reference delta that applies to a block: that of its reference frame when
/// it is inter-predicted from one of the eight, else the intra one (0).
pub fn loop_filter_reference_delta_index(is_inter: bool, reference_frame: Option<u8>) -> (index: usize)
    ensures
        index == match reference_frame {
            Some(frame) => if is_inter && frame < 8 { frame as int } else { 0 },
            None => 0,
        },
{
    match reference_frame {
        Some(frame) => if is_inter && frame < 8 {
            frame as usize
        } else {
            0
        },
        None => 0,
    }
}

/// The mode delta that applies to a block: 1 for an inter block with a non-zero
/// motion vector, else 0.
pub fn loop_filter_mode_delta_index(is_inter: bool, has_nonzero_mv: bool) -> (index: usize)
    ensures
        index == if is_inter && has_nonzero_mv { 1int } else { 0 },
{
    if is_inter && has_nonzero_mv {
        1
    } else {
        0
    }
}

/// `value` divided by `2^shift`, rounding up.
pub fn ceil_shift(value: usize, shift: usize) -> (quotient: usize)
    requires
        shift < usize::BITS,
    ensures
        quotient == (value + vstd::arithmetic::power2::pow2(shift as nat) - 1) / (vstd::arithmetic::power2::pow2(shift as nat) as int),
{
    proof {
        vstd::bits::lemma_usize_pow2_no_overflow(shift as nat);
        vstd::bits::lemma_usize_shl_is_mul(1, shift);
        vstd::arithmetic::power2::lemma_pow2_pos(shift as nat);
    }
    let divisor = 1usize << shift;
    let quotient = value / divisor;
    proof {
        let d = divisor as int;
        vstd::arithmetic::div_mod::lemma_fundamental_div_mod(value as int, d);
        vstd::arithmetic::div_mod::lemma_mod_bound(value as int, d);
        assert(quotient <= d * quotient) by (nonlinear_arith)
            requires
                d >= 1,
                quotient >= 0,
        ;
        assert((quotient + 1) * d == quotient * d + d) by (nonlinear_arith);
        assert(quotient * d == d * quotient) by (nonlinear_arith);
    }
    let rounded = if value % divisor != 0 { quotient + 1 } else { quotient };
    proof {
        let d = divisor as int;
        if value % divisor != 0 {
            vstd::arithmetic::div_mod::lemma_fundamental_div_mod_converse(value + d - 1, d, quotient + 1, value % divisor - 1);
        } else {
            vstd::arithmetic::div_mod::lemma_fundamental_div_mod_converse(value + d - 1, d, quotient as int, d - 1);
        }
    }
    rounded
}

/// Constrained directional enhancement does nothing with both strengths zero.
pub fn cdef_strengths_disabled(primary_strength: u8, secondary_strength: u8) -> (disabled: bool)
    ensures
        disabled == (primary_strength == 0 && secondary_strength == 0),
{
    primary_strength == 0 && secondary_strength == 0
}

/// Some of the strength presets that `cdef_bits` can select (the first `2^bits`)
/// filters at all.
pub fn cdef_has_active_strengths(cdef: &CdefParams) -> (active: bool)
    requires
        cdef.bits < usize::BITS,
    ensures
        active == exists|i: int|
            0 <= i < 8 && i < vstd::arithmetic::power2::pow2(cdef.bits as nat) && (#[trigger] cdef.strengths@[i]).spec_active(),
{
    proof {
        vstd::bits::lemma_usize_pow2_no_overflow(cdef.bits as nat);
        vstd::bits::lemma_usize_shl_is_mul(1, cdef.bits as usize);
    }
    let active_count = 1usize << cdef.bits as usize;
    let count = if active_count < 8 { active_count } else { 8 };
    let mut i: usize = 0;
    while i < count
        invariant
            count <= 8,
            count == (if active_count < 8 { active_count } else { 8 }),
            active_count == vstd::arithmetic::power2::pow2(cdef.bits as nat),
            i <= count,
            forall|j: int| 0 <= j < i ==> !(#[trigger] cdef.strengths@[j]).spec_active(),
        decreases count - i,
    {
        let strength = cdef.strengths[i];
        if strength.y_pri != 0 || strength.y_sec != 0 || strength.uv_pri != 0 || strength.uv_sec != 0 {
            assert(cdef.strengths@[i as int].spec_active());
            return true;
        }
        i = i + 1;
    }
    false
}

/// Some block's CDEF preset index (255 marks a block without one) selects a preset
/// that filters at all.
pub fn cdef_indices_have_active_strengths(cdef: &CdefParams, indices: &[u8]) -> (active: bool)
    ensures
        active == exists|k: int|
            0 <= k < indices@.len() && (#[trigger] indices@[k]) != 255 && indices@[k] < 8 && cdef.strengths@[indices@[k] as int].spec_active(),
{
    let mut k: usize = 0;
    while k < indices.len()
        invariant
            k <= indices@.len(),
            forall|j: int| 0 <= j < k ==> !((#[trigger] indices@[j]) != 255 && indices@[j] < 8 && cdef.strengths@[indices@[j] as int].spec_active()),
        decreases indices@.len() - k,
    {
        let index = indices[k];
        if index != 255 && index < 8 {
            let strength = cdef.strengths[index as usize];
            if strength.y_pri != 0 || strength.y_sec != 0 || strength.uv_pri != 0 || strength.uv_sec != 0 {
                return true;
            }
        }
        k = k + 1;
    }
    false
}

/// The number of bytes from a reader's position `current` to its end `end`: an end
/// before the position is a `Bitstream` error, a length past `usize` `InvalidParam`.
pub fn remaining_length(current: u64, end: u64) -> (result: Result<usize, DecoderError>)
    ensures
        match result {
            Ok(length) => current <= end && length == end - current,
            Err(error) => if end < current {
                error.kind() == ErrorKind::Bitstream
            } else {
                end - current > usize::MAX && error.kind() == ErrorKind::InvalidParam
            },
        },
{
    if end < current {
        return Err(DecoderError::Bitstream("reader end is before current position".to_string()));
    }
    let length = end - current;
    if length > usize::MAX as u64 {
        return Err(DecoderError::InvalidParam("input is too large".to_string()));
    }
    Ok(length as usize)
}

/// The contents of a metadata value.
pub enum DataMapView {
    UInt(u64),
    UIntAllay(Seq<u64>),
    Raw(Seq<u8>),
    Ascii(Seq<char>),
    Empty,
}

/// The contents of a metadata value.
pub open spec fn data_map_view(value: DataMap) -> DataMapView {
    match value {
        DataMap::UInt(number) => DataMapView::UInt(number),
        DataMap::UIntAllay(numbers) => DataMapView::UIntAllay(numbers@),
        DataMap::Raw(bytes) => DataMapView::Raw(bytes@),
        DataMap::Ascii(text) => DataMapView::Ascii(text@),
        DataMap::Empty => DataMapView::Empty,
    }
}

/// The metadata the container gives: the format name, then, where present, the
/// width, height, primary item, bits per channel, colour type and AV1 configuration.
pub open spec fn container_metadata_spec(info: AvifInfo) -> Seq<(Seq<char>, DataMapView)> {
    let entries = seq![("Format"@, DataMapView::Ascii("AVIF"@))];
    let entries = match info.width {
        Some(width) => entries.push(("width"@, DataMapView::UInt(width as u64))),
        None => entries,
    };
    let entries = match info.height {
        Some(height) => entries.push(("height"@, DataMapView::UInt(height as u64))),
        None => entries,
    };
    let entries = match info.primary_item_id {
        Some(id) => entries.push(("AVIF primary item"@, DataMapView::UInt(id as u64))),
        None => entries,
    };
    let entries = match info.pixel_information {
        Some(pixi) => entries.push(("AVIF bits per channel"@, DataMapView::UIntAllay(pixi.bits_per_channel@.map_values(|bits: u8| bits as u64)))),
        None => entries,
    };
    let entries = match info.color_information {
        Some(color) => entries.push(("AVIF color type"@, DataMapView::Ascii(crate::text::lossy_utf8(color.color_type@)))),
        None => entries,
    };
    match info.av1_config {
        Some(config) => entries.push(("AV1 config"@, DataMapView::Raw(config@))),
        None => entries,
    }
}

/// The views of metadata entries.
pub open spec fn entries_view(entries: Seq<(String, DataMap)>) -> Seq<(Seq<char>, DataMapView)> {
    entries.map_values(|entry: (String, DataMap)| (entry.0@, data_map_view(entry.1)))
}

fn push_entry(entries: &mut Vec<(String, DataMap)>, key: &str, value: DataMap)
    ensures
        entries_view(final(entries)@) == entries_view(old(entries)@).push((key@, data_map_view(value))),
{
    let ghost before = entries@;
    entries.push((key.to_string(), value));
    proof {
        assert(entries_view(entries@) =~= entries_view(before).push((key@, data_map_view(value))));
    }
}

/// The metadata entries a decoder reports for the container, in order (see
/// `container_metadata_spec`).
pub fn container_metadata(info: &AvifInfo) -> (entries: Vec<(String, DataMap)>)
    ensures
        entries_view(entries@) == container_metadata_spec(*info),
{
    let mut entries: Vec<(String, DataMap)> = Vec::new();
    proof {
        assert(entries_view(entries@) =~= Seq::<(Seq<char>, DataMapView)>::empty());
    }
    push_entry(&mut entries, "Format", DataMap::Ascii("AVIF".to_string()));
    proof {
        reveal_strlit("AVIF");
        assert(entries_view(entries@) =~= seq![("Format"@, DataMapView::Ascii("AVIF"@))]);
    }
    if let Some(width) = info.width {
        push_entry(&mut entries, "width", DataMap::UInt(width as u64));
    }
    if let Some(height) = info.height {
        push_entry(&mut entries, "height", DataMap::UInt(height as u64));
    }
    if let Some(primary_item_id) = info.primary_item_id {
        push_entry(&mut entries, "AVIF primary item", DataMap::UInt(primary_item_id as u64));
    }
    if let Some(pixi) = &info.pixel_information {
        let mut bits: Vec<u64> = Vec::new();
        let mut k: usize = 0;
        while k < pixi.bits_per_channel.len()
            invariant
                k <= pixi.bits_per_channel@.len(),
                bits@ == pixi.bits_per_channel@.take(k as int).map_values(|value: u8| value as u64),
            decreases pixi.bits_per_channel@.len() - k,
        {
            bits.push(pixi.bits_per_channel[k] as u64);
            proof {
                assert(pixi.bits_per_channel@.take(k + 1).map_values(|value: u8| value as u64) =~= pixi.bits_per_channel@.take(
                    k as int,
                ).map_values(|value: u8| value as u64).push(pixi.bits_per_channel@[k as int] as u64));
            }
            k = k + 1;
        }
        proof {
            assert(pixi.bits_per_channel@.take(k as int) =~= pixi.bits_per_channel@);
        }
        push_entry(&mut entries, "AVIF bits per channel", DataMap::UIntAllay(bits));
    }
    if let Some(colr) = &info.color_information {
        push_entry(&mut entries, "AVIF color type", DataMap::Ascii(crate::text::utf8_lossy_string(&colr.color_type)));
    }
    if let Some(av1_config) = &info.av1_config {
        push_entry(&mut entries, "AV1 config", DataMap::Raw(av1_config.clone()));
    }
    entries
}

/// The metadata the AV1 sequence header gives, after the container's: the `av1C`
/// version where there is a record, then the profile, bit depth, level and maximum
/// frame size.
pub open spec fn sequence_metadata_spec(config: Option<Av1CodecConfiguration>, sequence: SequenceHeader) -> Seq<(Seq<char>, DataMapView)> {
    let entries = match config {
        Some(config) => seq![("AV1 config version"@, DataMapView::UInt(config.version as u64))],
        None => Seq::empty(),
    };
    entries + seq![
        ("AV1 profile"@, DataMapView::UInt(sequence.seq_profile as u64)),
        ("AV1 bit depth"@, DataMapView::UInt(sequence.color_config.bit_depth as u64)),
        ("AV1 level"@, DataMapView::UInt(sequence.seq_level_idx_0 as u64)),
        ("AV1 max frame width"@, DataMapView::UInt(sequence.max_frame_width as u64)),
        ("AV1 max frame height"@, DataMapView::UInt(sequence.max_frame_height as u64)),
    ]
}

/// The metadata entries a decoder reports for the AV1 sequence header, in order (see
/// `sequence_metadata_spec`).
pub fn sequence_metadata(config: Option<&Av1CodecConfiguration>, sequence: &SequenceHeader) -> (entries: Vec<(String, DataMap)>)
    ensures
        entries_view(entries@) == sequence_metadata_spec(
            match config {
                Some(config) => Some(*config),
                None => None,
            },
            *sequence,
        ),
{
    let mut entries: Vec<(String, DataMap)> = Vec::new();
    proof {
        assert(entries_view(entries@) =~= Seq::<(Seq<char>, DataMapView)>::empty());
    }
    if let Some(config) = config {
        push_entry(&mut entries, "AV1 config version", DataMap::UInt(config.version as u64));
    }
    let ghost prefix = entries_view(entries@);
    push_entry(&mut entries, "AV1 profile", DataMap::UInt(sequence.seq_profile as u64));
    push_entry(&mut entries, "AV1 bit depth", DataMap::UInt(sequence.color_config.bit_depth as u64));
    push_entry(&mut entries, "AV1 level", DataMap::UInt(sequence.seq_level_idx_0 as u64));
    push_entry(&mut entries, "AV1 max frame width", DataMap::UInt(sequence.max_frame_width as u64));
    push_entry(&mut entries, "AV1 max frame height", DataMap::UInt(sequence.max_frame_height as u64));
    proof {
        let expected = sequence_metadata_spec(
            match config {
                Some(config) => Some(*config),
                None => None,
            },
            *sequence,
        );
        assert(entries_view(entries@) =~= expected);
    }
    entries
}

/// The diagnostic line a decoder reports for the container in debug mode:
/// `AVIF {width}x{height} primary_item_payload={bytes} bytes`, an absent dimension as 0.
pub fn container_summary(info: &AvifInfo) -> (text: String)
    ensures
        text@ == "AVIF "@ + crate::text::decimal_spec(match info.width { Some(w) => w as nat, None => 0 }) + "x"@
            + crate::text::decimal_spec(match info.height { Some(h) => h as nat, None => 0 }) + " primary_item_payload="@
            + crate::text::decimal_spec(info.primary_item_payload@.len()) + " bytes"@,
{
    let width: u64 = match info.width {
        Some(width) => width as u64,
        None => 0,
    };
    let height: u64 = match info.height {
        Some(height) => height as u64,
        None => 0,
    };
    let text = crate::text::concat("AVIF ", crate::text::decimal(width).as_str());
    let text = crate::text::concat(text.as_str(), "x");
    let text = crate::text::concat(text.as_str(), crate::text::decimal(height).as_str());
    let text = crate::text::concat(text.as_str(), " primary_item_payload=");
    let text = crate::text::concat(text.as_str(), crate::text::decimal(info.primary_item_payload.len() as u64).as_str());
    crate::text::concat(text.as_str(), " bytes")
}

/// While the tokens find their operands, the evaluation stack holds as many values
/// as the postfix depth says.
pub proof fn lemma_run_depth(tokens: Seq<SampleTransformToken>, count: nat, inputs: Seq<u16>, low: int, high: int)
    requires
        count <= tokens.len(),
        prefix_depth(tokens, count) is Some,
        tokens_run(tokens, count, inputs, low, high) is Ok,
    ensures
        tokens_run(tokens, count, inputs, low, high)->Ok_0.len() == prefix_depth(tokens, count)->Some_0,
    decreases count,
{
    if count > 0 {
        let before = (count - 1) as nat;
        assert(prefix_depth(tokens, before) is Some);
        assert(tokens_run(tokens, before, inputs, low, high) is Ok);
        lemma_run_depth(tokens, before, inputs, low, high);
    }
}

/// Evaluating a well-formed postfix expression that runs to its end leaves exactly
/// one value: it never ends with no result or several.
pub proof fn lemma_well_formed_expression_leaves_one_value(tokens: Seq<SampleTransformToken>, inputs: Seq<u16>, low: int, high: int)
    requires
        well_formed_postfix(tokens),
        tokens_run(tokens, tokens.len(), inputs, low, high) is Ok,
    ensures
        tokens_run(tokens, tokens.len(), inputs, low, high)->Ok_0.len() == 1,
{
    lemma_run_depth(tokens, tokens.len(), inputs, low, high);
}

/// An expression parsed from a `sato` payload, evaluated at its own intermediate bit
/// depth, gives a value whenever its tokens run to the end.
pub proof fn lemma_parsed_expression_evaluates(payload: Seq<u8>, inputs: Seq<u16>, output_max: u32)
    requires
        sato_outcome(payload) is Ok,
        tokens_run(
            sato_outcome(payload)->Ok_0.1,
            sato_outcome(payload)->Ok_0.1.len(),
            inputs,
            intermediate_min(sato_outcome(payload)->Ok_0.0),
            intermediate_max(sato_outcome(payload)->Ok_0.0),
        ) is Ok,
    ensures
        expression_value(sato_outcome(payload)->Ok_0.1, inputs, sato_outcome(payload)->Ok_0.0, output_max) is Ok,
{
    let (depth, tokens) = sato_outcome(payload)->Ok_0;
    crate::container::sample_transform::lemma_parsed_expression_well_formed(payload);
    lemma_well_formed_expression_leaves_one_value(tokens, inputs, intermediate_min(depth), intermediate_max(depth));
}

} // verus!
pub mod sequence;
