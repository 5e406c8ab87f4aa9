//! Building the text of error messages.
use vstd::prelude::*;
use vstd::string::StringExecFns;

verus! {

/// The decimal digits of `n`, most significant first.
pub open spec fn decimal_spec(n: nat) -> Seq<char>
    decreases n,
{
    if n < 10 {
        seq![(48 + n) as char]
    } else {
        decimal_spec(n / 10).push((48 + n % 10) as char)
    }
}

/// Joins two strings: the result is `a` followed by `b`.
pub(crate) fn concat(a: &str, b: &str) -> (joined: String)
    ensures
        joined@ == a@ + b@,
{
    let start = String::from_str(a);
    start.concat(b)
}

/// The decimal digit character for `digit` (below 10).
fn decimal_digit(digit: u64) -> (text: &'static str)
    requires
        digit < 10,
    ensures
        text@ == seq![(48 + digit) as char],
{
    match digit {
        0 => {
            proof {
                reveal_strlit("0");
            }
            "0"
        },
        1 => {
            proof {
                reveal_strlit("1");
            }
            "1"
        },
        2 => {
            proof {
                reveal_strlit("2");
            }
            "2"
        },
        3 => {
            proof {
                reveal_strlit("3");
            }
            "3"
        },
        4 => {
            proof {
                reveal_strlit("4");
            }
            "4"
        },
        5 => {
            proof {
                reveal_strlit("5");
            }
            "5"
        },
        6 => {
            proof {
                reveal_strlit("6");
            }
            "6"
        },
        7 => {
            proof {
                reveal_strlit("7");
            }
            "7"
        },
        8 => {
            proof {
                reveal_strlit("8");
            }
            "8"
        },
        _ => {
            proof {
                reveal_strlit("9");
            }
            "9"
        },
    }
}

/// Renders `n` in decimal: its digits, most significant first, with no sign,
/// padding or leading zeros.
pub(crate) fn decimal(n: u64) -> (text: String)
    ensures
        text@ == decimal_spec(n as nat),
    decreases n,
{
    if n < 10 {
        String::from_str(decimal_digit(n))
    } else {
        let head = decimal(n / 10);
        let text = head.concat(decimal_digit(n % 10));
        proof {
            assert(decimal_spec(n as nat) == decimal_spec((n / 10) as nat).push((48 + n % 10) as char));
            assert(text@ =~= decimal_spec(n as nat));
        }
        text
    }
}

} // verus!

verus! {

/// What `String::from_utf8_lossy` makes of `bytes`: their text, with each invalid
/// sequence replaced by U+FFFD.
pub uninterp spec fn lossy_utf8(bytes: Seq<u8>) -> Seq<char>;

/// Decodes UTF-8 text, replacing invalid sequences (`String::from_utf8_lossy`, then
/// `to_string`): valid UTF-8 is decoded as it is; otherwise the text is named, not
/// stated.
#[verifier::external_body]
pub(crate) fn utf8_lossy_string(bytes: &[u8]) -> (text: String)
    ensures
        text@ == lossy_utf8(bytes@),
        vstd::utf8::valid_utf8(bytes@) ==> text@ == vstd::utf8::decode_utf8(bytes@),
{
    String::from_utf8_lossy(bytes).to_string()
}

/// Decodes UTF-8 text (`std::str::from_utf8`, then `to_string`): `None` exactly when
/// the bytes are not valid UTF-8, otherwise the decoded characters.
#[verifier::external_body]
pub(crate) fn utf8_string(bytes: &[u8]) -> (text: Option<String>)
    ensures
        text is Some <==> vstd::utf8::valid_utf8(bytes@),
        text is Some ==> text->0@ == vstd::utf8::decode_utf8(bytes@),
{
    match std::str::from_utf8(bytes) {
        Ok(value) => Some(value.to_string()),
        Err(_) => None,
    }
}

} // verus!

verus! {

/// The character of hexadecimal digit `digit` (below 16): `0`-`9`, then `a`-`f`.
pub open spec fn hex_char(digit: u32) -> char {
    if digit < 10 {
        (48 + digit) as char
    } else {
        (87 + digit) as char
    }
}

/// Digit `position` of `value` in base 16 (position 0 the least significant).
pub open spec fn hex_digit_at(value: u32, position: int) -> u32 {
    ((value >> ((4 * position) as u32)) % 16) as u32
}

/// The text of digit positions `position - 1` down to 0 of `value`, when the digits
/// above them were already shown (`started`) or not: a digit is shown once a
/// nonzero digit or position `width - 1` is reached; when none is, the text is `0`.
pub open spec fn hex_text_from(value: u32, width: u32, position: nat, started: bool) -> Seq<char>
    decreases position,
{
    if position == 0 {
        if started {
            Seq::empty()
        } else {
            seq!['0']
        }
    } else {
        let at = position - 1;
        let digit = hex_digit_at(value, at);
        let shown = started || digit != 0 || at < width;
        (if shown {
            seq![hex_char(digit)]
        } else {
            Seq::empty()
        }) + hex_text_from(value, width, at as nat, shown)
    }
}

/// `value` in lowercase hexadecimal, without leading zeros but padded with zeros to
/// `width` digits, over its eight digit positions.
pub open spec fn hex_text(value: u32, width: u32) -> Seq<char> {
    hex_text_from(value, width, 8, false)
}

/// The lowercase hexadecimal digit for `digit` (which is below 16).
pub fn hex_digit(digit: u32) -> (text: &'static str)
    requires
        digit < 16,
    ensures
        text@ == seq![hex_char(digit)],
{
    match digit {
        0 => {
            proof {
                reveal_strlit("0");
            }
            "0"
        },
        1 => {
            proof {
                reveal_strlit("1");
            }
            "1"
        },
        2 => {
            proof {
                reveal_strlit("2");
            }
            "2"
        },
        3 => {
            proof {
                reveal_strlit("3");
            }
            "3"
        },
        4 => {
            proof {
                reveal_strlit("4");
            }
            "4"
        },
        5 => {
            proof {
                reveal_strlit("5");
            }
            "5"
        },
        6 => {
            proof {
                reveal_strlit("6");
            }
            "6"
        },
        7 => {
            proof {
                reveal_strlit("7");
            }
            "7"
        },
        8 => {
            proof {
                reveal_strlit("8");
            }
            "8"
        },
        9 => {
            proof {
                reveal_strlit("9");
            }
            "9"
        },
        10 => {
            proof {
                reveal_strlit("a");
            }
            "a"
        },
        11 => {
            proof {
                reveal_strlit("b");
            }
            "b"
        },
        12 => {
            proof {
                reveal_strlit("c");
            }
            "c"
        },
        13 => {
            proof {
                reveal_strlit("d");
            }
            "d"
        },
        14 => {
            proof {
                reveal_strlit("e");
            }
            "e"
        },
        _ => {
            proof {
                reveal_strlit("f");
            }
            "f"
        },
    }
}

/// `value` in lowercase hexadecimal, zero-padded to at least `width` digits
/// (at most eight digits are produced).
pub fn hex_padded(value: u32, width: u32) -> (text: String)
    requires
        width <= 8,
    ensures
        text@ == hex_text(value, width),
{
    let mut text = String::new();
    let mut position: u32 = 8;
    let mut started = false;
    while position > 0
        invariant
            position <= 8,
            width <= 8,
            text@ + hex_text_from(value, width, position as nat, started) == hex_text(value, width),
        decreases position,
    {
        let ghost before = text@;
        let ghost was_started = started;
        position = position - 1;
        let digit = (value >> (4 * position)) % 16;
        assert(digit == hex_digit_at(value, position as int));
        if digit != 0 || position < width || started {
            started = true;
            text = concat(text.as_str(), hex_digit(digit));
        }
        assert(text@ + hex_text_from(value, width, position as nat, started) =~= before + hex_text_from(
            value,
            width,
            (position + 1) as nat,
            was_started,
        ));
    }
    if !started {
        proof {
            reveal_strlit("0");
        }
        text = concat(text.as_str(), "0");
    }
    assert(text@ =~= hex_text(value, width));
    text
}

} // verus!

verus! {

/// Four bytes as `{:?}` renders an array: `[b0, b1, b2, b3]` in decimal.
pub fn bytes4_debug(code: &[u8; 4]) -> (text: String)
    ensures
        text@ == "["@ + decimal_spec(code[0] as nat) + ", "@ + decimal_spec(code[1] as nat) + ", "@ + decimal_spec(
            code[2] as nat,
        ) + ", "@ + decimal_spec(code[3] as nat) + "]"@,
{
    let text = concat("[", decimal(code[0] as u64).as_str());
    let text = concat(text.as_str(), ", ");
    let text = concat(text.as_str(), decimal(code[1] as u64).as_str());
    let text = concat(text.as_str(), ", ");
    let text = concat(text.as_str(), decimal(code[2] as u64).as_str());
    let text = concat(text.as_str(), ", ");
    let text = concat(text.as_str(), decimal(code[3] as u64).as_str());
    concat(text.as_str(), "]")
}

} // verus!

verus! {

/// Whether two strings hold the same characters (compared byte by byte).
pub fn str_eq(a: &str, b: &str) -> (equal: bool)
    ensures
        equal == (a@ == b@),
{
    let x = a.as_bytes();
    let y = b.as_bytes();
    proof {
        vstd::utf8::encode_utf8_decode_utf8(a@);
        vstd::utf8::encode_utf8_decode_utf8(b@);
    }
    if x.len() != y.len() {
        return false;
    }
    let mut k: usize = 0;
    while k < x.len()
        invariant
            k <= x@.len(),
            x@.len() == y@.len(),
            x@ == vstd::utf8::encode_utf8(a@),
            y@ == vstd::utf8::encode_utf8(b@),
            forall|j: int| 0 <= j < k ==> x@[j] == y@[j],
        decreases x@.len() - k,
    {
        if x[k] != y[k] {
            return false;
        }
        k = k + 1;
    }
    assert(x@ =~= y@);
    true
}

} // verus!
