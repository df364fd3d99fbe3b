//! The JSON grammar, on the bytes of a document.
//!
//! Each function reads one construct that begins at a byte position. It gives
//! what was read and the position behind it, or the first fault.

use vstd::prelude::*;
use vstd::utf8;

use crate::external;
use crate::json;
use crate::json::Json;
use crate::text;

verus! {

/// Why a document is refused, and the byte at which the reader stopped.
pub struct Fault {
    pub message: Seq<char>,
    pub at: nat,
}

/// The error text of a fault.
pub open spec fn fault_text(fault: Fault) -> Seq<char> {
    fault.message + " at byte "@ + text::decimal(fault.at)
}

/// A fault at a byte.
pub open spec fn fault<T>(message: Seq<char>, at: nat) -> Result<T, Fault> {
    Err(Fault { message, at })
}

/// The fault of a missing punctuation mark.
pub open spec fn expected<T>(mark: u8, at: nat) -> Result<T, Fault> {
    fault("expected "@ + external::debug_char(mark as char), at)
}

/// The byte at a position.
pub open spec fn byte_at(b: Seq<u8>, at: nat) -> Option<u8> {
    if at < b.len() {
        Some(b[at as int])
    } else {
        None
    }
}

/// The number of bytes from a position to the end.
pub open spec fn left(b: Seq<u8>, at: nat) -> nat {
    if at < b.len() {
        (b.len() - at) as nat
    } else {
        0
    }
}

/// The position of the first byte at or behind `at` that is no JSON whitespace.
pub open spec fn behind_spaces(b: Seq<u8>, at: nat) -> nat
    decreases left(b, at),
{
    match byte_at(b, at) {
        Some(c) => if c == ' ' as u8 || c == '\n' as u8 || c == '\r' as u8 || c == '\t' as u8 {
            behind_spaces(b, at + 1)
        } else {
            at
        },
        None => at,
    }
}

/// Whitespace ends inside the document.
pub proof fn lemma_behind_spaces(b: Seq<u8>, at: nat)
    ensures
        at <= behind_spaces(b, at),
        at <= b.len() ==> behind_spaces(b, at) <= b.len(),
    decreases left(b, at),
{
    if at < b.len() {
        lemma_behind_spaces(b, at + 1);
    }
}

/// Whether a byte is a decimal digit.
pub open spec fn is_digit(c: u8) -> bool {
    ('0' as u8) <= c <= ('9' as u8)
}

/// The position behind the run of digits at `at`.
pub open spec fn behind_digits(b: Seq<u8>, at: nat) -> nat
    decreases left(b, at),
{
    match byte_at(b, at) {
        Some(c) => if is_digit(c) {
            behind_digits(b, at + 1)
        } else {
            at
        },
        None => at,
    }
}

/// A run of digits, which must not be empty when `require_one` holds.
pub open spec fn digits(b: Seq<u8>, at: nat, require_one: bool) -> Result<nat, Fault> {
    let end = behind_digits(b, at);
    if require_one && end == at {
        fault("expected a digit"@, at)
    } else {
        Ok(end)
    }
}

/// The position behind an optional byte.
pub open spec fn behind_optional(b: Seq<u8>, at: nat, c: u8) -> nat {
    if byte_at(b, at) == Some(c) {
        at + 1
    } else {
        at
    }
}

/// The integer part of a number without its sign.
pub open spec fn integer_part(b: Seq<u8>, at: nat) -> Result<nat, Fault> {
    if byte_at(b, at) == Some('0' as u8) {
        Ok(at + 1)
    } else {
        digits(b, at, true)
    }
}

/// The optional fraction of a number.
pub open spec fn fraction_part(b: Seq<u8>, at: nat) -> Result<nat, Fault> {
    if byte_at(b, at) == Some('.' as u8) {
        digits(b, at + 1, true)
    } else {
        Ok(at)
    }
}

/// The optional exponent of a number.
pub open spec fn exponent_part(b: Seq<u8>, at: nat) -> Result<nat, Fault> {
    if byte_at(b, at) == Some('e' as u8) || byte_at(b, at) == Some('E' as u8) {
        if byte_at(b, at + 1) == Some('+' as u8) || byte_at(b, at + 1) == Some('-' as u8) {
            digits(b, at + 2, true)
        } else {
            digits(b, at + 1, true)
        }
    } else {
        Ok(at)
    }
}

/// A number.
pub open spec fn number(b: Seq<u8>, at: nat) -> Result<nat, Fault> {
    match integer_part(b, behind_optional(b, at, '-' as u8)) {
        Err(f) => Err(f),
        Ok(integer_end) => match fraction_part(b, integer_end) {
            Err(f) => Err(f),
            Ok(fraction_end) => exponent_part(b, fraction_end),
        },
    }
}

/// Whether the bytes of `word` stand at `at`.
pub open spec fn has_word(b: Seq<u8>, at: nat, word: Seq<u8>) -> bool {
    at + word.len() <= b.len() && b.subrange(at as int, (at + word.len()) as int) == word
}

/// A literal word.
pub open spec fn literal(b: Seq<u8>, at: nat, word: Seq<char>) -> Result<nat, Fault> {
    if has_word(b, at, utf8::encode_utf8(word)) {
        Ok(at + utf8::encode_utf8(word).len())
    } else {
        fault("invalid JSON literal"@, at)
    }
}

/// The value of a hexadecimal digit.
pub open spec fn hex_value(c: u8) -> Option<nat> {
    if ('0' as u8) <= c <= ('9' as u8) {
        Some((c - ('0' as u8)) as nat)
    } else if ('a' as u8) <= c <= ('f' as u8) {
        Some((c - ('a' as u8) + 10) as nat)
    } else if ('A' as u8) <= c <= ('F' as u8) {
        Some((c - ('A' as u8) + 10) as nat)
    } else {
        None
    }
}

/// The value of the `count` hexadecimal digits before `at + count`, or the
/// position behind the first byte that is no such digit.
pub open spec fn hex_digits(b: Seq<u8>, at: nat, count: nat) -> Result<nat, nat>
    decreases count,
{
    if count == 0 {
        Ok(0)
    } else {
        let last = (at + count - 1) as nat;
        match hex_digits(b, at, (count - 1) as nat) {
            Err(stop) => Err(stop),
            Ok(value) => match hex_value(b[last as int]) {
                Some(d) => Ok(value * 16 + d),
                None => Err(last + 1),
            },
        }
    }
}

/// A byte that is no digit stays the fault when more digits are asked for.
pub proof fn lemma_hex_fault(b: Seq<u8>, at: nat, count: nat, more: nat)
    requires
        count <= more,
        hex_digits(b, at, count) is Err,
    ensures
        hex_digits(b, at, more) == hex_digits(b, at, count),
    decreases more,
{
    if count < more {
        lemma_hex_fault(b, at, count, (more - 1) as nat);
    }
}

/// Four hexadecimal digits.
pub open spec fn hex_quad(b: Seq<u8>, at: nat) -> Result<nat, Fault> {
    if at + 4 > b.len() {
        fault("incomplete Unicode escape"@, at)
    } else {
        match hex_digits(b, at, 4) {
            Ok(value) => Ok(value),
            Err(stop) => fault("invalid Unicode escape"@, stop),
        }
    }
}

/// The character of a `\u` escape whose digits begin at `at`. A code point beyond
/// the basic plane is written as two escapes, a high and a low surrogate.
pub open spec fn unicode_escape(b: Seq<u8>, at: nat) -> Result<(char, nat), Fault> {
    match hex_quad(b, at) {
        Err(f) => Err(f),
        Ok(first) => if 0xd800 <= first <= 0xdbff {
            if byte_at(b, at + 4) != Some('\\' as u8) || byte_at(b, at + 5) != Some('u' as u8) {
                fault("high surrogate without a low surrogate"@, at + 4)
            } else {
                match hex_quad(b, at + 6) {
                    Err(f) => Err(f),
                    Ok(second) => if 0xdc00 <= second <= 0xdfff {
                        Ok(
                            (
                                (0x10000 + (first - 0xd800) * 0x400 + (second - 0xdc00)) as char,
                                at + 10,
                            ),
                        )
                    } else {
                        fault("invalid low surrogate"@, at + 10)
                    },
                }
            }
        } else if 0xdc00 <= first <= 0xdfff {
            fault("low surrogate without a high surrogate"@, at + 4)
        } else {
            Ok((first as char, at + 4))
        },
    }
}

/// The character of a one-letter escape.
pub open spec fn simple_escape(c: u8) -> Option<char> {
    if c == '"' as u8 {
        Some('"')
    } else if c == '\\' as u8 {
        Some('\\')
    } else if c == '/' as u8 {
        Some('/')
    } else if c == 'b' as u8 {
        Some('\u{0008}')
    } else if c == 'f' as u8 {
        Some('\u{000c}')
    } else if c == 'n' as u8 {
        Some('\n')
    } else if c == 'r' as u8 {
        Some('\r')
    } else if c == 't' as u8 {
        Some('\t')
    } else {
        None
    }
}

/// An escape whose backslash stands at `at`.
pub open spec fn escape(b: Seq<u8>, at: nat) -> Result<(char, nat), Fault> {
    match byte_at(b, at + 1) {
        None => fault("incomplete JSON string escape"@, at + 1),
        Some(c) => match simple_escape(c) {
            Some(meant) => Ok((meant, at + 2)),
            None => if c == 'u' as u8 {
                unicode_escape(b, at + 2)
            } else {
                fault("unsupported JSON string escape"@, at + 2)
            },
        },
    }
}

/// An escape ends behind an ASCII byte.
pub proof fn lemma_escape(b: Seq<u8>, at: nat)
    ensures
        escape(b, at) matches Ok((_, end)) ==> at < end <= b.len() && b[end - 1] < 0x80,
{
    reveal_with_fuel(hex_digits, 5);
}

/// One character of a string, at `at`.
pub open spec fn string_char(b: Seq<u8>, at: nat) -> Result<(char, nat), Fault> {
    let c = b[at as int];
    if c == '\\' as u8 {
        escape(b, at)
    } else if c <= 0x1f {
        fault("control character in JSON string"@, at)
    } else if c <= 0x7f {
        Ok((c as char, at + 1))
    } else {
        let rest = b.skip(at as int);
        Ok(
            (
                utf8::decode_first_scalar(rest) as char,
                at + utf8::length_of_first_scalar(rest) as nat,
            ),
        )
    }
}

/// The rest of a string behind the characters `read` so far.
pub open spec fn string_rest(b: Seq<u8>, at: nat, read: Seq<char>) -> Result<
    (Seq<char>, nat),
    Fault,
>
    decreases left(b, at),
{
    match byte_at(b, at) {
        None => fault("unterminated JSON string"@, at),
        Some(c) => if c == '"' as u8 {
            Ok((read, at + 1))
        } else {
            match string_char(b, at) {
                Err(f) => Err(f),
                Ok((meant, next)) => string_rest(b, next, read.push(meant)),
            }
        },
    }
}

/// A string.
pub open spec fn string(b: Seq<u8>, at: nat) -> Result<(Seq<char>, nat), Fault> {
    if byte_at(b, at) == Some('"' as u8) {
        string_rest(b, at + 1, seq![])
    } else {
        expected('"' as u8, at)
    }
}

/// A string ends behind where it begins.
pub proof fn lemma_string_rest(b: Seq<u8>, at: nat, read: Seq<char>)
    ensures
        string_rest(b, at, read) matches Ok((_, end)) ==> at < end,
    decreases left(b, at),
{
    if at < b.len() {
        if let Ok((meant, next)) = string_char(b, at) {
            lemma_string_rest(b, next, read.push(meant));
        }
    }
}

/// Any JSON value, with whitespace before it.
pub open spec fn value(b: Seq<u8>, at: nat) -> Result<(Json, nat), Fault>
    decreases left(b, at), 3nat,
{
    let start = behind_spaces(b, at);
    proof {
        lemma_behind_spaces(b, at);
    }
    match byte_at(b, start) {
        None => fault("unexpected end of input"@, start),
        Some(c) => if c == '{' as u8 {
            object(b, start)
        } else if c == '[' as u8 {
            array(b, start)
        } else if c == '"' as u8 {
            match string(b, start) {
                Err(f) => Err(f),
                Ok((read, end)) => Ok((Json::String(read), end)),
            }
        } else if c == 't' as u8 {
            other(literal(b, start, "true"@))
        } else if c == 'f' as u8 {
            other(literal(b, start, "false"@))
        } else if c == 'n' as u8 {
            other(literal(b, start, "null"@))
        } else if c == '-' as u8 || is_digit(c) {
            other(number(b, start))
        } else {
            fault("expected a JSON value"@, start)
        },
    }
}

/// A construct whose contents do not matter.
pub open spec fn other(end: Result<nat, Fault>) -> Result<(Json, nat), Fault> {
    match end {
        Err(f) => Err(f),
        Ok(end) => Ok((Json::Other, end)),
    }
}

/// An object.
pub open spec fn object(b: Seq<u8>, at: nat) -> Result<(Json, nat), Fault>
    decreases left(b, at), 2nat,
{
    if byte_at(b, at) != Some('{' as u8) {
        expected('{' as u8, at)
    } else {
        let first = behind_spaces(b, at + 1);
        proof {
            lemma_behind_spaces(b, at + 1);
        }
        if byte_at(b, first) == Some('}' as u8) {
            Ok((Json::Object(Map::empty()), first + 1))
        } else {
            members(b, first, Map::empty())
        }
    }
}

/// The members of an object from `at` on, behind those `read` so far. The last
/// member with a key counts. (A member never ends before it begins, as
/// `values_are_read_forward` says.)
pub open spec fn members(b: Seq<u8>, at: nat, read: Map<Seq<char>, Json>) -> Result<
    (Json, nat),
    Fault,
>
    decreases left(b, at), 4nat,
{
    let key_start = behind_spaces(b, at);
    proof {
        lemma_behind_spaces(b, at);
    }
    match string(b, key_start) {
        Err(f) => Err(f),
        Ok((key, key_end)) => {
            let colon = behind_spaces(b, key_end);
            proof {
                lemma_string_rest(b, key_start + 1, seq![]);
                lemma_behind_spaces(b, key_end);
            }
            if byte_at(b, colon) != Some(':' as u8) {
                expected(':' as u8, colon)
            } else {
                match value(b, colon + 1) {
                    Err(f) => Err(f),
                    Ok((member, end)) => {
                        let next = behind_spaces(b, end);
                        proof {
                            lemma_behind_spaces(b, end);
                        }
                        let grown = read.insert(key, member);
                        if byte_at(b, next) == Some('}' as u8) {
                            Ok((Json::Object(grown), next + 1))
                        } else if byte_at(b, next) != Some(',' as u8) || end <= at {
                            expected(',' as u8, next)
                        } else {
                            members(b, next + 1, grown)
                        }
                    },
                }
            }
        },
    }
}

/// An array.
pub open spec fn array(b: Seq<u8>, at: nat) -> Result<(Json, nat), Fault>
    decreases left(b, at), 2nat,
{
    if byte_at(b, at) != Some('[' as u8) {
        expected('[' as u8, at)
    } else {
        let first = behind_spaces(b, at + 1);
        proof {
            lemma_behind_spaces(b, at + 1);
        }
        if byte_at(b, first) == Some(']' as u8) {
            Ok((Json::Other, first + 1))
        } else {
            elements(b, first)
        }
    }
}

/// The elements of an array from `at` on. (An element never ends before it begins, as
/// `values_are_read_forward` says.)
pub open spec fn elements(b: Seq<u8>, at: nat) -> Result<(Json, nat), Fault>
    decreases left(b, at), 4nat,
{
    match value(b, at) {
        Err(f) => Err(f),
        Ok((_, end)) => {
            let next = behind_spaces(b, end);
            proof {
                lemma_behind_spaces(b, end);
            }
            if byte_at(b, next) == Some(']' as u8) {
                Ok((Json::Other, next + 1))
            } else if byte_at(b, next) != Some(',' as u8) || end <= at {
                expected(',' as u8, next)
            } else {
                elements(b, next + 1)
            }
        },
    }
}

/// A whole document: one value with nothing but whitespace around it.
pub open spec fn document(b: Seq<u8>) -> Result<Json, Fault> {
    match value(b, 0) {
        Err(f) => Err(f),
        Ok((read, end)) => if behind_spaces(b, end) == b.len() {
            Ok(read)
        } else {
            fault("unexpected trailing content"@, behind_spaces(b, end))
        },
    }
}

/// A run of digits ends at or behind where it begins.
proof fn lemma_behind_digits(b: Seq<u8>, at: nat)
    ensures
        at <= behind_digits(b, at),
    decreases left(b, at),
{
    if at < b.len() {
        lemma_behind_digits(b, at + 1);
    }
}

/// A number ends behind where it begins.
proof fn lemma_number_forward(b: Seq<u8>, at: nat)
    ensures
        number(b, at) matches Ok(end) ==> at < end,
{
    let start = behind_optional(b, at, '-' as u8);
    lemma_behind_digits(b, start);
    if let Ok(integer_end) = integer_part(b, start) {
        lemma_behind_digits(b, integer_end + 1);
        if let Ok(fraction_end) = fraction_part(b, integer_end) {
            lemma_behind_digits(b, fraction_end + 1);
            lemma_behind_digits(b, fraction_end + 2);
        }
    }
}

/// The literal words are not empty.
proof fn lemma_literals_forward(b: Seq<u8>, at: nat)
    ensures
        literal(b, at, "true"@) matches Ok(end) ==> at < end,
        literal(b, at, "false"@) matches Ok(end) ==> at < end,
        literal(b, at, "null"@) matches Ok(end) ==> at < end,
{
    reveal_strlit("true");
    reveal_strlit("false");
    reveal_strlit("null");
    utf8::encode_utf8_first_scalar("true"@);
    utf8::encode_utf8_first_scalar("false"@);
    utf8::encode_utf8_first_scalar("null"@);
}

/// A value ends behind where it begins, so that reading always goes forward.
pub proof fn values_are_read_forward(b: Seq<u8>, at: nat)
    ensures
        value(b, at) matches Ok((_, end)) ==> at < end,
    decreases left(b, at), 3nat,
{
    let start = behind_spaces(b, at);
    lemma_behind_spaces(b, at);
    if start < b.len() {
        let c = b[start as int];
        if c == '{' as u8 {
            lemma_object_forward(b, start);
        } else if c == '[' as u8 {
            lemma_array_forward(b, start);
        } else if c == '"' as u8 {
            lemma_string_rest(b, start + 1, seq![]);
        } else {
            lemma_literals_forward(b, start);
            lemma_number_forward(b, start);
        }
    }
}

proof fn lemma_object_forward(b: Seq<u8>, at: nat)
    ensures
        object(b, at) matches Ok((_, end)) ==> at < end,
    decreases left(b, at), 2nat,
{
    if byte_at(b, at) == Some('{' as u8) {
        lemma_behind_spaces(b, at + 1);
        lemma_members_forward(b, behind_spaces(b, at + 1), Map::empty());
    }
}

proof fn lemma_members_forward(b: Seq<u8>, at: nat, read: Map<Seq<char>, Json>)
    ensures
        members(b, at, read) matches Ok((_, end)) ==> at < end,
    decreases left(b, at), 4nat,
{
    let key_start = behind_spaces(b, at);
    lemma_behind_spaces(b, at);
    if let Ok((key, key_end)) = string(b, key_start) {
        let colon = behind_spaces(b, key_end);
        lemma_string_rest(b, key_start + 1, seq![]);
        lemma_behind_spaces(b, key_end);
        if byte_at(b, colon) == Some(':' as u8) {
            values_are_read_forward(b, colon + 1);
            if let Ok((member, end)) = value(b, colon + 1) {
                let next = behind_spaces(b, end);
                lemma_behind_spaces(b, end);
                if byte_at(b, next) == Some(',' as u8) {
                    lemma_members_forward(b, next + 1, read.insert(key, member));
                }
            }
        }
    }
}

proof fn lemma_array_forward(b: Seq<u8>, at: nat)
    ensures
        array(b, at) matches Ok((_, end)) ==> at < end,
    decreases left(b, at), 2nat,
{
    if byte_at(b, at) == Some('[' as u8) {
        lemma_behind_spaces(b, at + 1);
        lemma_elements_forward(b, behind_spaces(b, at + 1));
    }
}

proof fn lemma_elements_forward(b: Seq<u8>, at: nat)
    ensures
        elements(b, at) matches Ok((_, end)) ==> at < end,
    decreases left(b, at), 4nat,
{
    values_are_read_forward(b, at);
    if let Ok((_, end)) = value(b, at) {
        let next = behind_spaces(b, end);
        lemma_behind_spaces(b, end);
        if byte_at(b, next) == Some(',' as u8) {
            lemma_elements_forward(b, next + 1);
        }
    }
}

/// What is read has finitely many members, at every depth.
proof fn lemma_value_finite(b: Seq<u8>, at: nat)
    ensures
        value(b, at) matches Ok((tree, _)) ==> json::is_finite(tree),
    decreases left(b, at), 3nat,
{
    let start = behind_spaces(b, at);
    lemma_behind_spaces(b, at);
    if byte_at(b, start) == Some('{' as u8) {
        lemma_behind_spaces(b, start + 1);
        lemma_members_finite(b, behind_spaces(b, start + 1), Map::empty());
    } else if byte_at(b, start) == Some('[' as u8) {
        lemma_behind_spaces(b, start + 1);
        lemma_elements_other(b, behind_spaces(b, start + 1));
    }
}

proof fn lemma_members_finite(b: Seq<u8>, at: nat, read: Map<Seq<char>, Json>)
    requires
        json::is_finite(Json::Object(read)),
    ensures
        members(b, at, read) matches Ok((tree, _)) ==> json::is_finite(tree),
    decreases left(b, at), 4nat,
{
    let key_start = behind_spaces(b, at);
    lemma_behind_spaces(b, at);
    if let Ok((key, key_end)) = string(b, key_start) {
        let colon = behind_spaces(b, key_end);
        lemma_string_rest(b, key_start + 1, seq![]);
        lemma_behind_spaces(b, key_end);
        if byte_at(b, colon) == Some(':' as u8) {
            lemma_value_finite(b, colon + 1);
            values_are_read_forward(b, colon + 1);
            if let Ok((member, end)) = value(b, colon + 1) {
                let next = behind_spaces(b, end);
                let grown = read.insert(key, member);
                lemma_behind_spaces(b, end);
                assert forall|k: Seq<char>| #[trigger] grown.dom().contains(k) implies
                    json::is_finite(grown[k]) by {
                    if k != key {
                        assert(read.dom().contains(k));
                    }
                }
                assert(json::is_finite(Json::Object(grown)));
                if byte_at(b, next) == Some(',' as u8) {
                    lemma_members_finite(b, next + 1, grown);
                }
            }
        }
    }
}

proof fn lemma_elements_other(b: Seq<u8>, at: nat)
    ensures
        elements(b, at) matches Ok((tree, _)) ==> tree is Other,
    decreases left(b, at), 4nat,
{
    values_are_read_forward(b, at);
    if let Ok((_, end)) = value(b, at) {
        let next = behind_spaces(b, end);
        lemma_behind_spaces(b, end);
        if byte_at(b, next) == Some(',' as u8) {
            lemma_elements_other(b, next + 1);
        }
    }
}

/// The objects of a document have finitely many members, at every depth.
pub proof fn documents_are_finite(b: Seq<u8>)
    ensures
        document(b) matches Ok(tree) ==> json::is_finite(tree),
{
    lemma_value_finite(b, 0);
}

/// Whether a byte is a blank, a tab, a line feed or a carriage return.
pub open spec fn is_space(c: u8) -> bool {
    c == 0x20 || c == 0x09 || c == 0x0a || c == 0x0d
}

/// All white space at a place is passed over, and nothing else.
pub proof fn only_spaces_are_passed_over(b: Seq<u8>, at: nat)
    requires
        at <= b.len(),
    ensures
        at <= behind_spaces(b, at) <= b.len(),
        forall|i: int| at <= i < behind_spaces(b, at) ==> is_space(#[trigger] b[i]),
        behind_spaces(b, at) < b.len() ==> !is_space(b[behind_spaces(b, at) as int]),
    decreases b.len() - at,
{
    if at < b.len() && is_space(b[at as int]) {
        only_spaces_are_passed_over(b, at + 1);
    }
}

/// White space in front of a value, a member or an element is of no account.
pub proof fn spaces_may_stand_in_front(b: Seq<u8>, at: nat, read: Map<Seq<char>, Json>)
    requires
        at < b.len(),
        is_space(b[at as int]),
    ensures
        value(b, at) == value(b, at + 1),
        members(b, at, read) == members(b, at + 1, read),
        elements(b, at) == elements(b, at + 1),
{
    lemma_behind_spaces(b, at + 1);
    values_are_read_forward(b, at + 1);
    let key_start = behind_spaces(b, at);
    assert(key_start == behind_spaces(b, at + 1));
    if let Ok((key, key_end)) = string(b, key_start) {
        lemma_string_rest(b, key_start + 1, seq![]);
        let colon = behind_spaces(b, key_end);
        lemma_behind_spaces(b, key_end);
        values_are_read_forward(b, colon + 1);
    }
}

/// A member is a key and a value with a colon between them. A brace behind it ends the
/// object, and a comma goes on to the next member; white space may stand between all of
/// them.
pub proof fn members_are_read_one_by_one(
    b: Seq<u8>,
    at: nat,
    read: Map<Seq<char>, Json>,
    key: Seq<char>,
    key_end: nat,
    member: Json,
    end: nat,
)
    requires
        string(b, behind_spaces(b, at)) == Ok::<(Seq<char>, nat), Fault>((key, key_end)),
        byte_at(b, behind_spaces(b, key_end)) == Some(0x3au8),
        value(b, behind_spaces(b, key_end) + 1) == Ok::<(Json, nat), Fault>((member, end)),
    ensures
        byte_at(b, behind_spaces(b, end)) == Some(0x7du8) ==> members(b, at, read) == Ok::<
            (Json, nat),
            Fault,
        >((Json::Object(read.insert(key, member)), behind_spaces(b, end) + 1)),
        byte_at(b, behind_spaces(b, end)) == Some(0x2cu8) ==> members(b, at, read) == members(
            b,
            behind_spaces(b, end) + 1,
            read.insert(key, member),
        ),
        byte_at(b, behind_spaces(b, end)) != Some(0x7du8) && byte_at(b, behind_spaces(b, end))
            != Some(0x2cu8) ==> members(b, at, read) is Err,
{
    let key_start = behind_spaces(b, at);
    lemma_behind_spaces(b, at);
    lemma_string_rest(b, key_start + 1, seq![]);
    lemma_behind_spaces(b, key_end);
    values_are_read_forward(b, behind_spaces(b, key_end) + 1);
}

/// A bracket behind an element ends the array, and a comma goes on to the next element;
/// white space may stand between all of them.
pub proof fn elements_are_read_one_by_one(b: Seq<u8>, at: nat, element: Json, end: nat)
    requires
        value(b, at) == Ok::<(Json, nat), Fault>((element, end)),
    ensures
        byte_at(b, behind_spaces(b, end)) == Some(0x5du8) ==> elements(b, at) == Ok::<
            (Json, nat),
            Fault,
        >((Json::Other, behind_spaces(b, end) + 1)),
        byte_at(b, behind_spaces(b, end)) == Some(0x2cu8) ==> elements(b, at) == elements(
            b,
            behind_spaces(b, end) + 1,
        ),
        byte_at(b, behind_spaces(b, end)) != Some(0x5du8) && byte_at(b, behind_spaces(b, end))
            != Some(0x2cu8) ==> elements(b, at) is Err,
{
    values_are_read_forward(b, at);
}

/// A document is one value: behind it stands nothing but white space.
pub proof fn documents_hold_one_value(b: Seq<u8>)
    ensures
        document(b) is Ok <==> (value(b, 0) matches Ok((_, end)) && end <= b.len() && forall|i: int|
            end <= i < b.len() ==> is_space(#[trigger] b[i])),
        document(b) matches Ok(read) ==> (value(b, 0) matches Ok((meant, _)) && meant == read),
{
    if let Ok((meant, end)) = value(b, 0) {
        if end <= b.len() {
            only_spaces_are_passed_over(b, end);
            let stop = behind_spaces(b, end);
            if stop < b.len() {
                assert(!is_space(b[stop as int]));
            }
        }
    }
}

/// The escapes of a string: a quotation mark, a backslash and a slash stand for
/// themselves, five letters for control characters. Any other but `u` is an error.
pub proof fn escapes_mean_their_character(b: Seq<u8>, at: nat)
    requires
        at + 1 < b.len(),
        b[at as int] == 0x5c,
    ensures
        ({
            let c = b[at as int + 1];
            &&& c == 0x22 ==> string_char(b, at) == Ok::<(char, nat), Fault>(('"', at + 2))
            &&& c == 0x5c ==> string_char(b, at) == Ok::<(char, nat), Fault>(('\\', at + 2))
            &&& c == 0x2f ==> string_char(b, at) == Ok::<(char, nat), Fault>(('/', at + 2))
            &&& c == 0x62 ==> string_char(b, at) == Ok::<(char, nat), Fault>(
                ('\u{0008}', at + 2),
            )
            &&& c == 0x66 ==> string_char(b, at) == Ok::<(char, nat), Fault>(
                ('\u{000c}', at + 2),
            )
            &&& c == 0x6e ==> string_char(b, at) == Ok::<(char, nat), Fault>(('\n', at + 2))
            &&& c == 0x72 ==> string_char(b, at) == Ok::<(char, nat), Fault>(('\r', at + 2))
            &&& c == 0x74 ==> string_char(b, at) == Ok::<(char, nat), Fault>(('\t', at + 2))
            &&& c != 0x22 && c != 0x5c && c != 0x2f && c != 0x62 && c != 0x66 && c != 0x6e && c
                != 0x72 && c != 0x74 && c != 0x75 ==> string_char(b, at) is Err
        }),
{
}

/// Control characters may not stand in a string as themselves.
pub proof fn control_characters_are_refused(b: Seq<u8>, at: nat, read: Seq<char>)
    requires
        at < b.len(),
        b[at as int] < 0x20,
    ensures
        string_rest(b, at, read) is Err,
{
}

/// The number that four hexadecimal digits stand for, capital letters or small ones.
pub open spec fn quad_of(digits: Seq<u8>) -> nat
    recommends
        digits.len() == 4,
{
    nibble(digits[0]) * 4096 + nibble(digits[1]) * 256 + nibble(digits[2]) * 16 + nibble(digits[3])
}

/// The number that a hexadecimal digit stands for.
pub open spec fn nibble(digit: u8) -> nat {
    if 0x30 <= digit <= 0x39 {
        (digit - 0x30) as nat
    } else if 0x41 <= digit <= 0x46 {
        (digit - 0x41 + 10) as nat
    } else {
        (digit - 0x61 + 10) as nat
    }
}

/// Whether a byte is a hexadecimal digit.
pub open spec fn is_nibble(digit: u8) -> bool {
    0x30 <= digit <= 0x39 || 0x41 <= digit <= 0x46 || 0x61 <= digit <= 0x66
}

/// Whether four hexadecimal digits stand at a place.
pub open spec fn quad_at(b: Seq<u8>, at: nat) -> bool {
    at + 4 <= b.len() && is_nibble(b[at as int]) && is_nibble(b[at as int + 1]) && is_nibble(
        b[at as int + 2],
    ) && is_nibble(b[at as int + 3])
}

/// Four hexadecimal digits are read as their number, and no other bytes are.
proof fn lemma_quad(b: Seq<u8>, at: nat)
    ensures
        quad_at(b, at) ==> hex_quad(b, at) == Ok::<nat, Fault>(
            quad_of(b.subrange(at as int, at as int + 4)),
        ),
        !quad_at(b, at) ==> hex_quad(b, at) is Err,
{
    reveal_with_fuel(hex_digits, 5);
}

/// A `u` with four hexadecimal digits stands for the character with that number, unless
/// the number is a surrogate's. Two such escapes stand for a character beyond them: a
/// high surrogate and a low one, which must follow. A low surrogate alone is an error.
pub proof fn unicode_escapes_mean_their_character(b: Seq<u8>, at: nat)
    requires
        at + 1 < b.len(),
        b[at as int] == 0x5c,
        b[at as int + 1] == 0x75,
    ensures
        !quad_at(b, at + 2) ==> string_char(b, at) is Err,
        quad_at(b, at + 2) ==> {
            let first = quad_of(b.subrange(at as int + 2, at as int + 6));
            &&& !(0xd800 <= first <= 0xdfff) ==> string_char(b, at) == Ok::<(char, nat), Fault>(
                (first as char, at + 6),
            )
            &&& 0xdc00 <= first <= 0xdfff ==> string_char(b, at) is Err
            &&& 0xd800 <= first <= 0xdbff ==> {
                let followed = at + 8 <= b.len() && b[at as int + 6] == 0x5c && b[at as int + 7]
                    == 0x75 && quad_at(b, at + 8);
                let second = quad_of(b.subrange(at as int + 8, at as int + 12));
                if followed && 0xdc00 <= second <= 0xdfff {
                    string_char(b, at) == Ok::<(char, nat), Fault>(
                        (
                            (0x10000 + (first - 0xd800) * 0x400 + (second - 0xdc00)) as char,
                            at + 12,
                        ),
                    )
                } else {
                    string_char(b, at) is Err
                }
            }
        },
{
    lemma_quad(b, at + 2);
    lemma_quad(b, at + 8);
}

/// A point and an exponent need digits behind them, and a minus sign needs some too.
pub proof fn numbers_need_digits(b: Seq<u8>, at: nat)
    ensures
        byte_at(b, at) == Some(0x2eu8) && !(byte_at(b, at + 1) matches Some(c) && 0x30 <= c <= 0x39)
            ==> fraction_part(b, at) is Err,
        (byte_at(b, at) == Some(0x65u8) || byte_at(b, at) == Some(0x45u8)) && byte_at(b, at + 1)
            != Some(0x2bu8) && byte_at(b, at + 1) != Some(0x2du8) && !(byte_at(
            b,
            at + 1,
        ) matches Some(c) && 0x30 <= c <= 0x39) ==> exponent_part(b, at) is Err,
        byte_at(b, at) == Some(0x2du8) && !(byte_at(b, at + 1) matches Some(c) && 0x30 <= c <= 0x39)
            ==> number(b, at) is Err,
        byte_at(b, at) == Some(0x30u8) ==> integer_part(b, at) == Ok::<nat, Fault>(at + 1),
{
}

} // verus!
