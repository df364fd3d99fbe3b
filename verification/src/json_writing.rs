//! Writing JSON, and that what is written can be read.

use vstd::prelude::*;
use vstd::utf8;

use crate::json::Json;
use crate::json_grammar;
use crate::json_grammar::Fault;
use crate::text;
use crate::text_writing;

verus! {

/// The digit of a hexadecimal number.
pub open spec fn hex_char(digit: u32) -> char {
    if digit < 10 {
        (48 + digit) as char
    } else {
        (87 + digit) as char
    }
}

/// A character inside a JSON string.
pub open spec fn written_char(c: char) -> Seq<char> {
    let u = c as u32;
    if c == '"' || c == '\\' {
        seq!['\\', c]
    } else if u < 0x20 {
        seq!['\\', 'u', '0', '0', hex_char(u / 16), hex_char(u % 16)]
    } else {
        seq![c]
    }
}

/// A text inside a JSON string.
pub open spec fn written_inside(s: Seq<char>) -> Seq<char>
    decreases s.len(),
{
    if s.len() == 0 {
        seq![]
    } else {
        written_char(s[0]) + written_inside(s.skip(1))
    }
}

/// A text as a JSON string.
pub open spec fn written_text(s: Seq<char>) -> Seq<char> {
    seq!['"'] + written_inside(s) + seq!['"']
}

/// The encodings of two texts stand one behind the other.
proof fn lemma_encoded_together(first: Seq<char>, second: Seq<char>)
    ensures
        utf8::encode_utf8(first + second) == utf8::encode_utf8(first) + utf8::encode_utf8(second),
    decreases first.len(),
{
    if first.len() == 0 {
        assert(first + second =~= second);
        assert(utf8::encode_utf8(first) + utf8::encode_utf8(second) =~= utf8::encode_utf8(second));
    } else {
        let all = first + second;
        assert(all.drop_first() =~= first.drop_first() + second);
        lemma_encoded_together(first.drop_first(), second);
        assert(utf8::encode_utf8(all) =~= utf8::encode_utf8(first) + utf8::encode_utf8(second));
    }
}

/// The byte at which a character of a text begins.
pub open spec fn byte_of(s: Seq<char>, index: int) -> nat {
    utf8::encode_utf8(s.take(index)).len()
}

/// From a character on, a text is encoded like the rest of it.
proof fn lemma_byte_of(s: Seq<char>, index: int)
    requires
        0 <= index <= s.len(),
    ensures
        byte_of(s, index) <= utf8::encode_utf8(s).len(),
        utf8::encode_utf8(s).skip(byte_of(s, index) as int) == utf8::encode_utf8(s.skip(index)),
        index == s.len() ==> byte_of(s, index) == utf8::encode_utf8(s).len(),
        index == 0 ==> byte_of(s, index) == 0,
{
    let first = s.take(index);
    let second = s.skip(index);
    assert(first + second =~= s);
    lemma_encoded_together(first, second);
    assert(utf8::encode_utf8(s).skip(byte_of(s, index) as int) =~= utf8::encode_utf8(second));
    if index == s.len() {
        assert(first =~= s);
    }
}

/// The next character begins behind the encoding of a character.
proof fn lemma_next_byte(s: Seq<char>, index: int)
    requires
        0 <= index < s.len(),
    ensures
        byte_of(s, index + 1) == byte_of(s, index) + utf8::encode_scalar(s[index] as u32).len(),
        byte_of(s, index) < byte_of(s, index + 1) <= utf8::encode_utf8(s).len(),
{
    let first = s.take(index);
    let one = seq![s[index]];
    assert(s.take(index + 1) =~= first + one);
    lemma_encoded_together(first, one);
    assert(one.drop_first() =~= seq![]);
    reveal_with_fuel(utf8::encode_utf8, 2);
    assert(utf8::encode_utf8(one) =~= utf8::encode_scalar(s[index] as u32));
    lemma_byte_of(s, index + 1);
}

/// The byte of an ASCII character is its number.
proof fn lemma_ascii_cast(c: char)
    requires
        (c as u32) < 0x80,
    ensures
        c as u8 == (c as u32) as u8,
{
}

/// An ASCII character is encoded as itself.
proof fn lemma_ascii_byte(s: Seq<char>, index: int)
    requires
        0 <= index < s.len(),
        (s[index] as u32) < 0x80,
    ensures
        json_grammar::byte_at(utf8::encode_utf8(s), byte_of(s, index)) == Some(s[index] as u8),
        byte_of(s, index + 1) == byte_of(s, index) + 1,
{
    let u = s[index] as u32;
    let b = utf8::encode_utf8(s);
    lemma_byte_of(s, index);
    lemma_next_byte(s, index);
    assert(utf8::leading_byte_width_1(u) == u as u8) by (bit_vector)
        requires
            u < 0x80,
    ;
    assert(utf8::encode_scalar(u) =~= seq![u as u8]);
    let rest = s.skip(index);
    assert(rest[0] == s[index]);
    assert(utf8::encode_utf8(rest)[0] == u as u8);
    assert(byte_of(s, index) < b.len());
    lemma_ascii_cast(s[index]);
    assert(b.skip(byte_of(s, index) as int)[0] == b[byte_of(s, index) as int]);
}

/// Another character is encoded in bytes beyond ASCII, and decoded from them.
proof fn lemma_wide_byte(s: Seq<char>, index: int)
    requires
        0 <= index < s.len(),
        (s[index] as u32) >= 0x80,
    ensures
        ({
            let b = utf8::encode_utf8(s);
            let at = byte_of(s, index);
            &&& at < b.len()
            &&& b[at as int] >= 0x80
            &&& utf8::decode_first_scalar(b.skip(at as int)) as char == s[index]
            &&& at + utf8::length_of_first_scalar(b.skip(at as int)) == byte_of(s, index + 1)
        }),
{
    let u = s[index] as u32;
    let b = utf8::encode_utf8(s);
    let at = byte_of(s, index);
    let rest = s.skip(index);
    lemma_byte_of(s, index);
    lemma_next_byte(s, index);
    assert(rest[0] == s[index]);
    utf8::encode_utf8_first_scalar(rest);
    utf8::char_u32_cast(s[index], u);
    assert(b.skip(at as int)[0] == b[at as int]);
    let first = b[at as int];
    if first < 0x80 {
        assert(utf8::is_leading_byte_width_1(first)) by (bit_vector)
            requires
                first < 0x80,
        ;
        assert(utf8::codepoint_width_1(first) < 0x80) by (bit_vector)
            requires
                first < 0x80,
        ;
    }
}

/// A number below sixteen is the value of its digit.
proof fn lemma_hex_char(digit: u32)
    requires
        digit < 16,
    ensures
        (hex_char(digit) as u32) < 0x80,
        json_grammar::hex_value(hex_char(digit) as u8) == Some(digit as nat),
{
    if digit < 10 {
        assert(hex_char(digit) as u32 == 48 + digit);
    } else {
        assert(hex_char(digit) as u32 == 87 + digit);
    }
    lemma_ascii_cast(hex_char(digit));
}

/// A character that stands for itself in a string.
proof fn lemma_plain_char(s: Seq<char>, index: int)
    requires
        0 <= index < s.len(),
        (s[index] as u32) >= 0x20,
        s[index] != '"',
        s[index] != '\\',
    ensures
        ({
            let b = utf8::encode_utf8(s);
            let at = byte_of(s, index);
            &&& at < b.len()
            &&& b[at as int] != '"' as u8
            &&& json_grammar::string_char(b, at) == Ok::<(char, nat), Fault>(
                (s[index], byte_of(s, index + 1)),
            )
        }),
{
    let c = s[index];
    if (c as u32) < 0x80 {
        lemma_ascii_byte(s, index);
        lemma_ascii_cast(c);
        lemma_ascii_cast('"');
        lemma_ascii_cast('\\');
        utf8::char_u32_cast(c, c as u32);
        assert((c as u8) as char == c);
    } else {
        lemma_wide_byte(s, index);
    }
}

/// An escaped character in a string.
proof fn lemma_escaped_char(s: Seq<char>, index: int, c: char)
    requires
        0 <= index,
        c == '"' || c == '\\' || (c as u32) < 0x20,
        index + written_char(c).len() <= s.len(),
        forall|i: int|
            0 <= i < written_char(c).len() ==> s[index + i] == #[trigger] written_char(c)[i],
    ensures
        ({
            let b = utf8::encode_utf8(s);
            let at = byte_of(s, index);
            &&& at < b.len()
            &&& b[at as int] != '"' as u8
            &&& json_grammar::string_char(b, at) == Ok::<(char, nat), Fault>(
                (c, byte_of(s, index + written_char(c).len())),
            )
        }),
{
    let b = utf8::encode_utf8(s);
    let at = byte_of(s, index);
    let w = written_char(c);
    assert(s[index] == w[0] && s[index + 1] == w[1]);
    lemma_ascii_byte(s, index);
    lemma_ascii_cast('\\');
    if c == '"' || c == '\\' {
        lemma_ascii_byte(s, index + 1);
    } else {
        let u = c as u32;
        let high = u / 16;
        let low = u % 16;
        assert(s[index + 2] == w[2] && s[index + 3] == w[3] && s[index + 4] == w[4] && s[index + 5]
            == w[5]);
        lemma_hex_char(0);
        lemma_hex_char(high);
        lemma_hex_char(low);
        assert(hex_char(0) == '0');
        lemma_ascii_byte(s, index + 1);
        lemma_ascii_byte(s, index + 2);
        lemma_ascii_byte(s, index + 3);
        lemma_ascii_byte(s, index + 4);
        lemma_ascii_byte(s, index + 5);
        lemma_byte_of(s, index + 6);
        reveal_with_fuel(json_grammar::hex_digits, 5);
        assert(json_grammar::hex_digits(b, at + 2, 4) == Ok::<nat, nat>(u as nat));
        utf8::char_u32_cast(c, u);
        assert((u as nat) as char == c);
    }
}

/// The rest of a string, from some character on, is read to its end.
proof fn lemma_rest_read(front: Seq<char>, s: Seq<char>, back: Seq<char>, read: Seq<char>)
    ensures
        ({
            let all = front + written_inside(s) + seq!['"'] + back;
            json_grammar::string_rest(
                utf8::encode_utf8(all),
                byte_of(all, front.len() as int),
                read,
            ) == Ok::<(Seq<char>, nat), Fault>(
                (read + s, byte_of(all, (front.len() + written_inside(s).len() + 1) as int)),
            )
        }),
    decreases s.len(),
{
    let inside = written_inside(s);
    let all = front + inside + seq!['"'] + back;
    let b = utf8::encode_utf8(all);
    let k = front.len() as int;
    if s.len() == 0 {
        assert(all[k] == '"');
        lemma_ascii_byte(all, k);
        assert(read + s =~= read);
    } else {
        let c = s[0];
        let w = written_char(c);
        let rest = written_inside(s.skip(1));
        assert(inside =~= w + rest);
        assert forall|i: int| 0 <= i < w.len() implies all[k + i] == #[trigger] w[i] by {
            assert(inside[i] == w[i]);
        }
        assert(all[k] == w[0]);
        if c == '"' || c == '\\' || (c as u32) < 0x20 {
            lemma_escaped_char(all, k, c);
        } else {
            lemma_plain_char(all, k);
        }
        let next = front + w;
        assert(next + rest + seq!['"'] + back =~= all);
        lemma_rest_read(next, s.skip(1), back, read.push(c));
        assert(read.push(c) + s.skip(1) =~= read + s);
    }
}

/// A written text anywhere in a document is read to its end.
proof fn lemma_text_read(front: Seq<char>, s: Seq<char>, back: Seq<char>)
    ensures
        ({
            let all = front + written_text(s) + back;
            json_grammar::string(utf8::encode_utf8(all), byte_of(all, front.len() as int)) == Ok::<
                (Seq<char>, nat),
                Fault,
            >((s, byte_of(all, (front.len() + written_text(s).len()) as int)))
        }),
{
    let all = front + written_text(s) + back;
    let opened = front.push('"');
    let k = front.len() as int;
    assert(all[k] == '"');
    lemma_ascii_byte(all, k);
    assert(opened + written_inside(s) + seq!['"'] + back =~= all);
    lemma_rest_read(opened, s, back, seq![]);
    assert(Seq::<char>::empty() + s =~= s);
}

/// A number: whether it is negative, its whole part, its fraction and its exponent.
pub struct Numeral {
    pub negative: bool,
    pub whole: nat,
    pub fraction: Option<nat>,
    pub exponent: Option<Exponent>,
}

/// An exponent: its letter, its sign and its digits.
pub struct Exponent {
    pub capital: bool,
    pub negative: Option<bool>,
    pub power: nat,
}

/// The sign of a number.
pub open spec fn written_sign(negative: bool) -> Seq<char> {
    if negative {
        seq!['-']
    } else {
        seq![]
    }
}

/// The fraction of a number.
pub open spec fn written_fraction(fraction: Option<nat>) -> Seq<char> {
    match fraction {
        None => seq![],
        Some(digits) => seq!['.'] + text::decimal(digits),
    }
}

/// The letter and the sign of an exponent.
pub open spec fn written_power(exponent: Exponent) -> Seq<char> {
    seq![
        if exponent.capital {
            'E'
        } else {
            'e'
        },
    ] + match exponent.negative {
        None => seq![],
        Some(true) => seq!['-'],
        Some(false) => seq!['+'],
    }
}

/// The exponent of a number.
pub open spec fn written_exponent(exponent: Option<Exponent>) -> Seq<char> {
    match exponent {
        None => seq![],
        Some(exponent) => written_power(exponent) + text::decimal(exponent.power),
    }
}

/// A number as JSON.
pub open spec fn written_number(number: Numeral) -> Seq<char> {
    written_sign(number.negative) + text::decimal(number.whole) + written_fraction(
        number.fraction,
    ) + written_exponent(number.exponent)
}

/// A document of texts, of objects with their members in order, of truth values, nothing,
/// numbers and arrays.
pub enum Written {
    Text(Seq<char>),
    Members(Seq<(Seq<char>, Written)>),
    Truth(bool),
    Nothing,
    Number(Numeral),
    Items(Seq<Written>),
}

/// A document as JSON.
pub open spec fn written(document: Written) -> Seq<char>
    decreases document, 0nat,
{
    match document {
        Written::Text(text) => written_text(text),
        Written::Members(list) => seq!['{'] + written_from(list, 0) + seq!['}'],
        Written::Truth(truth) => if truth {
            "true"@
        } else {
            "false"@
        },
        Written::Nothing => "null"@,
        Written::Number(number) => written_number(number),
        Written::Items(items) => seq!['['] + written_items(items, 0) + seq![']'],
    }
}

/// The items of an array from some item on.
pub open spec fn written_items(items: Seq<Written>, first: nat) -> Seq<char>
    decreases items, items.len() - first,
{
    if first >= items.len() {
        seq![]
    } else {
        written(items[first as int]) + (if first + 1 < items.len() {
            seq![','] + written_items(items, first + 1)
        } else {
            seq![]
        })
    }
}

/// The members of an object from some member on.
pub open spec fn written_from(list: Seq<(Seq<char>, Written)>, first: nat) -> Seq<char>
    decreases list, list.len() - first,
{
    if first >= list.len() {
        seq![]
    } else {
        written_text(list[first as int].0) + seq![':'] + written(list[first as int].1) + (if first
            + 1 < list.len() {
            seq![','] + written_from(list, first + 1)
        } else {
            seq![]
        })
    }
}

/// What a document says.
pub open spec fn meant(document: Written) -> Json
    decreases document, 0nat,
{
    match document {
        Written::Text(text) => Json::String(text),
        Written::Members(list) => Json::Object(meant_from(list, 0, Map::empty())),
        _ => Json::Other,
    }
}

/// What an object says from some member on, behind the members before it.
pub open spec fn meant_from(
    list: Seq<(Seq<char>, Written)>,
    first: nat,
    read: Map<Seq<char>, Json>,
) -> Map<Seq<char>, Json>
    decreases list, list.len() - first,
{
    if first >= list.len() {
        read
    } else {
        meant_from(
            list,
            first + 1,
            read.insert(list[first as int].0, meant(list[first as int].1)),
        )
    }
}

/// A mark in a document stands where it is looked for.
proof fn lemma_mark(s: Seq<char>, index: int)
    requires
        0 <= index < s.len(),
        0x20 < (s[index] as u32) < 0x80,
    ensures
        json_grammar::byte_at(utf8::encode_utf8(s), byte_of(s, index)) == Some(s[index] as u8),
        json_grammar::behind_spaces(utf8::encode_utf8(s), byte_of(s, index)) == byte_of(s, index),
        byte_of(s, index + 1) == byte_of(s, index) + 1,
{
    lemma_ascii_byte(s, index);
    lemma_ascii_cast(s[index]);
}

/// Whether a character can begin a document.
spec fn can_begin(c: char) -> bool {
    c == '"' || c == '{' || c == '[' || c == 't' || c == 'f' || c == 'n' || c == '-' || '0' <= c
        <= '9'
}

/// A written document begins with a mark.
proof fn lemma_begins(document: Written)
    ensures
        written(document).len() > 0,
        can_begin(written(document)[0]),
        0x20 < (written(document)[0] as u32) < 0x80,
        !(document is Members) ==> written(document)[0] != '{',
{
    reveal_strlit("true");
    reveal_strlit("false");
    reveal_strlit("null");
    match document {
        Written::Number(number) => {
            let digits = text::decimal(number.whole);
            text_writing::decimal_notations_read_back(number.whole);
            if number.negative {
                assert(written(document)[0] == '-');
            } else {
                assert(written(document)[0] == digits[0]);
                assert('0' <= digits[0] <= '9');
            }
        },
        _ => {},
    }
}

/// Whether what follows a value ends it.
spec fn stops(back: Seq<char>) -> bool {
    back.len() == 0 || back[0] == ',' || back[0] == '}' || back[0] == ']'
}

/// A word inside a document is read to its end.
proof fn lemma_word_read(front: Seq<char>, word: Seq<char>, back: Seq<char>)
    ensures
        ({
            let all = front + word + back;
            json_grammar::literal(utf8::encode_utf8(all), byte_of(all, front.len() as int), word)
                == Ok::<nat, Fault>(byte_of(all, (front.len() + word.len()) as int))
        }),
{
    let all = front + word + back;
    let b = utf8::encode_utf8(all);
    let k = front.len() as int;
    let m = k + word.len();
    assert(all.take(k) =~= front);
    assert(all.take(m) =~= front + word);
    lemma_encoded_together(front, word);
    lemma_encoded_together(front + word, back);
    let at = byte_of(all, k);
    let bytes = utf8::encode_utf8(word);
    assert(b.subrange(at as int, (at + bytes.len()) as int) =~= bytes);
}

/// Whether a digit stands at a place of a text.
spec fn digit_at(s: Seq<char>, index: int) -> bool {
    0 <= index < s.len() && '0' <= s[index] <= '9'
}

/// The bytes of two ASCII characters are equal for equal characters only, and those of
/// digits are digits.
proof fn lemma_ascii_bytes(c: char, d: char)
    requires
        (c as u32) < 0x80,
        (d as u32) < 0x80,
    ensures
        c as u8 == d as u8 <==> c == d,
        json_grammar::is_digit(c as u8) <==> '0' <= c <= '9',
{
    lemma_ascii_cast(c);
    lemma_ascii_cast(d);
    utf8::char_u32_cast(c, c as u32);
    utf8::char_u32_cast(d, d as u32);
}

/// A digit is encoded as the byte of a digit, and no other ASCII character is.
proof fn lemma_digit_byte(s: Seq<char>, index: int)
    requires
        0 <= index < s.len(),
        (s[index] as u32) < 0x80,
    ensures
        json_grammar::byte_at(utf8::encode_utf8(s), byte_of(s, index)) == Some(s[index] as u8),
        byte_of(s, index + 1) == byte_of(s, index) + 1,
        digit_at(s, index) <==> json_grammar::is_digit(s[index] as u8),
{
    lemma_ascii_byte(s, index);
    lemma_ascii_bytes(s[index], '0');
}

/// A run of digits is read to its end.
proof fn lemma_digits_read(s: Seq<char>, from: int, to: int)
    requires
        0 <= from <= to <= s.len(),
        forall|i: int| from <= i < to ==> digit_at(s, i),
        to == s.len() || ((s[to] as u32) < 0x80 && !digit_at(s, to)),
    ensures
        json_grammar::behind_digits(utf8::encode_utf8(s), byte_of(s, from)) == byte_of(s, to),
    decreases to - from,
{
    if from < to {
        assert(digit_at(s, from));
        lemma_digit_byte(s, from);
        lemma_digits_read(s, from + 1, to);
    } else if to < s.len() {
        lemma_digit_byte(s, to);
    } else {
        lemma_byte_of(s, to);
    }
}

/// The digits of a decimal notation inside a document.
proof fn lemma_decimal_read(front: Seq<char>, n: nat, back: Seq<char>)
    requires
        back.len() == 0 || ((back[0] as u32) < 0x80 && !('0' <= back[0] <= '9')),
    ensures
        ({
            let all = front + text::decimal(n) + back;
            let b = utf8::encode_utf8(all);
            let at = byte_of(all, front.len() as int);
            let end = byte_of(all, (front.len() + text::decimal(n).len()) as int);
            &&& json_grammar::digits(b, at, true) == Ok::<nat, Fault>(end)
            &&& json_grammar::integer_part(b, at) == Ok::<nat, Fault>(end)
            &&& json_grammar::byte_at(b, at) matches Some(c) && json_grammar::is_digit(c)
        }),
{
    let digits = text::decimal(n);
    let all = front + digits + back;
    let k = front.len() as int;
    let m = k + digits.len();
    text_writing::decimal_notations_read_back(n);
    assert forall|i: int| k <= i < m implies digit_at(all, i) by {
        assert(all[i] == digits[i - k]);
    }
    if m < all.len() {
        assert(all[m] == back[0]);
    }
    lemma_digits_read(all, k, m);
    assert(digit_at(all, k));
    lemma_digit_byte(all, k);
    lemma_bytes_grow(all, k, m);
    assert(all[k] == digits[0]);
    if digits[0] == '0' {
        assert(digits.len() == 1);
    } else {
        lemma_ascii_cast(all[k]);
        lemma_ascii_cast('0');
    }
}

/// Bytes of characters differ as the characters do.
proof fn lemma_byte_is(s: Seq<char>, index: int, c: char)
    requires
        0 <= index <= s.len(),
        index < s.len() ==> (s[index] as u32) < 0x80,
        (c as u32) < 0x80,
    ensures
        json_grammar::byte_at(utf8::encode_utf8(s), byte_of(s, index)) == Some(c as u8) <==> index
            < s.len() && s[index] == c,
        index < s.len() ==> byte_of(s, index + 1) == byte_of(s, index) + 1,
{
    if index < s.len() {
        lemma_ascii_byte(s, index);
        lemma_ascii_bytes(s[index], c);
    } else {
        lemma_byte_of(s, index);
    }
}

/// A fraction inside a document, or none.
proof fn lemma_fraction_read(front: Seq<char>, fraction: Option<nat>, back: Seq<char>)
    requires
        back.len() == 0 || ((back[0] as u32) < 0x80 && !('0' <= back[0] <= '9') && back[0] != '.'),
    ensures
        ({
            let all = front + written_fraction(fraction) + back;
            json_grammar::fraction_part(
                utf8::encode_utf8(all),
                byte_of(all, front.len() as int),
            ) == Ok::<nat, Fault>(
                byte_of(all, (front.len() + written_fraction(fraction).len()) as int),
            )
        }),
{
    let all = front + written_fraction(fraction) + back;
    let k = front.len() as int;
    match fraction {
        None => {
            assert(all =~= front + back);
            lemma_byte_is(all, k, '.');
        },
        Some(digits) => {
            assert(all[k] == '.');
            lemma_byte_is(all, k, '.');
            let next = front.push('.');
            assert(all =~= next + text::decimal(digits) + back);
            lemma_decimal_read(next, digits, back);
        },
    }
}

/// An exponent inside a document, or none.
proof fn lemma_exponent_read(front: Seq<char>, exponent: Option<Exponent>, back: Seq<char>)
    requires
        stops(back),
    ensures
        ({
            let all = front + written_exponent(exponent) + back;
            json_grammar::exponent_part(
                utf8::encode_utf8(all),
                byte_of(all, front.len() as int),
            ) == Ok::<nat, Fault>(
                byte_of(all, (front.len() + written_exponent(exponent).len()) as int),
            )
        }),
{
    let all = front + written_exponent(exponent) + back;
    let k = front.len() as int;
    match exponent {
        None => {
            assert(all =~= front + back);
            lemma_byte_is(all, k, 'e');
            lemma_byte_is(all, k, 'E');
        },
        Some(exponent) => {
            let power = written_power(exponent);
            let digits = text::decimal(exponent.power);
            let next = front + power;
            assert(all =~= next + digits + back);
            lemma_decimal_read(next, exponent.power, back);
            text_writing::decimal_notations_read_back(exponent.power);
            assert(all[k] == power[0]);
            lemma_byte_is(all, k, 'e');
            lemma_byte_is(all, k, 'E');
            if exponent.negative is Some {
                assert(power.len() == 2);
                assert(all[k + 1] == power[1]);
            } else {
                assert(power.len() == 1);
                assert(all[k + 1] == digits[0]);
                assert('0' <= digits[0] <= '9');
            }
            lemma_byte_is(all, k + 1, '+');
            lemma_byte_is(all, k + 1, '-');
        },
    }
}

/// A number inside a document is read to its end.
#[verifier::rlimit(40)]
proof fn lemma_number_read(front: Seq<char>, number: Numeral, back: Seq<char>)
    requires
        stops(back),
    ensures
        ({
            let all = front + written_number(number) + back;
            let b = utf8::encode_utf8(all);
            let at = byte_of(all, front.len() as int);
            &&& json_grammar::number(b, at) == Ok::<nat, Fault>(
                byte_of(all, (front.len() + written_number(number).len()) as int),
            )
            &&& json_grammar::byte_at(b, at) matches Some(c) && (c == '-' as u8
                || json_grammar::is_digit(c))
        }),
{
    let sign = written_sign(number.negative);
    let whole = text::decimal(number.whole);
    let fraction = written_fraction(number.fraction);
    let exponent = written_exponent(number.exponent);
    let all = front + written_number(number) + back;
    let k = front.len() as int;
    let signed = front + sign;
    text_writing::decimal_notations_read_back(number.whole);
    assert('0' <= whole[0] <= '9');
    let behind_whole = fraction + exponent + back;
    assert(all =~= signed + whole + behind_whole);
    if number.fraction is Some {
        assert(behind_whole[0] == '.');
    } else if number.exponent is Some {
        assert(behind_whole[0] == exponent[0]);
    } else {
        assert(behind_whole =~= back);
    }
    lemma_decimal_read(signed, number.whole, behind_whole);
    let counted = signed + whole;
    let behind_fraction = exponent + back;
    assert(all =~= counted + fraction + behind_fraction);
    if number.exponent is Some {
        assert(behind_fraction[0] == exponent[0]);
    } else {
        assert(behind_fraction =~= back);
    }
    lemma_fraction_read(counted, number.fraction, behind_fraction);
    let broken = counted + fraction;
    assert(all =~= broken + exponent + back);
    lemma_exponent_read(broken, number.exponent, back);
    if number.negative {
        assert(all[k] == '-');
    } else {
        assert(all[k] == whole[0]);
    }
    lemma_byte_is(all, k, '-');
    lemma_digit_byte(all, k);
}

/// A document inside a larger one is read to its end.
#[verifier::rlimit(40)]
proof fn lemma_value_read(front: Seq<char>, document: Written, back: Seq<char>)
    requires
        stops(back),
    ensures
        ({
            let all = front + written(document) + back;
            json_grammar::value(utf8::encode_utf8(all), byte_of(all, front.len() as int)) == Ok::<
                (Json, nat),
                Fault,
            >((meant(document), byte_of(all, (front.len() + written(document).len()) as int)))
        }),
    decreases document, 0nat,
{
    let text = written(document);
    let all = front + text + back;
    let k = front.len() as int;
    lemma_begins(document);
    assert(all[k] == text[0]);
    lemma_mark(all, k);
    match document {
        Written::Text(s) => {
            lemma_text_read(front, s, back);
        },
        Written::Members(list) => {
            let opened = front.push('{');
            let inside = written_from(list, 0);
            assert(opened + inside + seq!['}'] + back =~= all);
            if list.len() == 0 {
                assert(all[k + 1] == '}');
                lemma_mark(all, k + 1);
            } else {
                assert(inside[0] == '"');
                assert(all[k + 1] == '"');
                lemma_mark(all, k + 1);
                lemma_members_read(opened, list, 0, back, Map::empty());
            }
        },
        Written::Items(items) => {
            let opened = front.push('[');
            let inside = written_items(items, 0);
            assert(opened + inside + seq![']'] + back =~= all);
            if items.len() == 0 {
                assert(all[k + 1] == ']');
                lemma_mark(all, k + 1);
            } else {
                lemma_begins(items[0]);
                assert(inside[0] == written(items[0])[0]);
                assert(all[k + 1] == inside[0]);
                lemma_mark(all, k + 1);
                lemma_byte_is(all, k + 1, ']');
                lemma_elements_read(opened, items, 0, back);
            }
        },
        Written::Truth(truth) => {
            reveal_strlit("true");
            reveal_strlit("false");
            lemma_word_read(front, text, back);
        },
        Written::Nothing => {
            reveal_strlit("null");
            lemma_word_read(front, text, back);
        },
        Written::Number(number) => {
            lemma_number_read(front, number, back);
        },
    }
}

/// One element, with the mark behind it.
proof fn lemma_one_element(b: Seq<u8>, at: nat, element: Json, end: nat)
    requires
        json_grammar::value(b, at) == Ok::<(Json, nat), Fault>((element, end)),
        json_grammar::behind_spaces(b, end) == end,
        at < end,
    ensures
        json_grammar::byte_at(b, end) == Some(']' as u8) ==> json_grammar::elements(b, at) == Ok::<
            (Json, nat),
            Fault,
        >((Json::Other, end + 1)),
        json_grammar::byte_at(b, end) == Some(',' as u8) ==> json_grammar::elements(b, at)
            == json_grammar::elements(b, end + 1),
{
}

/// The elements of an array, from some element on, are read to its end.
proof fn lemma_elements_read(front: Seq<char>, items: Seq<Written>, first: nat, back: Seq<char>)
    requires
        first < items.len(),
    ensures
        ({
            let all = front + written_items(items, first) + seq![']'] + back;
            json_grammar::elements(utf8::encode_utf8(all), byte_of(all, front.len() as int))
                == Ok::<(Json, nat), Fault>(
                (
                    Json::Other,
                    byte_of(all, (front.len() + written_items(items, first).len() + 1) as int),
                ),
            )
        }),
    decreases items, items.len() - first,
{
    let item = items[first as int];
    let item_text = written(item);
    let text = written_items(items, first);
    let all = front + text + seq![']'] + back;
    let k = front.len() as int;
    let more = if first + 1 < items.len() {
        seq![','] + written_items(items, first + 1)
    } else {
        seq![]
    };
    assert(text == item_text + more);
    assert(all =~= front + item_text + (more + seq![']'] + back));
    lemma_begins(item);
    lemma_value_read(front, item, more + seq![']'] + back);
    let end = k + item_text.len();
    assert(all[end] == (more + seq![']'] + back)[0]);
    lemma_bytes_grow(all, k, end);
    lemma_mark(all, end);
    lemma_one_element(utf8::encode_utf8(all), byte_of(all, k), meant(item), byte_of(all, end));
    if first + 1 < items.len() {
        let next = front + item_text + seq![','];
        let rest = written_items(items, first + 1);
        assert(next + rest + seq![']'] + back =~= all);
        lemma_elements_read(next, items, first + 1, back);
        assert(next.len() + rest.len() == front.len() + text.len());
    } else {
        assert(end == front.len() + text.len());
    }
}

/// One member, with the mark behind it.
proof fn lemma_one_member(
    b: Seq<u8>,
    at: nat,
    read: Map<Seq<char>, Json>,
    key: Seq<char>,
    colon: nat,
    member: Json,
    end: nat,
)
    requires
        json_grammar::behind_spaces(b, at) == at,
        json_grammar::string(b, at) == Ok::<(Seq<char>, nat), Fault>((key, colon)),
        json_grammar::behind_spaces(b, colon) == colon,
        json_grammar::byte_at(b, colon) == Some(':' as u8),
        json_grammar::value(b, colon + 1) == Ok::<(Json, nat), Fault>((member, end)),
        json_grammar::behind_spaces(b, end) == end,
        at < end,
    ensures
        json_grammar::byte_at(b, end) == Some('}' as u8) ==> json_grammar::members(b, at, read)
            == Ok::<(Json, nat), Fault>((Json::Object(read.insert(key, member)), end + 1)),
        json_grammar::byte_at(b, end) == Some(',' as u8) ==> json_grammar::members(b, at, read)
            == json_grammar::members(b, end + 1, read.insert(key, member)),
{
}

/// The members of an object, from some member on, are read to its end.
#[verifier::rlimit(40)]
proof fn lemma_members_read(
    front: Seq<char>,
    list: Seq<(Seq<char>, Written)>,
    first: nat,
    back: Seq<char>,
    read: Map<Seq<char>, Json>,
)
    requires
        first < list.len(),
    ensures
        ({
            let all = front + written_from(list, first) + seq!['}'] + back;
            json_grammar::members(
                utf8::encode_utf8(all),
                byte_of(all, front.len() as int),
                read,
            ) == Ok::<(Json, nat), Fault>(
                (
                    Json::Object(meant_from(list, first, read)),
                    byte_of(all, (front.len() + written_from(list, first).len() + 1) as int),
                ),
            )
        }),
    decreases list, list.len() - first,
{
    let (key, member) = list[first as int];
    let key_text = written_text(key);
    let member_text = written(member);
    let text = written_from(list, first);
    let all = front + text + seq!['}'] + back;
    let k = front.len() as int;
    let more = if first + 1 < list.len() {
        seq![','] + written_from(list, first + 1)
    } else {
        seq![]
    };
    assert(text == key_text + seq![':'] + member_text + more);
    lemma_layout(front, key_text, member_text, more, back);
    // The key.
    lemma_mark(all, k);
    lemma_text_read(front, key, seq![':'] + member_text + more + seq!['}'] + back);
    let colon = k + key_text.len();
    lemma_mark(all, colon);
    // The value.
    let before = front + key_text + seq![':'];
    lemma_value_read(before, member, more + seq!['}'] + back);
    let end = colon + 1 + member_text.len();
    lemma_bytes_grow(all, k, end);
    lemma_mark(all, end);
    lemma_one_member(
        utf8::encode_utf8(all),
        byte_of(all, k),
        read,
        key,
        byte_of(all, colon),
        meant(member),
        byte_of(all, end),
    );
    // What follows.
    if first + 1 < list.len() {
        let next = before + member_text + seq![','];
        let rest = written_from(list, first + 1);
        assert(next + rest + seq!['}'] + back =~= before + member_text + (more + seq!['}'] + back));
        lemma_members_read(next, list, first + 1, back, read.insert(key, meant(member)));
        assert(next.len() + rest.len() == front.len() + text.len());
    } else {
        assert(meant_from(list, first + 1, read.insert(key, meant(member))) == read.insert(
            key,
            meant(member),
        ));
        assert(end == front.len() + text.len());
    }
}

/// Where the parts of a member stand.
proof fn lemma_layout(
    front: Seq<char>,
    key_text: Seq<char>,
    member_text: Seq<char>,
    more: Seq<char>,
    back: Seq<char>,
)
    requires
        key_text.len() > 0,
        key_text[0] == '"',
        more.len() == 0 || more[0] == ',',
    ensures
        ({
            let all = front + (key_text + seq![':'] + member_text + more) + seq!['}'] + back;
            let before = front + key_text + seq![':'];
            let end = (before.len() + member_text.len()) as int;
            &&& all == front + key_text + (seq![':'] + member_text + more + seq!['}'] + back)
            &&& all == before + member_text + (more + seq!['}'] + back)
            &&& all[front.len() as int] == '"'
            &&& all[front.len() as int + key_text.len()] == ':'
            &&& end < all.len()
            &&& all[end] == if more.len() > 0 {
                ','
            } else {
                '}'
            }
        }),
{
    let all = front + (key_text + seq![':'] + member_text + more) + seq!['}'] + back;
    let before = front + key_text + seq![':'];
    assert(all =~= front + key_text + (seq![':'] + member_text + more + seq!['}'] + back));
    assert(all =~= before + member_text + (more + seq!['}'] + back));
}

/// Later characters begin at later bytes.
proof fn lemma_bytes_grow(s: Seq<char>, first: int, second: int)
    requires
        0 <= first < second <= s.len(),
    ensures
        byte_of(s, first) < byte_of(s, second),
    decreases second,
{
    lemma_next_byte(s, second - 1);
    if first < second - 1 {
        lemma_bytes_grow(s, first, second - 1);
    }
}

/// Reading a document gives back what was written to it.
pub proof fn written_documents_read_back(document: Written)
    ensures
        json_grammar::document(utf8::encode_utf8(written(document))) == Ok::<Json, Fault>(
            meant(document),
        ),
{
    let none = Seq::<char>::empty();
    let all = none + written(document) + none;
    assert(all =~= written(document));
    lemma_value_read(none, document, none);
    lemma_byte_of(all, 0);
    lemma_byte_of(all, all.len() as int);
}

} // verus!
