//! A JSON reader that keeps objects and strings and checks everything else.

use vstd::prelude::*;
use vstd::string::*;
use vstd::utf8;

use crate::collections::TextMap;
use crate::external::quoted_char;
use crate::json_grammar;
use crate::text::{concat2, concat3, format_decimal};

verus! {

/// The part of a JSON document that matters here: objects and strings.
pub enum Json {
    Object(Map<Seq<char>, Json>),
    String(Seq<char>),
    Other,
}

/// Whether all objects of a tree have finitely many members.
pub open spec fn is_finite(tree: Json) -> bool
    decreases tree,
{
    match tree {
        Json::Object(members) => members.dom().finite() && forall|key: Seq<char>| #[trigger]
            members.dom().contains(key) ==> is_finite(members[key]),
        _ => true,
    }
}

/// A JSON value. Arrays, numbers, booleans and `null` are all `Other`.
pub enum JsonValue {
    Object(TextMap<JsonValue>),
    String(String),
    Other,
}

/// The members of an object.
pub open spec fn members_of(object: TextMap<JsonValue>) -> Map<Seq<char>, Json> {
    object.entries().map_values(|value: JsonValue| value.tree())
}

impl JsonValue {
    /// The value that `self` stands for.
    pub closed spec fn tree(self) -> Json
        decreases self,
    {
        match self {
            JsonValue::Object(object) => Json::Object(
                Map::new(
                    |key: Seq<char>| object.keys.deep_view().to_set().contains(key),
                    |key: Seq<char>|
                        {
                            let i = object.keys.deep_view().index_of(key);
                            if 0 <= i < object.values@.len() {
                                object.values@[i].tree()
                            } else {
                                Json::Other
                            }
                        },
                ),
            ),
            JsonValue::String(text) => Json::String(text@),
            JsonValue::Other => Json::Other,
        }
    }

    /// An object stands for the values of its members.
    pub(crate) proof fn lemma_object_tree(object: TextMap<JsonValue>)
        requires
            object.ordered(),
        ensures
            JsonValue::Object(object).tree() == Json::Object(members_of(object)),
    {
        object.lemma_entries();
        let keys = object.keys.deep_view();
        let tree = JsonValue::Object(object).tree()->Object_0;
        assert(tree.dom() =~= members_of(object).dom());
        assert forall|key: Seq<char>| tree.dom().contains(key) implies #[trigger] tree[key]
            == members_of(object)[key] by {
            let i = keys.index_of(key);
            assert(0 <= i < keys.len() && keys[i] == key);
            assert(object.entries()[keys[i]] == object.values@[i]);
        }
        assert(tree =~= members_of(object));
    }

    /// The text, when the value is a string.
    pub fn as_text(&self) -> (text: Option<&str>)
        ensures
            match text {
                Some(text) => self.tree() == Json::String(text@),
                None => !(self.tree() is String),
            },
    {
        match self {
            JsonValue::String(text) => Some(text.as_str()),
            _ => None,
        }
    }

    /// The members, when the value is an object.
    pub fn as_object(&self) -> (object: Option<&TextMap<JsonValue>>)
        ensures
            match object {
                Some(object) => self.tree() == Json::Object(members_of(*object)),
                None => !(self.tree() is Object),
            },
    {
        match self {
            JsonValue::Object(object) => {
                proof {
                    use_type_invariant(object);
                    JsonValue::lemma_object_tree(*object);
                }
                Some(object)
            },
            _ => None,
        }
    }
}

/// A reader of JSON, at a byte of its input.
pub struct JsonParser<'a> {
    pub input: &'a str,
    pub offset: usize,
}

/// A reader reports what the grammar says, and stops where it says.
pub open spec fn reads_value(
    read: Result<JsonValue, String>,
    stop: usize,
    meant: Result<(Json, nat), json_grammar::Fault>,
) -> bool {
    match (read, meant) {
        (Ok(value), Ok((tree, end))) => value.tree() == tree && end == stop,
        (Err(error), Err(fault)) => error@ == json_grammar::fault_text(fault) && fault.at == stop,
        _ => false,
    }
}

/// A reader of a text reports what the grammar says, and stops where it says.
pub open spec fn reads_text(
    read: Result<String, String>,
    stop: usize,
    meant: Result<(Seq<char>, nat), json_grammar::Fault>,
) -> bool {
    match (read, meant) {
        (Ok(text), Ok((chars, end))) => text@ == chars && end == stop,
        (Err(error), Err(fault)) => error@ == json_grammar::fault_text(fault) && fault.at == stop,
        _ => false,
    }
}

/// A reader of a character reports what the grammar says, and stops where it says.
pub open spec fn reads_char(
    read: Result<char, String>,
    stop: usize,
    meant: Result<(char, nat), json_grammar::Fault>,
) -> bool {
    match (read, meant) {
        (Ok(c), Ok((m, end))) => c == m && end == stop,
        (Err(error), Err(fault)) => error@ == json_grammar::fault_text(fault) && fault.at == stop,
        _ => false,
    }
}

/// A reader that keeps nothing moves to the end that the grammar gives.
pub open spec fn reads_past<T>(
    read: Result<T, String>,
    stop: usize,
    meant: Result<nat, json_grammar::Fault>,
) -> bool {
    match (read, meant) {
        (Ok(_), Ok(end)) => end == stop,
        (Err(error), Err(fault)) => error@ == json_grammar::fault_text(fault) && fault.at == stop,
        _ => false,
    }
}

/// The position behind the character at a boundary is a boundary too.
proof fn lemma_next_boundary(b: Seq<u8>, at: int)
    requires
        utf8::valid_utf8(b),
        0 <= at < b.len(),
        utf8::is_char_boundary(b, at),
    ensures
        utf8::is_char_boundary(b, at + utf8::length_of_first_scalar(b.skip(at))),
        at + utf8::length_of_first_scalar(b.skip(at)) <= b.len(),
    decreases b.len(),
{
    let width = utf8::length_of_first_scalar(b);
    let rest = utf8::pop_first_scalar(b);
    if at == 0 {
        assert(b.skip(0) =~= b);
        assert(utf8::is_char_boundary(rest, 0));
    } else {
        assert(utf8::is_char_boundary(rest, at - width));
        lemma_next_boundary(rest, at - width);
        assert(rest.skip(at - width) =~= b.skip(at));
    }
}

/// An ASCII byte is a character of its own.
proof fn lemma_ascii_boundary(b: Seq<u8>, at: int)
    requires
        utf8::valid_utf8(b),
        0 <= at < b.len(),
        b[at] < 0x80,
    ensures
        utf8::is_char_boundary(b, at),
        utf8::is_char_boundary(b, at + 1),
{
    utf8::is_char_boundary_iff_not_is_continuation_byte(b, at);
    lemma_next_boundary(b, at);
}

/// The literal words are not empty.
proof fn lemma_words()
    ensures
        utf8::encode_utf8("true"@).len() > 0,
        utf8::encode_utf8("false"@).len() > 0,
        utf8::encode_utf8("null"@).len() > 0,
{
    reveal_strlit("true");
    reveal_strlit("false");
    reveal_strlit("null");
    utf8::encode_utf8_first_scalar("true"@);
    utf8::encode_utf8_first_scalar("false"@);
    utf8::encode_utf8_first_scalar("null"@);
}

impl<'a> JsonParser<'a> {
    /// The bytes of the input.
    pub open spec fn bytes(self) -> Seq<u8> {
        utf8::encode_utf8(self.input@)
    }

    /// The reader stands inside its input or at the end.
    pub open spec fn inside(self) -> bool {
        self.offset <= self.bytes().len()
    }

    /// The byte at the offset.
    pub fn peek(&self) -> (byte: Option<u8>)
        ensures
            byte == json_grammar::byte_at(self.bytes(), self.offset as nat),
            byte is Some ==> self.offset < usize::MAX,
    {
        let bytes = self.input.as_bytes();
        if self.offset < bytes.len() {
            Some(bytes[self.offset])
        } else {
            None
        }
    }

    /// An error at the offset.
    pub fn error(&self, message: &str) -> (text: String)
        ensures
            text@ == json_grammar::fault_text(
                (json_grammar::Fault { message: message@, at: self.offset as nat }),
            ),
    {
        concat3(message, " at byte ", format_decimal(self.offset).as_str())
    }

    /// Steps over `expected` when it is the next byte.
    pub fn consume(&mut self, expected: u8) -> (found: bool)
        requires
            old(self).inside(),
        ensures
            final(self).input == old(self).input,
            final(self).inside(),
            found == (json_grammar::byte_at(old(self).bytes(), old(self).offset as nat) == Some(
                expected,
            )),
            final(self).offset == json_grammar::behind_optional(
                old(self).bytes(),
                old(self).offset as nat,
                expected,
            ),
    {
        match self.peek() {
            Some(byte) => {
                if byte == expected {
                    self.offset += 1;
                    true
                } else {
                    false
                }
            },
            None => false,
        }
    }

    /// Steps over `expected`, which must be the next byte.
    pub fn expect(&mut self, expected: u8) -> (found: Result<(), String>)
        requires
            old(self).inside(),
        ensures
            final(self).input == old(self).input,
            final(self).inside(),
            final(self).offset == json_grammar::behind_optional(
                old(self).bytes(),
                old(self).offset as nat,
                expected,
            ),
            match found {
                Ok(_) => json_grammar::byte_at(old(self).bytes(), old(self).offset as nat) == Some(
                    expected,
                ),
                Err(error) => json_grammar::byte_at(old(self).bytes(), old(self).offset as nat)
                    != Some(expected) && error@ == json_grammar::fault_text(
                    json_grammar::expected::<()>(expected, old(self).offset as nat)->Err_0,
                ),
            },
    {
        if self.consume(expected) {
            Ok(())
        } else {
            let mark = quoted_char(expected as char);
            Err(self.error(concat2("expected ", mark.as_str()).as_str()))
        }
    }

    /// Steps over whitespace.
    pub fn skip_whitespace(&mut self)
        requires
            old(self).inside(),
        ensures
            final(self).input == old(self).input,
            final(self).inside(),
            final(self).offset == json_grammar::behind_spaces(
                old(self).bytes(),
                old(self).offset as nat,
            ),
            old(self).offset <= final(self).offset,
    {
        let ghost start = *self;
        let bytes = self.input.as_bytes();
        while self.offset < bytes.len() && (bytes[self.offset] == ' ' as u8 || bytes[self.offset]
            == '\n' as u8 || bytes[self.offset] == '\r' as u8 || bytes[self.offset] == '\t' as u8)
            invariant
                self.input == start.input,
                bytes@ == start.bytes(),
                self.inside(),
                start.offset <= self.offset,
                json_grammar::behind_spaces(start.bytes(), self.offset as nat)
                    == json_grammar::behind_spaces(start.bytes(), start.offset as nat),
            decreases bytes.len() - self.offset,
        {
            self.offset += 1;
        }
    }

    /// Steps over digits, at least one when `require_one` holds.
    pub fn consume_digits(&mut self, require_one: bool) -> (found: Result<(), String>)
        requires
            old(self).inside(),
        ensures
            final(self).input == old(self).input,
            final(self).inside(),
            old(self).offset <= final(self).offset,
            reads_past(
                found,
                final(self).offset,
                json_grammar::digits(old(self).bytes(), old(self).offset as nat, require_one),
            ),
            found is Ok && require_one ==> old(self).offset < final(self).offset,
    {
        let start: usize = self.offset;
        let ghost begin = *self;
        let bytes = self.input.as_bytes();
        while self.offset < bytes.len() && '0' as u8 <= bytes[self.offset] && bytes[self.offset]
            <= '9' as u8
            invariant
                self.input == begin.input,
                bytes@ == begin.bytes(),
                self.inside(),
                start <= self.offset,
                json_grammar::behind_digits(begin.bytes(), self.offset as nat)
                    == json_grammar::behind_digits(begin.bytes(), start as nat),
            decreases bytes.len() - self.offset,
        {
            self.offset += 1;
        }
        if require_one && self.offset == start {
            return Err(self.error("expected a digit"));
        }
        Ok(())
    }

    /// Reads a number.
    pub fn parse_number(&mut self) -> (read: Result<JsonValue, String>)
        requires
            old(self).inside(),
        ensures
            final(self).input == old(self).input,
            final(self).inside(),
            reads_value(
                read,
                final(self).offset,
                json_grammar::other(
                    json_grammar::number(old(self).bytes(), old(self).offset as nat),
                ),
            ),
            read is Ok ==> old(self).offset < final(self).offset,
    {
        self.consume('-' as u8);
        if self.consume('0' as u8) {
            // A leading zero is only valid when it is the entire integer part.
        } else {
            match self.consume_digits(true) {
                Ok(_) => {},
                Err(error) => {
                    return Err(error);
                },
            }
        }
        if self.consume('.' as u8) {
            match self.consume_digits(true) {
                Ok(_) => {},
                Err(error) => {
                    return Err(error);
                },
            }
        }
        if self.consume('e' as u8) || self.consume('E' as u8) {
            if self.consume('+' as u8) || self.consume('-' as u8) {
            }
            match self.consume_digits(true) {
                Ok(_) => {},
                Err(error) => {
                    return Err(error);
                },
            }
        }
        Ok(JsonValue::Other)
    }

    /// Reads one of the words `true`, `false` and `null`.
    pub fn parse_literal(&mut self, literal: &str) -> (read: Result<JsonValue, String>)
        requires
            old(self).inside(),
        ensures
            final(self).input == old(self).input,
            final(self).inside(),
            reads_value(
                read,
                final(self).offset,
                json_grammar::other(
                    json_grammar::literal(old(self).bytes(), old(self).offset as nat, literal@),
                ),
            ),
    {
        let bytes = self.input.as_bytes();
        let word = literal.as_bytes();
        let ghost at = self.offset as int;
        if bytes.len() - self.offset < word.len() {
            return Err(self.error("invalid JSON literal"));
        }
        for i in 0..word.len()
            invariant
                bytes@ == self.bytes(),
                word@ == utf8::encode_utf8(literal@),
                at == self.offset,
                at + word.len() <= bytes.len(),
                self.inside(),
                *self == *old(self),
                forall|j: int| 0 <= j < i ==> bytes@[at + j] == word@[j],
        {
            if bytes[self.offset + i] != word[i] {
                proof {
                    let part = bytes@.subrange(at, at + word.len());
                    assert(part[i as int] == bytes@[at + i]);
                }
                return Err(self.error("invalid JSON literal"));
            }
        }
        assert(bytes@.subrange(at, at + word.len()) =~= word@);
        self.offset += word.len();
        Ok(JsonValue::Other)
    }

    /// Reads four hexadecimal digits.
    pub fn parse_hex_quad(&mut self) -> (read: Result<u16, String>)
        requires
            old(self).inside(),
        ensures
            final(self).input == old(self).input,
            final(self).inside(),
            match (read, json_grammar::hex_quad(old(self).bytes(), old(self).offset as nat)) {
                (Ok(value), Ok(meant)) => value == meant && final(self).offset == old(self).offset
                    + 4,
                (Err(error), Err(fault)) => error@ == json_grammar::fault_text(fault) && fault.at
                    == final(self).offset,
                _ => false,
            },
    {
        let bytes = self.input.as_bytes();
        if bytes.len() - self.offset < 4 {
            return Err(self.error("incomplete Unicode escape"));
        }
        let mut value: u16 = 0;
        let mut count: usize = 0;
        let ghost start = *self;
        while count < 4
            invariant
                start == *old(self),
                self.input == start.input,
                bytes@ == start.bytes(),
                start.offset + 4 <= bytes.len(),
                count <= 4,
                self.offset == start.offset + count,
                json_grammar::hex_digits(start.bytes(), start.offset as nat, count as nat) == Ok::<
                    nat,
                    nat,
                >(value as nat),
                count == 0 ==> value == 0,
                count == 1 ==> value < 16,
                count == 2 ==> value < 256,
                count == 3 ==> value < 4096,
            decreases 4 - count,
        {
            let byte: u8 = bytes[self.offset];
            self.offset += 1;
            count += 1;
            let digit: u16 = if '0' as u8 <= byte && byte <= '9' as u8 {
                (byte - '0' as u8) as u16
            } else if 'a' as u8 <= byte && byte <= 'f' as u8 {
                (byte - 'a' as u8 + 10) as u16
            } else if 'A' as u8 <= byte && byte <= 'F' as u8 {
                (byte - 'A' as u8 + 10) as u16
            } else {
                proof {
                    json_grammar::lemma_hex_fault(
                        start.bytes(),
                        start.offset as nat,
                        count as nat,
                        4,
                    );
                }
                return Err(self.error("invalid Unicode escape"));
            };
            value = value * 16 + digit;
        }
        Ok(value)
    }

    /// Reads the digits of a `\u` escape, and of the one that completes it.
    pub fn parse_unicode_escape(&mut self) -> (read: Result<char, String>)
        requires
            old(self).inside(),
        ensures
            final(self).input == old(self).input,
            final(self).inside(),
            reads_char(
                read,
                final(self).offset,
                json_grammar::unicode_escape(old(self).bytes(), old(self).offset as nat),
            ),
    {
        let first: u16 = match self.parse_hex_quad() {
            Ok(value) => value,
            Err(error) => {
                return Err(error);
            },
        };
        let code_point: u32 = if 0xd800 <= first && first <= 0xdbff {
            let bytes = self.input.as_bytes();
            if bytes.len() - self.offset < 2 || bytes[self.offset] != '\\' as u8 || bytes[self.offset
                + 1] != 'u' as u8 {
                return Err(self.error("high surrogate without a low surrogate"));
            }
            self.offset += 2;
            let second: u16 = match self.parse_hex_quad() {
                Ok(value) => value,
                Err(error) => {
                    return Err(error);
                },
            };
            if !(0xdc00 <= second && second <= 0xdfff) {
                return Err(self.error("invalid low surrogate"));
            }
            0x10000 + (first - 0xd800) as u32 * 0x400 + (second - 0xdc00) as u32
        } else if 0xdc00 <= first && first <= 0xdfff {
            return Err(self.error("low surrogate without a high surrogate"));
        } else {
            first as u32
        };
        match char::from_u32(code_point) {
            Some(c) => {
                proof {
                    utf8::char_u32_cast(c, code_point);
                }
                Ok(c)
            },
            None => Err(self.error("invalid Unicode escape")),
        }
    }

    /// Reads an escape, from its backslash on.
    fn parse_escape(&mut self) -> (read: Result<char, String>)
        requires
            old(self).offset < old(self).bytes().len(),
        ensures
            final(self).input == old(self).input,
            final(self).inside(),
            reads_char(
                read,
                final(self).offset,
                json_grammar::escape(old(self).bytes(), old(self).offset as nat),
            ),
    {
        let bytes = self.input.as_bytes();
        let length: usize = bytes.len();
        self.offset += 1;
        if self.offset >= length {
            return Err(self.error("incomplete JSON string escape"));
        }
        let escaped: u8 = bytes[self.offset];
        self.offset += 1;
        if escaped == '"' as u8 {
            Ok('"')
        } else if escaped == '\\' as u8 {
            Ok('\\')
        } else if escaped == '/' as u8 {
            Ok('/')
        } else if escaped == 'b' as u8 {
            Ok('\u{0008}')
        } else if escaped == 'f' as u8 {
            Ok('\u{000c}')
        } else if escaped == 'n' as u8 {
            Ok('\n')
        } else if escaped == 'r' as u8 {
            Ok('\r')
        } else if escaped == 't' as u8 {
            Ok('\t')
        } else if escaped == 'u' as u8 {
            self.parse_unicode_escape()
        } else {
            Err(self.error("unsupported JSON string escape"))
        }
    }

    /// Reads one character that is not ASCII.
    fn parse_wide_character(&mut self) -> (character: char)
        requires
            old(self).offset < old(self).bytes().len(),
            utf8::is_char_boundary(old(self).bytes(), old(self).offset as int),
        ensures
            final(self).input == old(self).input,
            final(self).inside(),
            ({
                let rest = old(self).bytes().skip(old(self).offset as int);
                &&& character == utf8::decode_first_scalar(rest) as char
                &&& final(self).offset == old(self).offset + utf8::length_of_first_scalar(rest)
            }),
            utf8::is_char_boundary(old(self).bytes(), final(self).offset as int),
    {
        let ghost b = self.bytes();
        let ghost at = self.offset as int;
        let (_, rest) = self.input.split_at(self.offset);
        let length: usize = self.input.as_bytes().len();
        proof {
            utf8::encode_utf8_valid_utf8(self.input@);
            if rest@.len() == 0 {
                assert(utf8::encode_utf8(rest@).len() == 0);
            }
            assert(b.subrange(at, b.len() as int) =~= b.skip(at));
            utf8::encode_utf8_first_scalar(rest@);
            lemma_next_boundary(b, at);
        }
        let character = rest.get_char(0);
        let code_point: u32 = character as u32;
        let width: usize = if code_point < 0x80 {
            1
        } else if code_point < 0x800 {
            2
        } else if code_point < 0x10000 {
            3
        } else {
            4
        };
        assert(width == utf8::length_of_first_scalar(b.skip(at)));
        self.offset += width;
        character
    }

    /// Reads one character of a string.
    fn parse_character(&mut self) -> (read: Result<char, String>)
        requires
            old(self).offset < old(self).bytes().len(),
            utf8::is_char_boundary(old(self).bytes(), old(self).offset as int),
        ensures
            final(self).input == old(self).input,
            final(self).inside(),
            reads_char(
                read,
                final(self).offset,
                json_grammar::string_char(old(self).bytes(), old(self).offset as nat),
            ),
            read is Ok ==> old(self).offset < final(self).offset && utf8::is_char_boundary(
                old(self).bytes(),
                final(self).offset as int,
            ),
    {
        let ghost b = self.bytes();
        let ghost at = self.offset as int;
        proof {
            utf8::encode_utf8_valid_utf8(self.input@);
        }
        let byte: u8 = self.input.as_bytes()[self.offset];
        if byte == '\\' as u8 {
            let read = self.parse_escape();
            proof {
                json_grammar::lemma_escape(b, at as nat);
                if read is Ok {
                    lemma_ascii_boundary(b, self.offset - 1);
                }
            }
            read
        } else if byte <= 0x1f {
            Err(self.error("control character in JSON string"))
        } else if byte <= 0x7f {
            let bytes = self.input.as_bytes();
            self.offset += 1;
            proof {
                lemma_ascii_boundary(b, at);
            }
            Ok(byte as char)
        } else {
            Ok(self.parse_wide_character())
        }
    }

    /// Reads a string.
    pub fn parse_string(&mut self) -> (read: Result<String, String>)
        requires
            old(self).inside(),
        ensures
            final(self).input == old(self).input,
            final(self).inside(),
            reads_text(
                read,
                final(self).offset,
                json_grammar::string(old(self).bytes(), old(self).offset as nat),
            ),
            read is Ok ==> old(self).offset < final(self).offset,
    {
        let ghost b = self.bytes();
        proof {
            utf8::encode_utf8_valid_utf8(self.input@);
        }
        match self.expect('"' as u8) {
            Ok(_) => {},
            Err(error) => {
                return Err(error);
            },
        }
        proof {
            lemma_ascii_boundary(b, self.offset - 1);
        }
        let mut value = String::new();
        assert(value@ =~= seq![]);
        loop
            invariant
                self.input == old(self).input,
                b == old(self).bytes(),
                self.inside(),
                old(self).offset < self.offset,
                utf8::is_char_boundary(b, self.offset as int),
                json_grammar::string(b, old(self).offset as nat) == json_grammar::string_rest(
                    b,
                    self.offset as nat,
                    value@,
                ),
            decreases b.len() - self.offset,
        {
            let byte: u8 = match self.peek() {
                Some(byte) => byte,
                None => {
                    return Err(self.error("unterminated JSON string"));
                },
            };
            if byte == '"' as u8 {
                self.offset += 1;
                return Ok(value);
            }
            match self.parse_character() {
                Ok(character) => {
                    value.push(character);
                },
                Err(error) => {
                    return Err(error);
                },
            }
        }
    }

    /// Reads any value, with whitespace before it.
    pub fn parse_value(&mut self) -> (read: Result<JsonValue, String>)
        requires
            old(self).inside(),
        ensures
            final(self).input == old(self).input,
            final(self).inside(),
            reads_value(
                read,
                final(self).offset,
                json_grammar::value(old(self).bytes(), old(self).offset as nat),
            ),
            read is Ok ==> old(self).offset < final(self).offset,
        decreases json_grammar::left(old(self).bytes(), old(self).offset as nat), 3nat,
    {
        self.skip_whitespace();
        proof {
            lemma_words();
        }
        match self.peek() {
            Some(byte) => {
                if byte == '{' as u8 {
                    self.parse_object()
                } else if byte == '[' as u8 {
                    self.parse_array()
                } else if byte == '"' as u8 {
                    match self.parse_string() {
                        Ok(text) => Ok(JsonValue::String(text)),
                        Err(error) => Err(error),
                    }
                } else if byte == 't' as u8 {
                    self.parse_literal("true")
                } else if byte == 'f' as u8 {
                    self.parse_literal("false")
                } else if byte == 'n' as u8 {
                    self.parse_literal("null")
                } else if byte == '-' as u8 || ('0' as u8 <= byte && byte <= '9' as u8) {
                    self.parse_number()
                } else {
                    Err(self.error("expected a JSON value"))
                }
            },
            None => Err(self.error("unexpected end of input")),
        }
    }

    /// Reads an object.
    pub fn parse_object(&mut self) -> (read: Result<JsonValue, String>)
        requires
            old(self).inside(),
        ensures
            final(self).input == old(self).input,
            final(self).inside(),
            reads_value(
                read,
                final(self).offset,
                json_grammar::object(old(self).bytes(), old(self).offset as nat),
            ),
            read is Ok ==> old(self).offset < final(self).offset,
        decreases json_grammar::left(old(self).bytes(), old(self).offset as nat), 2nat,
    {
        match self.expect('{' as u8) {
            Ok(_) => {},
            Err(error) => {
                return Err(error);
            },
        }
        let mut object: TextMap<JsonValue> = TextMap::new();
        assert(members_of(object) =~= Map::<Seq<char>, Json>::empty());
        self.skip_whitespace();
        if self.consume('}' as u8) {
            proof {
                use_type_invariant(&object);
                JsonValue::lemma_object_tree(object);
            }
            return Ok(JsonValue::Object(object));
        }
        let ghost b = self.bytes();
        let ghost start = old(self).offset as nat;
        loop
            invariant
                self.input == old(self).input,
                b == old(self).bytes(),
                self.inside(),
                start == old(self).offset,
                start < self.offset,
                json_grammar::object(b, start) == json_grammar::members(
                    b,
                    self.offset as nat,
                    members_of(object),
                ),
            decreases b.len() - self.offset,
        {
            let ghost before = *self;
            self.skip_whitespace();
            let key = match self.parse_string() {
                Ok(key) => key,
                Err(error) => {
                    return Err(error);
                },
            };
            self.skip_whitespace();
            match self.expect(':' as u8) {
                Ok(_) => {},
                Err(error) => {
                    return Err(error);
                },
            }
            let value = match self.parse_value() {
                Ok(value) => value,
                Err(error) => {
                    return Err(error);
                },
            };
            let ghost known = members_of(object);
            let ghost name = key@;
            let ghost tree = value.tree();
            object.insert(key, value);
            assert(members_of(object) =~= known.insert(name, tree));
            self.skip_whitespace();
            if self.consume('}' as u8) {
                proof {
                    use_type_invariant(&object);
                    JsonValue::lemma_object_tree(object);
                }
                return Ok(JsonValue::Object(object));
            }
            match self.expect(',' as u8) {
                Ok(_) => {},
                Err(error) => {
                    return Err(error);
                },
            }
        }
    }

    /// Reads an array.
    pub fn parse_array(&mut self) -> (read: Result<JsonValue, String>)
        requires
            old(self).inside(),
        ensures
            final(self).input == old(self).input,
            final(self).inside(),
            reads_value(
                read,
                final(self).offset,
                json_grammar::array(old(self).bytes(), old(self).offset as nat),
            ),
            read is Ok ==> old(self).offset < final(self).offset,
        decreases json_grammar::left(old(self).bytes(), old(self).offset as nat), 2nat,
    {
        match self.expect('[' as u8) {
            Ok(_) => {},
            Err(error) => {
                return Err(error);
            },
        }
        self.skip_whitespace();
        if self.consume(']' as u8) {
            return Ok(JsonValue::Other);
        }
        let ghost b = self.bytes();
        let ghost start = old(self).offset as nat;
        loop
            invariant
                self.input == old(self).input,
                b == old(self).bytes(),
                self.inside(),
                start == old(self).offset,
                start < self.offset,
                json_grammar::array(b, start) == json_grammar::elements(b, self.offset as nat),
            decreases b.len() - self.offset,
        {
            match self.parse_value() {
                Ok(_) => {},
                Err(error) => {
                    return Err(error);
                },
            }
            self.skip_whitespace();
            if self.consume(']' as u8) {
                return Ok(JsonValue::Other);
            }
            match self.expect(',' as u8) {
                Ok(_) => {},
                Err(error) => {
                    return Err(error);
                },
            }
        }
    }
}

/// Reads a whole document.
pub fn parse_json(input: &str) -> (read: Result<JsonValue, String>)
    ensures
        match (read, json_grammar::document(utf8::encode_utf8(input@))) {
            (Ok(value), Ok(tree)) => value.tree() == tree,
            (Err(error), Err(fault)) => error@ == json_grammar::fault_text(fault),
            _ => false,
        },
{
    let mut parser = JsonParser { input, offset: 0 };
    let value = match parser.parse_value() {
        Ok(value) => value,
        Err(error) => {
            return Err(error);
        },
    };
    parser.skip_whitespace();
    if parser.offset != input.as_bytes().len() {
        return Err(parser.error("unexpected trailing content"));
    }
    Ok(value)
}

} // verus!
