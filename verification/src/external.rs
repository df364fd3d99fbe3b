//! Functions of the standard library whose behaviour is taken as given.

use vstd::prelude::*;
use vstd::utf8;

verus! {

/// Appends one character to a string: `String::push` adds exactly that
/// character at the end.
pub assume_specification[ std::string::String::push ](s: &mut std::string::String, c: char)
    ensures
        final(s)@ == old(s)@.push(c),
;

/// `char::from_u32` gives the character of a code point, and `None` for a number
/// that is no Unicode scalar value.
pub assume_specification[ char::from_u32 ](i: u32) -> (c: Option<char>)
    ensures
        match c {
            Some(c) => c as u32 == i,
            None => !utf8::is_scalar(i),
        },
;

/// How `{:?}` shows a text.
pub uninterp spec fn debug_text(text: Seq<char>) -> Seq<char>;

/// Shows a text as `format!("{:?}", text)` does. Which characters it escapes, and
/// how, is left unsaid.
#[verifier::external_body]
pub(crate) fn quoted(text: &str) -> (shown: String)
    ensures
        shown@ == debug_text(text@),
{
    format!("{text:?}")
}

/// How `{:?}` shows a character.
pub uninterp spec fn debug_char(c: char) -> Seq<char>;

/// Shows a character as `format!("{:?}", c)` does. Which characters it escapes,
/// and how, is left unsaid.
#[verifier::external_body]
pub(crate) fn quoted_char(c: char) -> (shown: String)
    ensures
        shown@ == debug_char(c),
{
    format!("{c:?}")
}

/// The text that bytes encode in UTF-8, when they encode one.
pub open spec fn utf8_text(bytes: Seq<u8>) -> Option<Seq<char>> {
    if utf8::valid_utf8(bytes) {
        Some(utf8::decode_utf8(bytes))
    } else {
        None
    }
}

/// The text that `String::from_utf8` makes of bytes: it succeeds exactly on valid
/// UTF-8, and then gives the text that the bytes encode.
#[verifier::external_body]
pub(crate) fn decode(bytes: Vec<u8>) -> (text: Option<String>)
    ensures
        text.deep_view() == utf8_text(bytes@),
{
    String::from_utf8(bytes).ok()
}

/// What `String::from_utf8_lossy` makes of bytes.
pub uninterp spec fn lossy_text(bytes: Seq<u8>) -> Seq<char>;

/// The text that `String::from_utf8_lossy` makes of bytes. Valid UTF-8 is decoded;
/// where the replacement characters go in other bytes is left unsaid.
#[verifier::external_body]
pub(crate) fn decode_lossy(bytes: &[u8]) -> (text: String)
    ensures
        text@ == lossy_text(bytes@),
        utf8::valid_utf8(bytes@) ==> text@ == utf8::decode_utf8(bytes@),
{
    String::from_utf8_lossy(bytes).into_owned()
}

} // verus!
