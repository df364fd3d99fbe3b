//! Writing keys, values and inline tables, and that what is written can be read.

use vstd::prelude::*;

use crate::cargo_manifest;
use crate::scanner;
use crate::scanner::Lexed;
use crate::text;
use crate::text_writing;
use crate::toml;
use crate::workspace;

verus! {

/// Whether a character may stand in a key without quotes.
pub open spec fn bare_char(c: char) -> bool {
    'a' <= c <= 'z' || 'A' <= c <= 'Z' || '0' <= c <= '9' || c == '-' || c == '_'
}

/// Whether a key can be written without quotes.
pub open spec fn bare(key: Seq<char>) -> bool {
    key.len() > 0 && forall|i: int| 0 <= i < key.len() ==> bare_char(#[trigger] key[i])
}

/// A key, with quotes where it needs them.
pub open spec fn written_key(key: Seq<char>) -> Seq<char> {
    if bare(key) {
        key
    } else {
        toml::written_string(key)
    }
}

/// A value: a string in double quotes or in single ones, a word such as a number or a
/// truth value, an array of strings, or a table of strings.
pub enum Value {
    Text(Seq<char>),
    Literal(Seq<char>),
    Word(Seq<char>),
    Texts(Seq<Seq<char>>),
    Pairs(Seq<(Seq<char>, Seq<char>)>),
}

/// Whether a value can be written: words are made of letters, digits, hyphens and
/// underscores, and a text in single quotes holds none and stands on one line.
pub open spec fn writable(value: Value) -> bool {
    match value {
        Value::Word(word) => bare(word),
        Value::Literal(text) => forall|i: int|
            0 <= i < text.len() ==> #[trigger] text[i] != '\'' && text[i] != '\n',
        _ => true,
    }
}

/// The text of a string.
pub open spec fn text_in(value: Value) -> Option<Seq<char>> {
    match value {
        Value::Text(text) => Some(text),
        Value::Literal(text) => Some(text),
        _ => None,
    }
}

/// Keys and strings with commas between them.
pub open spec fn written_pairs(pairs: Seq<(Seq<char>, Seq<char>)>) -> Seq<char>
    decreases pairs.len(),
{
    if pairs.len() == 0 {
        seq![]
    } else {
        seq![' '] + written_key(pairs[0].0) + seq![' ', '=', ' '] + toml::written_string(
            pairs[0].1,
        ) + (if pairs.len() == 1 {
            seq![' ']
        } else {
            seq![','] + written_pairs(pairs.skip(1))
        })
    }
}

/// Strings with commas between them.
pub open spec fn written_texts(texts: Seq<Seq<char>>) -> Seq<char>
    decreases texts.len(),
{
    if texts.len() == 0 {
        seq![]
    } else if texts.len() == 1 {
        toml::written_string(texts[0])
    } else {
        toml::written_string(texts[0]) + seq![',', ' '] + written_texts(texts.skip(1))
    }
}

/// A value as it is written.
pub open spec fn written_value(value: Value) -> Seq<char> {
    match value {
        Value::Text(text) => toml::written_string(text),
        Value::Literal(text) => seq!['\''] + text + seq!['\''],
        Value::Word(word) => word,
        Value::Texts(texts) => seq!['['] + written_texts(texts) + seq![']'],
        Value::Pairs(pairs) => seq!['{'] + written_pairs(pairs) + seq!['}'],
    }
}

/// A field of an inline table, or a line of a table.
pub struct Field {
    pub key: Seq<char>,
    pub value: Value,
}

/// An assignment as it is written.
pub open spec fn written_field(field: Field) -> Seq<char> {
    written_key(field.key) + seq![' ', '=', ' '] + written_value(field.value)
}

/// The inside of an inline table.
pub open spec fn written_fields(fields: Seq<Field>) -> Seq<char>
    decreases fields.len(),
{
    if fields.len() == 0 {
        seq![]
    } else if fields.len() == 1 {
        seq![' '] + written_field(fields[0]) + seq![' ']
    } else {
        seq![' '] + written_field(fields[0]) + seq![','] + written_fields(fields.skip(1))
    }
}

/// An inline table.
pub open spec fn written_table(fields: Seq<Field>) -> Seq<char> {
    seq!['{'] + written_fields(fields) + seq!['}']
}

/// Whether the values of all fields can be written.
pub open spec fn all_writable(fields: Seq<Field>) -> bool {
    forall|i: int| 0 <= i < fields.len() ==> writable((#[trigger] fields[i]).value)
}

/// The value of the first field with a key.
pub open spec fn first_value(fields: Seq<Field>, key: Seq<char>) -> Option<Value>
    decreases fields.len(),
{
    if fields.len() == 0 {
        None
    } else if fields[0].key == key {
        Some(fields[0].value)
    } else {
        first_value(fields.skip(1), key)
    }
}

/// Fields with other keys do not matter to the first value of a key.
pub proof fn first_values_pass_over_other_fields(
    front: Seq<Field>,
    field: Field,
    behind: Seq<Field>,
    key: Seq<char>,
)
    requires
        forall|i: int| 0 <= i < front.len() ==> (#[trigger] front[i]).key != key,
    ensures
        first_value(front, key) is None,
        field.key == key ==> first_value(front + seq![field] + behind, key) == Some(field.value),
        first_value(front + behind, key) == first_value(behind, key),
    decreases front.len(),
{
    let all = front + seq![field] + behind;
    if front.len() == 0 {
        assert(all[0] == field);
        assert(front + behind =~= behind);
    } else {
        let rest = front.skip(1);
        assert forall|i: int| 0 <= i < rest.len() implies (#[trigger] rest[i]).key != key by {
            assert(rest[i] == front[i + 1]);
        }
        first_values_pass_over_other_fields(rest, field, behind, key);
        assert(all[0] == front[0]);
        assert(all.skip(1) =~= rest + seq![field] + behind);
        assert((front + behind)[0] == front[0]);
        assert((front + behind).skip(1) =~= rest + behind);
    }
}

/// Whether a text read behind `before` cannot be cut at `c`.
pub open spec fn uncut(s: Seq<char>, c: char, flat: bool, before: Lexed) -> bool {
    forall|i: int|
        0 <= i < s.len() && #[trigger] s[i] == c ==> {
            let here = scanner::lexed_on(before, s.take(i));
            here.quote is Some || (flat && here.depth > 0)
        }
}

/// What is open at the beginning of a text.
pub open spec fn outset() -> Lexed {
    Lexed { quote: None, escaped: false, depth: 0 }
}

pub proof fn lemma_outset(s: Seq<char>)
    ensures
        scanner::lexed(s) == scanner::lexed_on(outset(), s),
{
    let none = Seq::<char>::empty();
    scanner::lemma_lexed_on(none, s);
    assert(none + s =~= s);
}

/// A text that cannot be cut has no cut.
pub proof fn lemma_uncut(s: Seq<char>, c: char, flat: bool)
    requires
        uncut(s, c, flat, outset()),
    ensures
        forall|i: int| !#[trigger] scanner::cut_at(s, c, flat, i),
{
    assert forall|i: int| !#[trigger] scanner::cut_at(s, c, flat, i) by {
        if 0 <= i < s.len() && s[i] == c {
            lemma_outset(s.take(i));
        }
    }
}

/// Two texts that cannot be cut make one that cannot be cut.
proof fn lemma_uncut_together(
    first: Seq<char>,
    second: Seq<char>,
    c: char,
    flat: bool,
    before: Lexed,
)
    requires
        uncut(first, c, flat, before),
        uncut(second, c, flat, scanner::lexed_on(before, first)),
    ensures
        uncut(first + second, c, flat, before),
{
    let all = first + second;
    assert forall|i: int| 0 <= i < all.len() && #[trigger] all[i] == c implies ({
        let here = scanner::lexed_on(before, all.take(i));
        here.quote is Some || (flat && here.depth > 0)
    }) by {
        if i < first.len() {
            assert(all.take(i) =~= first.take(i));
            assert(first[i] == c);
        } else {
            let j = i - first.len();
            assert(all.take(i) =~= first + second.take(j));
            scanner::lemma_lexed_twice(before, first, second.take(j));
            assert(second[j] == c);
        }
    }
}

/// The first cut behind a text that cannot be cut.
pub proof fn lemma_cut_behind(front: Seq<char>, c: char, flat: bool, back: Seq<char>)
    requires
        uncut(front, c, flat, outset()),
        scanner::lexed(front).quote is None,
        flat ==> scanner::lexed(front).depth == 0,
    ensures
        scanner::first_cut(front + seq![c] + back, c, flat) == Some(front.len() as int),
        (front + seq![c] + back).take(front.len() as int) == front,
        (front + seq![c] + back).skip(front.len() as int + 1) == back,
        scanner::pieces(front + seq![c] + back, c, flat) == seq![front] + scanner::pieces(
            back,
            c,
            flat,
        ),
{
    let all = front + seq![c] + back;
    let p = front.len() as int;
    assert(all.take(p) =~= front);
    assert(all.skip(p + 1) =~= back);
    assert(all[p] == c);
    lemma_uncut(front, c, flat);
    assert forall|j: int| 0 <= j < p implies !scanner::cut_at(all, c, flat, j) by {
        assert(all.take(j) =~= front.take(j));
        assert(all[j] == front[j]);
        assert(!scanner::cut_at(front, c, flat, j));
    }
    assert(scanner::first_cut_at(all, c, flat, p));
    scanner::lemma_first_cut(all, c, flat, p);
}

/// Text without quotes and brackets leaves open what was open.
proof fn lemma_plain(s: Seq<char>, c: char, flat: bool, before: Lexed)
    requires
        before.quote is None,
        forall|i: int|
            0 <= i < s.len() ==> !scanner::is_quote(#[trigger] s[i]) && s[i] != '[' && s[i] != '{'
                && s[i] != ']' && s[i] != '}',
    ensures
        scanner::lexed_on(before, s) == before,
        (forall|i: int| 0 <= i < s.len() ==> #[trigger] s[i] != c) ==> uncut(s, c, flat, before),
        flat && before.depth > 0 ==> uncut(s, c, flat, before),
{
    scanner::lemma_lexed_plain(before, s);
    assert forall|i: int| 0 <= i <= s.len() implies scanner::lexed_on(before, #[trigger] s.take(i))
        == before by {
        let t = s.take(i);
        assert forall|j: int| 0 <= j < t.len() implies !scanner::is_quote(#[trigger] t[j]) && t[j]
            != '[' && t[j] != '{' && t[j] != ']' && t[j] != '}' by {
            assert(t[j] == s[j]);
        }
        scanner::lemma_lexed_plain(before, t);
    }
    assert(s.take(s.len() as int) =~= s);
}

/// A written string leaves open what was open, and cannot be cut.
pub proof fn lemma_quoted(s: Seq<char>, c: char, flat: bool, before: Lexed)
    requires
        before.quote is None,
        !before.escaped,
        c != '"',
    ensures
        scanner::lexed_on(before, toml::written_string(s)) == before,
        uncut(toml::written_string(s), c, flat, before),
{
    let all = toml::written_string(s);
    let inside = toml::written_inside(s);
    let opening = seq!['"'];
    let state = Lexed { quote: Some('"'), ..before };
    assert(opening.drop_last() =~= seq![]);
    reveal_with_fuel(scanner::lexed_on, 2);
    assert(scanner::lexed_on(before, opening) == state);
    toml::lemma_scan_inside(state, s, 0);
    scanner::lemma_lexed_twice(before, opening, inside);
    assert(all.drop_last() =~= opening + inside);
    assert(all.last() == '"');
    assert(scanner::lexed_on(before, all) == before);
    assert forall|i: int| 0 <= i < all.len() && #[trigger] all[i] == c implies ({
        let here = scanner::lexed_on(before, all.take(i));
        here.quote is Some || (flat && here.depth > 0)
    }) by {
        assert(all[0] == '"');
        toml::lemma_scan_inside(state, s, i - 1);
        assert(all.take(i) =~= opening + inside.take(i - 1));
        scanner::lemma_lexed_twice(before, opening, inside.take(i - 1));
    }
}

/// Characters of a key without quotes are no marks.
proof fn lemma_bare(key: Seq<char>)
    requires
        bare(key),
    ensures
        forall|i: int|
            0 <= i < key.len() ==> !scanner::is_quote(#[trigger] key[i]) && key[i] != '['
                && key[i] != '{' && key[i] != ']' && key[i] != '}' && key[i] != '=' && key[i] != '#'
                && key[i] != ',' && key[i] != '.' && key[i] != '\n' && key[i] != '\r'
                && !text::white_space(key[i]),
{
}

/// Whether a mark separates keys, fields or comments.
spec fn is_mark(c: char) -> bool {
    c == '=' || c == '#' || c == ',' || c == '.'
}

/// A written key leaves open what was open, and cannot be cut at a mark.
proof fn lemma_key(key: Seq<char>, c: char, flat: bool, before: Lexed)
    requires
        before.quote is None,
        !before.escaped,
        is_mark(c),
    ensures
        scanner::lexed_on(before, written_key(key)) == before,
        uncut(written_key(key), c, flat, before),
{
    if bare(key) {
        lemma_bare(key);
        lemma_plain(key, c, flat, before);
    } else {
        lemma_quoted(key, c, flat, before);
    }
}

/// A written key stands on one line without white space around it, and names its text.
proof fn lemma_key_text(key: Seq<char>, line_number: nat)
    ensures
        written_key(key).len() > 0,
        !text::white_space(written_key(key)[0]),
        !text::white_space(written_key(key).last()),
        written_key(key)[0] != '[',
        forall|j: int| 0 <= j < written_key(key).len() ==> written_key(key)[j] != '\n',
        forall|front: Seq<char>, back: Seq<char>|
            text_writing::blank(front) && text_writing::blank(back) ==> #[trigger] toml::key_of(
                front + written_key(key) + back,
                line_number,
            ) == Ok::<Seq<char>, Seq<char>>(key),
{
    let written = written_key(key);
    if bare(key) {
        lemma_bare(key);
        assert(!scanner::is_quote(key[0]));
        assert(!text::white_space(key[key.len() - 1]));
    } else {
        toml::written_strings_read_back(key, line_number);
        assert(written[0] == '"' && written.last() == '"');
    }
    assert forall|front: Seq<char>, back: Seq<char>|
        text_writing::blank(front) && text_writing::blank(back) implies #[trigger] toml::key_of(
        front + written + back,
        line_number,
    ) == Ok::<Seq<char>, Seq<char>>(key) by {
        text_writing::surrounding_white_space_is_trimmed(front, written, back);
    }
}

/// Bare keys name themselves, and other keys the text of their string, whatever white
/// space stands around them.
pub proof fn keys_read_back(front: Seq<char>, key: Seq<char>, back: Seq<char>, line_number: nat)
    requires
        text_writing::blank(front),
        text_writing::blank(back),
    ensures
        toml::key_of(front + written_key(key) + back, line_number) == Ok::<Seq<char>, Seq<char>>(
            key,
        ),
{
    lemma_key_text(key, line_number);
}

/// Strings with commas between them, inside brackets.
proof fn lemma_texts(texts: Seq<Seq<char>>, c: char, flat: bool, before: Lexed)
    requires
        before.quote is None,
        !before.escaped,
        before.depth > 0,
        is_mark(c),
        c != ',' || flat,
    ensures
        scanner::lexed_on(before, written_texts(texts)) == before,
        uncut(written_texts(texts), c, flat, before),
        forall|j: int| 0 <= j < written_texts(texts).len() ==> written_texts(texts)[j] != '\n',
    decreases texts.len(),
{
    if texts.len() > 0 {
        let first = toml::written_string(texts[0]);
        lemma_quoted(texts[0], c, flat, before);
        toml::written_strings_read_back(texts[0], 0);
        if texts.len() > 1 {
            let comma = seq![',', ' '];
            let rest = written_texts(texts.skip(1));
            lemma_plain(comma, c, flat, before);
            scanner::lemma_lexed_twice(before, first, comma);
            lemma_uncut_together(first, comma, c, flat, before);
            lemma_texts(texts.skip(1), c, flat, before);
            scanner::lemma_lexed_twice(before, first + comma, rest);
            lemma_uncut_together(first + comma, rest, c, flat, before);
        }
    }
}

/// Inside single quotes scanning stays inside.
proof fn lemma_literal_inside(s: Seq<char>, state: Lexed)
    requires
        state.quote == Some('\''),
        forall|i: int| 0 <= i < s.len() ==> #[trigger] s[i] != '\'',
    ensures
        scanner::lexed_on(state, s) == state,
    decreases s.len(),
{
    if s.len() > 0 {
        let rest = s.drop_last();
        assert forall|i: int| 0 <= i < rest.len() implies #[trigger] rest[i] != '\'' by {
            assert(rest[i] == s[i]);
        }
        lemma_literal_inside(rest, state);
        assert(s[s.len() - 1] != '\'');
    }
}

/// A text in single quotes leaves open what was open, and cannot be cut.
proof fn lemma_literal(s: Seq<char>, c: char, flat: bool, before: Lexed)
    requires
        before.quote is None,
        c != '\'',
        forall|i: int| 0 <= i < s.len() ==> #[trigger] s[i] != '\'',
    ensures
        scanner::lexed_on(before, seq!['\''] + s + seq!['\'']) == before,
        uncut(seq!['\''] + s + seq!['\''], c, flat, before),
{
    let all = seq!['\''] + s + seq!['\''];
    let opening = seq!['\''];
    let state = Lexed { quote: Some('\''), ..before };
    assert(opening.drop_last() =~= seq![]);
    reveal_with_fuel(scanner::lexed_on, 2);
    assert(scanner::lexed_on(before, opening) == state);
    lemma_literal_inside(s, state);
    scanner::lemma_lexed_twice(before, opening, s);
    assert(all.drop_last() =~= opening + s);
    assert(all.last() == '\'');
    assert forall|i: int| 0 <= i < all.len() && #[trigger] all[i] == c implies ({
        let here = scanner::lexed_on(before, all.take(i));
        here.quote is Some || (flat && here.depth > 0)
    }) by {
        assert(all[0] == '\'');
        let part = s.take(i - 1);
        assert forall|j: int| 0 <= j < part.len() implies #[trigger] part[j] != '\'' by {
            assert(part[j] == s[j]);
        }
        lemma_literal_inside(part, state);
        assert(all.take(i) =~= opening + part);
        scanner::lemma_lexed_twice(before, opening, part);
    }
}

/// One pair inside braces, with what stands in front of it.
proof fn lemma_pair(pair: (Seq<char>, Seq<char>), c: char, flat: bool, before: Lexed)
    requires
        before.quote is None,
        !before.escaped,
        c == '#' || c == ',',
    ensures
        ({
            let text = seq![' '] + written_key(pair.0) + seq![' ', '=', ' ']
                + toml::written_string(pair.1);
            &&& scanner::lexed_on(before, text) == before
            &&& uncut(text, c, flat, before)
            &&& forall|j: int| 0 <= j < text.len() ==> text[j] != '\n'
        }),
{
    let blank = seq![' '];
    let key = written_key(pair.0);
    let sign = seq![' ', '=', ' '];
    let value = toml::written_string(pair.1);
    lemma_plain(blank, c, flat, before);
    lemma_key(pair.0, c, flat, before);
    lemma_key_text(pair.0, 0);
    lemma_plain(sign, c, flat, before);
    lemma_quoted(pair.1, c, flat, before);
    toml::written_strings_read_back(pair.1, 0);
    scanner::lemma_lexed_twice(before, blank, key);
    lemma_uncut_together(blank, key, c, flat, before);
    scanner::lemma_lexed_twice(before, blank + key, sign);
    lemma_uncut_together(blank + key, sign, c, flat, before);
    scanner::lemma_lexed_twice(before, blank + key + sign, value);
    lemma_uncut_together(blank + key + sign, value, c, flat, before);
}

/// Keys and strings with commas between them, inside braces.
proof fn lemma_pairs(pairs: Seq<(Seq<char>, Seq<char>)>, c: char, flat: bool, before: Lexed)
    requires
        before.quote is None,
        !before.escaped,
        before.depth > 0,
        c == '#' || (c == ',' && flat),
    ensures
        scanner::lexed_on(before, written_pairs(pairs)) == before,
        uncut(written_pairs(pairs), c, flat, before),
        forall|j: int| 0 <= j < written_pairs(pairs).len() ==> written_pairs(pairs)[j] != '\n',
    decreases pairs.len(),
{
    if pairs.len() > 0 {
        let first = seq![' '] + written_key(pairs[0].0) + seq![' ', '=', ' ']
            + toml::written_string(pairs[0].1);
        lemma_pair(pairs[0], c, flat, before);
        if pairs.len() == 1 {
            let blank = seq![' '];
            lemma_plain(blank, c, flat, before);
            scanner::lemma_lexed_twice(before, first, blank);
            lemma_uncut_together(first, blank, c, flat, before);
        } else {
            let comma = seq![','];
            let rest = written_pairs(pairs.skip(1));
            lemma_plain(comma, c, flat, before);
            lemma_pairs(pairs.skip(1), c, flat, before);
            scanner::lemma_lexed_twice(before, comma, rest);
            lemma_uncut_together(comma, rest, c, flat, before);
            scanner::lemma_lexed_twice(before, first, comma + rest);
            lemma_uncut_together(first, comma + rest, c, flat, before);
        }
    }
}

/// A text in brackets or braces leaves open what was open.
proof fn lemma_bracketed(
    open: char,
    inner: Seq<char>,
    close: char,
    c: char,
    flat: bool,
    before: Lexed,
)
    requires
        before.quote is None,
        !before.escaped,
        (open == '[' && close == ']') || (open == '{' && close == '}'),
        c == '#' || c == ',',
        scanner::lexed_on((Lexed { depth: before.depth + 1, ..before }), inner) == (Lexed {
            depth: before.depth + 1,
            ..before
        }),
        uncut(inner, c, flat, (Lexed { depth: before.depth + 1, ..before })),
    ensures
        scanner::lexed_on(before, seq![open] + inner + seq![close]) == before,
        uncut(seq![open] + inner + seq![close], c, flat, before),
{
    let opening = seq![open];
    let closing = seq![close];
    let inside = Lexed { depth: before.depth + 1, ..before };
    reveal_with_fuel(scanner::lexed_on, 2);
    assert(opening.drop_last() =~= seq![]);
    assert(closing.drop_last() =~= seq![]);
    assert(scanner::lexed_on(before, opening) == inside);
    assert(scanner::lexed_on(inside, closing) == before);
    scanner::lemma_lexed_twice(before, opening, inner);
    scanner::lemma_lexed_twice(before, opening + inner, closing);
    assert(uncut(opening, c, flat, before));
    lemma_uncut_together(opening, inner, c, flat, before);
    assert(uncut(closing, c, flat, inside));
    lemma_uncut_together(opening + inner, closing, c, flat, before);
}

/// A written value leaves open what was open, and cannot be cut.
proof fn lemma_value(value: Value, c: char, flat: bool, before: Lexed)
    requires
        writable(value),
        before.quote is None,
        !before.escaped,
        c == '#' || (c == ',' && flat),
    ensures
        scanner::lexed_on(before, written_value(value)) == before,
        uncut(written_value(value), c, flat, before),
{
    let inside = Lexed { depth: before.depth + 1, ..before };
    match value {
        Value::Text(text) => {
            lemma_quoted(text, c, flat, before);
        },
        Value::Literal(text) => {
            lemma_literal(text, c, flat, before);
        },
        Value::Word(word) => {
            lemma_bare(word);
            lemma_plain(word, c, flat, before);
        },
        Value::Texts(texts) => {
            lemma_texts(texts, c, flat, inside);
            lemma_bracketed('[', written_texts(texts), ']', c, flat, before);
        },
        Value::Pairs(pairs) => {
            lemma_pairs(pairs, c, flat, inside);
            lemma_bracketed('{', written_pairs(pairs), '}', c, flat, before);
        },
    }
}

/// A written value stands on one line without white space around it.
proof fn lemma_value_text(value: Value)
    requires
        writable(value),
    ensures
        written_value(value).len() > 0,
        !text::white_space(written_value(value)[0]),
        !text::white_space(written_value(value).last()),
        forall|j: int| 0 <= j < written_value(value).len() ==> written_value(value)[j] != '\n',
        forall|front: Seq<char>, back: Seq<char>|
            text_writing::blank(front) && text_writing::blank(back) ==> #[trigger] text::trimmed(
                front + written_value(value) + back,
            ) == written_value(value),
{
    let written = written_value(value);
    match value {
        Value::Text(text) => {
            toml::written_strings_read_back(text, 0);
            assert(written[0] == '"' && written.last() == '"');
        },
        Value::Word(word) => {
            lemma_bare(word);
            assert(!text::white_space(word[0]));
            assert(!text::white_space(word[word.len() - 1]));
        },
        Value::Literal(text) => {
            assert(written[0] == '\'' && written.last() == '\'');
            assert forall|j: int| 0 <= j < written.len() implies written[j] != '\n' by {
                if 0 < j < written.len() - 1 {
                    assert(written[j] == text[j - 1]);
                }
            }
        },
        Value::Texts(texts) => {
            assert(written[0] == '[' && written.last() == ']');
            let inside = Lexed { quote: None, escaped: false, depth: 1 };
            lemma_texts(texts, '#', false, inside);
        },
        Value::Pairs(pairs) => {
            assert(written[0] == '{' && written.last() == '}');
            let inside = Lexed { quote: None, escaped: false, depth: 1 };
            lemma_pairs(pairs, '#', false, inside);
        },
    }
    assert forall|front: Seq<char>, back: Seq<char>|
        text_writing::blank(front) && text_writing::blank(back) implies #[trigger] text::trimmed(
        front + written + back,
    ) == written by {
        text_writing::surrounding_white_space_is_trimmed(front, written, back);
    }
}

/// An assignment between two texts of blanks.
#[verifier::rlimit(40)]
proof fn lemma_field(front: Seq<char>, field: Field, back: Seq<char>, line_number: nat)
    requires
        writable(field.value),
        front == seq![' '] || front == Seq::<char>::empty(),
        back == seq![' '] || back == Seq::<char>::empty(),
    ensures
        ({
            let text = front + written_field(field) + back;
            &&& toml::assignment_of(text) == Some(
                (
                    front + written_key(field.key) + seq![' '],
                    seq![' '] + written_value(field.value) + back,
                ),
            )
            &&& toml::key_of(front + written_key(field.key) + seq![' '], line_number) == Ok::<
                Seq<char>,
                Seq<char>,
            >(field.key)
            &&& text::trimmed(seq![' '] + written_value(field.value) + back) == written_value(
                field.value,
            )
            &&& scanner::lexed_on(outset(), text) == outset()
            &&& uncut(text, ',', true, outset())
            &&& uncut(text, '#', false, outset())
        }),
{
    let text = front + written_field(field) + back;
    let key = written_key(field.key);
    let value = written_value(field.value);
    let blank = seq![' '];
    let before = front + key + blank;
    let after = blank + value + back;
    assert(text_writing::blank(front) && text_writing::blank(back) && text_writing::blank(blank));
    assert(toml::key_of(before, line_number) == Ok::<Seq<char>, Seq<char>>(field.key)) by {
        lemma_key_text(field.key, line_number);
    }
    assert(text::trimmed(after) == value) by {
        lemma_value_text(field.value);
    }
    lemma_field_front(front, field.key);
    lemma_cut_behind(before, '=', false, after);
    assert(text =~= before + seq!['='] + after);
    lemma_field_marks(front, field, back, ',', true);
    lemma_field_marks(front, field, back, '#', false);
}

/// What stands in front of the equals sign of a field cannot be cut there.
proof fn lemma_field_front(front: Seq<char>, key: Seq<char>)
    requires
        front == seq![' '] || front == Seq::<char>::empty(),
    ensures
        uncut(front + written_key(key) + seq![' '], '=', false, outset()),
        scanner::lexed(front + written_key(key) + seq![' ']).quote is None,
{
    let o = outset();
    let blank = seq![' '];
    let written = written_key(key);
    lemma_plain(front, '=', false, o);
    lemma_key(key, '=', false, o);
    lemma_plain(blank, '=', false, o);
    scanner::lemma_lexed_twice(o, front, written);
    lemma_uncut_together(front, written, '=', false, o);
    scanner::lemma_lexed_twice(o, front + written, blank);
    lemma_uncut_together(front + written, blank, '=', false, o);
    lemma_outset(front + written + blank);
}

#[verifier::rlimit(40)]
proof fn lemma_field_marks(
    front: Seq<char>,
    field: Field,
    back: Seq<char>,
    c: char,
    flat: bool,
)
    requires
        writable(field.value),
        front == seq![' '] || front == Seq::<char>::empty(),
        back == seq![' '] || back == Seq::<char>::empty(),
        c == ',' && flat || c == '#',
    ensures
        scanner::lexed_on(outset(), front + written_field(field) + back) == outset(),
        uncut(front + written_field(field) + back, c, flat, outset()),
{
    let o = outset();
    let key = written_key(field.key);
    let value = written_value(field.value);
    let sign = seq![' ', '=', ' '];
    lemma_plain(front, c, flat, o);
    lemma_key(field.key, c, flat, o);
    lemma_plain(sign, c, flat, o);
    lemma_value(field.value, c, flat, o);
    lemma_plain(back, c, flat, o);
    scanner::lemma_lexed_twice(o, front, key);
    lemma_uncut_together(front, key, c, flat, o);
    scanner::lemma_lexed_twice(o, front + key, sign);
    lemma_uncut_together(front + key, sign, c, flat, o);
    scanner::lemma_lexed_twice(o, front + key + sign, value);
    lemma_uncut_together(front + key + sign, value, c, flat, o);
    scanner::lemma_lexed_twice(o, front + key + sign + value, back);
    lemma_uncut_together(front + key + sign + value, back, c, flat, o);
    assert(front + written_field(field) + back =~= front + key + sign + value + back);
}

/// The first field of a list of assignments.
proof fn lemma_first_field(
    parts: Seq<Seq<char>>,
    field: Field,
    front: Seq<char>,
    back: Seq<char>,
    key: Seq<char>,
    line_number: nat,
)
    requires
        writable(field.value),
        front == seq![' '] || front == Seq::<char>::empty(),
        back == seq![' '] || back == Seq::<char>::empty(),
        parts.len() > 0,
        parts[0] == front + written_field(field) + back,
    ensures
        toml::field_of(parts, key, line_number) == if field.key == key {
            Ok::<Option<Seq<char>>, Seq<char>>(Some(written_value(field.value)))
        } else {
            toml::field_of(parts.skip(1), key, line_number)
        },
{
    lemma_field(front, field, back, line_number);
}

/// The pieces of an inline table.
#[verifier::rlimit(40)]
proof fn lemma_fields_apart(fields: Seq<Field>)
    requires
        all_writable(fields),
        fields.len() > 0,
    ensures
        ({
            let parts = scanner::pieces(written_fields(fields), ',', true);
            let blank = seq![' '];
            let none = Seq::<char>::empty();
            if fields.len() == 1 {
                &&& parts[0] == blank + written_field(fields[0]) + blank
                &&& parts.len() == 1
            } else {
                &&& parts.len() > 0
                &&& parts[0] == blank + written_field(fields[0]) + none
                &&& parts.skip(1) == scanner::pieces(written_fields(fields.skip(1)), ',', true)
            }
        }),
{
    let all = written_fields(fields);
    let none = Seq::<char>::empty();
    let blank = seq![' '];
    let parts = scanner::pieces(all, ',', true);
    assert(writable(fields[0].value));
    if fields.len() == 1 {
        lemma_field_marks(blank, fields[0], blank, ',', true);
        lemma_uncut(all, ',', true);
        scanner::lemma_one_piece(all, ',', true);
    } else {
        let first = blank + written_field(fields[0]) + none;
        let rest = written_fields(fields.skip(1));
        lemma_field_marks(blank, fields[0], none, ',', true);
        lemma_outset(first);
        lemma_cut_behind(first, ',', true, rest);
        assert(all =~= first + seq![','] + rest);
        assert(parts[0] == first);
        assert(parts.skip(1) =~= scanner::pieces(rest, ',', true));
    }
}

/// The fields of an inline table are found under their keys.
#[verifier::rlimit(40)]
proof fn lemma_fields(fields: Seq<Field>, key: Seq<char>, line_number: nat)
    requires
        all_writable(fields),
    ensures
        toml::field_of(scanner::pieces(written_fields(fields), ',', true), key, line_number)
            == Ok::<Option<Seq<char>>, Seq<char>>(
            match first_value(fields, key) {
                Some(value) => Some(written_value(value)),
                None => None,
            },
        ),
    decreases fields.len(),
{
    let none = Seq::<char>::empty();
    let blank = seq![' '];
    let all = written_fields(fields);
    let parts = scanner::pieces(all, ',', true);
    if fields.len() == 0 {
        assert(uncut(all, ',', true, outset()));
        lemma_uncut(all, ',', true);
        scanner::lemma_one_piece(all, ',', true);
        assert(uncut(all, '=', false, outset()));
        lemma_uncut(all, '=', false);
        scanner::lemma_one_piece(all, '=', false);
        assert(parts.skip(1) =~= seq![]);
        reveal_with_fuel(toml::field_of, 2);
    } else {
        assert(writable(fields[0].value));
        lemma_fields_apart(fields);
        if fields.len() == 1 {
            lemma_first_field(parts, fields[0], blank, blank, key, line_number);
            assert(parts.skip(1) =~= seq![]);
            assert(fields.skip(1) =~= seq![]);
        } else {
            lemma_first_field(parts, fields[0], blank, none, key, line_number);
            let rest = fields.skip(1);
            assert forall|i: int| 0 <= i < rest.len() implies writable(
                (#[trigger] rest[i]).value,
            ) by {
                assert(rest[i] == fields[i + 1]);
            }
            lemma_fields(rest, key, line_number);
        }
    }
}

/// The inside of an inline table leaves nothing open and holds no comment.
proof fn lemma_fields_closed(fields: Seq<Field>, before: Lexed)
    requires
        all_writable(fields),
        before.quote is None,
        !before.escaped,
    ensures
        scanner::lexed_on(before, written_fields(fields)) == before,
        uncut(written_fields(fields), '#', false, before),
        forall|j: int| 0 <= j < written_fields(fields).len() ==> written_fields(fields)[j] != '\n',
    decreases fields.len(),
{
    let blank = seq![' '];
    if fields.len() > 0 {
        let first = written_field(fields[0]);
        assert(writable(fields[0].value));
        lemma_field_closed(fields[0], before);
        lemma_plain(blank, '#', false, before);
        scanner::lemma_lexed_twice(before, blank, first);
        lemma_uncut_together(blank, first, '#', false, before);
        if fields.len() == 1 {
            scanner::lemma_lexed_twice(before, blank + first, blank);
            lemma_uncut_together(blank + first, blank, '#', false, before);
        } else {
            let rest = fields.skip(1);
            assert forall|i: int| 0 <= i < rest.len() implies writable(
                (#[trigger] rest[i]).value,
            ) by {
                assert(rest[i] == fields[i + 1]);
            }
            lemma_fields_closed(rest, before);
            let comma = seq![','];
            lemma_plain(comma, '#', false, before);
            scanner::lemma_lexed_twice(before, blank + first, comma);
            lemma_uncut_together(blank + first, comma, '#', false, before);
            scanner::lemma_lexed_twice(before, blank + first + comma, written_fields(rest));
            lemma_uncut_together(
                blank + first + comma,
                written_fields(rest),
                '#',
                false,
                before,
            );
        }
    }
}

/// A field leaves nothing open and holds no comment.
proof fn lemma_field_closed(field: Field, before: Lexed)
    requires
        writable(field.value),
        before.quote is None,
        !before.escaped,
    ensures
        scanner::lexed_on(before, written_field(field)) == before,
        uncut(written_field(field), '#', false, before),
        forall|j: int| 0 <= j < written_field(field).len() ==> written_field(field)[j] != '\n',
{
    let key = written_key(field.key);
    let value = written_value(field.value);
    let sign = seq![' ', '=', ' '];
    lemma_key(field.key, '#', false, before);
    lemma_plain(sign, '#', false, before);
    lemma_value(field.value, '#', false, before);
    lemma_key_text(field.key, 0);
    lemma_value_text(field.value);
    scanner::lemma_lexed_twice(before, key, sign);
    lemma_uncut_together(key, sign, '#', false, before);
    scanner::lemma_lexed_twice(before, key + sign, value);
    lemma_uncut_together(key + sign, value, '#', false, before);
}

/// Reading a field of an inline table gives back the value that was written under its
/// key, the first one where several were, and nothing where none was.
pub proof fn written_tables_read_back(fields: Seq<Field>, key: Seq<char>, line_number: nat)
    requires
        all_writable(fields),
    ensures
        toml::inline_field(written_table(fields), key, line_number) == Ok::<
            Option<Seq<char>>,
            Seq<char>,
        >(
            match first_value(fields, key) {
                Some(value) => Some(written_value(value)),
                None => None,
            },
        ),
        (first_value(fields, key) matches Some(value) && text_in(value) is Some && writable(value))
            ==> toml::inline_string(written_table(fields), key, line_number) == Ok::<
            Option<Seq<char>>,
            Seq<char>,
        >(text_in(first_value(fields, key)->Some_0)),
        first_value(fields, key) is None ==> toml::inline_string(
            written_table(fields),
            key,
            line_number,
        ) == Ok::<Option<Seq<char>>, Seq<char>>(None),
{
    let table = written_table(fields);
    let none = Seq::<char>::empty();
    lemma_fields(fields, key, line_number);
    assert(table[0] == '{' && table.last() == '}');
    assert(none + table + none =~= table);
    text_writing::surrounding_white_space_is_trimmed(none, table, none);
    assert(toml::interior(table) =~= written_fields(fields));
    match first_value(fields, key) {
        Some(Value::Text(text)) => {
            let written = toml::written_string(text);
            toml::written_strings_read_back(text, line_number);
            assert(written[0] == '"' && written.last() == '"');
            assert(none + written + none =~= written);
            text_writing::surrounding_white_space_is_trimmed(none, written, none);
        },
        Some(Value::Literal(text)) => {
            let written = seq!['\''] + text + seq!['\''];
            toml::literal_strings_stand_for_themselves(text, line_number);
            assert(written[0] == '\'' && written.last() == '\'');
            assert(none + written + none =~= written);
            text_writing::surrounding_white_space_is_trimmed(none, written, none);
        },
        _ => {},
    }
}

/// A dotted key.
pub open spec fn dotted(keys: Seq<Seq<char>>) -> Seq<char>
    decreases keys.len(),
{
    if keys.len() == 0 {
        seq![]
    } else if keys.len() == 1 {
        written_key(keys[0])
    } else {
        written_key(keys[0]) + seq!['.'] + dotted(keys.skip(1))
    }
}

/// The parts of a dotted key.
#[verifier::rlimit(40)]
proof fn lemma_dotted(keys: Seq<Seq<char>>, back: Seq<char>, c: char, line_number: nat)
    requires
        keys.len() > 0,
        back == seq![' '] || back == Seq::<char>::empty(),
        c == '=' || c == '#',
    ensures
        scanner::lexed_on(outset(), dotted(keys) + back) == outset(),
        scanner::pieces(dotted(keys) + back, '.', false).len() == keys.len(),
        forall|i: int|
            0 <= i < keys.len() ==> #[trigger] toml::key_of(
                scanner::pieces(dotted(keys) + back, '.', false)[i],
                line_number,
            ) == Ok::<Seq<char>, Seq<char>>(keys[i]),
        uncut(dotted(keys) + back, c, false, outset()),
        dotted(keys).len() > 0,
        dotted(keys)[0] == written_key(keys[0])[0],
        !text::white_space(dotted(keys).last()),
        forall|j: int| 0 <= j < dotted(keys).len() ==> dotted(keys)[j] != '\n',
    decreases keys.len(),
{
    let o = outset();
    let first = written_key(keys[0]);
    let none = Seq::<char>::empty();
    let dot = seq!['.'];
    lemma_key_text(keys[0], line_number);
    lemma_key(keys[0], '.', false, o);
    lemma_key(keys[0], c, false, o);
    lemma_plain(back, '.', false, o);
    lemma_plain(back, c, false, o);
    assert(text_writing::blank(none) && text_writing::blank(back));
    if keys.len() == 1 {
        scanner::lemma_lexed_twice(o, first, back);
        lemma_uncut_together(first, back, '.', false, o);
        lemma_uncut_together(first, back, c, false, o);
        lemma_uncut(first + back, '.', false);
        scanner::lemma_one_piece(first + back, '.', false);
        assert(none + first + back =~= first + back);
    } else {
        let rest = keys.skip(1);
        let behind = dotted(rest) + back;
        let all = dotted(keys) + back;
        lemma_dotted(rest, back, c, line_number);
        assert(all =~= first + dot + behind);
        lemma_outset(first);
        lemma_cut_behind(first, '.', false, behind);
        lemma_plain(dot, c, false, o);
        scanner::lemma_lexed_twice(o, first, dot);
        lemma_uncut_together(first, dot, c, false, o);
        scanner::lemma_lexed_twice(o, first + dot, behind);
        lemma_uncut_together(first + dot, behind, c, false, o);
        let parts = scanner::pieces(all, '.', false);
        let others = scanner::pieces(behind, '.', false);
        assert(parts =~= seq![first] + others);
        assert(none + first + none =~= first);
        assert forall|i: int| 0 <= i < keys.len() implies #[trigger] toml::key_of(
            parts[i],
            line_number,
        ) == Ok::<Seq<char>, Seq<char>>(keys[i]) by {
            if i == 0 {
                assert(parts[0] == none + first + none);
            } else {
                assert(parts[i] == others[i - 1]);
                assert(toml::key_of(others[i - 1], line_number) == Ok::<Seq<char>, Seq<char>>(
                    rest[i - 1],
                ));
            }
        }
        assert(dotted(keys).last() == dotted(rest).last());
    }
}

/// Keys that can be read one by one.
proof fn lemma_keys(parts: Seq<Seq<char>>, keys: Seq<Seq<char>>, line_number: nat)
    requires
        parts.len() == keys.len(),
        forall|i: int|
            0 <= i < keys.len() ==> #[trigger] toml::key_of(parts[i], line_number) == Ok::<
                Seq<char>,
                Seq<char>,
            >(keys[i]),
    ensures
        toml::keys_of(parts, line_number) == Ok::<Seq<Seq<char>>, Seq<char>>(keys),
    decreases keys.len(),
{
    if keys.len() == 0 {
        assert(keys =~= seq![]);
    } else {
        let front = parts.drop_last();
        let rest = keys.drop_last();
        assert forall|i: int| 0 <= i < rest.len() implies #[trigger] toml::key_of(
            front[i],
            line_number,
        ) == Ok::<Seq<char>, Seq<char>>(rest[i]) by {
            assert(toml::key_of(parts[i], line_number) == Ok::<Seq<char>, Seq<char>>(keys[i]));
        }
        lemma_keys(front, rest, line_number);
        assert(toml::key_of(parts[keys.len() - 1], line_number) == Ok::<Seq<char>, Seq<char>>(
            keys[keys.len() - 1],
        ));
        assert(rest.push(keys.last()) =~= keys);
    }
}

/// The parts of a dotted key read back as they were written.
pub proof fn dotted_keys_read_back(keys: Seq<Seq<char>>, back: Seq<char>, line_number: nat)
    requires
        keys.len() > 0,
        back == seq![' '] || back == Seq::<char>::empty(),
    ensures
        toml::dotted_key(dotted(keys) + back, line_number) == Ok::<Seq<Seq<char>>, Seq<char>>(
            keys,
        ),
{
    let all = dotted(keys) + back;
    lemma_dotted(keys, back, '#', line_number);
    let parts = scanner::pieces(all, '.', false);
    lemma_keys(parts, keys, line_number);
    let front = parts.drop_last();
    let rest = keys.drop_last();
    assert forall|i: int| 0 <= i < rest.len() implies #[trigger] toml::key_of(
        front[i],
        line_number,
    ) == Ok::<Seq<char>, Seq<char>>(rest[i]) by {
        assert(toml::key_of(parts[i], line_number) == Ok::<Seq<char>, Seq<char>>(keys[i]));
    }
    lemma_keys(front, rest, line_number);
    lemma_outset(all);
}

/// A line that assigns a value to a key.
pub open spec fn assignment_line(keys: Seq<Seq<char>>, value: Seq<char>) -> Seq<char> {
    dotted(keys) + seq![' ', '=', ' '] + value
}

/// Whether a text can stand behind the equals sign of a line and is all of its value:
/// it is a written value or an inline table.
pub open spec fn is_value(text: Seq<char>) -> bool {
    ||| exists|value: Value| writable(value) && text == #[trigger] written_value(value)
    ||| exists|fields: Seq<Field>| all_writable(fields) && text == #[trigger] written_table(fields)
}

#[verifier::rlimit(40)]
proof fn lemma_is_value(text: Seq<char>)
    requires
        is_value(text),
    ensures
        text.len() > 0,
        !text::white_space(text[0]),
        !text::white_space(text.last()),
        scanner::lexed_on(outset(), text) == outset(),
        uncut(text, '#', false, outset()),
        forall|j: int| 0 <= j < text.len() ==> text[j] != '\n',
{
    let o = outset();
    if exists|value: Value| writable(value) && text == #[trigger] written_value(value) {
        let value = choose|value: Value| writable(value) && text == #[trigger] written_value(value);
        lemma_value(value, '#', false, o);
        lemma_value_text(value);
    } else {
        let fields = choose|fields: Seq<Field>|
            all_writable(fields) && text == #[trigger] written_table(fields);
        let opening = seq!['{'];
        let closing = seq!['}'];
        let inner = written_fields(fields);
        let inside = Lexed { depth: 1, ..o };
        reveal_with_fuel(scanner::lexed_on, 2);
        assert(opening.drop_last() =~= seq![]);
        assert(closing.drop_last() =~= seq![]);
        assert(scanner::lexed_on(o, opening) == inside);
        assert(scanner::lexed_on(inside, closing) == o);
        lemma_fields_closed(fields, inside);
        scanner::lemma_lexed_twice(o, opening, inner);
        scanner::lemma_lexed_twice(o, opening + inner, closing);
        assert(uncut(opening, '#', false, o));
        lemma_uncut_together(opening, inner, '#', false, o);
        assert(uncut(closing, '#', false, inside));
        lemma_uncut_together(opening + inner, closing, '#', false, o);
        assert(text[0] == '{' && text.last() == '}');
    }
}

/// What a line says that assigns a value to a dotted key.
#[verifier::rlimit(40)]
pub proof fn assignments_read_back(keys: Seq<Seq<char>>, value: Seq<char>, line_number: nat)
    requires
        keys.len() > 0,
        is_value(value),
    ensures
        ({
            let line = assignment_line(keys, value);
            let key = dotted(keys) + seq![' '];
            &&& toml::without_comment(line) == line
            &&& text::trimmed(line) == line
            &&& !cargo_manifest::is_header(line)
            &&& toml::assignment_of(line) == Some((key, seq![' '] + value))
            &&& text::trimmed(seq![' '] + value) == value
            &&& toml::dotted_key(key, line_number) == Ok::<Seq<Seq<char>>, Seq<char>>(keys)
            &&& keys.len() == 1 ==> toml::key_of(key, line_number) == Ok::<Seq<char>, Seq<char>>(
                keys[0],
            )
            &&& text_writing::is_line(line)
        }),
{
    let none = Seq::<char>::empty();
    let blank = seq![' '];
    let line = assignment_line(keys, value);
    let key = dotted(keys) + blank;
    assert(text_writing::blank(none) && text_writing::blank(blank));
    lemma_assignment_text(keys, value);
    assert(none + line + none =~= line);
    text_writing::surrounding_white_space_is_trimmed(none, line, none);
    assert(text::trimmed(blank + value) == value) by {
        lemma_is_value(value);
        assert(blank + value + none =~= blank + value);
        text_writing::surrounding_white_space_is_trimmed(blank, value, none);
    }
    assert(toml::assignment_of(line) == Some((key, blank + value))) by {
        lemma_dotted(keys, blank, '=', line_number);
        lemma_outset(key);
        lemma_cut_behind(key, '=', false, blank + value);
        assert(line =~= key + seq!['='] + (blank + value));
    }
    dotted_keys_read_back(keys, blank, line_number);
    if keys.len() == 1 {
        assert(none + written_key(keys[0]) + blank =~= key);
        keys_read_back(none, keys[0], blank, line_number);
    }
}

/// A line that assigns a value to a dotted key has no comment and no white space around
/// it, and begins no table.
#[verifier::rlimit(40)]
proof fn lemma_assignment_text(keys: Seq<Seq<char>>, value: Seq<char>)
    requires
        keys.len() > 0,
        is_value(value),
    ensures
        ({
            let line = assignment_line(keys, value);
            &&& toml::without_comment(line) == line
            &&& line.len() > 0
            &&& !text::white_space(line[0])
            &&& !text::white_space(line.last())
            &&& !cargo_manifest::is_header(line)
            &&& text_writing::is_line(line)
        }),
{
    let o = outset();
    let blank = seq![' '];
    let line = assignment_line(keys, value);
    let key = dotted(keys) + blank;
    let sign = seq!['=', ' '];
    lemma_is_value(value);
    lemma_dotted(keys, blank, '#', 0);
    assert(!text::white_space(written_key(keys[0])[0]) && written_key(keys[0])[0] != '[') by {
        lemma_key_text(keys[0], 0);
    }
    lemma_plain(sign, '#', false, o);
    scanner::lemma_lexed_twice(o, key, sign);
    lemma_uncut_together(key, sign, '#', false, o);
    lemma_uncut_together(key + sign, value, '#', false, o);
    assert(line =~= key + sign + value);
    lemma_uncut(line, '#', false);
    scanner::lemma_one_piece(line, '#', false);
    assert(line[0] == written_key(keys[0])[0]);
    assert(line.last() == value.last());
    assert(value.last() != '\r');
}

/// A line that assigns something to a key, whatever stands behind the equals sign.
pub open spec fn any_assignment(key: Seq<char>, rest: Seq<char>) -> Seq<char> {
    written_key(key) + seq![' ', '='] + rest
}

/// The comment of a line that assigns something begins behind its equals sign.
proof fn lemma_assignment_held(key: Seq<char>, rest: Seq<char>)
    ensures
        ({
            let line = any_assignment(key, rest);
            let held = toml::without_comment(line);
            &&& written_key(key).len() + 1 < held.len() <= line.len()
            &&& held == line.take(held.len() as int)
        }),
{
    let o = outset();
    let line = any_assignment(key, rest);
    let begin = written_key(key) + seq![' ', '='];
    lemma_key(key, '#', false, o);
    lemma_plain(seq![' ', '='], '#', false, o);
    lemma_uncut_together(written_key(key), seq![' ', '='], '#', false, o);
    lemma_uncut(begin, '#', false);
    match scanner::first_cut(line, '#', false) {
        Some(i) => {
            assert(scanner::first_cut_at(line, '#', false, i));
            if i < begin.len() {
                assert(line.take(i) =~= begin.take(i));
                assert(line[i] == begin[i]);
                assert(scanner::cut_at(begin, '#', false, i));
            }
        },
        None => {
            assert(line.take(line.len() as int) =~= line);
        },
    }
}

/// Trimming keeps what stands up to a character that is no white space.
proof fn lemma_trimmed_keeps(s: Seq<char>, p: int)
    requires
        0 <= p < s.len(),
        !text::white_space(s[0]),
        !text::white_space(s[p]),
    ensures
        p < text::trimmed(s).len() <= s.len(),
        text::trimmed(s) == s.take(text::trimmed(s).len() as int),
{
    let (before, behind) = text_writing::lemma_trimmed_parts(s);
    let inner = text::trimmed(s);
    if before.len() > 0 {
        assert(s[0] == before[0]);
        assert(text::white_space(before[0]));
    }
    if inner.len() <= p {
        assert(s[p] == behind[p - inner.len()]);
        assert(text::white_space(behind[p - inner.len()]));
    }
    assert(inner =~= s.take(inner.len() as int));
}

/// Whatever stands behind its equals sign, a line assigns something to the key in front.
#[verifier::rlimit(40)]
pub proof fn assignments_name_their_key(key: Seq<char>, rest: Seq<char>, line_number: nat)
    ensures
        ({
            let line = text::trimmed(toml::without_comment(any_assignment(key, rest)));
            &&& !cargo_manifest::is_header(line)
            &&& toml::assignment_of(line) matches Some((written, value)) && toml::key_of(
                written,
                line_number,
            ) == Ok::<Seq<char>, Seq<char>>(key)
        }),
{
    let none = Seq::<char>::empty();
    let blank = seq![' '];
    let line = any_assignment(key, rest);
    let front = none + written_key(key) + blank;
    let p = front.len() as int;
    let held = toml::without_comment(line);
    let inner = text::trimmed(held);
    lemma_assignment_held(key, rest);
    assert(line[p] == '=');
    assert(text_writing::blank(none) && text_writing::blank(blank));
    assert(toml::key_of(front, line_number) == Ok::<Seq<char>, Seq<char>>(key)
        && written_key(key).len() > 0 && !text::white_space(written_key(key)[0])
        && written_key(key)[0] != '[') by {
        lemma_key_text(key, line_number);
    }
    assert(line[0] == written_key(key)[0]);
    lemma_trimmed_keeps(held, p);
    assert(inner =~= line.take(inner.len() as int));
    let value = inner.skip(p + 1);
    assert(inner =~= front + seq!['='] + value);
    lemma_field_front(none, key);
    lemma_cut_behind(front, '=', false, value);
}

/// The header of a table.
pub open spec fn written_header(keys: Seq<Seq<char>>) -> Seq<char> {
    seq!['['] + dotted(keys) + seq![']']
}

/// The name of a table reads back from its header.
#[verifier::rlimit(40)]
pub proof fn headers_read_back(keys: Seq<Seq<char>>, line_number: nat)
    requires
        keys.len() > 0,
    ensures
        ({
            let line = written_header(keys);
            &&& toml::without_comment(line) == line
            &&& text::trimmed(line) == line
            &&& cargo_manifest::is_header(line)
            &&& !text::begins(line, "[["@)
            &&& toml::dotted_key(toml::interior(line), line_number) == Ok::<
                Seq<Seq<char>>,
                Seq<char>,
            >(keys)
            &&& text_writing::is_line(line)
        }),
{
    let o = outset();
    let none = Seq::<char>::empty();
    let line = written_header(keys);
    let opening = seq!['['];
    let closing = seq![']'];
    let inside = Lexed { depth: 1, ..o };
    lemma_dotted(keys, none, '#', line_number);
    assert(dotted(keys) + none =~= dotted(keys));
    lemma_key_text(keys[0], line_number);
    lemma_dotted_deeper(keys);
    reveal_with_fuel(scanner::lexed_on, 2);
    assert(opening.drop_last() =~= seq![]);
    assert(scanner::lexed_on(o, opening) == inside);
    assert(uncut(opening, '#', false, o));
    lemma_uncut_together(opening, dotted(keys), '#', false, o);
    assert(uncut(closing, '#', false, scanner::lexed_on(o, opening + dotted(keys))));
    lemma_uncut_together(opening + dotted(keys), closing, '#', false, o);
    lemma_uncut(line, '#', false);
    scanner::lemma_one_piece(line, '#', false);
    assert(line[0] == '[' && line.last() == ']');
    assert(none + line + none =~= line);
    text_writing::surrounding_white_space_is_trimmed(none, line, none);
    assert(toml::interior(line) =~= dotted(keys));
    dotted_keys_read_back(keys, none, line_number);
    reveal_strlit("[[");
    if text::begins(line, "[["@) {
        assert(line.take(2)[1] == line[1]);
        assert("[["@[1] == '[');
        assert(line[1] == dotted(keys)[0]);
    }
}

/// Inside brackets a dotted key holds no comment.
proof fn lemma_dotted_deeper(keys: Seq<Seq<char>>)
    requires
        keys.len() > 0,
    ensures
        uncut(dotted(keys), '#', false, (Lexed { quote: None, escaped: false, depth: 1 })),
    decreases keys.len(),
{
    let inside = Lexed { quote: None, escaped: false, depth: 1 };
    let first = written_key(keys[0]);
    let dot = seq!['.'];
    lemma_key(keys[0], '#', false, inside);
    if keys.len() > 1 {
        lemma_plain(dot, '#', false, inside);
        scanner::lemma_lexed_twice(inside, first, dot);
        lemma_uncut_together(first, dot, '#', false, inside);
        lemma_dotted_deeper(keys.skip(1));
        lemma_uncut_together(first + dot, dotted(keys.skip(1)), '#', false, inside);
    }
}

/// A comment behind a line that leaves no quotes open is taken off, and nothing else.
pub proof fn comments_are_taken_off(line: Seq<char>, comment: Seq<char>)
    requires
        toml::without_comment(line) == line,
        scanner::lexed(line).quote is None,
    ensures
        toml::without_comment(line + seq!['#'] + comment) == line,
{
    assert forall|i: int|
        0 <= i < line.len() && #[trigger] line[i] == '#' implies scanner::lexed_on(
        outset(),
        line.take(i),
    ).quote is Some by {
        lemma_outset(line.take(i));
        if scanner::lexed(line.take(i)).quote is None {
            assert(scanner::cut_at(line, '#', false, i));
            lemma_some_cut(line, '#', i);
            let k = scanner::first_cut(line, '#', false)->Some_0;
            assert(scanner::first_cut_at(line, '#', false, k));
            assert(line.take(k).len() < line.len());
        }
    }
    lemma_cut_behind(line, '#', false, comment);
}

/// Where there is a cut, there is a first one.
proof fn lemma_some_cut(s: Seq<char>, c: char, i: int)
    requires
        scanner::cut_at(s, c, false, i),
    ensures
        scanner::first_cut(s, c, false) is Some,
    decreases i,
{
    if forall|j: int| 0 <= j < i ==> !scanner::cut_at(s, c, false, j) {
        assert(scanner::first_cut_at(s, c, false, i));
    } else {
        let j = choose|j: int| 0 <= j < i && scanner::cut_at(s, c, false, j);
        lemma_some_cut(s, c, j);
    }
}

/// Blanks leave nothing open and hold no comment.
proof fn lemma_blank_front(front: Seq<char>)
    requires
        text_writing::blank(front),
    ensures
        scanner::lexed_on(outset(), front) == outset(),
        forall|i: int| 0 <= i < front.len() ==> #[trigger] front[i] != '#',
{
    assert forall|i: int| 0 <= i < front.len() implies !scanner::is_quote(#[trigger] front[i])
        && front[i] != '[' && front[i] != '{' && front[i] != ']' && front[i] != '}' && front[i]
        != '#' by {
        assert(text::white_space(front[i]));
    }
    lemma_plain(front, '#', false, outset());
}

/// White space in front of a line stays in front of it when its comment is taken off.
proof fn lemma_comment_behind_blanks(front: Seq<char>, line: Seq<char>)
    requires
        text_writing::blank(front),
    ensures
        toml::without_comment(front + line) == front + toml::without_comment(line),
{
    let all = front + line;
    let n = front.len() as int;
    lemma_blank_front(front);
    assert forall|i: int| 0 <= i < line.len() implies scanner::lexed(
        #[trigger] all.take(n + i),
    ) == scanner::lexed(line.take(i)) by {
        assert(all.take(n + i) =~= front + line.take(i));
        lemma_outset(front);
        scanner::lemma_lexed_on(front, line.take(i));
        lemma_outset(line.take(i));
    }
    match scanner::first_cut(line, '#', false) {
        Some(i) => {
            assert(scanner::first_cut_at(line, '#', false, i));
            assert(all.take(n + i) =~= front + line.take(i));
            assert(scanner::cut_at(all, '#', false, n + i));
            assert forall|j: int| 0 <= j < n + i implies !scanner::cut_at(all, '#', false, j) by {
                if j < n {
                    assert(all[j] == front[j]);
                } else {
                    let k = j - n;
                    assert(!scanner::cut_at(line, '#', false, k));
                    assert(all[j] == line[k]);
                    assert(scanner::lexed(all.take(n + k)) == scanner::lexed(line.take(k)));
                }
            }
            assert(scanner::first_cut_at(all, '#', false, n + i));
            scanner::lemma_first_cut(all, '#', false, n + i);
        },
        None => {
            assert forall|j: int| !#[trigger] scanner::cut_at(all, '#', false, j) by {
                if 0 <= j < n {
                    assert(all[j] == front[j]);
                } else if n <= j < all.len() {
                    let k = j - n;
                    assert(all[j] == line[k]);
                    assert(scanner::lexed(all.take(n + k)) == scanner::lexed(line.take(k)));
                    if scanner::cut_at(line, '#', false, k) {
                        lemma_some_cut(line, '#', k);
                    }
                }
            }
            scanner::lemma_one_piece(all, '#', false);
        },
    }
}

/// A line may be indented: without its comment and the white space around it, it is the
/// same.
pub proof fn indentation_is_of_no_account(front: Seq<char>, line: Seq<char>)
    requires
        text_writing::blank(front),
    ensures
        text::trimmed(toml::without_comment(front + line)) == text::trimmed(
            toml::without_comment(line),
        ),
{
    let held = toml::without_comment(line);
    lemma_comment_behind_blanks(front, line);
    let (before, behind) = text_writing::lemma_trimmed_parts(held);
    let inner = text::trimmed(held);
    let all_front = front + before;
    assert forall|i: int| 0 <= i < all_front.len() implies text::white_space(
        #[trigger] all_front[i],
    ) by {
        assert(i < front.len() ==> all_front[i] == front[i]);
        assert(i >= front.len() ==> all_front[i] == before[i - front.len()]);
    }
    assert(front + held =~= all_front + inner + behind);
    text_writing::surrounding_white_space_is_trimmed(all_front, inner, behind);
}

/// An array of strings with blanks behind its commas reads back as well.
pub proof fn spaced_arrays_read_back(texts: Seq<Seq<char>>, line_number: nat)
    ensures
        workspace::array_of(written_value(Value::Texts(texts)), line_number) == Ok::<
            Seq<Seq<char>>,
            Seq<char>,
        >(texts),
{
    let none = Seq::<char>::empty();
    let inner = written_texts(texts);
    let array = seq!['['] + inner + seq![']'];
    assert(array[0] == '[' && array.last() == ']');
    assert(none + array + none =~= array);
    text_writing::surrounding_white_space_is_trimmed(none, array, none);
    assert(toml::interior(array) =~= inner);
    let parts = scanner::pieces(inner, ',', false);
    if texts.len() == 0 {
        assert(uncut(inner, ',', false, outset()));
        lemma_uncut(inner, ',', false);
        scanner::lemma_one_piece(inner, ',', false);
        assert(text::trimmed(inner).len() == 0);
        assert(workspace::array_items(inner) =~= seq![]);
        assert(texts =~= seq![]);
    } else {
        lemma_texts_apart(texts);
        let last = toml::written_string(texts.last());
        lemma_spaced_text(texts.last());
        assert(text::trimmed(parts[parts.len() - 1]) == last);
        assert(workspace::array_items(inner) == parts);
        lemma_texts_read(parts, texts, line_number);
    }
}

/// A written string with a blank in front or not.
proof fn lemma_spaced_text(s: Seq<char>)
    ensures
        toml::written_string(s).len() > 0,
        text::trimmed(toml::written_string(s)) == toml::written_string(s),
        text::trimmed(seq![' '] + toml::written_string(s)) == toml::written_string(s),
{
    let none = Seq::<char>::empty();
    let blank = seq![' '];
    let written = toml::written_string(s);
    assert(written[0] == '"' && written.last() == '"');
    assert(text_writing::blank(none) && text_writing::blank(blank));
    assert(none + written + none =~= written);
    assert(blank + written + none =~= blank + written);
    text_writing::surrounding_white_space_is_trimmed(none, written, none);
    text_writing::surrounding_white_space_is_trimmed(blank, written, none);
}

/// Strings with commas and blanks between them are cut apart, with blanks in front.
#[verifier::rlimit(40)]
proof fn lemma_texts_apart(texts: Seq<Seq<char>>)
    requires
        texts.len() > 0,
    ensures
        ({
            let parts = scanner::pieces(written_texts(texts), ',', false);
            &&& parts.len() == texts.len()
            &&& forall|i: int|
                0 <= i < texts.len() ==> text::trimmed(#[trigger] parts[i])
                    == toml::written_string(texts[i])
        }),
        ({
            let parts = scanner::pieces(seq![' '] + written_texts(texts), ',', false);
            &&& parts.len() == texts.len()
            &&& forall|i: int|
                0 <= i < texts.len() ==> text::trimmed(#[trigger] parts[i])
                    == toml::written_string(texts[i])
        }),
    decreases texts.len(),
{
    let o = outset();
    let blank = seq![' '];
    let first = toml::written_string(texts[0]);
    let all = written_texts(texts);
    lemma_spaced_text(texts[0]);
    lemma_quoted(texts[0], ',', false, o);
    lemma_plain(blank, ',', false, o);
    scanner::lemma_lexed_twice(o, blank, first);
    lemma_uncut_together(blank, first, ',', false, o);
    if texts.len() == 1 {
        lemma_uncut(first, ',', false);
        scanner::lemma_one_piece(first, ',', false);
        lemma_uncut(blank + first, ',', false);
        scanner::lemma_one_piece(blank + first, ',', false);
    } else {
        let rest = texts.skip(1);
        let behind = blank + written_texts(rest);
        lemma_texts_apart(rest);
        lemma_outset(first);
        lemma_outset(blank + first);
        lemma_cut_behind(first, ',', false, behind);
        lemma_cut_behind(blank + first, ',', false, behind);
        assert(all =~= first + seq![','] + behind);
        assert(blank + all =~= (blank + first) + seq![','] + behind);
        let others = scanner::pieces(behind, ',', false);
        let parts = scanner::pieces(all, ',', false);
        let spaced = scanner::pieces(blank + all, ',', false);
        assert forall|i: int| 0 <= i < texts.len() implies text::trimmed(#[trigger] parts[i])
            == toml::written_string(texts[i]) by {
            if i > 0 {
                assert(parts[i] == others[i - 1]);
                assert(texts[i] == rest[i - 1]);
            }
        }
        assert forall|i: int| 0 <= i < texts.len() implies text::trimmed(#[trigger] spaced[i])
            == toml::written_string(texts[i]) by {
            if i > 0 {
                assert(spaced[i] == others[i - 1]);
                assert(texts[i] == rest[i - 1]);
            }
        }
    }
}

/// Strings with white space around them are read one by one.
proof fn lemma_texts_read(parts: Seq<Seq<char>>, texts: Seq<Seq<char>>, line_number: nat)
    requires
        parts.len() == texts.len(),
        forall|i: int|
            0 <= i < texts.len() ==> text::trimmed(#[trigger] parts[i]) == toml::written_string(
                texts[i],
            ),
    ensures
        workspace::strings_of(parts, line_number) == Ok::<Seq<Seq<char>>, Seq<char>>(texts),
    decreases texts.len(),
{
    if texts.len() == 0 {
        assert(texts =~= seq![]);
    } else {
        let front = parts.drop_last();
        let rest = texts.drop_last();
        assert forall|i: int| 0 <= i < rest.len() implies text::trimmed(#[trigger] front[i])
            == toml::written_string(rest[i]) by {
            assert(front[i] == parts[i]);
        }
        lemma_texts_read(front, rest, line_number);
        assert(text::trimmed(parts[texts.len() - 1]) == toml::written_string(texts.last()));
        toml::written_strings_read_back(texts.last(), line_number);
        assert(rest.push(texts.last()) =~= texts);
    }
}

} // verus!
