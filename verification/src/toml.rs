//! The parts of TOML that manifests and lockfiles need: comments, assignments,
//! keys, strings and inline tables.

use vstd::prelude::*;
use vstd::string::*;

use crate::scanner;
use crate::scanner::{ends_quoted, find_outside, split_outside};
use crate::text;
use crate::text::{characters, line_error, same_text, trim};

verus! {

/// A line without its comment: a `#` outside quotes begins one.
pub open spec fn without_comment(line: Seq<char>) -> Seq<char> {
    match scanner::first_cut(line, '#', false) {
        Some(i) => line.take(i),
        None => line,
    }
}

/// A line without its comment.
pub fn strip_toml_comment(line: &str) -> (rest: &str)
    ensures
        rest@ == without_comment(line@),
{
    match find_outside(line, '#') {
        Some(i) => {
            assert(line@.take(i as int) =~= line@.subrange(0, i as int));
            line.substring_char(0, i)
        },
        None => line,
    }
}

/// The two sides of the first `=` outside quotes.
pub open spec fn assignment_of(line: Seq<char>) -> Option<(Seq<char>, Seq<char>)> {
    match scanner::first_cut(line, '=', false) {
        Some(i) => Some((line.take(i), line.skip(i + 1))),
        None => None,
    }
}

/// The two sides of the first `=` outside quotes.
pub fn toml_assignment(line: &str) -> (sides: Option<(&str, &str)>)
    ensures
        match sides {
            Some((key, value)) => assignment_of(line@) == Some((key@, value@)),
            None => assignment_of(line@) is None,
        },
{
    match find_outside(line, '=') {
        Some(i) => {
            let end: usize = line.unicode_len();
            assert(line@.take(i as int) =~= line@.subrange(0, i as int));
            assert(line@.skip(i + 1) =~= line@.subrange(i + 1, end as int));
            Some((line.substring_char(0, i), line.substring_char(i + 1, end)))
        },
        None => None,
    }
}

/// Whether a text is enclosed in the two marks.
pub open spec fn enclosed(s: Seq<char>, open: char, close: char) -> bool {
    s.len() >= 2 && s[0] == open && s.last() == close
}

/// The text between its first and last character.
pub open spec fn interior(s: Seq<char>) -> Seq<char> {
    s.subrange(1, s.len() - 1)
}

/// The text between two enclosing marks.
pub fn strip_enclosing(s: &str, open: char, close: char) -> (inner: Option<&str>)
    ensures
        match inner {
            Some(inner) => enclosed(s@, open, close) && inner@ == interior(s@),
            None => !enclosed(s@, open, close),
        },
{
    let length: usize = s.unicode_len();
    if length >= 2 && s.get_char(0) == open && s.get_char(length - 1) == close {
        Some(s.substring_char(1, length - 1))
    } else {
        None
    }
}

/// The character of an escape in a basic string.
pub open spec fn escape_meaning(c: char) -> Option<char> {
    if c == 'b' {
        Some('\u{0008}')
    } else if c == 't' {
        Some('\t')
    } else if c == 'n' {
        Some('\n')
    } else if c == 'f' {
        Some('\u{000c}')
    } else if c == 'r' {
        Some('\r')
    } else if c == '"' {
        Some('"')
    } else if c == '\\' {
        Some('\\')
    } else {
        None
    }
}

/// The text that the inside of a basic string stands for, behind what was `read`.
pub open spec fn unescaped(s: Seq<char>, read: Seq<char>) -> Result<Seq<char>, Seq<char>>
    decreases s.len(),
{
    if s.len() == 0 {
        Ok(read)
    } else if s[0] != '\\' {
        unescaped(s.skip(1), read.push(s[0]))
    } else if s.len() == 1 {
        Err("incomplete string escape"@)
    } else {
        match escape_meaning(s[1]) {
            Some(c) => unescaped(s.skip(2), read.push(c)),
            None => Err("unsupported string escape"@),
        }
    }
}

/// The text that a quoted string stands for. In single quotes it is taken as it
/// is, in double quotes it may hold escapes.
pub open spec fn string_of(value: Seq<char>, line_number: nat) -> Result<Seq<char>, Seq<char>> {
    if enclosed(value, '\'', '\'') {
        Ok(interior(value))
    } else if enclosed(value, '"', '"') {
        match unescaped(interior(value), seq![]) {
            Ok(read) => Ok(read),
            Err(message) => Err(text::line_fault(line_number, message)),
        }
    } else {
        Err(text::line_fault(line_number, "expected a quoted string"@))
    }
}

/// The text that a quoted string stands for.
pub fn parse_toml_string(value: &str, line_number: usize) -> (read: Result<String, String>)
    ensures
        text::outcome(read) == string_of(value@, line_number as nat),
{
    if let Some(inner) = strip_enclosing(value, '\'', '\'') {
        return Ok(inner.to_owned());
    }
    let inner = match strip_enclosing(value, '"', '"') {
        Some(inner) => inner,
        None => {
            return Err(line_error(line_number, "expected a quoted string"));
        },
    };
    let chars = characters(inner);
    let mut parsed = String::new();
    let mut i: usize = 0;
    proof {
        assert(inner@.skip(0) =~= inner@);
        assert(parsed@ =~= seq![]);
    }
    while i < chars.len()
        invariant
            chars@ == inner@,
            enclosed(value@, '"', '"'),
            !enclosed(value@, '\'', '\''),
            inner@ == interior(value@),
            i <= chars.len(),
            unescaped(inner@, seq![]) == unescaped(inner@.skip(i as int), parsed@),
        decreases chars.len() - i,
    {
        let ghost rest = inner@.skip(i as int);
        let c: char = chars[i];
        if c != '\\' {
            assert(rest.skip(1) =~= inner@.skip(i + 1));
            parsed.push(c);
            i += 1;
        } else if i + 1 == chars.len() {
            return Err(line_error(line_number, "incomplete string escape"));
        } else {
            let escaped: char = chars[i + 1];
            assert(rest.skip(2) =~= inner@.skip(i + 2));
            let meant: char = if escaped == 'b' {
                '\u{0008}'
            } else if escaped == 't' {
                '\t'
            } else if escaped == 'n' {
                '\n'
            } else if escaped == 'f' {
                '\u{000c}'
            } else if escaped == 'r' {
                '\r'
            } else if escaped == '"' {
                '"'
            } else if escaped == '\\' {
                '\\'
            } else {
                return Err(line_error(line_number, "unsupported string escape"));
            };
            parsed.push(meant);
            i += 2;
        }
    }
    Ok(parsed)
}

/// The name that a key stands for.
pub open spec fn key_of(key: Seq<char>, line_number: nat) -> Result<Seq<char>, Seq<char>> {
    let key = text::trimmed(key);
    if key.len() == 0 {
        Err(text::line_fault(line_number, "expected a TOML key"@))
    } else if scanner::is_quote(key[0]) {
        string_of(key, line_number)
    } else {
        Ok(key)
    }
}

/// The name that a key stands for.
pub fn parse_toml_key(key: &str, line_number: usize) -> (read: Result<String, String>)
    ensures
        text::outcome(read) == key_of(key@, line_number as nat),
{
    let key = trim(key);
    if key.is_empty() {
        Err(line_error(line_number, "expected a TOML key"))
    } else {
        let first: char = key.get_char(0);
        if first == '"' || first == '\'' {
            parse_toml_string(key, line_number)
        } else {
            Ok(key.to_owned())
        }
    }
}

/// The names that the parts of a key stand for, or the first error.
pub open spec fn keys_of(parts: Seq<Seq<char>>, line_number: nat) -> Result<
    Seq<Seq<char>>,
    Seq<char>,
>
    decreases parts.len(),
{
    if parts.len() == 0 {
        Ok(seq![])
    } else {
        match keys_of(parts.drop_last(), line_number) {
            Err(e) => Err(e),
            Ok(names) => match key_of(parts.last(), line_number) {
                Err(e) => Err(e),
                Ok(name) => Ok(names.push(name)),
            },
        }
    }
}

/// The parts of a dotted key.
pub open spec fn dotted_key(key: Seq<char>, line_number: nat) -> Result<Seq<Seq<char>>, Seq<char>> {
    let parts = scanner::pieces(key, '.', false);
    match keys_of(parts.drop_last(), line_number) {
        Err(e) => Err(e),
        Ok(names) => if scanner::lexed(key).quote is Some {
            Err(text::line_fault(line_number, "unterminated quoted key"@))
        } else {
            keys_of(parts, line_number)
        },
    }
}

/// An error in a part of a key stays the first error of the whole key.
pub proof fn lemma_keys_fault(parts: Seq<Seq<char>>, count: int, line_number: nat)
    requires
        0 <= count <= parts.len(),
        keys_of(parts.take(count), line_number) is Err,
    ensures
        keys_of(parts, line_number) == keys_of(parts.take(count), line_number),
    decreases parts.len(),
{
    if count < parts.len() {
        assert(parts.drop_last().take(count) =~= parts.take(count));
        lemma_keys_fault(parts.drop_last(), count, line_number);
    } else {
        assert(parts.take(count) =~= parts);
    }
}

/// A text has at least one piece.
pub proof fn lemma_pieces(s: Seq<char>, c: char, flat: bool)
    ensures
        scanner::pieces(s, c, flat).len() > 0,
{
    if let Some(i) = scanner::first_cut(s, c, flat) {
        let k = choose|k: int| scanner::first_cut_at(s, c, flat, k);
        assert(scanner::first_cut_at(s, c, flat, k));
    }
}

/// The parts of a dotted key.
pub fn split_toml_key(key: &str, line_number: usize) -> (read: Result<Vec<String>, String>)
    ensures
        text::outcome(read) == dotted_key(key@, line_number as nat),
        read matches Ok(names) ==> names.len() > 0,
{
    let parts = split_outside(key, '.', false);
    let ghost all = parts.deep_view();
    let ghost first = all.drop_last();
    proof {
        lemma_pieces(key@, '.', false);
    }
    let last: usize = parts.len() - 1;
    let mut names: Vec<String> = Vec::new();
    assert(names.deep_view() =~= seq![]);
    for i in 0..last
        invariant
            all == parts.deep_view(),
            all == scanner::pieces(key@, '.', false),
            first == all.drop_last(),
            last == all.len() - 1,
            keys_of(first.take(i as int), line_number as nat) == Ok::<Seq<Seq<char>>, Seq<char>>(
                names.deep_view(),
            ),
    {
        let ghost before = names.deep_view();
        proof {
            assert(first.take(i + 1).drop_last() =~= first.take(i as int));
            assert(first.take(i + 1).last() == parts@[i as int]@);
        }
        match parse_toml_key(parts[i], line_number) {
            Ok(name) => {
                names.push(name);
                assert(names.deep_view() =~= before.push(name@));
            },
            Err(error) => {
                proof {
                    lemma_keys_fault(first, i + 1, line_number as nat);
                }
                return Err(error);
            },
        }
    }
    assert(first.take(last as int) =~= first);
    if ends_quoted(key) {
        return Err(line_error(line_number, "unterminated quoted key"));
    }
    let ghost before = names.deep_view();
    assert(all.last() == parts@[last as int]@);
    match parse_toml_key(parts[last], line_number) {
        Ok(name) => {
            names.push(name);
            assert(names.deep_view() =~= before.push(name@));
            Ok(names)
        },
        Err(error) => Err(error),
    }
}

/// The value of a field in a list of assignments. Pieces that assign nothing are
/// passed over; a key that cannot be read is an error unless the field comes
/// before it.
pub open spec fn field_of(fields: Seq<Seq<char>>, field: Seq<char>, line_number: nat) -> Result<
    Option<Seq<char>>,
    Seq<char>,
>
    decreases fields.len(),
{
    if fields.len() == 0 {
        Ok(None)
    } else {
        match assignment_of(fields[0]) {
            None => field_of(fields.skip(1), field, line_number),
            Some((key, value)) => match key_of(key, line_number) {
                Err(e) => Err(e),
                Ok(name) => if name == field {
                    Ok(Some(text::trimmed(value)))
                } else {
                    field_of(fields.skip(1), field, line_number)
                },
            },
        }
    }
}

/// The value of a field of an inline table, as it is written. A value that is no
/// inline table has no fields.
pub open spec fn inline_field(value: Seq<char>, field: Seq<char>, line_number: nat) -> Result<
    Option<Seq<char>>,
    Seq<char>,
> {
    let table = text::trimmed(value);
    if enclosed(table, '{', '}') {
        field_of(scanner::pieces(interior(table), ',', true), field, line_number)
    } else {
        Ok(None)
    }
}

/// The value of a field of an inline table, as it is written.
pub fn inline_toml_field<'a>(value: &'a str, field: &str, line_number: usize) -> (found: Result<
    Option<&'a str>,
    String,
>)
    ensures
        text::outcome(found) == inline_field(value@, field@, line_number as nat),
{
    let table = trim(value);
    let inner = match strip_enclosing(table, '{', '}') {
        Some(inner) => inner,
        None => {
            return Ok(None);
        },
    };
    let fields = split_outside(inner, ',', true);
    let ghost all = fields.deep_view();
    assert(all.skip(0) =~= all);
    for i in 0..fields.len()
        invariant
            all == fields.deep_view(),
            inline_field(value@, field@, line_number as nat) == field_of(
                all.skip(i as int),
                field@,
                line_number as nat,
            ),
    {
        proof {
            assert(all.skip(i as int)[0] == fields@[i as int]@);
            assert(all.skip(i as int).skip(1) =~= all.skip(i + 1));
        }
        if let Some((key, assigned)) = toml_assignment(fields[i]) {
            match parse_toml_key(key, line_number) {
                Ok(name) => {
                    if same_text(name.as_str(), field) {
                        return Ok(Some(trim(assigned)));
                    }
                },
                Err(error) => {
                    return Err(error);
                },
            }
        }
    }
    Ok(None)
}

/// The text of a string field of an inline table.
pub open spec fn inline_string(value: Seq<char>, field: Seq<char>, line_number: nat) -> Result<
    Option<Seq<char>>,
    Seq<char>,
> {
    match inline_field(value, field, line_number) {
        Err(e) => Err(e),
        Ok(None) => Ok(None),
        Ok(Some(written)) => match string_of(text::trimmed(written), line_number) {
            Err(e) => Err(e),
            Ok(read) => Ok(Some(read)),
        },
    }
}

/// The text of a string field of an inline table.
pub fn inline_toml_string_field(value: &str, field: &str, line_number: usize) -> (found: Result<
    Option<String>,
    String,
>)
    ensures
        text::outcome(found) == inline_string(value@, field@, line_number as nat),
{
    match inline_toml_field(value, field, line_number) {
        Err(error) => Err(error),
        Ok(None) => Ok(None),
        Ok(Some(written)) => match parse_toml_string(trim(written), line_number) {
            Err(error) => Err(error),
            Ok(read) => Ok(Some(read)),
        },
    }
}

/// A character inside a basic string.
pub open spec fn written_char(c: char) -> Seq<char> {
    if c == '\\' || c == '"' {
        seq!['\\', c]
    } else if c == '\n' {
        seq!['\\', 'n']
    } else {
        seq![c]
    }
}

/// A text inside a basic string.
pub open spec fn written_inside(s: Seq<char>) -> Seq<char>
    decreases s.len(),
{
    if s.len() == 0 {
        seq![]
    } else {
        written_char(s[0]) + written_inside(s.skip(1))
    }
}

/// A text as a basic string on one line.
pub open spec fn written_string(s: Seq<char>) -> Seq<char> {
    seq!['"'] + written_inside(s) + seq!['"']
}

proof fn lemma_written_inside(s: Seq<char>, read: Seq<char>)
    ensures
        unescaped(written_inside(s), read) == Ok::<Seq<char>, Seq<char>>(read + s),
        forall|i: int| 0 <= i < written_inside(s).len() ==> written_inside(s)[i] != '\n',
    decreases s.len(),
{
    if s.len() == 0 {
        assert(read + s =~= read);
    } else {
        let rest = written_inside(s.skip(1));
        let written = written_inside(s);
        lemma_written_inside(s.skip(1), read.push(s[0]));
        if written_char(s[0]).len() == 2 {
            assert(written.skip(2) =~= rest);
        } else {
            assert(written.skip(1) =~= rest);
        }
        assert(read.push(s[0]) + s.skip(1) =~= read + s);
    }
}

/// Any text can be written as a string on one line, and reading the string gives the
/// text back.
pub proof fn written_strings_read_back(s: Seq<char>, line_number: nat)
    ensures
        string_of(written_string(s), line_number) == Ok::<Seq<char>, Seq<char>>(s),
        forall|i: int| 0 <= i < written_string(s).len() ==> written_string(s)[i] != '\n',
{
    lemma_written_inside(s, seq![]);
    assert(interior(written_string(s)) =~= written_inside(s));
    assert(Seq::<char>::empty() + s =~= s);
}

/// A key that is written as a string names the text.
pub proof fn written_keys_read_back(s: Seq<char>, line_number: nat)
    ensures
        key_of(written_string(s), line_number) == Ok::<Seq<char>, Seq<char>>(s),
{
    written_strings_read_back(s, line_number);
    assert(text::trimmed(written_string(s)) == written_string(s));
}

/// Inside the double quotes of a written string, scanning stays inside.
pub proof fn lemma_scan_inside(before: scanner::Lexed, s: Seq<char>, count: int)
    requires
        before.quote == Some('"'),
        !before.escaped,
        0 <= count <= written_inside(s).len(),
    ensures
        scanner::lexed_on(before, written_inside(s).take(count)).quote == Some('"'),
        scanner::lexed_on(before, written_inside(s)) == before,
    decreases s.len(),
{
    let all = written_inside(s);
    if s.len() == 0 {
        assert(all.take(count) =~= seq![]);
    } else {
        let first = written_char(s[0]);
        let rest = written_inside(s.skip(1));
        reveal_with_fuel(scanner::lexed_on, 3);
        assert(scanner::lexed_on(before, first) == before) by {
            assert(first.drop_last() =~= if first.len() == 2 {
                seq!['\\']
            } else {
                seq![]
            });
            assert(first.len() == 2 ==> seq!['\\'].drop_last() =~= Seq::<char>::empty());
        }
        scanner::lemma_lexed_twice(before, first, rest);
        if count >= first.len() {
            lemma_scan_inside(before, s.skip(1), count - first.len());
            assert(all.take(count) =~= first + rest.take(count - first.len()));
            scanner::lemma_lexed_twice(before, first, rest.take(count - first.len()));
        } else {
            lemma_scan_inside(before, s.skip(1), 0);
            assert(all.take(count) =~= if count == 1 {
                seq!['\\']
            } else {
                seq![]
            });
            assert(count == 1 ==> seq!['\\'].drop_last() =~= Seq::<char>::empty());
        }
    }
}

/// A written string behind text that leaves no quote open can be cut nowhere, and
/// leaves open what was open before it.
pub proof fn lemma_scan_written(front: Seq<char>, s: Seq<char>, back: Seq<char>)
    requires
        scanner::lexed(front).quote is None,
        !scanner::lexed(front).escaped,
    ensures
        scanner::lexed(front + written_string(s)) == scanner::lexed(front),
        forall|c: char, flat: bool, i: int|
            front.len() <= i < front.len() + written_string(s).len() && c != '"'
                ==> !#[trigger] scanner::cut_at(front + written_string(s) + back, c, flat, i),
{
    let before = scanner::lexed(front);
    let inside = written_inside(s);
    let opened = front.push('"');
    let state = scanner::Lexed { quote: Some('"'), ..before };
    let all = front + written_string(s) + back;
    assert(opened.drop_last() =~= front);
    assert(scanner::lexed(opened) == state);
    lemma_scan_inside(state, s, 0);
    scanner::lemma_lexed_on(opened, inside);
    let closed = opened + inside;
    assert((front + written_string(s)).drop_last() =~= closed);
    assert((front + written_string(s)).last() == '"');
    assert forall|c: char, flat: bool, i: int|
        front.len() <= i < front.len() + written_string(s).len() && c != '"' implies
        !#[trigger] scanner::cut_at(all, c, flat, i) by {
        if i == front.len() {
            assert(all[i] == '"');
        } else {
            let count = i - front.len() - 1;
            lemma_scan_inside(state, s, count);
            scanner::lemma_lexed_on(opened, inside.take(count));
            assert(all.take(i) =~= opened + inside.take(count));
        }
    }
}

/// In single quotes a text stands for itself.
pub proof fn literal_strings_stand_for_themselves(s: Seq<char>, line_number: nat)
    ensures
        string_of(seq!['\''] + s + seq!['\''], line_number) == Ok::<Seq<char>, Seq<char>>(s),
{
    let value = seq!['\''] + s + seq!['\''];
    assert(value[0] == '\'' && value.last() == '\'');
    assert(interior(value) =~= s);
}

/// A text without quotes around it is no string.
pub proof fn unquoted_texts_are_no_strings(value: Seq<char>, line_number: nat)
    requires
        value.len() < 2 || value[0] != value.last() || (value[0] != '"' && value[0] != '\''),
    ensures
        string_of(value, line_number) is Err,
{
}

/// The letters that may follow a backslash in double quotes, and what they stand for.
pub open spec fn escape_letters() -> Seq<(char, char)> {
    seq![
        ('b', '\u{0008}'),
        ('t', '\t'),
        ('n', '\n'),
        ('f', '\u{000c}'),
        ('r', '\r'),
        ('"', '"'),
        ('\\', '\\'),
    ]
}

/// What is read of a string goes on behind what was read before.
proof fn lemma_unescaped_behind(s: Seq<char>, before: Seq<char>, read: Seq<char>)
    ensures
        unescaped(s, before + read) == match unescaped(s, read) {
            Ok(more) => Ok(before + more),
            Err(e) => Err(e),
        },
    decreases s.len(),
{
    if s.len() > 0 {
        if s[0] != '\\' {
            assert((before + read).push(s[0]) =~= before + read.push(s[0]));
            lemma_unescaped_behind(s.skip(1), before, read.push(s[0]));
        } else if s.len() > 1 {
            if let Some(c) = escape_meaning(s[1]) {
                assert((before + read).push(c) =~= before + read.push(c));
                lemma_unescaped_behind(s.skip(2), before, read.push(c));
            }
        }
    }
}

/// In double quotes an escape stands for its character, and what follows is read as it
/// would be alone. An escape with any other letter is an error.
pub proof fn escapes_stand_for_their_character(
    letter: char,
    meant: char,
    rest: Seq<char>,
    read: Seq<char>,
    line_number: nat,
)
    ensures
        escape_letters().contains((letter, meant)) && string_of(
            seq!['"'] + rest + seq!['"'],
            line_number,
        ) == Ok::<Seq<char>, Seq<char>>(read) ==> string_of(
            seq!['"', '\\', letter] + rest + seq!['"'],
            line_number,
        ) == Ok::<Seq<char>, Seq<char>>(seq![meant] + read),
        (forall|c: char| !#[trigger] escape_letters().contains((letter, c))) ==> string_of(
            seq!['"', '\\', letter] + rest + seq!['"'],
            line_number,
        ) is Err,
{
    let none = Seq::<char>::empty();
    let short = seq!['"'] + rest + seq!['"'];
    let long = seq!['"', '\\', letter] + rest + seq!['"'];
    assert(short[0] == '"' && short.last() == '"' && long[0] == '"' && long.last() == '"');
    assert(interior(short) =~= rest);
    assert(interior(long) =~= seq!['\\', letter] + rest);
    assert((seq!['\\', letter] + rest).skip(2) =~= rest);
    let letters = escape_letters();
    if letters.contains((letter, meant)) {
        let i = choose|i: int| 0 <= i < letters.len() && letters[i] == (letter, meant);
        assert(0 <= i < 7);
        assert(escape_meaning(letter) == Some(meant));
        assert(none.push(meant) =~= seq![meant] + none);
        lemma_unescaped_behind(rest, seq![meant], none);
    }
    if forall|c: char| !#[trigger] letters.contains((letter, c)) {
        assert(letters[0] == ('b', '\u{0008}') && letters[1] == ('t', '\t') && letters[2] == (
            'n',
            '\n',
        ) && letters[3] == ('f', '\u{000c}') && letters[4] == ('r', '\r') && letters[5] == (
            '"',
            '"',
        ) && letters[6] == ('\\', '\\'));
        if let Some(c) = escape_meaning(letter) {
            assert(letters.contains((letter, c)));
        }
    }
}

} // verus!
