//! Text as sequences of characters: whitespace, trimming, lines and numbers.

use vstd::prelude::*;
use vstd::string::*;

verus! {

/// The characters with the Unicode property `White_Space`.
pub open spec fn white_space(c: char) -> bool {
    let u = c as u32;
    ||| 0x9 <= u <= 0xd
    ||| u == 0x20
    ||| u == 0x85
    ||| u == 0xa0
    ||| u == 0x1680
    ||| 0x2000 <= u <= 0x200a
    ||| u == 0x2028
    ||| u == 0x2029
    ||| u == 0x202f
    ||| u == 0x205f
    ||| u == 0x3000
}

/// Tells whether `c` is whitespace.
pub fn is_whitespace(c: char) -> (found: bool)
    ensures
        found == white_space(c),
{
    let u: u32 = c as u32;
    (0x9 <= u && u <= 0xd) || u == 0x20 || u == 0x85 || u == 0xa0 || u == 0x1680 || (0x2000 <= u
        && u <= 0x200a) || u == 0x2028 || u == 0x2029 || u == 0x202f || u == 0x205f || u == 0x3000
}

/// The characters of `s`, in order.
pub fn characters(s: &str) -> (chars: Vec<char>)
    ensures
        chars@ == s@,
{
    let mut chars: Vec<char> = Vec::new();
    for c in it: s.chars()
        invariant
            chars@ == it.seq().take(it.index() as int),
            it.seq() == s@,
    {
        chars.push(c);
    }
    chars
}

/// Tells whether two texts hold the same characters.
pub fn same_text(a: &str, b: &str) -> (same: bool)
    ensures
        same == (a@ == b@),
{
    let xs = characters(a);
    let ys = characters(b);
    if xs.len() != ys.len() {
        return false;
    }
    for i in 0..xs.len()
        invariant
            xs@ == a@,
            ys@ == b@,
            xs.len() == ys.len(),
            forall|j: int| 0 <= j < i ==> xs@[j] == ys@[j],
    {
        if xs[i] != ys[i] {
            return false;
        }
    }
    assert(a@ =~= b@);
    true
}

/// A text without the whitespace in front.
pub open spec fn trimmed_start(s: Seq<char>) -> Seq<char>
    decreases s.len(),
{
    if s.len() > 0 && white_space(s[0]) {
        trimmed_start(s.skip(1))
    } else {
        s
    }
}

/// A text without the whitespace at its end.
pub open spec fn trimmed_end(s: Seq<char>) -> Seq<char>
    decreases s.len(),
{
    if s.len() > 0 && white_space(s.last()) {
        trimmed_end(s.drop_last())
    } else {
        s
    }
}

/// The text without leading and trailing whitespace.
pub open spec fn trimmed(s: Seq<char>) -> Seq<char> {
    trimmed_end(trimmed_start(s))
}

/// Trimming only takes characters away.
pub proof fn lemma_trimmed_len(s: Seq<char>)
    ensures
        trimmed(s).len() <= s.len(),
{
    lemma_trimmed_start_len(s);
    lemma_trimmed_end_len(trimmed_start(s));
}

proof fn lemma_trimmed_start_len(s: Seq<char>)
    ensures
        trimmed_start(s).len() <= s.len(),
    decreases s.len(),
{
    if s.len() > 0 {
        lemma_trimmed_start_len(s.skip(1));
    }
}

proof fn lemma_trimmed_end_len(s: Seq<char>)
    ensures
        trimmed_end(s).len() <= s.len(),
    decreases s.len(),
{
    if s.len() > 0 {
        lemma_trimmed_end_len(s.drop_last());
    }
}

/// The text without leading and trailing whitespace.
pub fn trim(s: &str) -> (t: &str)
    ensures
        t@ == trimmed(s@),
{
    let chars = characters(s);
    let mut from: usize = 0;
    assert(s@.skip(0) =~= s@);
    while from < chars.len() && is_whitespace(chars[from])
        invariant
            chars@ == s@,
            from <= chars.len(),
            trimmed_start(s@) == trimmed_start(s@.skip(from as int)),
        decreases chars.len() - from,
    {
        assert(s@.skip(from as int).skip(1) =~= s@.skip(from as int + 1));
        from += 1;
    }
    assert(trimmed_start(s@) == s@.skip(from as int));
    let mut to: usize = chars.len();
    assert(s@.skip(from as int) =~= s@.subrange(from as int, to as int));
    while to > from && is_whitespace(chars[to - 1])
        invariant
            chars@ == s@,
            from <= to <= chars.len(),
            trimmed(s@) == trimmed_end(s@.subrange(from as int, to as int)),
        decreases to,
    {
        assert(s@.subrange(from as int, to as int).drop_last() =~= s@.subrange(
            from as int,
            to - 1,
        ));
        to -= 1;
    }
    s.substring_char(from, to)
}

/// The text without trailing whitespace.
pub fn trim_end(s: &str) -> (t: &str)
    ensures
        t@ == trimmed_end(s@),
{
    let chars = characters(s);
    let mut to: usize = chars.len();
    assert(s@ =~= s@.take(to as int));
    while to > 0 && is_whitespace(chars[to - 1])
        invariant
            chars@ == s@,
            to <= chars.len(),
            trimmed_end(s@) == trimmed_end(s@.take(to as int)),
        decreases to,
    {
        assert(s@.take(to as int).drop_last() =~= s@.take(to - 1));
        to -= 1;
    }
    assert(s@.take(to as int) =~= s@.subrange(0, to as int));
    s.substring_char(0, to)
}

/// The string made of the characters of `chars` from `from` up to `to`.
pub fn text_of(chars: &Vec<char>, from: usize, to: usize) -> (text: String)
    requires
        from <= to <= chars.len(),
    ensures
        text@ == chars@.subrange(from as int, to as int),
{
    let mut text = String::new();
    for i in from..to
        invariant
            from <= i <= to <= chars.len(),
            text@ == chars@.subrange(from as int, i as int),
    {
        assert(chars@.subrange(from as int, i + 1) =~= chars@.subrange(
            from as int,
            i as int,
        ).push(chars@[i as int]));
        text.push(chars[i]);
    }
    text
}

/// The concatenation of two texts.
pub fn concat2(a: &str, b: &str) -> (text: String)
    ensures
        text@ == a@ + b@,
{
    let mut text = a.to_owned();
    text.append(b);
    text
}

/// The concatenation of three texts.
pub fn concat3(a: &str, b: &str, c: &str) -> (text: String)
    ensures
        text@ == a@ + b@ + c@,
{
    let mut text = a.to_owned();
    text.append(b);
    text.append(c);
    text
}

/// The first position of `c` in `s`, or the length of `s` when there is none.
pub open spec fn position(s: Seq<char>, c: char) -> nat
    decreases s.len(),
{
    if s.len() == 0 || s[0] == c {
        0
    } else {
        1 + position(s.skip(1), c)
    }
}

/// The first occurrence is the position.
pub proof fn lemma_position(s: Seq<char>, c: char, i: int)
    requires
        0 <= i <= s.len(),
        i < s.len() ==> s[i] == c,
        forall|j: int| 0 <= j < i ==> s[j] != c,
    ensures
        position(s, c) == i,
    decreases s.len(),
{
    if i > 0 {
        lemma_position(s.skip(1), c, i - 1);
    }
}

/// The pieces of `s` between the occurrences of `c`.
pub open spec fn split_on(s: Seq<char>, c: char) -> Seq<Seq<char>>
    decreases s.len(),
{
    let p = position(s, c) as int;
    if p >= s.len() {
        seq![s]
    } else {
        seq![s.take(p)] + split_on(s.skip(p + 1), c)
    }
}

/// The pieces of `s` between the occurrences of `c`.
pub fn split(s: &str, c: char) -> (parts: Vec<String>)
    ensures
        parts.deep_view() == split_on(s@, c),
{
    let chars = characters(s);
    let mut parts: Vec<String> = Vec::new();
    let mut start: usize = 0;
    let mut i: usize = 0;
    assert(s@.skip(0) =~= s@);
    assert(parts.deep_view() + split_on(s@.skip(0), c) =~= split_on(s@, c));
    while i < chars.len()
        invariant
            chars@ == s@,
            start <= i <= chars.len(),
            forall|j: int| start <= j < i ==> s@[j] != c,
            parts.deep_view() + split_on(s@.skip(start as int), c) == split_on(s@, c),
        decreases chars.len() - i,
    {
        if chars[i] == c {
            let ghost before = parts.deep_view();
            proof {
                let rest = s@.skip(start as int);
                lemma_position(rest, c, i - start);
                assert(rest.take(i - start) =~= s@.subrange(start as int, i as int));
                assert(rest.skip(i - start + 1) =~= s@.skip(i + 1));
            }
            parts.push(text_of(&chars, start, i));
            assert(parts.deep_view() =~= before.push(s@.subrange(start as int, i as int)));
            assert(parts.deep_view() + split_on(s@.skip(i + 1), c) =~= before + split_on(
                s@.skip(start as int),
                c,
            ));
            start = i + 1;
        }
        i += 1;
    }
    let ghost before = parts.deep_view();
    proof {
        let rest = s@.skip(start as int);
        lemma_position(rest, c, rest.len() as int);
        assert(rest =~= s@.subrange(start as int, i as int));
    }
    parts.push(text_of(&chars, start, i));
    assert(parts.deep_view() =~= before + seq![s@.skip(start as int)]);
    parts
}

/// A line without the carriage return that may stand before its line feed.
pub open spec fn without_return(line: Seq<char>) -> Seq<char> {
    if line.len() > 0 && line.last() == '\r' {
        line.drop_last()
    } else {
        line
    }
}

/// The lines of a text. A line ends with a line feed or with a carriage return
/// and a line feed, neither of which is part of it; the last line needs no end.
pub open spec fn lines_of(s: Seq<char>) -> Seq<Seq<char>>
    decreases s.len(),
{
    let p = position(s, '\n') as int;
    if s.len() == 0 {
        seq![]
    } else if p >= s.len() {
        seq![s]
    } else {
        seq![without_return(s.take(p))] + lines_of(s.skip(p + 1))
    }
}

/// The lines fit into the text: with any one of them, counted by its characters,
/// they make up no more than the text and one missing line end.
pub proof fn lemma_lines_fit(s: Seq<char>)
    ensures
        lines_of(s).len() <= s.len(),
        forall|i: int|
            0 <= i < lines_of(s).len() ==> lines_of(s).len() + (#[trigger] lines_of(s)[i]).len()
                <= s.len() + 1,
    decreases s.len(),
{
    let p = position(s, '\n') as int;
    if 0 < s.len() && p < s.len() {
        let rest = s.skip(p + 1);
        lemma_lines_fit(rest);
        let all = lines_of(s);
        assert forall|i: int| 0 <= i < all.len() implies all.len() + (#[trigger] all[i]).len()
            <= s.len() + 1 by {
            if i > 0 {
                assert(all[i] == lines_of(rest)[i - 1]);
            }
        }
    }
}

/// What `position` finds is the first occurrence.
pub proof fn lemma_position_first(s: Seq<char>, c: char)
    ensures
        position(s, c) <= s.len(),
        position(s, c) < s.len() ==> s[position(s, c) as int] == c,
        forall|j: int| 0 <= j < position(s, c) ==> s[j] != c,
    decreases s.len(),
{
    if s.len() > 0 && s[0] != c {
        let rest = s.skip(1);
        lemma_position_first(rest, c);
        assert forall|j: int| 0 <= j < position(s, c) implies s[j] != c by {
            if j > 0 {
                assert(s[j] == rest[j - 1]);
            }
        }
    }
}

/// A line in front of a text.
pub proof fn lemma_line_in_front(line: Seq<char>, rest: Seq<char>)
    requires
        forall|j: int| 0 <= j < line.len() ==> line[j] != '\n',
    ensures
        lines_of(line + seq!['\n'] + rest) == seq![without_return(line)] + lines_of(rest),
{
    let s = line + seq!['\n'] + rest;
    lemma_position(s, '\n', line.len() as int);
    assert(s.take(line.len() as int) =~= line);
    assert(s.skip(line.len() as int + 1) =~= rest);
}

/// Text that ends with a line's end has its lines in front of those of what follows.
pub proof fn lemma_lines_together(first: Seq<char>, second: Seq<char>)
    requires
        first.len() == 0 || first.last() == '\n',
    ensures
        lines_of(first + second) == lines_of(first) + lines_of(second),
    decreases first.len(),
{
    if first.len() == 0 {
        assert(first + second =~= second);
        assert(lines_of(first) + lines_of(second) =~= lines_of(second));
    } else {
        let p = position(first, '\n') as int;
        lemma_position_first(first, '\n');
        assert(p < first.len());
        let line = first.take(p);
        let rest = first.skip(p + 1);
        assert(first =~= line + seq!['\n'] + rest);
        assert(first + second =~= line + seq!['\n'] + (rest + second));
        lemma_line_in_front(line, rest);
        lemma_line_in_front(line, rest + second);
        assert(rest.len() > 0 ==> rest.last() == first.last());
        lemma_lines_together(rest, second);
        assert(seq![without_return(line)] + (lines_of(rest) + lines_of(second)) =~= seq![
            without_return(line),
        ] + lines_of(rest) + lines_of(second));
    }
}

/// The lines of a text, without their ends.
pub fn lines(s: &str) -> (found: Vec<String>)
    ensures
        found.deep_view() == lines_of(s@),
{
    let chars = characters(s);
    let mut found: Vec<String> = Vec::new();
    let mut start: usize = 0;
    let mut i: usize = 0;
    assert(s@.skip(0) =~= s@);
    assert(found.deep_view() + lines_of(s@.skip(0)) =~= lines_of(s@));
    while i < chars.len()
        invariant
            chars@ == s@,
            start <= i <= chars.len(),
            forall|j: int| start <= j < i ==> s@[j] != '\n',
            found.deep_view() + lines_of(s@.skip(start as int)) == lines_of(s@),
        decreases chars.len() - i,
    {
        if chars[i] == '\n' {
            let ghost before = found.deep_view();
            let ghost line = s@.subrange(start as int, i as int);
            proof {
                let rest = s@.skip(start as int);
                lemma_position(rest, '\n', i - start);
                assert(rest.take(i - start) =~= line);
                assert(rest.skip(i - start + 1) =~= s@.skip(i + 1));
                assert(line.len() > 0 ==> line.drop_last() =~= s@.subrange(start as int, i - 1));
            }
            if start < i && chars[i - 1] == '\r' {
                found.push(text_of(&chars, start, i - 1));
            } else {
                found.push(text_of(&chars, start, i));
            }
            assert(found.deep_view() =~= before.push(without_return(line)));
            assert(found.deep_view() + lines_of(s@.skip(i + 1)) =~= before + lines_of(
                s@.skip(start as int),
            ));
            start = i + 1;
        }
        i += 1;
    }
    if start < chars.len() {
        let ghost before = found.deep_view();
        proof {
            let rest = s@.skip(start as int);
            lemma_position(rest, '\n', rest.len() as int);
            assert(rest =~= s@.subrange(start as int, i as int));
        }
        found.push(text_of(&chars, start, i));
        assert(found.deep_view() =~= before + seq![s@.skip(start as int)]);
    } else {
        assert(found.deep_view() + lines_of(s@.skip(start as int)) =~= found.deep_view());
    }
    found
}

/// The texts of `parts` in order, with `separator` between neighbours.
pub open spec fn joined(parts: Seq<Seq<char>>, separator: Seq<char>) -> Seq<char>
    decreases parts.len(),
{
    if parts.len() == 0 {
        seq![]
    } else if parts.len() == 1 {
        parts[0]
    } else {
        joined(parts.drop_last(), separator) + separator + parts.last()
    }
}

/// The texts of `parts` in order, with `separator` between neighbours.
pub fn join(parts: &Vec<String>, separator: &str) -> (text: String)
    ensures
        text@ == joined(parts.deep_view(), separator@),
{
    let mut text = String::new();
    let ghost all = parts.deep_view();
    for i in 0..parts.len()
        invariant
            all == parts.deep_view(),
            text@ == joined(all.take(i as int), separator@),
    {
        assert(all.take(i + 1).drop_last() =~= all.take(i as int));
        assert(all.take(i + 1).last() == parts@[i as int]@);
        if i > 0 {
            text.append(separator);
        }
        text.append(parts[i].as_str());
        assert(i == 0 ==> text@ =~= parts@[0]@);
    }
    assert(all.take(parts.len() as int) =~= all);
    text
}

/// The decimal digit of a number below ten.
pub open spec fn digit(d: nat) -> char {
    (48 + d) as char
}

/// The decimal notation of a number.
pub open spec fn decimal(n: nat) -> Seq<char>
    decreases n,
{
    if n < 10 {
        seq![digit(n)]
    } else {
        decimal(n / 10).push(digit(n % 10))
    }
}

/// The decimal notation of a number.
pub fn format_decimal(n: usize) -> (text: String)
    ensures
        text@ == decimal(n as nat),
    decreases n,
{
    let mut text = if n < 10 {
        String::new()
    } else {
        format_decimal(n / 10)
    };
    let d: u8 = (n % 10) as u8;
    text.push((48 + d) as char);
    assert(n < 10 ==> text@ =~= seq![digit(n as nat)]);
    text
}

/// An error about one line of a file.
pub open spec fn line_fault(line_number: nat, message: Seq<char>) -> Seq<char> {
    "line "@ + decimal(line_number) + ": "@ + message
}

/// An error about one line of a file.
pub fn line_error(line_number: usize, message: &str) -> (text: String)
    ensures
        text@ == line_fault(line_number as nat, message@),
{
    let mut text = "line ".to_owned();
    text.append(format_decimal(line_number).as_str());
    text.append(": ");
    text.append(message);
    text
}

/// A result with the contents of the texts in it.
pub open spec fn outcome<T: DeepView>(r: Result<T, String>) -> Result<T::V, Seq<char>> {
    match r {
        Ok(v) => Ok(v.deep_view()),
        Err(e) => Err(e@),
    }
}

/// Whether a text begins with another.
pub open spec fn begins(s: Seq<char>, start: Seq<char>) -> bool {
    s.len() >= start.len() && s.take(start.len() as int) == start
}

/// Whether a text ends with another.
pub open spec fn ends(s: Seq<char>, end: Seq<char>) -> bool {
    s.len() >= end.len() && s.skip(s.len() - end.len()) == end
}

/// Tells whether a text begins with another.
pub fn starts_with(s: &str, start: &str) -> (found: bool)
    ensures
        found == begins(s@, start@),
{
    let length: usize = start.unicode_len();
    if s.unicode_len() < length {
        return false;
    }
    assert(s@.take(length as int) =~= s@.subrange(0, length as int));
    same_text(s.substring_char(0, length), start)
}

/// Tells whether a text ends with another.
pub fn ends_with(s: &str, end: &str) -> (found: bool)
    ensures
        found == ends(s@, end@),
{
    let total: usize = s.unicode_len();
    let length: usize = end.unicode_len();
    if total < length {
        return false;
    }
    assert(s@.skip(total - length) =~= s@.subrange(total - length, total as int));
    same_text(s.substring_char(total - length, total), end)
}

/// What a file means that is read line by line: `step` takes what the lines
/// before mean, a line and its number, and the first error ends the reading.
pub open spec fn read_lines<S>(
    lines: Seq<Seq<char>>,
    start: S,
    step: spec_fn(S, Seq<char>, nat) -> Result<S, Seq<char>>,
) -> Result<S, Seq<char>>
    decreases lines.len(),
{
    if lines.len() == 0 {
        Ok(start)
    } else {
        match read_lines(lines.drop_last(), start, step) {
            Err(e) => Err(e),
            Ok(before) => step(before, lines.last(), lines.len()),
        }
    }
}

/// One more line.
pub proof fn lemma_read_line<S>(
    lines: Seq<Seq<char>>,
    count: int,
    start: S,
    step: spec_fn(S, Seq<char>, nat) -> Result<S, Seq<char>>,
)
    requires
        0 <= count < lines.len(),
    ensures
        read_lines(lines.take(count + 1), start, step) == match read_lines(
            lines.take(count),
            start,
            step,
        ) {
            Err(e) => Err(e),
            Ok(before) => step(before, lines[count], (count + 1) as nat),
        },
{
    assert(lines.take(count + 1).drop_last() =~= lines.take(count));
}

/// An error in the first lines is the error of the whole file.
pub proof fn lemma_read_fault<S>(
    lines: Seq<Seq<char>>,
    count: int,
    start: S,
    step: spec_fn(S, Seq<char>, nat) -> Result<S, Seq<char>>,
)
    requires
        0 <= count <= lines.len(),
        read_lines(lines.take(count), start, step) is Err,
    ensures
        read_lines(lines, start, step) == read_lines(lines.take(count), start, step),
    decreases lines.len(),
{
    if count < lines.len() {
        assert(lines.drop_last().take(count) =~= lines.take(count));
        lemma_read_fault(lines.drop_last(), count, start, step);
    } else {
        assert(lines.take(count) =~= lines);
    }
}

} // verus!
