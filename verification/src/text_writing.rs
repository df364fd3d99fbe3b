//! Writing lines, lists and numbers, and that what is written can be read.

use vstd::prelude::*;

use crate::scanner;
use crate::text;

verus! {

/// Lines, each followed by an end.
pub open spec fn lines_text(lines: Seq<Seq<char>>, end: Seq<char>) -> Seq<char>
    decreases lines.len(),
{
    if lines.len() == 0 {
        seq![]
    } else {
        lines_text(lines.drop_last(), end) + lines.last() + end
    }
}

/// Whether a text can stand on one line.
pub open spec fn is_line(line: Seq<char>) -> bool {
    &&& forall|j: int| 0 <= j < line.len() ==> line[j] != '\n'
    &&& line.len() > 0 ==> line.last() != '\r'
}

/// Lines read back as they were written, whether a line feed ends each of them or a
/// carriage return and a line feed.
pub proof fn written_lines_read_back(lines: Seq<Seq<char>>, end: Seq<char>)
    requires
        end == seq!['\n'] || end == seq!['\r', '\n'],
        forall|i: int| 0 <= i < lines.len() ==> is_line(#[trigger] lines[i]),
    ensures
        text::lines_of(lines_text(lines, end)) == lines,
        lines.len() > 0 ==> lines_text(lines, end).len() > 0 && lines_text(lines, end).last()
            == '\n',
    decreases lines.len(),
{
    let none = Seq::<char>::empty();
    assert(text::lines_of(none) =~= seq![]);
    if lines.len() == 0 {
        assert(lines =~= seq![]);
    } else {
        let front = lines.drop_last();
        let line = lines.last();
        assert(is_line(lines[lines.len() - 1]));
        written_lines_read_back(front, end);
        let first = lines_text(front, end);
        assert(lines_text(lines, end) =~= first + (line + end));
        text::lemma_lines_together(first, line + end);
        if end == seq!['\n'] {
            assert(line + end =~= line + seq!['\n'] + none);
            text::lemma_line_in_front(line, none);
        } else {
            let returned = line.push('\r');
            assert(line + end =~= returned + seq!['\n'] + none);
            text::lemma_line_in_front(returned, none);
            assert(returned.drop_last() =~= line);
        }
        assert(text::lines_of(line + end) =~= seq![line]);
        assert(front + seq![line] =~= lines);
    }
}

/// A last line without an end is read as well.
pub proof fn last_lines_need_no_end(text: Seq<char>, line: Seq<char>)
    requires
        text.len() == 0 || text.last() == '\n',
        line.len() > 0,
        forall|j: int| 0 <= j < line.len() ==> line[j] != '\n',
    ensures
        text::lines_of(text + line) == text::lines_of(text).push(line),
{
    text::lemma_lines_together(text, line);
    text::lemma_position(line, '\n', line.len() as int);
    assert(text::lines_of(line) =~= seq![line]);
}

/// Reading goes on behind lines that were read.
pub proof fn lemma_read_line_more<S>(
    lines: Seq<Seq<char>>,
    line: Seq<char>,
    start: S,
    step: spec_fn(S, Seq<char>, nat) -> Result<S, Seq<char>>,
)
    ensures
        text::read_lines(lines.push(line), start, step) == match text::read_lines(
            lines,
            start,
            step,
        ) {
            Err(e) => Err(e),
            Ok(before) => step(before, line, lines.len() + 1),
        },
{
    assert(lines.push(line).drop_last() =~= lines);
}

/// Lines that change nothing may follow lines that were read.
pub proof fn lemma_read_unchanged<S>(
    lines: Seq<Seq<char>>,
    more: Seq<Seq<char>>,
    start: S,
    step: spec_fn(S, Seq<char>, nat) -> Result<S, Seq<char>>,
    state: S,
)
    requires
        text::read_lines(lines, start, step) == Ok::<S, Seq<char>>(state),
        forall|i: int, n: nat|
            0 <= i < more.len() ==> #[trigger] step(state, more[i], n) == Ok::<S, Seq<char>>(
                state,
            ),
    ensures
        text::read_lines(lines + more, start, step) == Ok::<S, Seq<char>>(state),
    decreases more.len(),
{
    if more.len() == 0 {
        assert(lines + more =~= lines);
    } else {
        let front = more.drop_last();
        assert forall|i: int, n: nat| 0 <= i < front.len() implies #[trigger] step(
            state,
            front[i],
            n,
        ) == Ok::<S, Seq<char>>(state) by {
            assert(front[i] == more[i]);
        }
        lemma_read_unchanged(lines, front, start, step, state);
        let n = (lines + front).len() + 1;
        assert(lines + more =~= (lines + front).push(more[more.len() - 1]));
        lemma_read_line_more(lines + front, more.last(), start, step);
        assert(step(state, more[more.len() - 1], n) == Ok::<S, Seq<char>>(state));
    }
}

/// Whether a text is made of white space.
pub open spec fn blank(s: Seq<char>) -> bool {
    forall|i: int| 0 <= i < s.len() ==> text::white_space(#[trigger] s[i])
}

/// Trimming takes off the white space around a text, and nothing else.
pub proof fn surrounding_white_space_is_trimmed(front: Seq<char>, s: Seq<char>, back: Seq<char>)
    requires
        blank(front),
        blank(back),
        s.len() > 0 ==> !text::white_space(s[0]) && !text::white_space(s.last()),
    ensures
        text::trimmed(front + s + back) == s,
        s.len() > 0 ==> text::trimmed_start(front + s + back) == s + back,
        text::trimmed_end(s + back) == s,
    decreases front.len() + back.len(),
{
    lemma_trimmed_end(s, back);
    if front.len() > 0 {
        let all = front + s + back;
        assert(all[0] == front[0]);
        assert(all.skip(1) =~= front.skip(1) + s + back);
        assert forall|i: int| 0 <= i < front.skip(1).len() implies text::white_space(
            #[trigger] front.skip(1)[i],
        ) by {
            assert(front.skip(1)[i] == front[i + 1]);
        }
        surrounding_white_space_is_trimmed(front.skip(1), s, back);
    } else {
        assert(front + s + back =~= s + back);
        if s.len() > 0 {
            assert((s + back)[0] == s[0]);
        } else {
            lemma_trimmed_blank(s + back);
        }
    }
}

proof fn lemma_trimmed_end(s: Seq<char>, back: Seq<char>)
    requires
        blank(back),
        s.len() > 0 ==> !text::white_space(s.last()),
    ensures
        text::trimmed_end(s + back) == s,
    decreases back.len(),
{
    if back.len() > 0 {
        assert((s + back).last() == back[back.len() - 1]);
        assert((s + back).drop_last() =~= s + back.drop_last());
        assert forall|i: int| 0 <= i < back.drop_last().len() implies text::white_space(
            #[trigger] back.drop_last()[i],
        ) by {
            assert(back.drop_last()[i] == back[i]);
        }
        lemma_trimmed_end(s, back.drop_last());
    } else {
        assert(s + back =~= s);
    }
}

proof fn lemma_trimmed_blank(s: Seq<char>)
    requires
        blank(s),
    ensures
        text::trimmed(s) == Seq::<char>::empty(),
    decreases s.len(),
{
    if s.len() > 0 {
        assert forall|i: int| 0 <= i < s.skip(1).len() implies text::white_space(
            #[trigger] s.skip(1)[i],
        ) by {
            assert(s.skip(1)[i] == s[i + 1]);
        }
        assert(text::white_space(s[0]));
        lemma_trimmed_blank(s.skip(1));
    } else {
        assert(s =~= seq![]);
    }
}

/// Every text is a trimmed text with white space around it.
pub proof fn lemma_trimmed_parts(s: Seq<char>) -> (parts: (Seq<char>, Seq<char>))
    ensures
        blank(parts.0),
        blank(parts.1),
        s == parts.0 + text::trimmed(s) + parts.1,
        text::trimmed(s).len() > 0 ==> !text::white_space(text::trimmed(s)[0])
            && !text::white_space(text::trimmed(s).last()),
    decreases s.len(),
{
    let none = Seq::<char>::empty();
    if s.len() > 0 && text::white_space(s[0]) {
        let (front, back) = lemma_trimmed_parts(s.skip(1));
        assert(text::trimmed(s) == text::trimmed(s.skip(1)));
        assert(s =~= seq![s[0]] + s.skip(1));
        assert(s =~= (seq![s[0]] + front) + text::trimmed(s) + back);
        assert forall|i: int| 0 <= i < (seq![s[0]] + front).len() implies text::white_space(
            #[trigger] (seq![s[0]] + front)[i],
        ) by {
            if i > 0 {
                assert((seq![s[0]] + front)[i] == front[i - 1]);
            }
        }
        (seq![s[0]] + front, back)
    } else if s.len() > 0 && text::white_space(s.last()) {
        let short = s.drop_last();
        let (front, back) = lemma_trimmed_parts(short);
        assert(text::trimmed_start(s) == s);
        assert(short.len() > 0);
        assert(short[0] == s[0]);
        assert(text::trimmed_start(short) == short);
        assert(text::trimmed(s) == text::trimmed(short));
        assert(s =~= short.push(s.last()));
        assert(s =~= front + text::trimmed(s) + back.push(s.last()));
        assert forall|i: int| 0 <= i < back.push(s.last()).len() implies text::white_space(
            #[trigger] back.push(s.last())[i],
        ) by {
            if i < back.len() {
                assert(back.push(s.last())[i] == back[i]);
            }
        }
        (front, back.push(s.last()))
    } else {
        assert(s =~= none + s + none);
        (none, none)
    }
}

/// Parts without a separator read back as they were joined with it.
pub proof fn joined_parts_split_again(parts: Seq<Seq<char>>, c: char)
    requires
        parts.len() > 0,
        forall|i: int, j: int|
            0 <= i < parts.len() && 0 <= j < parts[i].len() ==> #[trigger] parts[i][j] != c,
    ensures
        text::split_on(text::joined(parts, seq![c]), c) == parts,
    decreases parts.len(),
{
    let last = parts.last();
    assert forall|j: int| 0 <= j < last.len() implies last[j] != c by {
        assert(last[j] == parts[parts.len() - 1][j]);
    }
    text::lemma_position(last, c, last.len() as int);
    assert(text::split_on(last, c) == seq![last]);
    if parts.len() == 1 {
        assert(parts =~= seq![last]);
    } else {
        let front = parts.drop_last();
        assert forall|i: int, j: int|
            0 <= i < front.len() && 0 <= j < front[i].len() implies #[trigger] front[i][j]
            != c by {
            assert(front[i][j] == parts[i][j]);
        }
        joined_parts_split_again(front, c);
        lemma_split_more(text::joined(front, seq![c]), last, c);
        assert(front.push(last) =~= parts);
    }
}

/// A part behind a separator is one more part.
pub proof fn lemma_split_more(s: Seq<char>, last: Seq<char>, c: char)
    requires
        text::split_on(last, c) == seq![last],
    ensures
        text::split_on(s + seq![c] + last, c) == text::split_on(s, c).push(last),
    decreases s.len(),
{
    let all = s + seq![c] + last;
    let p = text::position(s, c) as int;
    text::lemma_position_first(s, c);
    assert(all[s.len() as int] == c);
    text::lemma_position(all, c, p);
    assert(all.take(p) =~= s.take(p));
    if p < s.len() {
        assert(all.skip(p + 1) =~= s.skip(p + 1) + seq![c] + last);
        lemma_split_more(s.skip(p + 1), last, c);
        assert(text::split_on(all, c) =~= text::split_on(s, c).push(last));
    } else {
        assert(s.take(p) =~= s);
        assert(all.skip(p + 1) =~= last);
        assert(text::split_on(all, c) =~= text::split_on(s, c).push(last));
    }
}

/// The number that decimal digits stand for.
pub open spec fn number_of(digits: Seq<char>) -> nat
    decreases digits.len(),
{
    if digits.len() == 0 {
        0
    } else {
        (10 * number_of(digits.drop_last()) + (digits.last() as u32 - '0' as u32)) as nat
    }
}

/// A number reads back from its decimal notation, which is made of digits and begins
/// with a zero for the number zero only.
pub proof fn decimal_notations_read_back(n: nat)
    ensures
        number_of(text::decimal(n)) == n,
        text::decimal(n).len() > 0,
        forall|i: int| 0 <= i < text::decimal(n).len() ==> '0' <= #[trigger] text::decimal(n)[i]
            <= '9',
        text::decimal(n)[0] == '0' ==> n == 0,
    decreases n,
{
    reveal_with_fuel(number_of, 2);
    if n < 10 {
        assert(text::decimal(n).drop_last() =~= seq![]);
        lemma_digit(n);
    } else {
        decimal_notations_read_back(n / 10);
        let front = text::decimal(n / 10);
        assert(text::decimal(n).drop_last() =~= front);
        assert(text::decimal(n)[0] == front[0]);
        lemma_digit(n % 10);
        assert forall|i: int| 0 <= i < text::decimal(n).len() implies '0' <= #[trigger] text::decimal(
            n,
        )[i] <= '9' by {
            if i < front.len() {
                assert(text::decimal(n)[i] == front[i]);
            }
        }
    }
}

proof fn lemma_digit(d: nat)
    requires
        d < 10,
    ensures
        text::digit(d) as u32 - '0' as u32 == d,
        '0' <= text::digit(d) <= '9',
        text::digit(d) == '0' ==> d == 0,
{
}

/// A text begins with what stands in front of the rest of it, and ends with what stands
/// behind the rest of it.
pub proof fn texts_begin_and_end(front: Seq<char>, back: Seq<char>, s: Seq<char>)
    ensures
        text::begins(front + back, front),
        text::ends(front + back, back),
        text::begins(s, front) ==> s == front + s.skip(front.len() as int),
        text::ends(s, back) ==> s == s.take(s.len() - back.len()) + back,
{
    let all = front + back;
    assert(all.take(front.len() as int) =~= front);
    assert(all.skip(all.len() - back.len()) =~= back);
    if text::begins(s, front) {
        assert(s =~= s.take(front.len() as int) + s.skip(front.len() as int));
    }
    if text::ends(s, back) {
        assert(s =~= s.take(s.len() - back.len()) + s.skip(s.len() - back.len()));
    }
}

/// Of the ASCII characters, the blank, the tabs, the form feed and the ends of lines are
/// white space.
pub proof fn ascii_white_space(c: char)
    requires
        (c as u32) < 0x80,
    ensures
        text::white_space(c) <==> c == ' ' || c == '\t' || c == '\n' || c == '\u{000b}' || c
            == '\u{000c}' || c == '\r',
{
}

/// An error about a line begins with its number.
pub proof fn faults_name_their_line(line_number: nat, message: Seq<char>)
    ensures
        text::line_fault(line_number, message) == seq!['l', 'i', 'n', 'e', ' '] + text::decimal(
            line_number,
        ) + seq![':', ' '] + message,
{
    reveal_strlit("line ");
    reveal_strlit(": ");
    assert("line "@ =~= seq!['l', 'i', 'n', 'e', ' ']);
    assert(": "@ =~= seq![':', ' ']);
}

/// A part in front of joined parts.
proof fn lemma_joined_front(first: Seq<char>, rest: Seq<Seq<char>>, separator: Seq<char>)
    requires
        rest.len() > 0,
    ensures
        text::joined(seq![first] + rest, separator) == first + separator + text::joined(
            rest,
            separator,
        ),
    decreases rest.len(),
{
    let all = seq![first] + rest;
    if rest.len() == 1 {
        assert(all.drop_last() =~= seq![first]);
        assert(text::joined(seq![first], separator) == first);
    } else {
        assert(all.drop_last() =~= seq![first] + rest.drop_last());
        lemma_joined_front(first, rest.drop_last(), separator);
        assert(text::joined(all, separator) =~= first + separator + text::joined(
            rest,
            separator,
        ));
    }
}

/// Splitting loses nothing: the parts of any text, joined with the separator, are the
/// text again, and none of them holds the separator.
pub proof fn split_parts_join_again(s: Seq<char>, c: char)
    ensures
        text::split_on(s, c).len() > 0,
        text::joined(text::split_on(s, c), seq![c]) == s,
        forall|i: int|
            0 <= i < text::split_on(s, c).len() ==> !(#[trigger] text::split_on(s, c)[i]).contains(
                c,
            ),
    decreases s.len(),
{
    let p = text::position(s, c) as int;
    text::lemma_position_first(s, c);
    let parts = text::split_on(s, c);
    if p < s.len() {
        let first = s.take(p);
        let rest = text::split_on(s.skip(p + 1), c);
        split_parts_join_again(s.skip(p + 1), c);
        lemma_joined_front(first, rest, seq![c]);
        assert(s =~= first + seq![c] + s.skip(p + 1));
        assert forall|i: int| 0 <= i < parts.len() implies !(#[trigger] parts[i]).contains(c) by {
            if i > 0 {
                assert(parts[i] == rest[i - 1]);
            }
        }
    }
}

/// Cutting a text outside quotes and brackets loses nothing either.
pub proof fn cut_pieces_join_again(s: Seq<char>, c: char, flat: bool)
    ensures
        scanner::pieces(s, c, flat).len() > 0,
        text::joined(scanner::pieces(s, c, flat), seq![c]) == s,
    decreases s.len(),
{
    match scanner::first_cut(s, c, flat) {
        None => {},
        Some(i) => {
            assert(scanner::first_cut_at(s, c, flat, i));
            let first = s.take(i);
            let rest = scanner::pieces(s.skip(i + 1), c, flat);
            cut_pieces_join_again(s.skip(i + 1), c, flat);
            lemma_joined_front(first, rest, seq![c]);
            assert(s =~= first + seq![c] + s.skip(i + 1));
        },
    }
}

} // verus!
