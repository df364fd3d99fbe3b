//! Which characters of a line stand outside quotes and brackets.

use vstd::prelude::*;
use vstd::string::*;

use crate::text::characters;

verus! {

/// What a prefix of a line leaves open: a quotation mark, an escape inside double
/// quotes, and a number of brackets.
pub struct Lexed {
    pub quote: Option<char>,
    pub escaped: bool,
    pub depth: nat,
}

/// Whether a character is a quotation mark.
pub open spec fn is_quote(c: char) -> bool {
    c == '"' || c == '\''
}

/// What stays open behind one more character.
pub open spec fn step(before: Lexed, c: char) -> Lexed {
    match before.quote {
        Some(open) => if open == '"' && before.escaped {
            Lexed { escaped: false, ..before }
        } else if open == '"' && c == '\\' {
            Lexed { escaped: true, ..before }
        } else if c == open {
            Lexed { quote: None, ..before }
        } else {
            before
        },
        None => if is_quote(c) {
            Lexed { quote: Some(c), ..before }
        } else if c == '[' || c == '{' {
            Lexed { depth: before.depth + 1, ..before }
        } else if c == ']' || c == '}' {
            Lexed { depth: if before.depth == 0 { 0 } else { (before.depth - 1) as nat }, ..before }
        } else {
            before
        },
    }
}

/// What a text leaves open.
pub open spec fn lexed(s: Seq<char>) -> Lexed
    decreases s.len(),
{
    if s.len() == 0 {
        Lexed { quote: None, escaped: false, depth: 0 }
    } else {
        step(lexed(s.drop_last()), s.last())
    }
}

/// Whether `c` stands at position `i` outside quotes and, when `flat` holds,
/// outside brackets.
pub open spec fn cut_at(s: Seq<char>, c: char, flat: bool, i: int) -> bool {
    &&& 0 <= i < s.len()
    &&& s[i] == c
    &&& lexed(s.take(i)).quote is None
    &&& flat ==> lexed(s.take(i)).depth == 0
}

/// Whether position `i` is the first at which `s` can be cut.
pub open spec fn first_cut_at(s: Seq<char>, c: char, flat: bool, i: int) -> bool {
    cut_at(s, c, flat, i) && forall|j: int| 0 <= j < i ==> !cut_at(s, c, flat, j)
}

/// The first position of `c` outside quotes and, when `flat` holds, outside
/// brackets.
pub open spec fn first_cut(s: Seq<char>, c: char, flat: bool) -> Option<int> {
    if exists|i: int| first_cut_at(s, c, flat, i) {
        Some(choose|i: int| first_cut_at(s, c, flat, i))
    } else {
        None
    }
}

/// The pieces of `s` between those occurrences of `c` that stand outside quotes
/// and, when `flat` holds, outside brackets.
pub open spec fn pieces(s: Seq<char>, c: char, flat: bool) -> Seq<Seq<char>>
    decreases s.len(),
{
    match first_cut(s, c, flat) {
        None => seq![s],
        Some(i) => if 0 <= i < s.len() {
            seq![s.take(i)] + pieces(s.skip(i + 1), c, flat)
        } else {
            seq![]
        },
    }
}

/// There is only one first cut.
pub proof fn lemma_first_cut(s: Seq<char>, c: char, flat: bool, i: int)
    requires
        first_cut_at(s, c, flat, i),
    ensures
        first_cut(s, c, flat) == Some(i),
{
    let chosen = choose|k: int| first_cut_at(s, c, flat, k);
    assert(first_cut_at(s, c, flat, chosen));
    if chosen < i {
        assert(!cut_at(s, c, flat, chosen));
    } else if i < chosen {
        assert(!cut_at(s, c, flat, i));
    }
}

/// What is left open by the characters scanned so far.
pub struct Scanner {
    quote: Option<char>,
    escaped: bool,
    depth: usize,
}

impl View for Scanner {
    type V = Lexed;

    closed spec fn view(&self) -> Lexed {
        Lexed { quote: self.quote, escaped: self.escaped, depth: self.depth as nat }
    }
}

impl Scanner {
    /// A scanner at the start of a text.
    pub fn new() -> (scanner: Scanner)
        ensures
            scanner@ == lexed(Seq::empty()),
    {
        Scanner { quote: None, escaped: false, depth: 0 }
    }

    /// Whether the next character stands outside quotes.
    pub fn outside_quotes(&self) -> (outside: bool)
        ensures
            outside == (self@.quote is None),
    {
        self.quote.is_none()
    }

    /// Whether the next character stands outside brackets.
    pub fn outside_brackets(&self) -> (outside: bool)
        ensures
            outside == (self@.depth == 0),
    {
        self.depth == 0
    }

    /// Scans one character.
    pub fn scan(&mut self, c: char)
        requires
            old(self)@.depth < usize::MAX,
        ensures
            final(self)@ == step(old(self)@, c),
    {
        match self.quote {
            Some(open) => {
                if open == '"' && self.escaped {
                    self.escaped = false;
                } else if open == '"' && c == '\\' {
                    self.escaped = true;
                } else if c == open {
                    self.quote = None;
                }
            },
            None => {
                if c == '"' || c == '\'' {
                    self.quote = Some(c);
                } else if c == '[' || c == '{' {
                    self.depth += 1;
                } else if (c == ']' || c == '}') && self.depth > 0 {
                    self.depth -= 1;
                }
            },
        }
    }
}

/// A text opens no more brackets than it has characters.
pub proof fn lemma_depth(s: Seq<char>)
    ensures
        lexed(s).depth <= s.len(),
    decreases s.len(),
{
    if s.len() > 0 {
        lemma_depth(s.drop_last());
    }
}

/// The first position of `c` outside quotes.
pub fn find_outside(s: &str, c: char) -> (at: Option<usize>)
    ensures
        match at {
            Some(i) => first_cut(s@, c, false) == Some(i as int) && i < s@.len(),
            None => first_cut(s@, c, false) is None,
        },
{
    let chars = characters(s);
    let mut scanner = Scanner::new();
    assert(s@.take(0) =~= Seq::empty());
    for i in 0..chars.len()
        invariant
            chars@ == s@,
            scanner@ == lexed(s@.take(i as int)),
            forall|j: int| 0 <= j < i ==> !cut_at(s@, c, false, j),
    {
        if scanner.outside_quotes() && chars[i] == c {
            proof {
                assert(first_cut_at(s@, c, false, i as int));
                lemma_first_cut(s@, c, false, i as int);
            }
            return Some(i);
        }
        proof {
            lemma_depth(s@.take(i as int));
            assert(s@.take(i + 1).drop_last() =~= s@.take(i as int));
        }
        scanner.scan(chars[i]);
    }
    None
}

/// The pieces of `s` between those occurrences of `c` that stand outside quotes
/// and, when `flat` holds, outside brackets.
pub fn split_outside<'a>(s: &'a str, c: char, flat: bool) -> (parts: Vec<&'a str>)
    ensures
        parts.deep_view() == pieces(s@, c, flat),
{
    let chars = characters(s);
    let mut parts: Vec<&'a str> = Vec::new();
    let mut scanner = Scanner::new();
    let mut start: usize = 0;
    let mut i: usize = 0;
    proof {
        assert(s@.skip(0) =~= s@);
        assert(s@.skip(0).take(0) =~= Seq::empty());
        assert(parts.deep_view() + pieces(s@.skip(0), c, flat) =~= pieces(s@, c, flat));
    }
    while i < chars.len()
        invariant
            chars@ == s@,
            start <= i <= chars.len(),
            scanner@ == lexed(s@.skip(start as int).take(i - start)),
            forall|j: int| 0 <= j < i - start ==> !cut_at(s@.skip(start as int), c, flat, j),
            parts.deep_view() + pieces(s@.skip(start as int), c, flat) == pieces(s@, c, flat),
        decreases chars.len() - i,
    {
        let ghost rest = s@.skip(start as int);
        if scanner.outside_quotes() && chars[i] == c && (!flat || scanner.outside_brackets()) {
            let ghost before = parts.deep_view();
            proof {
                assert(first_cut_at(rest, c, flat, i - start));
                lemma_first_cut(rest, c, flat, i - start);
                assert(rest.take(i - start) =~= s@.subrange(start as int, i as int));
                assert(rest.skip(i - start + 1) =~= s@.skip(i + 1));
                assert(s@.skip(i + 1).take(0) =~= Seq::empty());
            }
            parts.push(s.substring_char(start, i));
            assert(parts.deep_view() =~= before.push(s@.subrange(start as int, i as int)));
            assert(parts.deep_view() + pieces(s@.skip(i + 1), c, flat) =~= before + pieces(
                rest,
                c,
                flat,
            ));
            start = i + 1;
            scanner = Scanner::new();
        } else {
            proof {
                lemma_depth(rest.take(i - start));
                assert(rest.take(i - start + 1).drop_last() =~= rest.take(i - start));
                assert(rest.take(i - start + 1).last() == s@[i as int]);
            }
            scanner.scan(chars[i]);
        }
        i += 1;
    }
    let ghost before = parts.deep_view();
    proof {
        let rest = s@.skip(start as int);
        assert(rest =~= s@.subrange(start as int, i as int));
        assert(first_cut(rest, c, flat) is None);
    }
    parts.push(s.substring_char(start, i));
    assert(parts.deep_view() =~= before + seq![s@.skip(start as int)]);
    parts
}

/// Tells whether a text ends inside quotes.
pub fn ends_quoted(s: &str) -> (open: bool)
    ensures
        open == (lexed(s@).quote is Some),
{
    let chars = characters(s);
    let mut scanner = Scanner::new();
    assert(s@.take(0) =~= Seq::empty());
    for i in 0..chars.len()
        invariant
            chars@ == s@,
            scanner@ == lexed(s@.take(i as int)),
    {
        proof {
            lemma_depth(s@.take(i as int));
            assert(s@.take(i + 1).drop_last() =~= s@.take(i as int));
        }
        scanner.scan(chars[i]);
    }
    assert(s@.take(s@.len() as int) =~= s@);
    !scanner.outside_quotes()
}

/// What a text leaves open behind what was open before it.
pub open spec fn lexed_on(before: Lexed, s: Seq<char>) -> Lexed
    decreases s.len(),
{
    if s.len() == 0 {
        before
    } else {
        step(lexed_on(before, s.drop_last()), s.last())
    }
}

/// Scanning goes on where it stopped.
pub proof fn lemma_lexed_on(first: Seq<char>, second: Seq<char>)
    ensures
        lexed(first + second) == lexed_on(lexed(first), second),
    decreases second.len(),
{
    if second.len() == 0 {
        assert(first + second =~= first);
    } else {
        assert((first + second).drop_last() =~= first + second.drop_last());
        lemma_lexed_on(first, second.drop_last());
    }
}

/// Scanning goes on where it stopped.
pub proof fn lemma_lexed_twice(before: Lexed, first: Seq<char>, second: Seq<char>)
    ensures
        lexed_on(before, first + second) == lexed_on(lexed_on(before, first), second),
    decreases second.len(),
{
    if second.len() == 0 {
        assert(first + second =~= first);
    } else {
        assert((first + second).drop_last() =~= first + second.drop_last());
        lemma_lexed_twice(before, first, second.drop_last());
    }
}

/// Text without quotation marks leaves quotes as they are.
pub proof fn lemma_lexed_plain(before: Lexed, s: Seq<char>)
    requires
        before.quote is None,
        forall|i: int| 0 <= i < s.len() ==> !is_quote(#[trigger] s[i]),
    ensures
        lexed_on(before, s).quote is None,
        lexed_on(before, s).escaped == before.escaped,
        (forall|i: int|
            0 <= i < s.len() ==> #[trigger] s[i] != '[' && s[i] != '{' && s[i] != ']' && s[i] != '}')
            ==> lexed_on(before, s).depth == before.depth,
    decreases s.len(),
{
    if s.len() > 0 {
        let rest = s.drop_last();
        assert forall|i: int| 0 <= i < rest.len() implies !is_quote(#[trigger] rest[i]) by {
            assert(rest[i] == s[i]);
        }
        lemma_lexed_plain(before, rest);
        assert(!is_quote(s[s.len() - 1]));
        if forall|i: int|
            0 <= i < s.len() ==> #[trigger] s[i] != '[' && s[i] != '{' && s[i] != ']' && s[i]
                != '}' {
            assert forall|i: int| 0 <= i < rest.len() implies #[trigger] rest[i] != '[' && rest[i]
                != '{' && rest[i] != ']' && rest[i] != '}' by {
                assert(rest[i] == s[i]);
            }
            assert(s[s.len() - 1] != '[');
        }
    }
}

/// A text that can be cut nowhere is one piece.
pub proof fn lemma_one_piece(s: Seq<char>, c: char, flat: bool)
    requires
        forall|i: int| !#[trigger] cut_at(s, c, flat, i),
    ensures
        first_cut(s, c, flat) is None,
        pieces(s, c, flat) == seq![s],
{
    assert(forall|i: int| first_cut_at(s, c, flat, i) ==> cut_at(s, c, flat, i));
}

} // verus!
