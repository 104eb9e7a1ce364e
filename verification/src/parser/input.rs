//! The cursor over the source text that the tokenizer reads through.

use crate::parser::ParseError;
use crate::text::{chars_of, string_of};
use vstd::prelude::*;

verus! {

/// Whether the character at position `p` of `s` is `c`.
pub open spec fn at(s: Seq<char>, p: int, c: char) -> bool {
    0 <= p < s.len() && s[p] == c
}

/// The position after `p`, which stays where it is at the end of `s`.
pub open spec fn advance(s: Seq<char>, p: int) -> int {
    if p < s.len() {
        p + 1
    } else {
        p
    }
}

/// The first position at or after `from` that holds `c`, or the length of `s`
/// where there is none.
pub open spec fn first_at(s: Seq<char>, c: char, from: int) -> int
    decreases s.len() - from,
{
    if from >= s.len() {
        s.len() as int
    } else if 0 <= from && s[from] == c {
        from
    } else {
        first_at(s, c, from + 1)
    }
}

/// `first_at` is the least position from `from` on that holds `c`.
pub proof fn lemma_first_at(s: Seq<char>, c: char, from: int)
    requires
        0 <= from <= s.len(),
    ensures
        from <= first_at(s, c, from) <= s.len(),
        first_at(s, c, from) < s.len() ==> s[first_at(s, c, from)] == c,
        forall|j: int| from <= j < first_at(s, c, from) ==> s[j] != c,
    decreases s.len() - from,
{
    if from < s.len() && s[from] != c {
        lemma_first_at(s, c, from + 1);
    }
}

/// The code point of `c`, with the ASCII capital letters mapped to their
/// small letters.
pub open spec fn lower(c: char) -> u32 {
    if 'A' <= c && c <= 'Z' {
        (c as u32 + 32) as u32
    } else {
        c as u32
    }
}

/// Whether `pat` stands in `s` at position `i`. With `fold` set, ASCII
/// letters match regardless of case.
pub open spec fn matches_at(s: Seq<char>, pat: Seq<char>, i: int, fold: bool) -> bool {
    &&& 0 <= i
    &&& i + pat.len() <= s.len()
    &&& forall|k: int|
        0 <= k < pat.len() ==> if fold {
            lower(#[trigger] s[i + k]) == lower(pat[k])
        } else {
            s[i + k] == pat[k]
        }
}

/// The first position at or after `from` at which `pat` stands in `s`.
pub open spec fn first_match(s: Seq<char>, pat: Seq<char>, from: int, fold: bool) -> Option<int>
    decreases s.len() - from,
{
    if from + pat.len() > s.len() {
        None
    } else if matches_at(s, pat, from, fold) {
        Some(from)
    } else {
        first_match(s, pat, from + 1, fold)
    }
}

/// `first_match` is the least position from `from` on at which `pat` stands.
pub proof fn lemma_first_match(s: Seq<char>, pat: Seq<char>, from: int, fold: bool)
    requires
        0 <= from,
    ensures
        match first_match(s, pat, from, fold) {
            Some(i) => from <= i && matches_at(s, pat, i, fold) && forall|j: int|
                from <= j < i ==> !matches_at(s, pat, j, fold),
            None => forall|j: int| from <= j ==> !matches_at(s, pat, j, fold),
        },
    decreases s.len() - from,
{
    if from + pat.len() <= s.len() && !matches_at(s, pat, from, fold) {
        lemma_first_match(s, pat, from + 1, fold);
    }
}

/// The characters of `s` from `bgn` up to `end`.
pub open spec fn slice(s: Seq<char>, bgn: int, end: int) -> Result<Seq<char>, ParseError> {
    if 0 <= bgn <= end <= s.len() {
        Ok(s.subrange(bgn, end))
    } else {
        Err(ParseError::OutOfBounds)
    }
}

/// The source text and a position in it. The position counts characters; it
/// may lie at or beyond the end of the text, where nothing is left to read.
pub struct Input {
    chars: Vec<char>,
    cursor: usize,
}

/// The code point of `c` with ASCII capitals made small.
fn lower_of(c: char) -> (r: u32)
    ensures
        r == lower(c),
{
    if 'A' <= c && c <= 'Z' {
        c as u32 + 32
    } else {
        c as u32
    }
}

/// Whether `pat` stands in `chars` at `i`.
fn stands_at(chars: &Vec<char>, pat: &Vec<char>, i: usize, fold: bool) -> (r: bool)
    ensures
        r == matches_at(chars@, pat@, i as int, fold),
{
    if pat.len() > chars.len() || i > chars.len() - pat.len() {
        return false;
    }
    let mut k: usize = 0;
    while k < pat.len()
        invariant
            i + pat@.len() <= chars@.len() <= usize::MAX,
            k <= pat@.len(),
            forall|l: int|
                0 <= l < k ==> if fold {
                    lower(#[trigger] chars@[i + l]) == lower(pat@[l])
                } else {
                    chars@[i + l] == pat@[l]
                },
        decreases pat@.len() - k,
    {
        let same = if fold {
            lower_of(chars[i + k]) == lower_of(pat[k])
        } else {
            chars[i + k] == pat[k]
        };
        if !same {
            assert(!matches_at(chars@, pat@, i as int, fold)) by {
                let _ = chars@[i + k];
            }
            return false;
        }
        k += 1;
    }
    true
}

impl Input {
    /// The source text.
    pub closed spec fn text(&self) -> Seq<char> {
        self.chars@
    }

    /// The position of the cursor.
    pub closed spec fn pos(&self) -> nat {
        self.cursor as nat
    }

    /// A cursor at the start of `doc`.
    pub fn new(doc: &str) -> (r: Input)
        ensures
            r.text() == doc@,
            r.pos() == 0,
    {
        Input { chars: chars_of(doc), cursor: 0 }
    }

    /// The number of characters of the source text.
    pub fn len(&self) -> (r: usize)
        ensures
            r == self.text().len(),
    {
        self.chars.len()
    }

    /// Whether nothing is left to read.
    pub fn is_end(&self) -> (r: bool)
        ensures
            r == (self.pos() >= self.text().len()),
    {
        self.cursor >= self.chars.len()
    }

    /// Whether the character at the cursor is `c`. Nothing is consumed.
    pub fn expect(&self, c: char) -> (r: bool)
        ensures
            r == at(self.text(), self.pos() as int, c),
    {
        self.cursor < self.chars.len() && self.chars[self.cursor] == c
    }

    /// Whether `pat` stands at the cursor.
    pub fn expect_str(&self, pat: &str) -> (r: bool)
        ensures
            r == matches_at(self.text(), pat@, self.pos() as int, false),
    {
        let pat = chars_of(pat);
        stands_at(&self.chars, &pat, self.cursor, false)
    }

    /// Whether `pat` stands at the cursor, ASCII letters taken regardless of
    /// case.
    pub fn expect_str_insensitive(&self, pat: &str) -> (r: bool)
        ensures
            r == matches_at(self.text(), pat@, self.pos() as int, true),
    {
        let pat = chars_of(pat);
        stands_at(&self.chars, &pat, self.cursor, true)
    }

    /// Moves the cursor one character forward, unless it is at the end.
    pub fn next(&mut self)
        ensures
            final(self).text() == old(self).text(),
            final(self).pos() == advance(old(self).text(), old(self).pos() as int),
    {
        if self.cursor < self.chars.len() {
            self.cursor += 1;
        }
    }

    /// Moves the cursor one character forward, unless it is at the end.
    pub fn next_char(&mut self)
        ensures
            final(self).text() == old(self).text(),
            final(self).pos() == advance(old(self).text(), old(self).pos() as int),
    {
        self.next();
    }

    pub fn get_cursor(&self) -> (r: usize)
        ensures
            r == self.pos(),
    {
        self.cursor
    }

    pub fn set_cursor(&mut self, pos: usize)
        ensures
            final(self).text() == old(self).text(),
            final(self).pos() == pos,
    {
        self.cursor = pos;
    }

    /// The first position at or after the cursor that holds `c`.
    pub fn find(&self, c: char) -> (r: Option<usize>)
        ensures
            match r {
                Some(i) => i < self.text().len() && i == first_at(
                    self.text(),
                    c,
                    self.pos() as int,
                ),
                None => first_at(self.text(), c, self.pos() as int) == self.text().len(),
            },
    {
        let mut i: usize = self.cursor;
        while i < self.chars.len()
            invariant
                self.cursor <= i,
                first_at(self.chars@, c, self.cursor as int) == first_at(self.chars@, c, i as int),
            decreases self.chars@.len() - i,
        {
            if self.chars[i] == c {
                return Some(i);
            }
            i += 1;
        }
        None
    }

    /// The first position at or after the cursor at which `pat` stands.
    fn search(&self, pat: &str, fold: bool) -> (r: Option<usize>)
        ensures
            match r {
                Some(i) => first_match(self.text(), pat@, self.pos() as int, fold) == Some(
                    i as int,
                ),
                None => first_match(self.text(), pat@, self.pos() as int, fold) is None,
            },
    {
        let needle = chars_of(pat);
        if needle.len() > self.chars.len() {
            return None;
        }
        if needle.len() == 0 {
            return if self.cursor <= self.chars.len() {
                Some(self.cursor)
            } else {
                None
            };
        }
        let last = self.chars.len() - needle.len();
        let mut i: usize = self.cursor;
        while i <= last
            invariant
                self.cursor <= i,
                needle@ == pat@,
                last == self.chars@.len() - needle@.len(),
                last < usize::MAX,
                first_match(self.chars@, pat@, self.cursor as int, fold) == first_match(
                    self.chars@,
                    pat@,
                    i as int,
                    fold,
                ),
            decreases last + 1 - i,
        {
            if stands_at(&self.chars, &needle, i, fold) {
                return Some(i);
            }
            i += 1;
        }
        None
    }

    /// The first position at or after the cursor at which `pat` stands.
    pub fn find_str(&self, pat: &str) -> (r: Option<usize>)
        ensures
            match r {
                Some(i) => first_match(self.text(), pat@, self.pos() as int, false) == Some(
                    i as int,
                ),
                None => first_match(self.text(), pat@, self.pos() as int, false) is None,
            },
    {
        self.search(pat, false)
    }

    /// The first position at or after the cursor at which `pat` stands,
    /// ASCII letters taken regardless of case.
    pub fn find_str_insensitive(&self, pat: &str) -> (r: Option<usize>)
        ensures
            match r {
                Some(i) => first_match(self.text(), pat@, self.pos() as int, true) == Some(
                    i as int,
                ),
                None => first_match(self.text(), pat@, self.pos() as int, true) is None,
            },
    {
        self.search(pat, true)
    }

    /// The character at position `idx`.
    pub fn get_char(&self, idx: usize) -> (r: Result<char, ParseError>)
        ensures
            match r {
                Ok(c) => idx < self.text().len() && c == self.text()[idx as int],
                Err(e) => idx >= self.text().len() && e == ParseError::OutOfBounds,
            },
    {
        if idx < self.chars.len() {
            Ok(self.chars[idx])
        } else {
            Err(ParseError::OutOfBounds)
        }
    }

    /// The characters from `bgn` up to `end`, as a string.
    pub fn get_string(&self, bgn: usize, end: usize) -> (r: Result<String, ParseError>)
        ensures
            match r {
                Ok(text) => slice(self.text(), bgn as int, end as int) == Ok::<
                    Seq<char>,
                    ParseError,
                >(text@),
                Err(e) => slice(self.text(), bgn as int, end as int) == Err::<
                    Seq<char>,
                    ParseError,
                >(e),
            },
    {
        if bgn > end || end > self.chars.len() {
            return Err(ParseError::OutOfBounds);
        }
        Ok(string_of(&self.chars, bgn, end))
    }
}

} // verus!
