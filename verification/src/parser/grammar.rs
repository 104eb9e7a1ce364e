//! What the tokenizer reads, stated over the characters of the source text.
//!
//! Each function says what one scanning rule yields at a position `p` of the
//! text `s`: a value and the position after it, or the error that ends the
//! parse.

use crate::dom::payload::{PayloadView, TagView};
use crate::parser::input::{
    advance, at, first_at, first_match, lemma_first_at, lemma_first_match, matches_at, slice,
};
use crate::parser::ParseError;
use crate::text::trim;
use vstd::prelude::*;

verus! {

/// The position of the first `>` from `i` on that does not lie between
/// double quotes, where `quoted` says whether position `i` does; the length
/// of `s` where there is none.
pub open spec fn tag_end_from(s: Seq<char>, i: int, quoted: bool) -> int
    decreases s.len() - i,
{
    if i < 0 || i >= s.len() {
        s.len() as int
    } else {
        let q = if s[i] == '"' {
            !quoted
        } else {
            quoted
        };
        if !q && s[i] == '>' {
            i
        } else {
            tag_end_from(s, i + 1, q)
        }
    }
}

/// The position of the `>` that ends the tag read at `p`: the first
/// unquoted `>` after `p`. The character at `p` itself is not looked at.
pub open spec fn tag_end(s: Seq<char>, p: int) -> int {
    tag_end_from(s, p + 1, false)
}

/// A tag end lies after the position it was looked for from, and holds `>`.
pub proof fn lemma_tag_end_from(s: Seq<char>, i: int, quoted: bool)
    requires
        0 <= i,
    ensures
        tag_end_from(s, i, quoted) <= s.len(),
        tag_end_from(s, i, quoted) < s.len() ==> i <= tag_end_from(s, i, quoted) && s[tag_end_from(
            s,
            i,
            quoted,
        )] == '>',
    decreases s.len() - i,
{
    if i < s.len() {
        let q = if s[i] == '"' {
            !quoted
        } else {
            quoted
        };
        if !(!q && s[i] == '>') {
            lemma_tag_end_from(s, i + 1, q);
        }
    }
}

/// The number of double quotes of `s` from `i` up to `j`.
pub open spec fn quotes(s: Seq<char>, i: int, j: int) -> nat
    decreases j - i,
{
    if i >= j {
        0
    } else if s[j - 1] == '"' {
        quotes(s, i, j - 1) + 1
    } else {
        quotes(s, i, j - 1)
    }
}

/// Whether position `j` holds a `>` that does not lie between double
/// quotes, counted from `from` on.
pub open spec fn is_unquoted_end(s: Seq<char>, from: int, j: int) -> bool {
    from <= j < s.len() && s[j] == '>' && quotes(s, from, j) % 2 == 0
}

/// Looking for the end of a tag from `i` on, with `quoted` saying whether an
/// odd number of double quotes stands between `from` and `i`, finds the
/// first `>` from `i` on before which an even number of them stands.
pub proof fn lemma_tag_end_from_is_first(s: Seq<char>, from: int, i: int, quoted: bool)
    requires
        0 <= from <= i <= s.len(),
        quoted == (quotes(s, from, i) % 2 == 1),
    ensures
        i <= tag_end_from(s, i, quoted) <= s.len(),
        tag_end_from(s, i, quoted) < s.len() ==> is_unquoted_end(
            s,
            from,
            tag_end_from(s, i, quoted),
        ),
        forall|k: int|
            i <= k < tag_end_from(s, i, quoted) ==> !(#[trigger] is_unquoted_end(s, from, k)),
    decreases s.len() - i,
{
    if i < s.len() {
        let q = if s[i] == '"' {
            !quoted
        } else {
            quoted
        };
        if !(!q && s[i] == '>') {
            lemma_tag_end_from_is_first(s, from, i + 1, q);
        }
    }
}

/// The end of the tag read at `p` is the first `>` after `p` that does not
/// lie between double quotes, counted from after `p` on.
pub proof fn lemma_tag_end_is_first_unquoted(s: Seq<char>, p: int)
    requires
        0 <= p < s.len(),
    ensures
        p < tag_end(s, p) <= s.len(),
        tag_end(s, p) < s.len() ==> is_unquoted_end(s, p + 1, tag_end(s, p)),
        forall|k: int| p < k < tag_end(s, p) ==> !(#[trigger] is_unquoted_end(s, p + 1, k)),
{
    lemma_tag_end_from_is_first(s, p + 1, p + 1, false);
}

/// The errors that a document can be refused for.
pub open spec fn is_syntax_error(e: ParseError) -> bool {
    e == ParseError::UnterminatedTag || e == ParseError::UnterminatedComment || e
        == ParseError::MissingClosingDelimiter
}

/// The position from `i` on that holds no space.
pub open spec fn skip_spaces(s: Seq<char>, i: int) -> int
    decreases s.len() - i,
{
    if 0 <= i < s.len() && s[i] == ' ' {
        skip_spaces(s, i + 1)
    } else {
        i
    }
}

/// Skipping spaces ends at the first position from `i` on that holds no
/// space.
pub proof fn lemma_skip_spaces(s: Seq<char>, i: int)
    requires
        0 <= i <= s.len(),
    ensures
        i <= skip_spaces(s, i) <= s.len(),
        !at(s, skip_spaces(s, i), ' '),
        forall|j: int| i <= j < skip_spaces(s, i) ==> s[j] == ' ',
    decreases s.len() - i,
{
    if i < s.len() && s[i] == ' ' {
        lemma_skip_spaces(s, i + 1);
    }
}

/// The value of an attribute and the position at which it ends. `v` is the
/// position after the `=`, `te` the end of the tag. A value in `"` or `'`
/// ends at the next such quote; a bare value, for which `delim` is a space,
/// ends at the next space or at the end of the tag.
pub open spec fn attr_value(s: Seq<char>, v: int, te: int, delim: char) -> Result<
    (Seq<char>, int),
    ParseError,
> {
    let bgn = if delim != ' ' {
        advance(s, v)
    } else {
        v
    };
    let k = first_at(s, delim, bgn);
    if k < s.len() && k >= te && delim != ' ' {
        Err(ParseError::MissingClosingDelimiter)
    } else if k >= s.len() && delim != ' ' {
        Err(ParseError::UnterminatedTag)
    } else {
        let end = if k < s.len() && k < te {
            k
        } else {
            te
        };
        if bgn == end {
            Ok((Seq::empty(), end))
        } else {
            match slice(s, bgn, end) {
                Ok(value) => Ok((value, end)),
                Err(e) => Err(e),
            }
        }
    }
}

/// The position at which the attribute name that starts at `p` ends: the
/// nearer of the next `=` and the next space, or the end of the tag.
pub open spec fn attr_name_end(s: Seq<char>, p: int, te: int) -> int {
    let eq = first_at(s, '=', p);
    let by_eq = if eq < s.len() && eq < te {
        eq
    } else {
        te
    };
    let sp = first_at(s, ' ', p);
    if sp < s.len() && sp < by_eq {
        sp
    } else {
        by_eq
    }
}

/// The delimiter of the attribute value that starts at `v`.
pub open spec fn delimiter_at(s: Seq<char>, v: int) -> char {
    if at(s, v, '"') {
        '"'
    } else if at(s, v, '\'') {
        '\''
    } else {
        ' '
    }
}

/// One attribute: its name, its value and the position after it, which is
/// the position after the closing quote of a quoted value, and else the
/// position at which the bare value or the name ends. The value is empty
/// unless an `=` follows the name, directly or after spaces.
pub open spec fn attr_at(s: Seq<char>, p: int, te: int) -> Result<
    (Seq<char>, Seq<char>, int),
    ParseError,
> {
    let name_end = attr_name_end(s, p, te);
    match slice(s, p, name_end) {
        Err(e) => Err(e),
        Ok(name) => {
            let q = skip_spaces(s, name_end);
            if q < te && at(s, q, '=') {
                let v = advance(s, q);
                let delim = delimiter_at(s, v);
                match attr_value(s, v, te, delim) {
                    Ok((value, end)) => Ok(
                        (
                            name,
                            value,
                            if delim != ' ' {
                                end + 1
                            } else {
                                end
                            },
                        ),
                    ),
                    Err(e) => Err(e),
                }
            } else {
                Ok((name, Seq::empty(), name_end))
            }
        },
    }
}

/// Inside a tag that ends at `te`, an attribute that begins with no space
/// ends after the position it began at and no later than the tag, and
/// reading it fails only for what is not closed.
pub proof fn lemma_attr_at(s: Seq<char>, p: int, te: int)
    requires
        0 <= p < te < s.len(),
        s[te] == '>',
        s[p] != ' ',
    ensures
        match attr_at(s, p, te) {
            Ok((name, value, cur)) => p < cur <= te,
            Err(e) => is_syntax_error(e),
        },
{
    lemma_first_at(s, '=', p);
    lemma_first_at(s, ' ', p);
    let name_end = attr_name_end(s, p, te);
    assert(p <= name_end <= te);
    lemma_skip_spaces(s, name_end);
    let q = skip_spaces(s, name_end);
    if name_end == p {
        assert(s[p] == '=');
        assert(q == p);
    }
    if q < te && at(s, q, '=') {
        let v = q + 1;
        let delim = delimiter_at(s, v);
        let bgn = if delim != ' ' {
            advance(s, v)
        } else {
            v
        };
        assert(bgn <= te);
        lemma_first_at(s, delim, bgn);
    }
}

/// Whether `part` is a range of `s` that lies between `from` and `to`.
pub open spec fn lies_within(s: Seq<char>, part: Seq<char>, from: int, to: int) -> bool {
    exists|a: int, b: int| from <= a <= b <= to && part == #[trigger] s.subrange(a, b)
}

/// The name and the value of an attribute are parts of the tag: neither
/// reaches beyond the `>` of the tag.
pub proof fn lemma_attr_lies_in_tag(s: Seq<char>, p: int, te: int)
    requires
        0 <= p < te < s.len(),
        s[te] == '>',
        s[p] != ' ',
    ensures
        attr_at(s, p, te) matches Ok((name, value, cur)) ==> lies_within(s, name, p, te)
            && lies_within(s, value, p, te),
{
    lemma_attr_at(s, p, te);
    lemma_first_at(s, '=', p);
    lemma_first_at(s, ' ', p);
    let name_end = attr_name_end(s, p, te);
    lemma_skip_spaces(s, name_end);
    let q = skip_spaces(s, name_end);
    if let Ok((name, value, cur)) = attr_at(s, p, te) {
        assert(name == s.subrange(p, name_end));
        if q < te && at(s, q, '=') {
            let v = q + 1;
            let delim = delimiter_at(s, v);
            let bgn = if delim != ' ' {
                advance(s, v)
            } else {
                v
            };
            lemma_first_at(s, delim, bgn);
            let k = first_at(s, delim, bgn);
            let end = if k < s.len() && k < te {
                k
            } else {
                te
            };
            assert(value =~= s.subrange(bgn, end));
        } else {
            assert(value =~= s.subrange(name_end, name_end));
        }
    }
}

/// The attributes read from `p` up to the `>` of the tag at `te`, added to
/// `acc`, and the position after the tag. Spaces before an attribute are
/// passed over; reading ends at `te` and nowhere else. A later attribute
/// replaces an earlier one of the same name.
pub open spec fn attrs_from(
    s: Seq<char>,
    p: int,
    te: int,
    acc: Map<Seq<char>, Seq<char>>,
) -> Result<(Map<Seq<char>, Seq<char>>, int), ParseError>
    decreases te - p,
    when 0 <= p <= te < s.len() && s[te] == '>'
{
    let from = skip_spaces(s, p);
    if from >= te {
        Ok((acc, te + 1))
    } else {
        match attr_at(s, from, te) {
            Err(e) => Err(e),
            Ok((name, value, cur)) => {
                proof {
                    lemma_skip_spaces(s, p);
                    lemma_attr_at(s, from, te);
                }
                attrs_from(s, cur, te, acc.insert(name, value))
            },
        }
    }
}

/// A tag with the attributes that were read for it: an attribute named `/`
/// is no attribute but the mark of a self-closing tag.
pub open spec fn finish_tag(tag: TagView, attrs: Map<Seq<char>, Seq<char>>) -> TagView {
    if attrs.contains_key("/"@) {
        TagView { attributes: Some(attrs.remove("/"@)), self_closing: true, ..tag }
    } else {
        TagView { attributes: Some(attrs), ..tag }
    }
}

/// The tag `tag` with the attributes read from `p` up to the `>` of the
/// tag at `te`, and the position after the tag.
pub open spec fn attrs_within(s: Seq<char>, p: int, te: int, tag: TagView) -> Result<
    (TagView, int),
    ParseError,
> {
    match attrs_from(s, p, te, Map::empty()) {
        Err(e) => Err(e),
        Ok((attrs, cur)) => Ok((finish_tag(tag, attrs), cur)),
    }
}

/// The tag `tag` with the attributes that start at `p`, and the position
/// after the tag, whose end is looked for from `p` on.
pub open spec fn attrs_of(s: Seq<char>, p: int, tag: TagView) -> Result<
    (TagView, int),
    ParseError,
> {
    let te = tag_end(s, p);
    if te >= s.len() {
        Err(ParseError::UnterminatedTag)
    } else {
        attrs_within(s, p, te, tag)
    }
}

/// The position at which the tag name that starts at `p` ends: the next
/// space, or the end of the tag.
pub open spec fn tag_name_end(s: Seq<char>, p: int) -> int {
    let te = tag_end(s, p);
    let sp = first_at(s, ' ', p);
    if sp < te {
        sp
    } else {
        te
    }
}

/// The tag whose name starts at `p`, and the position after the tag, which
/// is the position after its first unquoted `>`. A tag in which nothing but
/// spaces follows the name has no attributes.
pub open spec fn tag_at(s: Seq<char>, p: int, terminator: bool) -> Result<
    (TagView, int),
    ParseError,
> {
    let te = tag_end(s, p);
    if te >= s.len() {
        Err(ParseError::UnterminatedTag)
    } else {
        let name_end = tag_name_end(s, p);
        match slice(s, p, name_end) {
            Err(e) => Err(e),
            Ok(raw) => {
                let tag = TagView {
                    name: trim(raw),
                    attributes: None,
                    self_closing: false,
                    terminator,
                };
                let from = skip_spaces(s, name_end);
                if from >= te {
                    Ok((tag, te + 1))
                } else {
                    attrs_within(s, from, te, tag)
                }
            },
        }
    }
}

/// The tag that starts with the `<` at `p`, and the position after it.
pub open spec fn markup_at(s: Seq<char>, p: int) -> Result<(TagView, int), ParseError> {
    let next = advance(s, p);
    if at(s, next, '/') {
        tag_at(s, advance(s, next), true)
    } else {
        tag_at(s, next, false)
    }
}

/// The comment that starts with the `<!--` at `p`: the text up to the first
/// `-->` that follows, and the position after that.
pub open spec fn comment_at(s: Seq<char>, p: int) -> Result<(Seq<char>, int), ParseError> {
    match first_match(s, "-->"@, p + 4, false) {
        Some(k) => match slice(s, p + 4, k) {
            Ok(text) => Ok((text, k + 3)),
            Err(e) => Err(e),
        },
        None => Err(ParseError::UnterminatedComment),
    }
}

/// The text from `p` up to the next `<`, or up to the end of the input.
pub open spec fn text_at(s: Seq<char>, p: int) -> Result<(Seq<char>, int), ParseError> {
    let end = first_at(s, '<', p);
    match slice(s, p, end) {
        Ok(text) => Ok((text, end)),
        Err(e) => Err(e),
    }
}

/// The body of a script from `p` up to the next `</script`.
pub open spec fn script_at(s: Seq<char>, p: int) -> Result<(Seq<char>, int), ParseError> {
    match first_match(s, "</script"@, p, false) {
        Some(k) => match slice(s, p, k) {
            Ok(text) => Ok((text, k)),
            Err(e) => Err(e),
        },
        None => Err(ParseError::UnterminatedTag),
    }
}

/// The document type `<!doctype html>` at `p`, written in small or capital
/// letters: a tag named as the input writes `doctype`, with what it writes
/// for `html` as an attribute without a value.
pub open spec fn doctype_at(s: Seq<char>, p: int) -> Result<(TagView, int), ParseError> {
    if matches_at(s, "<!doctype html>"@, p, true) {
        Ok(
            (
                TagView {
                    name: s.subrange(p + 2, p + 9),
                    attributes: Some(
                        Map::<Seq<char>, Seq<char>>::empty().insert(
                            s.subrange(p + 10, p + 14),
                            Seq::empty(),
                        ),
                    ),
                    self_closing: false,
                    terminator: false,
                },
                p + 15,
            ),
        )
    } else {
        Err(ParseError::NotHtml)
    }
}

/// Whether `tag` opens a script, whose body is taken as it stands.
pub open spec fn opens_script(tag: TagView) -> bool {
    tag.name == "script"@ && !tag.terminator
}

/// What is read at `p`, for `p` inside the text: a comment, a tag (with the
/// body that follows it, for a script), or text. One space or line feed at
/// `p` is passed over first; where a `<` follows it, nothing is yielded.
pub open spec fn step(s: Seq<char>, p: int) -> Result<(Seq<PayloadView>, int), ParseError> {
    if matches_at(s, "<!--"@, p, false) {
        match comment_at(s, p) {
            Ok((text, cur)) => Ok((seq![PayloadView::Comment(text)], cur)),
            Err(e) => Err(e),
        }
    } else if at(s, p, '<') {
        match markup_at(s, p) {
            Ok((tag, cur)) => {
                if opens_script(tag) && !at(s, cur, '<') {
                    match script_at(s, cur) {
                        Ok((text, end)) => Ok(
                            (seq![PayloadView::Tag(tag), PayloadView::Text(text)], end),
                        ),
                        Err(e) => Err(e),
                    }
                } else {
                    Ok((seq![PayloadView::Tag(tag)], cur))
                }
            },
            Err(e) => Err(e),
        }
    } else {
        let next = if at(s, p, ' ') || at(s, p, '\n') {
            advance(s, p)
        } else {
            p
        };
        if at(s, next, '<') {
            Ok((Seq::empty(), next))
        } else {
            match text_at(s, next) {
                Ok((text, cur)) => Ok((seq![PayloadView::Text(text)], cur)),
                Err(e) => Err(e),
            }
        }
    }
}

/// Reading attributes ends just after the `>` of the tag, and fails only
/// for what is not closed.
pub proof fn lemma_attrs_from(s: Seq<char>, p: int, te: int, acc: Map<Seq<char>, Seq<char>>)
    requires
        0 <= p <= te < s.len(),
        s[te] == '>',
    ensures
        match attrs_from(s, p, te, acc) {
            Ok((attrs, cur)) => cur == te + 1,
            Err(e) => is_syntax_error(e),
        },
    decreases te - p,
{
    lemma_skip_spaces(s, p);
    let from = skip_spaces(s, p);
    if from < te {
        lemma_attr_at(s, from, te);
        match attr_at(s, from, te) {
            Err(e) => {},
            Ok((name, value, cur)) => {
                lemma_attrs_from(s, cur, te, acc.insert(name, value));
            },
        }
    }
}

/// A tag that is read with attributes keeps its name and what it was as to
/// being an end tag; it has a set of attributes, in which `/` is no name;
/// it is self-closing where it was so before or a bare `/` stood among the
/// attributes; and reading ends just after the `>` of the tag.
pub proof fn lemma_attrs_within(s: Seq<char>, p: int, te: int, tag: TagView)
    requires
        0 <= p <= te < s.len(),
        s[te] == '>',
    ensures
        match attrs_within(s, p, te, tag) {
            Ok((found, cur)) => {
                &&& cur == te + 1
                &&& found.name == tag.name
                &&& found.terminator == tag.terminator
                &&& found.attributes is Some
                &&& !found.attributes->0.contains_key("/"@)
                &&& found.self_closing == (tag.self_closing || attrs_from(
                    s,
                    p,
                    te,
                    Map::empty(),
                )->Ok_0.0.contains_key("/"@))
            },
            Err(e) => is_syntax_error(e),
        },
{
    lemma_attrs_from(s, p, te, Map::empty());
}

/// Reading a tag ends just after its first unquoted `>`, and fails only for
/// what is not closed.
pub proof fn lemma_tag_at(s: Seq<char>, p: int, terminator: bool)
    requires
        0 <= p,
    ensures
        match tag_at(s, p, terminator) {
            Ok((tag, cur)) => p < cur <= s.len() && cur == tag_end(s, p) + 1 && s[cur - 1] == '>',
            Err(e) => is_syntax_error(e),
        },
{
    lemma_tag_end_from(s, p + 1, false);
    let te = tag_end(s, p);
    if te < s.len() {
        lemma_first_at(s, ' ', p);
        let name_end = tag_name_end(s, p);
        lemma_skip_spaces(s, name_end);
        let from = skip_spaces(s, name_end);
        if from < te {
            lemma_attrs_from(s, from, te, Map::empty());
        }
    }
}

/// One step of the tokenizer, taken inside the text, ends after the
/// position it began at and inside the text, and fails only for what is
/// not closed.
pub proof fn lemma_step(s: Seq<char>, p: int)
    requires
        0 <= p < s.len(),
    ensures
        match step(s, p) {
            Ok((tokens, cur)) => p < cur <= s.len() && tokens.len() <= 2,
            Err(e) => is_syntax_error(e),
        },
{
    if matches_at(s, "<!--"@, p, false) {
        reveal_strlit("-->");
        lemma_first_match(s, "-->"@, p + 4, false);
    } else if at(s, p, '<') {
        let next = p + 1;
        if at(s, next, '/') {
            lemma_tag_at(s, next + 1, true);
        } else {
            lemma_tag_at(s, next, false);
        }
        match markup_at(s, p) {
            Ok((tag, cur)) => {
                lemma_first_match(s, "</script"@, cur, false);
            },
            Err(e) => {},
        }
    } else {
        let next = if at(s, p, ' ') || at(s, p, '\n') {
            p + 1
        } else {
            p
        };
        lemma_first_at(s, '<', next);
        if next == p {
            lemma_first_at(s, '<', p + 1);
        }
    }
}

/// The payloads read from `p` up to the end of the text.
pub open spec fn tokens_from(s: Seq<char>, p: int) -> Result<Seq<PayloadView>, ParseError>
    decreases s.len() - p,
    when 0 <= p
{
    if p >= s.len() {
        Ok(Seq::empty())
    } else {
        match step(s, p) {
            Err(e) => Err(e),
            Ok((tokens, cur)) => {
                proof {
                    lemma_step(s, p);
                }
                match tokens_from(s, cur) {
                    Ok(rest) => Ok(tokens + rest),
                    Err(e) => Err(e),
                }
            },
        }
    }
}

/// The payloads of a whole document, in document order.
pub open spec fn tokens(s: Seq<char>) -> Result<Seq<PayloadView>, ParseError> {
    tokens_from(s, 0)
}

/// Whatever the input, tokenizing fails only for a tag, a comment or an
/// attribute value that is not closed: every range it asks for lies in the
/// text.
pub proof fn lemma_tokens_from_errors(s: Seq<char>, p: int)
    requires
        0 <= p,
    ensures
        tokens_from(s, p) matches Err(e) ==> is_syntax_error(e),
    decreases s.len() - p,
{
    if p < s.len() {
        lemma_step(s, p);
        match step(s, p) {
            Err(e) => {},
            Ok((tokens, cur)) => {
                lemma_tokens_from_errors(s, cur);
            },
        }
    }
}

/// Whether some `<` at or after `from` is followed by no `>`.
pub open spec fn is_left_open(s: Seq<char>, from: int) -> bool {
    exists|q: int| from <= q < s.len() && #[trigger] s[q] == '<' && never_closed(s, q)
}

/// Whether no `>` follows position `q`.
pub open spec fn never_closed(s: Seq<char>, q: int) -> bool {
    forall|j: int| q < j < s.len() ==> #[trigger] s[j] != '>'
}

/// A step of the tokenizer does not get past a `<` that is followed by no
/// `>`: it fails, or it ends where such a `<` still lies ahead.
pub proof fn lemma_step_left_open(s: Seq<char>, p: int)
    requires
        0 <= p < s.len(),
        is_left_open(s, p),
    ensures
        step(s, p) matches Ok((found, cur)) ==> is_left_open(s, cur),
{
    let q = choose|q: int| p <= q < s.len() && #[trigger] s[q] == '<' && never_closed(s, q);
    lemma_step(s, p);
    match step(s, p) {
        Err(_) => {},
        Ok((found, cur)) => {
            if matches_at(s, "<!--"@, p, false) {
                reveal_strlit("-->");
                lemma_first_match(s, "-->"@, p + 4, false);
                let k = cur - 3;
                assert(s[k + 2] == "-->"@[2]);
                assert(s[cur - 1] == '>');
                assert(s[q] == '<');
            } else if at(s, p, '<') {
                let next = p + 1;
                if at(s, next, '/') {
                    lemma_tag_at(s, next + 1, true);
                } else {
                    lemma_tag_at(s, next, false);
                }
                let (tag, after) = markup_at(s, p)->Ok_0;
                assert(s[after - 1] == '>');
                assert(q >= after);
                if opens_script(tag) && !at(s, after, '<') {
                    reveal_strlit("</script");
                    lemma_first_match(s, "</script"@, after, false);
                    assert(s[cur + 0] == "</script"@[0]);
                    if q < cur {
                        assert(never_closed(s, cur));
                        assert(s[cur] == '<');
                    }
                }
            } else {
                let next = if at(s, p, ' ') || at(s, p, '\n') {
                    p + 1
                } else {
                    p
                };
                assert(q >= next);
                lemma_first_at(s, '<', next);
                assert(cur <= q);
            }
        },
    }
}

/// Tokenizing fails from wherever a `<` that is followed by no `>` lies
/// ahead.
pub proof fn lemma_tokens_from_left_open(s: Seq<char>, p: int)
    requires
        0 <= p,
        is_left_open(s, p),
    ensures
        tokens_from(s, p) is Err,
    decreases s.len() - p,
{
    lemma_step(s, p);
    lemma_step_left_open(s, p);
    match step(s, p) {
        Err(_) => {},
        Ok((found, cur)) => {
            lemma_tokens_from_left_open(s, cur);
        },
    }
}

} // verus!
