//! Tags as they are written, and why a tag is read the same wherever it
//! stands.

use crate::dom::payload::{PayloadView, TagView};
use crate::parser::grammar::{
    attr_at, attr_name_end, attr_value, attrs_from, delimiter_at, lemma_attr_at, lemma_skip_spaces,
    lemma_tag_end_from, markup_at, opens_script, skip_spaces, step, tag_at, tag_end, tag_end_from,
    tag_name_end,
};
use crate::parser::input::{at, first_at, lemma_first_at, matches_at, slice};
use crate::parser::ParseError;
use crate::text::{is_space, trim};
use vstd::prelude::*;

verus! {

/// Whether `s` holds `w` at position `p`.
pub open spec fn holds(s: Seq<char>, w: Seq<char>, p: int) -> bool {
    0 <= p && p + w.len() <= s.len() && s.subrange(p, p + w.len()) == w
}

/// Where `s` holds `a + b`, it holds `a` and, after it, `b`.
pub proof fn lemma_holds_split(s: Seq<char>, a: Seq<char>, b: Seq<char>, p: int)
    requires
        holds(s, a + b, p),
    ensures
        holds(s, a, p),
        holds(s, b, p + a.len()),
{
    let w = a + b;
    assert(s.subrange(p, p + a.len()) =~= w.subrange(0, a.len() as int));
    assert(w.subrange(0, a.len() as int) =~= a);
    assert(s.subrange(p + a.len(), p + a.len() + b.len()) =~= w.subrange(
        a.len() as int,
        w.len() as int,
    ));
    assert(w.subrange(a.len() as int, w.len() as int) =~= b);
}

/// Where `s` holds `w` at `p`, its characters from `p` on are those of `w`.
pub proof fn lemma_holds_index(s: Seq<char>, w: Seq<char>, p: int, k: int)
    requires
        holds(s, w, p),
        0 <= k < w.len(),
    ensures
        s[p + k] == w[k],
{
    assert(s.subrange(p, p + w.len())[k] == s[p + k]);
}

/// The shape of a tag as it is written: it begins with `<`, ends with `>`
/// and holds no other `>`, and does not begin as a comment does.
pub open spec fn is_bracketed(w: Seq<char>) -> bool {
    &&& w.len() >= 2
    &&& w[0] == '<'
    &&& w[w.len() - 1] == '>'
    &&& forall|i: int| 0 <= i < w.len() - 1 ==> #[trigger] w[i] != '>'
    &&& !matches_at(w, "<!--"@, 0, false)
}

/// Whether `w`, standing alone, is read as one tag from its first character
/// to its last.
#[verifier::opaque]
pub open spec fn reads_alone(w: Seq<char>) -> bool {
    markup_at(w, 0) matches Ok((tag, cur)) && cur == w.len()
}

/// Whether `w` is a tag as it is written: it has the shape of one and,
/// standing alone, is read as one.
pub open spec fn is_tag_text(w: Seq<char>) -> bool {
    is_bracketed(w) && reads_alone(w)
}

/// The tag that `w` is read as.
#[verifier::opaque]
pub open spec fn tag_of(w: Seq<char>) -> TagView {
    markup_at(w, 0)->Ok_0.0
}

/// A character that does not occur before `j` is first found at `j` or
/// later.
pub proof fn lemma_first_at_absent(s: Seq<char>, c: char, i: int, j: int)
    requires
        0 <= i <= j <= s.len(),
        forall|k: int| i <= k < j ==> s[k] != c,
    ensures
        first_at(s, c, i) == first_at(s, c, j),
        first_at(s, c, i) >= j,
    decreases j - i,
{
    if i < j {
        lemma_first_at_absent(s, c, i + 1, j);
    } else {
        lemma_first_at(s, c, j);
    }
}

/// A character is first found in a text where it is first found in the
/// part of the text that is looked at, or after that part.
proof fn lemma_first_at_within(s: Seq<char>, w: Seq<char>, p: int, c: char, i: int)
    requires
        holds(s, w, p),
        0 <= i <= w.len(),
    ensures
        i <= first_at(w, c, i) <= w.len(),
        first_at(w, c, i) < w.len() ==> first_at(s, c, p + i) == p + first_at(w, c, i),
        first_at(w, c, i) == w.len() ==> first_at(s, c, p + i) >= p + w.len(),
{
    lemma_first_at(w, c, i);
    let f = first_at(w, c, i);
    assert forall|k: int| p + i <= k < p + f implies s[k] != c by {
        lemma_holds_index(s, w, p, k - p);
    }
    lemma_first_at_absent(s, c, p + i, p + f);
    if f < w.len() {
        lemma_holds_index(s, w, p, f);
    }
}

/// The end of a tag is found in a text where it is found in the part of
/// the text that is looked at.
proof fn lemma_tag_end_within(s: Seq<char>, w: Seq<char>, p: int, i: int, quoted: bool)
    requires
        holds(s, w, p),
        0 <= i <= w.len(),
        tag_end_from(w, i, quoted) < w.len(),
    ensures
        tag_end_from(s, p + i, quoted) == p + tag_end_from(w, i, quoted),
    decreases w.len() - i,
{
    if i < w.len() {
        lemma_holds_index(s, w, p, i);
        let q = if w[i] == '"' {
            !quoted
        } else {
            quoted
        };
        if !(!q && w[i] == '>') {
            lemma_tag_end_within(s, w, p, i + 1, q);
        }
    }
}

/// Spaces are skipped in a text as in the part of it that is looked at,
/// where that part does not end with a space.
proof fn lemma_skip_spaces_within(s: Seq<char>, w: Seq<char>, p: int, i: int)
    requires
        holds(s, w, p),
        0 <= i < w.len(),
        w[w.len() - 1] != ' ',
    ensures
        i <= skip_spaces(w, i) < w.len(),
        skip_spaces(s, p + i) == p + skip_spaces(w, i),
    decreases w.len() - i,
{
    lemma_holds_index(s, w, p, i);
    if w[i] == ' ' {
        lemma_skip_spaces_within(s, w, p, i + 1);
    }
}

/// A range of the part of a text that is looked at is the same range of
/// the text, further up.
proof fn lemma_slice_within(s: Seq<char>, w: Seq<char>, p: int, a: int, b: int)
    requires
        holds(s, w, p),
        0 <= a <= b <= w.len(),
    ensures
        slice(s, p + a, p + b) == slice(w, a, b),
{
    assert(s.subrange(p + a, p + b) =~= w.subrange(a, b)) by {
        assert forall|k: int| 0 <= k < b - a implies s.subrange(p + a, p + b)[k] == w.subrange(
            a,
            b,
        )[k] by {
            lemma_holds_index(s, w, p, a + k);
        }
    }
}

/// An attribute value is read in a text as in the part of it that holds
/// the tag.
proof fn lemma_attr_value_within(
    s: Seq<char>,
    w: Seq<char>,
    p: int,
    v: int,
    te: int,
    delim: char,
)
    requires
        holds(s, w, p),
        0 <= v <= te < w.len(),
        attr_value(w, v, te, delim) is Ok,
    ensures
        attr_value(s, p + v, p + te, delim) == Ok::<(Seq<char>, int), ParseError>(
            (attr_value(w, v, te, delim)->Ok_0.0, p + attr_value(w, v, te, delim)->Ok_0.1),
        ),
{
    let bgn = if delim != ' ' {
        v + 1
    } else {
        v
    };
    lemma_first_at_within(s, w, p, delim, bgn);
    let k = first_at(w, delim, bgn);
    let end = if k < w.len() && k < te {
        k
    } else {
        te
    };
    if bgn != end {
        if bgn <= end {
            lemma_slice_within(s, w, p, bgn, end);
        }
    }
}

/// An attribute is read in a text as in the part of it that holds the tag.
proof fn lemma_attr_at_within(s: Seq<char>, w: Seq<char>, p: int, i: int, te: int)
    requires
        holds(s, w, p),
        0 <= i <= te,
        te == w.len() - 1,
        w[te] == '>',
        attr_at(w, i, te) is Ok,
    ensures
        attr_at(s, p + i, p + te) == Ok::<(Seq<char>, Seq<char>, int), ParseError>(
            (
                attr_at(w, i, te)->Ok_0.0,
                attr_at(w, i, te)->Ok_0.1,
                p + attr_at(w, i, te)->Ok_0.2,
            ),
        ),
{
    lemma_first_at_within(s, w, p, '=', i);
    lemma_first_at_within(s, w, p, ' ', i);
    let name_end = attr_name_end(w, i, te);
    assert(attr_name_end(s, p + i, p + te) == p + name_end);
    lemma_slice_within(s, w, p, i, name_end);
    lemma_skip_spaces_within(s, w, p, name_end);
    let q = skip_spaces(w, name_end);
    lemma_holds_index(s, w, p, q);
    if q < te && at(w, q, '=') {
        let v = q + 1;
        lemma_holds_index(s, w, p, v);
        assert(delimiter_at(s, p + v) == delimiter_at(w, v));
        lemma_attr_value_within(s, w, p, v, te, delimiter_at(w, v));
    }
}

/// Attributes are read in a text as in the part of it that holds the tag.
proof fn lemma_attrs_from_within(
    s: Seq<char>,
    w: Seq<char>,
    p: int,
    i: int,
    te: int,
    acc: Map<Seq<char>, Seq<char>>,
)
    requires
        holds(s, w, p),
        0 <= i <= te,
        te == w.len() - 1,
        w[te] == '>',
        attrs_from(w, i, te, acc) is Ok,
    ensures
        attrs_from(s, p + i, p + te, acc) == Ok::<(Map<Seq<char>, Seq<char>>, int), ParseError>(
            (attrs_from(w, i, te, acc)->Ok_0.0, p + attrs_from(w, i, te, acc)->Ok_0.1),
        ),
    decreases te - i,
{
    lemma_holds_index(s, w, p, te);
    lemma_skip_spaces(w, i);
    lemma_skip_spaces_within(s, w, p, i);
    let from = skip_spaces(w, i);
    if from < te {
        lemma_attr_at(w, from, te);
        lemma_attr_at_within(s, w, p, from, te);
        let (name, value, cur) = attr_at(w, from, te)->Ok_0;
        lemma_attrs_from_within(s, w, p, cur, te, acc.insert(name, value));
    }
}

/// A tag is read from its name on in a text as in the part of it that
/// holds the tag.
proof fn lemma_tag_at_within(s: Seq<char>, w: Seq<char>, p: int, i: int, terminator: bool)
    requires
        holds(s, w, p),
        w.len() >= 1,
        w[w.len() - 1] == '>',
        forall|k: int| 0 <= k < w.len() - 1 ==> #[trigger] w[k] != '>',
        0 <= i <= w.len(),
        tag_at(w, i, terminator) is Ok,
    ensures
        tag_at(s, p + i, terminator) == Ok::<(TagView, int), ParseError>(
            (tag_at(w, i, terminator)->Ok_0.0, p + tag_at(w, i, terminator)->Ok_0.1),
        ),
{
    let last = w.len() - 1;
    lemma_tag_end_from(w, i + 1, false);
    let te = tag_end(w, i);
    assert(te == last);
    lemma_tag_end_within(s, w, p, i + 1, false);
    lemma_first_at_within(s, w, p, ' ', i);
    let name_end = tag_name_end(w, i);
    assert(tag_name_end(s, p + i) == p + name_end);
    lemma_slice_within(s, w, p, i, name_end);
    lemma_skip_spaces_within(s, w, p, name_end);
    let from = skip_spaces(w, name_end);
    if from < te {
        lemma_attrs_from_within(s, w, p, from, last, Map::empty());
    }
}

/// A tag is read the same wherever it stands: where the text holds at `p`
/// what is, written alone, a tag, that tag is read at `p`, and no comment.
pub proof fn lemma_markup_in_context(s: Seq<char>, p: int, w: Seq<char>)
    requires
        is_tag_text(w),
        holds(s, w, p),
    ensures
        !matches_at(s, "<!--"@, p, false),
        at(s, p, '<'),
        markup_at(s, p) == Ok::<(TagView, int), ParseError>((tag_of(w), p + w.len())),
{
    reveal(reads_alone);
    reveal(tag_of);
    reveal_strlit("<!--");
    lemma_holds_index(s, w, p, 0);
    lemma_holds_index(s, w, p, 1);
    assert(!matches_at(s, "<!--"@, p, false)) by {
        if matches_at(s, "<!--"@, p, false) {
            if w.len() >= 4 {
                assert forall|k: int| 0 <= k < 4 implies w[0 + k] == "<!--"@[k] by {
                    lemma_holds_index(s, w, p, k);
                    assert(s[p + k] == "<!--"@[k]);
                }
                assert(matches_at(w, "<!--"@, 0, false));
            } else {
                lemma_holds_index(s, w, p, w.len() - 1);
                assert(s[p + (w.len() - 1)] == "<!--"@[w.len() - 1]);
            }
        }
    }
    if at(w, 1, '/') {
        lemma_tag_at_within(s, w, p, 2, true);
    } else {
        lemma_tag_at_within(s, w, p, 1, false);
    }
}

/// Where the text holds at `p` what is, written alone, a tag that opens no
/// script, one step of the tokenizer reads that tag and nothing else.
pub proof fn lemma_tag_in_context(s: Seq<char>, p: int, w: Seq<char>)
    requires
        is_tag_text(w),
        !opens_script(tag_of(w)),
        holds(s, w, p),
    ensures
        step(s, p) == Ok::<(Seq<PayloadView>, int), ParseError>(
            (seq![PayloadView::Tag(tag_of(w))], p + w.len()),
        ),
{
    lemma_markup_in_context(s, p, w);
}

/// A character that a tag name may hold.
pub open spec fn is_name_char(c: char) -> bool {
    !is_space(c) && c != '<' && c != '>' && c != '"'
}

/// A tag name that can stand in a tag without more ado: it is not empty,
/// holds no whitespace, no quote and no angle bracket, and does not begin
/// with `/` or `!`.
pub open spec fn is_name(name: Seq<char>) -> bool {
    &&& name.len() > 0
    &&& name[0] != '/'
    &&& name[0] != '!'
    &&& forall|i: int| 0 <= i < name.len() ==> is_name_char(#[trigger] name[i])
}

/// The tag named `name` as it is written: `<name>`, or `</name>` for an
/// end tag.
pub open spec fn tag_text(name: Seq<char>, terminator: bool) -> Seq<char> {
    if terminator {
        seq!['<', '/'] + name + seq!['>']
    } else {
        seq!['<'] + name + seq!['>']
    }
}

/// The tag named `name`, without attributes.
pub open spec fn plain_tag(name: Seq<char>, terminator: bool) -> TagView {
    TagView { name, attributes: None, self_closing: false, terminator }
}

/// The end of a tag is the first `>` where no quote precedes it.
proof fn lemma_tag_end_plain(s: Seq<char>, i: int, j: int)
    requires
        0 <= i <= j < s.len(),
        s[j] == '>',
        forall|k: int| i <= k < j ==> s[k] != '"' && s[k] != '>',
    ensures
        tag_end_from(s, i, false) == j,
    decreases j - i,
{
    if i < j {
        lemma_tag_end_plain(s, i + 1, j);
    }
}

/// A name is left as it is by trimming.
proof fn lemma_trim_name(name: Seq<char>)
    requires
        is_name(name),
    ensures
        trim(name) == name,
{
    assert(is_name_char(name[0]));
    assert(is_name_char(name[name.len() - 1]));
}

/// `<name>` and `</name>` are tags as they are written, and are read as
/// the start tag and the end tag named `name`, without attributes.
pub proof fn lemma_plain_tag(name: Seq<char>, terminator: bool)
    requires
        is_name(name),
    ensures
        is_tag_text(tag_text(name, terminator)),
        tag_of(tag_text(name, terminator)) == plain_tag(name, terminator),
{
    reveal(reads_alone);
    reveal(tag_of);
    reveal_strlit("<!--");
    let w = tag_text(name, terminator);
    let b: int = if terminator {
        2
    } else {
        1
    };
    let te = b + name.len();
    assert(w[1] != '!');
    assert(!matches_at(w, "<!--"@, 0, false)) by {
        if matches_at(w, "<!--"@, 0, false) {
            assert(w[0int + 1] == "<!--"@[1]);
        }
    }
    assert forall|k: int| b <= k < te implies is_name_char(#[trigger] w[k]) by {
        assert(w[k] == name[k - b]);
    }
    assert forall|i: int| 0 <= i < w.len() - 1 implies #[trigger] w[i] != '>' by {
        if i >= b {
            assert(is_name_char(w[i]));
        }
    }
    lemma_tag_end_plain(w, b + 1, te);
    assert forall|k: int| b <= k < te implies w[k] != ' ' by {
        assert(is_name_char(w[k]));
    }
    lemma_first_at_absent(w, ' ', b, te);
    assert(tag_name_end(w, b) == te);
    assert(w.subrange(b, te) =~= name);
    lemma_trim_name(name);
    assert(tag_at(w, b, terminator) == Ok::<(TagView, int), ParseError>(
        (plain_tag(name, terminator), te + 1),
    ));
    assert(markup_at(w, 0) == tag_at(w, b, terminator));
}

/// A `/` that is written to the name without a space belongs to the name:
/// `<name/>` is read as a start tag named `name/`, which is not
/// self-closing and has no attributes.
pub proof fn lemma_slash_belongs_to_name(name: Seq<char>)
    requires
        is_name(name),
    ensures
        is_tag_text(tag_text(name.push('/'), false)),
        tag_of(tag_text(name.push('/'), false)) == plain_tag(name.push('/'), false),
{
    let longer = name.push('/');
    assert(longer[0] == name[0]);
    assert forall|i: int| 0 <= i < longer.len() implies is_name_char(#[trigger] longer[i]) by {
        if i < name.len() {
            assert(longer[i] == name[i]);
        }
    }
    lemma_plain_tag(longer, false);
}

/// A character that the name of an attribute may hold.
pub open spec fn is_key_char(c: char) -> bool {
    c != ' ' && c != '=' && c != '>' && c != '"'
}

/// The name of an attribute that can stand in a tag without more ado: it
/// is not empty, holds no space, no `=`, no `>` and no double quote, and is
/// not the `/` that marks a self-closing tag.
pub open spec fn is_key(key: Seq<char>) -> bool {
    &&& key.len() > 0
    &&& key != "/"@
    &&& forall|i: int| 0 <= i < key.len() ==> is_key_char(#[trigger] key[i])
}

/// A value that can be written in the form that `delim` stands for: in
/// double quotes, in single quotes or, for a space, bare. It holds neither
/// `>` nor a double quote nor its own delimiter, and a bare value does not
/// begin with a single quote.
pub open spec fn is_value(value: Seq<char>, delim: char) -> bool {
    &&& delim == '"' || delim == '\'' || delim == ' '
    &&& forall|i: int|
        0 <= i < value.len() ==> (#[trigger] value[i]) != '>' && value[i] != '"' && value[i]
            != delim
    &&& (delim == ' ' && value.len() > 0) ==> value[0] != '\''
}

/// An attribute as it is written: `key="value"`, `key='value'` or, where
/// `delim` is a space, `key=value`.
pub open spec fn attribute_text(key: Seq<char>, value: Seq<char>, delim: char) -> Seq<char> {
    if delim == ' ' {
        key + seq!['='] + value
    } else {
        key + seq!['=', delim] + value + seq![delim]
    }
}

/// Looking for the end of a tag passes over what holds no double quote
/// and, outside of quotes, no `>`.
pub proof fn lemma_tag_end_skip(s: Seq<char>, i: int, j: int, quoted: bool)
    requires
        0 <= i <= j <= s.len(),
        forall|k: int| i <= k < j ==> s[k] != '"' && (quoted || s[k] != '>'),
    ensures
        tag_end_from(s, i, quoted) == tag_end_from(s, j, quoted),
    decreases j - i,
{
    if i < j {
        lemma_tag_end_skip(s, i + 1, j, quoted);
    }
}

} // verus!
