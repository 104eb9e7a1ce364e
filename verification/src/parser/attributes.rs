//! Start tags with any number of attributes, as they are written, and what
//! they are read as: the attributes that are written, and no others.

use crate::dom::payload::TagView;
use crate::parser::grammar::{
    attr_at, attr_name_end, attr_value, attrs_from, attrs_within, delimiter_at, finish_tag,
    lemma_skip_spaces, markup_at, skip_spaces, tag_at, tag_end, tag_end_from, tag_name_end,
};
use crate::parser::input::{first_at, lemma_first_at, matches_at};
use crate::parser::tags::{
    attribute_text, holds, is_bracketed, is_key, is_key_char, is_name, is_name_char, is_tag_text,
    is_value, lemma_first_at_absent, lemma_holds_index, lemma_holds_split, lemma_tag_end_skip,
    reads_alone, tag_of,
};
use crate::parser::ParseError;
use crate::text::trim;
use vstd::prelude::*;

verus! {

/// An attribute: its name, its value, and how the value is written: in
/// double quotes, in single quotes or, where `delim` is a space, bare.
pub struct Attr {
    pub key: Seq<char>,
    pub value: Seq<char>,
    pub delim: char,
}

/// An attribute whose name and value can be written as they are.
pub open spec fn is_attr(a: Attr) -> bool {
    is_key(a.key) && is_value(a.value, a.delim)
}

/// Attributes as they are written: each after one space.
pub open spec fn attrs_text(list: Seq<Attr>) -> Seq<char>
    decreases list.len(),
{
    if list.len() == 0 {
        Seq::empty()
    } else {
        seq![' '] + attribute_text(list[0].key, list[0].value, list[0].delim) + attrs_text(
            list.drop_first(),
        )
    }
}

/// The mark of a self-closing tag as it is written: a space and a `/`.
pub open spec fn slash_text(slash: bool) -> Seq<char> {
    if slash {
        seq![' ', '/']
    } else {
        Seq::empty()
    }
}

/// What stands between the name and the `>` of a tag: the attributes and
/// the mark of a self-closing tag.
pub open spec fn inner_text(list: Seq<Attr>, slash: bool) -> Seq<char> {
    attrs_text(list) + slash_text(slash)
}

/// A start tag as it is written: the name, the attributes, the mark of a
/// self-closing tag where it is one.
pub open spec fn tag_text_with_all(name: Seq<char>, list: Seq<Attr>, slash: bool) -> Seq<char> {
    seq!['<'] + name + inner_text(list, slash) + seq!['>']
}

/// The mapping that attributes stand for, added to `acc`: a later
/// attribute replaces an earlier one of the same name.
pub open spec fn attrs_map(list: Seq<Attr>, acc: Map<Seq<char>, Seq<char>>) -> Map<
    Seq<char>,
    Seq<char>,
>
    decreases list.len(),
{
    if list.len() == 0 {
        acc
    } else {
        attrs_map(list.drop_first(), acc.insert(list[0].key, list[0].value))
    }
}

/// The start tag named `name` with the attributes of `list`. A tag that is
/// written without attributes and without the mark has no set of
/// attributes.
pub open spec fn tag_with_all(name: Seq<char>, list: Seq<Attr>, slash: bool) -> TagView {
    TagView {
        name,
        attributes: if list.len() == 0 && !slash {
            None
        } else {
            Some(attrs_map(list, Map::empty()))
        },
        self_closing: slash,
        terminator: false,
    }
}

/// Where the parts of an attribute that begins at `p` stand.
pub struct Parts {
    pub e: int,
    pub v: int,
    pub c: int,
    pub end: int,
}

/// The `=` of the attribute at `e`, its value from `v` up to `c`, and the
/// position `end` after it.
pub open spec fn parts(a: Attr, p: int) -> Parts {
    let e: int = p + a.key.len();
    let v: int = if a.delim == ' ' {
        e + 1
    } else {
        e + 2
    };
    let c: int = v + a.value.len();
    let end: int = if a.delim == ' ' {
        c
    } else {
        c + 1
    };
    Parts { e, v, c, end }
}

/// Whether the attribute `a` stands in `s` at `p`.
pub open spec fn stands(s: Seq<char>, a: Attr, p: int) -> bool {
    let at = parts(a, p);
    &&& 0 <= p < at.e
    &&& at.end <= s.len()
    &&& a.delim == '"' || a.delim == '\'' || a.delim == ' '
    &&& forall|i: int| p <= i < at.e ==> is_key_char(#[trigger] s[i])
    &&& s[at.e] == '='
    &&& a.delim != ' ' ==> s[at.e + 1] == a.delim && s[at.c] == a.delim
    &&& forall|i: int|
        at.v <= i < at.c ==> (#[trigger] s[i]) != '>' && s[i] != '"' && s[i] != a.delim
    &&& (a.delim == ' ' && at.v < at.c) ==> s[at.v] != '\''
    &&& s.subrange(p, at.e) == a.key
    &&& s.subrange(at.v, at.c) == a.value
}

/// Where a text holds an attribute as it is written, the attribute stands.
proof fn lemma_stands(s: Seq<char>, a: Attr, p: int)
    requires
        is_attr(a),
        holds(s, attribute_text(a.key, a.value, a.delim), p),
    ensures
        stands(s, a, p),
        parts(a, p).end == p + attribute_text(a.key, a.value, a.delim).len(),
{
    let t = attribute_text(a.key, a.value, a.delim);
    let at = parts(a, p);
    assert forall|k: int| 0 <= k < t.len() implies s[p + k] == t[k] by {
        lemma_holds_index(s, t, p, k);
    }
    assert forall|i: int| p <= i < at.e implies is_key_char(#[trigger] s[i]) by {
        assert(s[p + (i - p)] == t[i - p]);
        assert(t[i - p] == a.key[i - p]);
    }
    assert(s[at.e] == '=') by {
        assert(s[p + (at.e - p)] == t[at.e - p]);
    }
    if a.delim != ' ' {
        assert(s[p + (at.e + 1 - p)] == t[at.e + 1 - p]);
        assert(s[p + (at.c - p)] == t[at.c - p]);
    }
    assert forall|i: int| at.v <= i < at.c implies (#[trigger] s[i]) != '>' && s[i] != '"'
        && s[i] != a.delim by {
        assert(s[p + (i - p)] == t[i - p]);
        assert(t[i - p] == a.value[i - at.v]);
    }
    if a.delim == ' ' && at.v < at.c {
        assert(s[p + (at.v - p)] == t[at.v - p]);
        assert(t[at.v - p] == a.value[0]);
    }
    assert(s.subrange(p, at.e) =~= a.key) by {
        assert forall|k: int| 0 <= k < a.key.len() implies s.subrange(p, at.e)[k] == a.key[k] by {
            assert(s[p + k] == t[k]);
        }
    }
    assert(s.subrange(at.v, at.c) =~= a.value) by {
        assert forall|k: int| 0 <= k < a.value.len() implies s.subrange(at.v, at.c)[k]
            == a.value[k] by {
            assert(s[p + (at.v - p + k)] == t[at.v - p + k]);
        }
    }
}

/// An attribute that stands in a tag is read as it is written, up to the
/// position after it. A bare value must be followed by a space or by the
/// end of the tag.
proof fn lemma_attr_read(s: Seq<char>, a: Attr, p: int, te: int)
    requires
        stands(s, a, p),
        parts(a, p).end <= te < s.len(),
        s[te] == '>',
        a.delim == ' ' ==> parts(a, p).end == te || s[parts(a, p).end] == ' ',
    ensures
        attr_at(s, p, te) == Ok::<(Seq<char>, Seq<char>, int), ParseError>(
            (a.key, a.value, parts(a, p).end),
        ),
{
    let at = parts(a, p);
    assert forall|k: int| p <= k < at.e implies s[k] != '=' && s[k] != ' ' by {
        assert(is_key_char(s[k]));
    }
    lemma_first_at_absent(s, '=', p, at.e);
    lemma_first_at_absent(s, ' ', p, at.e);
    lemma_first_at(s, ' ', at.e);
    assert(first_at(s, '=', at.e) == at.e);
    assert(attr_name_end(s, p, te) == at.e);
    assert(skip_spaces(s, at.e) == at.e);
    assert(delimiter_at(s, at.e + 1) == a.delim);
    if a.delim == ' ' {
        assert forall|k: int| at.v <= k < at.c implies s[k] != ' ' by {}
        lemma_first_at_absent(s, ' ', at.v, at.c);
        if at.end < te {
            assert(first_at(s, ' ', at.c) == at.c);
        } else {
            lemma_first_at(s, ' ', at.c);
        }
    } else {
        lemma_first_at_absent(s, a.delim, at.v, at.c);
        assert(first_at(s, a.delim, at.c) == at.c);
    }
    if at.v == at.c {
        assert(a.value =~= Seq::<char>::empty());
    }
    assert(attr_value(s, at.e + 1, te, a.delim) == Ok::<(Seq<char>, int), ParseError>(
        (a.value, at.c),
    ));
}

/// Looking for the end of a tag passes over an attribute that stands in
/// it, and no `>` stands in the attribute.
proof fn lemma_tag_end_over_attr(s: Seq<char>, a: Attr, p: int)
    requires
        stands(s, a, p),
    ensures
        tag_end_from(s, p, false) == tag_end_from(s, parts(a, p).end, false),
        forall|i: int| p <= i < parts(a, p).end ==> s[i] != '>',
{
    let at = parts(a, p);
    assert forall|k: int| p <= k < at.e + 1 implies s[k] != '"' && s[k] != '>' by {
        if k < at.e {
            assert(is_key_char(s[k]));
        }
    }
    lemma_tag_end_skip(s, p, at.e + 1, false);
    if a.delim == '"' {
        assert(tag_end_from(s, at.e + 1, false) == tag_end_from(s, at.e + 2, true));
        lemma_tag_end_skip(s, at.v, at.c, true);
        assert(tag_end_from(s, at.c, true) == tag_end_from(s, at.c + 1, false));
    } else if a.delim == '\'' {
        assert(tag_end_from(s, at.e + 1, false) == tag_end_from(s, at.e + 2, false));
        lemma_tag_end_skip(s, at.v, at.c, false);
        assert(tag_end_from(s, at.c, false) == tag_end_from(s, at.c + 1, false));
    } else {
        lemma_tag_end_skip(s, at.v, at.c, false);
    }
    assert forall|i: int| p <= i < at.end implies s[i] != '>' by {
        if i < at.e {
            assert(is_key_char(s[i]));
        }
    }
}

/// Whether every attribute of `list` can be written as it is.
pub open spec fn are_attrs(list: Seq<Attr>) -> bool {
    forall|i: int| 0 <= i < list.len() ==> is_attr(#[trigger] list[i])
}

/// What stands between the name and the `>` of a tag begins with a space,
/// unless nothing stands there.
proof fn lemma_inner_begins(list: Seq<Attr>, slash: bool)
    ensures
        inner_text(list, slash).len() > 0 ==> inner_text(list, slash)[0] == ' ',
        inner_text(list, slash).len() == 0 <==> list.len() == 0 && !slash,
{
}

/// Where a tag holds attributes and the mark of a self-closing tag up to
/// its `>`, looking for the end of the tag passes over them, and no `>`
/// stands in them.
proof fn lemma_tag_end_over_inner(s: Seq<char>, p: int, list: Seq<Attr>, slash: bool)
    requires
        are_attrs(list),
        holds(s, inner_text(list, slash), p),
    ensures
        tag_end_from(s, p, false) == tag_end_from(s, p + inner_text(list, slash).len(), false),
        forall|i: int| p <= i < p + inner_text(list, slash).len() ==> s[i] != '>',
    decreases list.len(),
{
    let text = inner_text(list, slash);
    if list.len() == 0 {
        if slash {
            lemma_holds_index(s, text, p, 0);
            lemma_holds_index(s, text, p, 1);
            lemma_tag_end_skip(s, p, p + 2, false);
        }
    } else {
        let a = list[0];
        let rest = list.drop_first();
        let one = attribute_text(a.key, a.value, a.delim);
        assert(text =~= (seq![' '] + one) + inner_text(rest, slash));
        lemma_holds_split(s, seq![' '] + one, inner_text(rest, slash), p);
        lemma_holds_split(s, seq![' '], one, p);
        lemma_holds_index(s, seq![' '], p, 0);
        lemma_stands(s, a, p + 1);
        lemma_tag_end_over_attr(s, a, p + 1);
        assert(are_attrs(rest)) by {
            assert forall|i: int| 0 <= i < rest.len() implies is_attr(#[trigger] rest[i]) by {
                assert(rest[i] == list[i + 1]);
            }
        }
        lemma_tag_end_over_inner(s, parts(a, p + 1).end, rest, slash);
        lemma_tag_end_skip(s, p, p + 1, false);
    }
}

/// With the mark of a self-closing tag read as an attribute named `/`.
pub open spec fn with_slash(found: Map<Seq<char>, Seq<char>>, slash: bool) -> Map<
    Seq<char>,
    Seq<char>,
> {
    if slash {
        found.insert("/"@, Seq::empty())
    } else {
        found
    }
}

/// The mark of a self-closing tag before the `>` of the tag is read as an
/// attribute named `/`.
proof fn lemma_slash_read(s: Seq<char>, p: int, te: int, acc: Map<Seq<char>, Seq<char>>)
    requires
        holds(s, seq![' ', '/'], p),
        te == p + 2,
        te < s.len(),
        s[te] == '>',
    ensures
        attrs_from(s, p, te, acc) == Ok::<(Map<Seq<char>, Seq<char>>, int), ParseError>(
            (acc.insert("/"@, Seq::empty()), te + 1),
        ),
{
    reveal_strlit("/");
    lemma_holds_index(s, seq![' ', '/'], p, 0);
    lemma_holds_index(s, seq![' ', '/'], p, 1);
    assert(skip_spaces(s, p + 1) == p + 1);
    assert(skip_spaces(s, p) == p + 1);
    assert forall|k: int| p + 1 <= k < te implies s[k] != '=' && s[k] != ' ' by {}
    lemma_first_at_absent(s, '=', p + 1, te);
    lemma_first_at_absent(s, ' ', p + 1, te);
    assert(attr_name_end(s, p + 1, te) == te);
    assert(s.subrange(p + 1, te) =~= "/"@);
    assert(skip_spaces(s, te) == te);
    assert(attr_at(s, p + 1, te) == Ok::<(Seq<char>, Seq<char>, int), ParseError>(
        ("/"@, Seq::empty(), te),
    ));
    assert(attrs_from(s, te, te, acc.insert("/"@, Seq::empty())) == Ok::<
        (Map<Seq<char>, Seq<char>>, int),
        ParseError,
    >((acc.insert("/"@, Seq::empty()), te + 1)));
}

/// Where a tag holds attributes and the mark of a self-closing tag up to
/// its `>`, the attributes that are written are read, each once and in
/// their order, and then the mark.
proof fn lemma_inner_read(
    s: Seq<char>,
    p: int,
    te: int,
    list: Seq<Attr>,
    slash: bool,
    acc: Map<Seq<char>, Seq<char>>,
)
    requires
        are_attrs(list),
        holds(s, inner_text(list, slash), p),
        te == p + inner_text(list, slash).len(),
        te < s.len(),
        s[te] == '>',
    ensures
        attrs_from(s, p, te, acc) == Ok::<(Map<Seq<char>, Seq<char>>, int), ParseError>(
            (with_slash(attrs_map(list, acc), slash), te + 1),
        ),
    decreases list.len(),
{
    let text = inner_text(list, slash);
    if list.len() == 0 {
        if slash {
            assert(text =~= seq![' ', '/']);
            lemma_slash_read(s, p, te, acc);
        } else {
            assert(skip_spaces(s, te) == te);
        }
    } else {
        let a = list[0];
        let rest = list.drop_first();
        let one = attribute_text(a.key, a.value, a.delim);
        let more = inner_text(rest, slash);
        assert(text =~= (seq![' '] + one) + more);
        lemma_holds_split(s, seq![' '] + one, more, p);
        lemma_holds_split(s, seq![' '], one, p);
        lemma_holds_index(s, seq![' '], p, 0);
        lemma_stands(s, a, p + 1);
        let end = parts(a, p + 1).end;
        assert(is_key_char(s[p + 1]));
        assert(skip_spaces(s, p + 1) == p + 1);
        assert(skip_spaces(s, p) == p + 1);
        lemma_inner_begins(rest, slash);
        if more.len() > 0 {
            lemma_holds_index(s, more, end, 0);
        }
        lemma_attr_read(s, a, p + 1, te);
        assert(are_attrs(rest)) by {
            assert forall|i: int| 0 <= i < rest.len() implies is_attr(#[trigger] rest[i]) by {
                assert(rest[i] == list[i + 1]);
            }
        }
        lemma_inner_read(s, end, te, rest, slash, acc.insert(a.key, a.value));
    }
}

/// No attribute that can be written as it is is named `/`, so the mapping
/// of such attributes holds `/` only where it was held before.
proof fn lemma_attrs_map_slash(list: Seq<Attr>, acc: Map<Seq<char>, Seq<char>>)
    requires
        are_attrs(list),
    ensures
        attrs_map(list, acc).contains_key("/"@) == acc.contains_key("/"@),
    decreases list.len(),
{
    if list.len() > 0 {
        let rest = list.drop_first();
        assert(is_attr(list[0]));
        assert(are_attrs(rest)) by {
            assert forall|i: int| 0 <= i < rest.len() implies is_attr(#[trigger] rest[i]) by {
                assert(rest[i] == list[i + 1]);
            }
        }
        lemma_attrs_map_slash(rest, acc.insert(list[0].key, list[0].value));
    }
}

/// Reading attributes begins after the spaces before them.
proof fn lemma_attrs_from_skips(s: Seq<char>, p: int, te: int, acc: Map<Seq<char>, Seq<char>>)
    requires
        0 <= p <= te < s.len(),
        s[te] == '>',
    ensures
        attrs_from(s, skip_spaces(s, p), te, acc) == attrs_from(s, p, te, acc),
{
    lemma_skip_spaces(s, p);
    let from = skip_spaces(s, p);
    assert(skip_spaces(s, from) == from);
}

/// The name of a tag with attributes is read as it is written.
proof fn lemma_name_read(w: Seq<char>, name: Seq<char>, te: int)
    requires
        is_name(name),
        holds(w, name, 1),
        name.len() + 1 <= te < w.len(),
        tag_end(w, 1) == te,
        te == name.len() + 1 || w[name.len() as int + 1] == ' ',
    ensures
        tag_name_end(w, 1) == name.len() + 1,
        w.subrange(1, name.len() as int + 1) == name,
        trim(name) == name,
{
    let b: int = name.len() as int + 1;
    assert forall|k: int| 1 <= k < b implies w[k] != ' ' by {
        lemma_holds_index(w, name, 1, k - 1);
        assert(is_name_char(name[k - 1]));
    }
    lemma_first_at_absent(w, ' ', 1, b);
    lemma_first_at(w, ' ', b);
    assert(is_name_char(name[0]));
    assert(is_name_char(name[name.len() - 1]));
}

/// Whether `w` consists of a `<`, the name, the attributes with the mark
/// of a self-closing tag, and a `>`.
pub open spec fn is_whole(w: Seq<char>, name: Seq<char>, list: Seq<Attr>, slash: bool) -> bool {
    &&& w.len() == name.len() + inner_text(list, slash).len() + 2
    &&& w[0] == '<'
    &&& w[w.len() - 1] == '>'
    &&& holds(w, name, 1)
    &&& holds(w, inner_text(list, slash), name.len() as int + 1)
}

/// A tag as it is written consists of its parts.
proof fn lemma_whole(name: Seq<char>, list: Seq<Attr>, slash: bool)
    ensures
        is_whole(tag_text_with_all(name, list, slash), name, list, slash),
{
    let w = tag_text_with_all(name, list, slash);
    let inner = inner_text(list, slash);
    assert(w =~= ((seq!['<'] + name) + inner) + seq!['>']);
    assert(w.subrange(0, w.len() as int) =~= w);
    lemma_holds_split(w, (seq!['<'] + name) + inner, seq!['>'], 0);
    lemma_holds_split(w, seq!['<'] + name, inner, 0);
    lemma_holds_split(w, seq!['<'], name, 0);
}

/// A tag that consists of its parts has the shape of a tag, and its end is
/// its last character.
proof fn lemma_whole_shape(w: Seq<char>, name: Seq<char>, list: Seq<Attr>, slash: bool)
    requires
        is_name(name),
        are_attrs(list),
        is_whole(w, name, list, slash),
    ensures
        is_bracketed(w),
        tag_end(w, 1) == w.len() - 1,
        w[1] != '/',
{
    reveal_strlit("<!--");
    let b: int = name.len() as int + 1;
    let te: int = w.len() - 1;
    lemma_holds_index(w, name, 1, 0);
    assert forall|k: int| 1 <= k < b implies is_name_char(#[trigger] w[k]) by {
        lemma_holds_index(w, name, 1, k - 1);
    }
    lemma_tag_end_over_inner(w, b, list, slash);
    assert(!matches_at(w, "<!--"@, 0, false)) by {
        if matches_at(w, "<!--"@, 0, false) {
            assert(w[0int + 1] == "<!--"@[1]);
        }
    }
    assert forall|i: int| 0 <= i < w.len() - 1 implies #[trigger] w[i] != '>' by {
        if 1 <= i < b {
            assert(is_name_char(w[i]));
        }
    }
    assert forall|k: int| 2 <= k < b implies w[k] != '"' && w[k] != '>' by {
        assert(is_name_char(w[k]));
    }
    lemma_tag_end_skip(w, 2, b, false);
    assert(tag_end_from(w, te, false) == te);
}

/// The attributes of a tag that consists of its parts are read as they
/// are written, from the position after the name on.
proof fn lemma_whole_attributes(w: Seq<char>, name: Seq<char>, list: Seq<Attr>, slash: bool)
    requires
        are_attrs(list),
        is_whole(w, name, list, slash),
        list.len() > 0 || slash,
    ensures
        skip_spaces(w, name.len() as int + 1) < w.len() - 1,
        attrs_from(w, skip_spaces(w, name.len() as int + 1), w.len() - 1, Map::empty()) == Ok::<
            (Map<Seq<char>, Seq<char>>, int),
            ParseError,
        >((with_slash(attrs_map(list, Map::empty()), slash), w.len() as int)),
{
    let b: int = name.len() as int + 1;
    let te: int = w.len() - 1;
    let found = attrs_map(list, Map::empty());
    lemma_skip_spaces(w, b);
    lemma_inner_read(w, b, te, list, slash, Map::empty());
    lemma_attrs_from_skips(w, b, te, Map::empty());
    if skip_spaces(w, b) >= te {
        assert(attrs_from(w, b, te, Map::empty()) == Ok::<
            (Map<Seq<char>, Seq<char>>, int),
            ParseError,
        >((Map::empty(), te + 1)));
        if slash {
            assert(with_slash(found, slash).contains_key("/"@));
        } else {
            lemma_attrs_map_holds_first(list);
        }
    }
}

/// A tag that consists of its parts is read, from its name on, as the tag
/// with the attributes that are written.
proof fn lemma_whole_read(w: Seq<char>, name: Seq<char>, list: Seq<Attr>, slash: bool)
    requires
        is_name(name),
        are_attrs(list),
        is_whole(w, name, list, slash),
        tag_end(w, 1) == w.len() - 1,
    ensures
        tag_at(w, 1, false) == Ok::<(TagView, int), ParseError>(
            (tag_with_all(name, list, slash), w.len() as int),
        ),
{
    let inner = inner_text(list, slash);
    let b: int = name.len() as int + 1;
    let te: int = w.len() - 1;
    lemma_inner_begins(list, slash);
    if inner.len() > 0 {
        lemma_holds_index(w, inner, b, 0);
    }
    lemma_name_read(w, name, te);
    let from = skip_spaces(w, b);
    let tag = TagView { name, attributes: None, self_closing: false, terminator: false };
    if inner.len() == 0 {
        assert(from == te);
    } else {
        let found = attrs_map(list, Map::empty());
        lemma_whole_attributes(w, name, list, slash);
        lemma_attrs_map_slash(list, Map::empty());
        if slash {
            assert(with_slash(found, slash).remove("/"@) =~= found);
        }
        assert(finish_tag(tag, with_slash(found, slash)) == tag_with_all(name, list, slash));
        assert(attrs_within(w, from, te, tag) == Ok::<(TagView, int), ParseError>(
            (tag_with_all(name, list, slash), te + 1),
        ));
    }
}

/// The attributes that are read are the ones that are written:
/// `<name key="value" key='value' key=value>`, with any number of
/// attributes in any of the three forms, each after one space, and with
/// ` /` before the `>` or without it, is a tag as it is written, and is
/// read as the start tag named `name` with exactly these attributes, which
/// is self-closing where the ` /` is written.
pub proof fn lemma_tag_with_attributes(name: Seq<char>, list: Seq<Attr>, slash: bool)
    requires
        is_name(name),
        are_attrs(list),
    ensures
        is_tag_text(tag_text_with_all(name, list, slash)),
        tag_of(tag_text_with_all(name, list, slash)) == tag_with_all(name, list, slash),
{
    reveal(reads_alone);
    reveal(tag_of);
    let w = tag_text_with_all(name, list, slash);
    lemma_whole(name, list, slash);
    lemma_whole_shape(w, name, list, slash);
    lemma_whole_read(w, name, list, slash);
    assert(markup_at(w, 0) == tag_at(w, 1, false));
}

/// The mapping of attributes of which there is one is not empty.
proof fn lemma_attrs_map_holds_first(list: Seq<Attr>)
    requires
        list.len() > 0,
    ensures
        attrs_map(list, Map::empty()) != Map::<Seq<char>, Seq<char>>::empty(),
{
    lemma_attrs_map_keeps(
        list.drop_first(),
        Map::empty().insert(list[0].key, list[0].value),
        list[0].key,
    );
}

/// What the mapping held before it holds after attributes were added.
proof fn lemma_attrs_map_keeps(list: Seq<Attr>, acc: Map<Seq<char>, Seq<char>>, key: Seq<char>)
    requires
        acc.contains_key(key),
    ensures
        attrs_map(list, acc).contains_key(key),
    decreases list.len(),
{
    if list.len() > 0 {
        lemma_attrs_map_keeps(list.drop_first(), acc.insert(list[0].key, list[0].value), key);
    }
}

/// A start tag with one attribute as it is written: the name, a space, the
/// attribute.
pub open spec fn tag_text_with(
    name: Seq<char>,
    key: Seq<char>,
    value: Seq<char>,
    delim: char,
) -> Seq<char> {
    seq!['<'] + name + seq![' '] + attribute_text(key, value, delim) + seq!['>']
}

/// The start tag named `name` with the one attribute `key`.
pub open spec fn tag_with(name: Seq<char>, key: Seq<char>, value: Seq<char>) -> TagView {
    TagView {
        name,
        attributes: Some(Map::<Seq<char>, Seq<char>>::empty().insert(key, value)),
        self_closing: false,
        terminator: false,
    }
}

/// An attribute is read in all three forms of writing its value, be the
/// value empty or not: `<name key="value">`, `<name key='value'>` and
/// `<name key=value>` are tags as they are written, and are read as the
/// start tag named `name` with the attribute `key` set to `value`.
pub proof fn lemma_tag_with_attribute(
    name: Seq<char>,
    key: Seq<char>,
    value: Seq<char>,
    delim: char,
)
    requires
        is_name(name),
        is_key(key),
        is_value(value, delim),
    ensures
        is_tag_text(tag_text_with(name, key, value, delim)),
        tag_of(tag_text_with(name, key, value, delim)) == tag_with(name, key, value),
{
    let list = seq![Attr { key, value, delim }];
    let one = attribute_text(key, value, delim);
    assert(list.drop_first() =~= Seq::<Attr>::empty());
    assert(attrs_text(list) =~= seq![' '] + one) by {
        reveal_with_fuel(attrs_text, 2);
    }
    assert(attrs_map(list, Map::empty()) == Map::<Seq<char>, Seq<char>>::empty().insert(
        key,
        value,
    )) by {
        reveal_with_fuel(attrs_map, 2);
    }
    assert(tag_text_with_all(name, list, false) =~= tag_text_with(name, key, value, delim));
    lemma_tag_with_attributes(name, list, false);
}

} // verus!
