//! Documents made of properly paired tags and text, and what parsing makes
//! of them.
//!
//! Such a document is given as a value of [`Markup`]; writing it down yields
//! the text that is parsed. The laws of this module say that parsing that
//! text gives back the document: its tags nested as they were written, and
//! its text unchanged.
//!
//! Left out are the documents of which this does not hold: texts that
//! begin with a space or a line feed, which is passed over; scripts, whose
//! body is not read as markup; start tags that are self-closing, which take
//! no children; and tags with a `>` between quotes, which the plain
//! stripping of tags used here would cut short.

use crate::dom::payload::PayloadView;
use crate::dom::{leaves, Tree};
use crate::parser::grammar::{
    lemma_step, opens_script, script_at, step, text_at, tokens, tokens_from,
};
use crate::parser::input::{first_at, first_match, lemma_first_at, lemma_first_match, matches_at};
use crate::parser::nesting::{
    closes, is_end_tag, lemma_terminator_from, may_nest, nest, terminator_from,
};
use crate::parser::tags::{
    holds, is_bracketed, is_name, is_tag_text, lemma_first_at_absent, lemma_holds_index,
    lemma_holds_split, lemma_markup_in_context, lemma_plain_tag, lemma_tag_in_context, plain_tag,
    tag_of, tag_text,
};
use crate::parser::{document_tree, root_tag, ParseError};
use vstd::prelude::*;

verus! {

/// A piece of a document: a run of text, or an element, which is a start
/// tag as it is written, the pieces that follow it, and an end tag as it
/// is written.
pub enum Markup {
    Text(Seq<char>),
    Element(Seq<char>, Seq<Markup>, Seq<char>),
}

/// The element named `name` that has no attributes and is written without
/// any whitespace in its tags.
pub open spec fn element(name: Seq<char>, body: Seq<Markup>) -> Markup {
    Markup::Element(tag_text(name, false), body, tag_text(name, true))
}

/// A piece as it is written.
pub open spec fn render(piece: Markup) -> Seq<char>
    decreases piece,
{
    match piece {
        Markup::Text(text) => text,
        Markup::Element(open, body, close) => open + render_all(body) + close,
    }
}

/// A sequence of pieces as it is written.
pub open spec fn render_all(pieces: Seq<Markup>) -> Seq<char>
    decreases pieces,
{
    if pieces.len() == 0 {
        Seq::empty()
    } else {
        render(pieces[0]) + render_all(pieces.drop_first())
    }
}

/// The payloads that a piece is made of, in the order in which they are
/// written.
pub open spec fn flat(piece: Markup) -> Seq<PayloadView>
    decreases piece,
{
    match piece {
        Markup::Text(text) => seq![PayloadView::Text(text)],
        Markup::Element(open, body, close) => seq![PayloadView::Tag(tag_of(open))] + flat_all(body)
            + seq![PayloadView::Tag(tag_of(close))],
    }
}

/// The payloads that a sequence of pieces is made of.
pub open spec fn flat_all(pieces: Seq<Markup>) -> Seq<PayloadView>
    decreases pieces,
{
    if pieces.len() == 0 {
        Seq::empty()
    } else {
        flat(pieces[0]) + flat_all(pieces.drop_first())
    }
}

/// The tree of a piece: a text is a leaf, an element has its start tag as
/// payload and the trees of its body as children.
pub open spec fn tree_of(piece: Markup) -> Tree
    decreases piece,
{
    match piece {
        Markup::Text(text) => Tree::leaf(PayloadView::Text(text)),
        Markup::Element(open, body, close) => Tree {
            payload: PayloadView::Tag(tag_of(open)),
            children: trees_of_all(body),
        },
    }
}

/// The trees of a sequence of pieces.
pub open spec fn trees_of_all(pieces: Seq<Markup>) -> Seq<Tree>
    decreases pieces,
{
    if pieces.len() == 0 {
        Seq::empty()
    } else {
        seq![tree_of(pieces[0])] + trees_of_all(pieces.drop_first())
    }
}

/// The text of a piece, without its tags.
pub open spec fn text_of(piece: Markup) -> Seq<char>
    decreases piece,
{
    match piece {
        Markup::Text(text) => text,
        Markup::Element(open, body, close) => text_of_all(body),
    }
}

/// The text of a sequence of pieces, without its tags.
pub open spec fn text_of_all(pieces: Seq<Markup>) -> Seq<char>
    decreases pieces,
{
    if pieces.len() == 0 {
        Seq::empty()
    } else {
        text_of(pieces[0]) + text_of_all(pieces.drop_first())
    }
}

/// A text that is read back as it is written: it is not empty, holds no
/// `<`, and does not begin with a space or a line feed, which would be
/// passed over.
pub open spec fn is_text(text: Seq<char>) -> bool {
    &&& text.len() > 0
    &&& text[0] != ' '
    &&& text[0] != '\n'
    &&& forall|i: int| 0 <= i < text.len() ==> #[trigger] text[i] != '<'
}

/// A start tag and an end tag, as they are written, that pair properly:
/// the start tag is no end tag, not self-closing and opens no script, whose
/// body would not be read as markup; the end tag is an end tag of the same
/// name.
pub open spec fn is_pair(open: Seq<char>, close: Seq<char>) -> bool {
    &&& is_tag_text(open)
    &&& is_tag_text(close)
    &&& may_nest(PayloadView::Tag(tag_of(open)))
    &&& !opens_script(tag_of(open))
    &&& closes(PayloadView::Tag(tag_of(close)), tag_of(open).name)
}

/// A piece whose tags pair properly and whose texts are read back as they
/// are written, and in which no text follows a text.
pub open spec fn well_formed(piece: Markup) -> bool
    decreases piece,
{
    match piece {
        Markup::Text(text) => is_text(text),
        Markup::Element(open, body, close) => is_pair(open, close) && well_formed_all(body),
    }
}

/// A sequence of well-formed pieces in which no text follows a text.
pub open spec fn well_formed_all(pieces: Seq<Markup>) -> bool
    decreases pieces,
{
    if pieces.len() == 0 {
        true
    } else {
        &&& well_formed(pieces[0])
        &&& well_formed_all(pieces.drop_first())
        &&& (pieces.len() >= 2 && pieces[0] is Text) ==> pieces[1] is Element
    }
}

/// A well-formed document: a sequence of well-formed pieces, which may
/// begin with text as well as with an element.
pub open spec fn well_formed_document(pieces: Seq<Markup>) -> bool {
    well_formed_all(pieces)
}

/// An element with a plain name around a well-formed body is well-formed,
/// unless it is a script.
pub proof fn lemma_element_is_well_formed(name: Seq<char>, body: Seq<Markup>)
    requires
        is_name(name),
        name != "script"@,
        well_formed_all(body),
    ensures
        well_formed(element(name, body)),
{
    lemma_plain_tag(name, false);
    lemma_plain_tag(name, true);
}

/// A text that is followed by a `<` or by the end of the input is read as
/// that text.
pub proof fn lemma_text_step(s: Seq<char>, p: int, text: Seq<char>)
    requires
        is_text(text),
        holds(s, text, p),
        p + text.len() == s.len() || s[p + text.len()] == '<',
    ensures
        step(s, p) == Ok::<(Seq<PayloadView>, int), ParseError>(
            (seq![PayloadView::Text(text)], p + text.len()),
        ),
{
    reveal_strlit("<!--");
    let q = p + text.len();
    assert forall|k: int| p <= k < q implies s[k] != '<' by {
        lemma_holds_index(s, text, p, k - p);
    }
    assert(s[p] == text[0]) by {
        lemma_holds_index(s, text, p, 0);
    }
    assert(!matches_at(s, "<!--"@, p, false)) by {
        if matches_at(s, "<!--"@, p, false) {
            assert(s[p + 0] == "<!--"@[0]);
        }
    }
    lemma_first_at_absent(s, '<', p, q);
    lemma_first_at(s, '<', q);
    assert(first_at(s, '<', p) == q);
    assert(text_at(s, p) == Ok::<(Seq<char>, int), ParseError>((text, q)));
}

/// What a well-formed sequence of pieces is written as begins with `<`
/// where its first piece is an element.
proof fn lemma_element_begins(pieces: Seq<Markup>)
    requires
        pieces.len() > 0,
        pieces[0] is Element,
        well_formed(pieces[0]),
    ensures
        render_all(pieces).len() > 0,
        render_all(pieces)[0] == '<',
{
    let open = pieces[0]->Element_0;
    assert(is_bracketed(open));
    assert(render(pieces[0])[0] == open[0]);
}

/// The payloads `found`, and then `more`.
pub open spec fn followed_by(
    found: Seq<PayloadView>,
    more: Result<Seq<PayloadView>, ParseError>,
) -> Result<Seq<PayloadView>, ParseError> {
    match more {
        Ok(rest) => Ok(found + rest),
        Err(e) => Err(e),
    }
}

/// Payloads that follow payloads follow what the two make together.
proof fn lemma_followed_by_twice(
    a: Seq<PayloadView>,
    b: Seq<PayloadView>,
    more: Result<Seq<PayloadView>, ParseError>,
)
    ensures
        followed_by(a, followed_by(b, more)) == followed_by(a + b, more),
{
    match more {
        Ok(rest) => {
            assert(a + (b + rest) =~= (a + b) + rest);
        },
        Err(_) => {},
    }
}

/// Where the text holds a well-formed piece at `p`, a text being followed
/// by a `<` or by the end of the input, the payloads read from `p` on are
/// those of the piece, and then what is read after it.
pub proof fn lemma_tokens_of_piece(s: Seq<char>, p: int, piece: Markup)
    requires
        well_formed(piece),
        holds(s, render(piece), p),
        piece is Text ==> p + render(piece).len() == s.len() || s[p + render(piece).len()] == '<',
    ensures
        tokens_from(s, p) == followed_by(flat(piece), tokens_from(s, p + render(piece).len())),
    decreases piece,
{
    let r = p + render(piece).len();
    match piece {
        Markup::Text(text) => {
            lemma_text_step(s, p, text);
        },
        Markup::Element(open, body, close) => {
            let start = seq![PayloadView::Tag(tag_of(open))];
            let end = seq![PayloadView::Tag(tag_of(close))];
            lemma_holds_split(s, open + render_all(body), close, p);
            lemma_holds_split(s, open, render_all(body), p);
            let b = p + open.len();
            let e = b + render_all(body).len();
            lemma_tag_in_context(s, p, open);
            assert(s[e] == '<') by {
                lemma_holds_index(s, close, e, 0);
            }
            lemma_tokens_of_pieces(s, b, body);
            lemma_tag_in_context(s, e, close);
            assert(tokens_from(s, e) == followed_by(end, tokens_from(s, r)));
            assert(tokens_from(s, p) == followed_by(start, tokens_from(s, b)));
            lemma_followed_by_twice(flat_all(body), end, tokens_from(s, r));
            lemma_followed_by_twice(start, flat_all(body) + end, tokens_from(s, r));
            assert(start + (flat_all(body) + end) =~= flat(piece));
        },
    }
}

/// Where the text holds a well-formed sequence of pieces at `p`, followed
/// by a `<` or by the end of the input, the payloads read from `p` on are
/// those of the pieces, and then what is read after them.
pub proof fn lemma_tokens_of_pieces(s: Seq<char>, p: int, pieces: Seq<Markup>)
    requires
        well_formed_all(pieces),
        holds(s, render_all(pieces), p),
        p + render_all(pieces).len() == s.len() || s[p + render_all(pieces).len()] == '<',
    ensures
        tokens_from(s, p) == followed_by(
            flat_all(pieces),
            tokens_from(s, p + render_all(pieces).len()),
        ),
    decreases pieces,
{
    let q = p + render_all(pieces).len();
    if pieces.len() == 0 {
        match tokens_from(s, q) {
            Ok(rest) => {
                assert(flat_all(pieces) + rest =~= rest);
            },
            Err(_) => {},
        }
    } else {
        let rest = pieces.drop_first();
        lemma_holds_split(s, render(pieces[0]), render_all(rest), p);
        let r = p + render(pieces[0]).len();
        if rest.len() > 0 {
            assert(rest[0] == pieces[1]);
            if rest[0] is Element {
                assert(well_formed(rest[0])) by {
                    reveal_with_fuel(well_formed_all, 2);
                }
                lemma_element_begins(rest);
                lemma_holds_index(s, render_all(rest), r, 0);
            }
        }
        lemma_tokens_of_pieces(s, r, rest);
        lemma_tokens_of_piece(s, p, pieces[0]);
        lemma_followed_by_twice(flat(pieces[0]), flat_all(rest), tokens_from(s, q));
    }
}

/// The payloads of a well-formed document are those of its pieces.
pub proof fn lemma_tokens_of_document(pieces: Seq<Markup>)
    requires
        well_formed_document(pieces),
    ensures
        tokens(render_all(pieces)) == Ok::<Seq<PayloadView>, ParseError>(flat_all(pieces)),
{
    let s = render_all(pieces);
    assert(s.subrange(0, s.len() as int) =~= s);
    lemma_tokens_of_pieces(s, 0, pieces);
    assert(flat_all(pieces) + Seq::<PayloadView>::empty() =~= flat_all(pieces));
}

/// Whether `nodes` holds, from `pos` on, single nodes with the payloads
/// `found`.
pub open spec fn holds_nodes(nodes: Seq<Tree>, found: Seq<PayloadView>, pos: int) -> bool {
    0 <= pos && pos + found.len() <= nodes.len() && nodes.subrange(pos, pos + found.len())
        == leaves(found)
}

/// Where `nodes` holds `a + b`, it holds `a` and, after it, `b`.
proof fn lemma_holds_nodes_split(
    nodes: Seq<Tree>,
    a: Seq<PayloadView>,
    b: Seq<PayloadView>,
    pos: int,
)
    requires
        holds_nodes(nodes, a + b, pos),
    ensures
        holds_nodes(nodes, a, pos),
        holds_nodes(nodes, b, pos + a.len()),
{
    let w = leaves(a + b);
    assert(nodes.subrange(pos, pos + a.len()) =~= w.subrange(0, a.len() as int));
    assert(w.subrange(0, a.len() as int) =~= leaves(a));
    assert(nodes.subrange(pos + a.len(), pos + a.len() + b.len()) =~= w.subrange(
        a.len() as int,
        w.len() as int,
    ));
    assert(w.subrange(a.len() as int, w.len() as int) =~= leaves(b));
}

/// Where `nodes` holds `found` at `pos`, its nodes from `pos` on are single
/// nodes with the payloads of `found`.
proof fn lemma_holds_nodes_index(nodes: Seq<Tree>, found: Seq<PayloadView>, pos: int, k: int)
    requires
        holds_nodes(nodes, found, pos),
        0 <= k < found.len(),
    ensures
        nodes[pos + k] == Tree::leaf(found[k]),
{
    assert(nodes.subrange(pos, pos + found.len())[k] == nodes[pos + k]);
}

/// The payloads of a well-formed sequence of pieces begin with no end tag.
proof fn lemma_flat_begins(pieces: Seq<Markup>)
    requires
        pieces.len() > 0,
        well_formed(pieces[0]),
    ensures
        flat_all(pieces).len() > 0,
        !is_end_tag(flat_all(pieces)[0]),
{
    match pieces[0] {
        Markup::Text(text) => {
            assert(flat(pieces[0])[0] == PayloadView::Text(text));
        },
        Markup::Element(open, body, close) => {
            assert(flat(pieces[0])[0] == PayloadView::Tag(tag_of(open)));
        },
    }
}

/// The trees `trees`, and then what `more` holds.
pub open spec fn gathered_before(trees: Seq<Tree>, more: (Seq<Tree>, int)) -> (Seq<Tree>, int) {
    (trees + more.0, more.1)
}

/// Where the nodes of a well-formed piece stand at `pos`, nesting gathers
/// the tree of the piece, and then what it gathers after the piece.
pub proof fn lemma_nest_of_piece(nodes: Seq<Tree>, pos: int, piece: Markup)
    requires
        well_formed(piece),
        holds_nodes(nodes, flat(piece), pos),
    ensures
        nest(nodes, pos) == gathered_before(
            seq![tree_of(piece)],
            nest(nodes, pos + flat(piece).len()),
        ),
    decreases piece,
{
    lemma_holds_nodes_index(nodes, flat(piece), pos, 0);
    match piece {
        Markup::Text(text) => {
            assert(nodes[pos] == Tree::leaf(PayloadView::Text(text)));
        },
        Markup::Element(open, body, close) => {
            let start = seq![PayloadView::Tag(tag_of(open))];
            let end = seq![PayloadView::Tag(tag_of(close))];
            let name = tag_of(open).name;
            lemma_holds_nodes_split(nodes, start + flat_all(body), end, pos);
            lemma_holds_nodes_split(nodes, start, flat_all(body), pos);
            let m = pos + 1 + flat_all(body).len();
            lemma_holds_nodes_index(nodes, end, m, 0);
            let node = nodes[pos];
            assert(node == Tree::leaf(PayloadView::Tag(tag_of(open))));
            assert(closes(nodes[m].payload, name));
            lemma_terminator_from(nodes, name, pos + 1);
            let found = terminator_from(nodes, name, pos + 1);
            assert(found <= m);
            if body.len() == 0 {
                assert(trees_of_all(body) =~= Seq::<Tree>::empty());
                assert(node == tree_of(piece));
            } else {
                lemma_flat_begins(body);
                lemma_holds_nodes_index(nodes, flat_all(body), pos + 1, 0);
                assert(!closes(nodes[pos + 1].payload, name));
                assert(found != pos + 1);
                lemma_nest_of_pieces(nodes, pos + 1, body);
                assert(nest(nodes, m) == (Seq::<Tree>::empty(), m + 1));
                assert(nest(nodes, pos + 1).0 =~= trees_of_all(body));
                assert(node.with_children(trees_of_all(body)).children =~= trees_of_all(body));
                assert(node.with_children(nest(nodes, pos + 1).0) == tree_of(piece));
            }
        },
    }
}

/// Where the nodes of a well-formed sequence of pieces stand at `pos`,
/// nesting gathers the trees of the pieces, and then what it gathers after
/// them.
pub proof fn lemma_nest_of_pieces(nodes: Seq<Tree>, pos: int, pieces: Seq<Markup>)
    requires
        well_formed_all(pieces),
        holds_nodes(nodes, flat_all(pieces), pos),
    ensures
        nest(nodes, pos) == gathered_before(
            trees_of_all(pieces),
            nest(nodes, pos + flat_all(pieces).len()),
        ),
    decreases pieces,
{
    if pieces.len() == 0 {
        assert(trees_of_all(pieces) + nest(nodes, pos).0 =~= nest(nodes, pos).0);
    } else {
        let rest = pieces.drop_first();
        lemma_holds_nodes_split(nodes, flat(pieces[0]), flat_all(rest), pos);
        let r = pos + flat(pieces[0]).len();
        lemma_nest_of_piece(nodes, pos, pieces[0]);
        lemma_nest_of_pieces(nodes, r, rest);
        let q = pos + flat_all(pieces).len();
        assert(seq![tree_of(pieces[0])] + (trees_of_all(rest) + nest(nodes, q).0)
            =~= trees_of_all(pieces) + nest(nodes, q).0);
    }
}

/// Parsing a well-formed document gives back its pieces: the tree of the
/// text that the document is written as has, below its root, the trees of
/// the pieces.
pub proof fn lemma_parse_of_document(pieces: Seq<Markup>)
    requires
        well_formed_document(pieces),
    ensures
        document_tree(render_all(pieces)) == Ok::<Tree, ParseError>(
            Tree { payload: root_tag(), children: trees_of_all(pieces) },
        ),
{
    lemma_tokens_of_document(pieces);
    let nodes = leaves(flat_all(pieces));
    assert(nodes.subrange(0, nodes.len() as int) =~= nodes);
    lemma_nest_of_pieces(nodes, 0, pieces);
    assert(nest(nodes, nodes.len() as int) == (Seq::<Tree>::empty(), nodes.len() as int));
    assert(trees_of_all(pieces) + Seq::<Tree>::empty() =~= trees_of_all(pieces));
}

/// The characters of `s` from `i` on that stand outside of tags, where
/// `in_tag` says whether position `i` lies in a tag. A tag reaches from a
/// `<` to the next `>`.
pub open spec fn strip_from(s: Seq<char>, i: int, in_tag: bool) -> Seq<char>
    decreases s.len() - i,
{
    if i < 0 || i >= s.len() {
        Seq::empty()
    } else if in_tag {
        strip_from(s, i + 1, s[i] != '>')
    } else if s[i] == '<' {
        strip_from(s, i + 1, true)
    } else {
        seq![s[i]] + strip_from(s, i + 1, false)
    }
}

/// The text of `s` with its tags stripped.
pub open spec fn strip(s: Seq<char>) -> Seq<char> {
    strip_from(s, 0, false)
}

/// A tag is stripped up to and including its `>`.
proof fn lemma_strip_in_tag(s: Seq<char>, i: int, j: int)
    requires
        0 <= i <= j < s.len(),
        s[j] == '>',
        forall|k: int| i <= k < j ==> s[k] != '>',
    ensures
        strip_from(s, i, true) == strip_from(s, j + 1, false),
    decreases j - i,
{
    if i < j {
        lemma_strip_in_tag(s, i + 1, j);
    }
}

/// Text without a `<` is left as it is.
proof fn lemma_strip_text(s: Seq<char>, p: int, text: Seq<char>)
    requires
        holds(s, text, p),
        forall|i: int| 0 <= i < text.len() ==> #[trigger] text[i] != '<',
    ensures
        strip_from(s, p, false) == text + strip_from(s, p + text.len(), false),
    decreases text.len(),
{
    if text.len() == 0 {
        assert(text + strip_from(s, p, false) =~= strip_from(s, p, false));
    } else {
        let rest = text.drop_first();
        lemma_holds_index(s, text, p, 0);
        assert(text =~= seq![text[0]] + rest);
        lemma_holds_split(s, seq![text[0]], rest, p);
        assert forall|i: int| 0 <= i < rest.len() implies #[trigger] rest[i] != '<' by {
            assert(rest[i] == text[i + 1]);
        }
        lemma_strip_text(s, p + 1, rest);
        assert(seq![s[p]] + (rest + strip_from(s, p + text.len(), false)) =~= text + strip_from(
            s,
            p + text.len(),
            false,
        ));
    }
}

/// What has the shape of a tag is stripped.
proof fn lemma_strip_tag(s: Seq<char>, p: int, w: Seq<char>)
    requires
        is_bracketed(w),
        holds(s, w, p),
    ensures
        strip_from(s, p, false) == strip_from(s, p + w.len(), false),
{
    let j = p + w.len() - 1;
    lemma_holds_index(s, w, p, 0);
    lemma_holds_index(s, w, p, w.len() - 1);
    assert forall|k: int| p + 1 <= k < j implies s[k] != '>' by {
        lemma_holds_index(s, w, p, k - p);
    }
    lemma_strip_in_tag(s, p + 1, j);
}

/// Where the text holds a well-formed piece at `p`, stripping the tags
/// from `p` on leaves the text of the piece, and then what it leaves after
/// the piece.
pub proof fn lemma_strip_of_piece(s: Seq<char>, p: int, piece: Markup)
    requires
        well_formed(piece),
        holds(s, render(piece), p),
    ensures
        strip_from(s, p, false) == text_of(piece) + strip_from(s, p + render(piece).len(), false),
    decreases piece,
{
    match piece {
        Markup::Text(text) => {
            lemma_strip_text(s, p, text);
        },
        Markup::Element(open, body, close) => {
            lemma_holds_split(s, open + render_all(body), close, p);
            lemma_holds_split(s, open, render_all(body), p);
            let b = p + open.len();
            let e = b + render_all(body).len();
            lemma_strip_tag(s, p, open);
            lemma_strip_of_pieces(s, b, body);
            lemma_strip_tag(s, e, close);
        },
    }
}

/// Where the text holds a well-formed sequence of pieces at `p`, stripping
/// the tags from `p` on leaves the text of the pieces, and then what it
/// leaves after them.
pub proof fn lemma_strip_of_pieces(s: Seq<char>, p: int, pieces: Seq<Markup>)
    requires
        well_formed_all(pieces),
        holds(s, render_all(pieces), p),
    ensures
        strip_from(s, p, false) == text_of_all(pieces) + strip_from(
            s,
            p + render_all(pieces).len(),
            false,
        ),
    decreases pieces,
{
    let q = p + render_all(pieces).len();
    if pieces.len() == 0 {
        assert(text_of_all(pieces) + strip_from(s, p, false) =~= strip_from(s, p, false));
    } else {
        let rest = pieces.drop_first();
        lemma_holds_split(s, render(pieces[0]), render_all(rest), p);
        let r = p + render(pieces[0]).len();
        lemma_strip_of_piece(s, p, pieces[0]);
        lemma_strip_of_pieces(s, r, rest);
        assert(text_of(pieces[0]) + (text_of_all(rest) + strip_from(s, q, false))
            =~= text_of_all(pieces) + strip_from(s, q, false));
    }
}

/// The trees of a sequence of pieces are the trees of its pieces, one for
/// one.
pub proof fn lemma_trees_of_all(pieces: Seq<Markup>)
    ensures
        trees_of_all(pieces).len() == pieces.len(),
        forall|i: int|
            0 <= i < pieces.len() ==> #[trigger] trees_of_all(pieces)[i] == tree_of(pieces[i]),
    decreases pieces,
{
    if pieces.len() > 0 {
        let rest = pieces.drop_first();
        lemma_trees_of_all(rest);
        assert forall|i: int| 0 <= i < pieces.len() implies #[trigger] trees_of_all(pieces)[i]
            == tree_of(pieces[i]) by {
            if i > 0 {
                assert(trees_of_all(pieces)[i] == trees_of_all(rest)[i - 1]);
                assert(rest[i - 1] == pieces[i]);
            }
        }
    }
}

/// The text of the tree of a piece is the text of the piece.
pub proof fn lemma_text_of_tree(piece: Markup)
    ensures
        tree_of(piece).text() == text_of(piece),
    decreases piece,
{
    match piece {
        Markup::Text(text) => {
            assert(Tree::text_all(Seq::<Tree>::empty()) =~= Seq::<char>::empty());
            assert(text + Seq::<char>::empty() =~= text);
        },
        Markup::Element(open, body, close) => {
            lemma_text_of_trees(body);
            assert(Seq::<char>::empty() + text_of_all(body) =~= text_of_all(body));
        },
    }
}

/// The text of the trees of a sequence of pieces is the text of the pieces.
pub proof fn lemma_text_of_trees(pieces: Seq<Markup>)
    ensures
        Tree::text_all(trees_of_all(pieces)) == text_of_all(pieces),
    decreases pieces,
{
    if pieces.len() > 0 {
        let rest = pieces.drop_first();
        lemma_text_of_tree(pieces[0]);
        lemma_text_of_trees(rest);
        assert(trees_of_all(pieces).drop_first() =~= trees_of_all(rest));
    }
}

/// For every well-formed document of properly paired tags and text,
/// parsing succeeds, and the text of the tree, in document order, is the
/// text of the input with its tags stripped. The tags may be written in any
/// way in which they are read alone as a tag, with attributes or without.
pub proof fn lemma_parse_keeps_text(pieces: Seq<Markup>)
    requires
        well_formed_document(pieces),
    ensures
        document_tree(render_all(pieces)) matches Ok(tree) && tree.text() == strip(
            render_all(pieces),
        ),
{
    let s = render_all(pieces);
    lemma_parse_of_document(pieces);
    let tree = Tree { payload: root_tag(), children: trees_of_all(pieces) };
    lemma_text_of_trees(pieces);
    assert(tree.text() =~= text_of_all(pieces));
    assert(s.subrange(0, s.len() as int) =~= s);
    lemma_strip_of_pieces(s, 0, pieces);
    assert(text_of_all(pieces) + strip_from(s, s.len() as int, false) =~= text_of_all(pieces));
}

/// Whether `b` is `a` but for the text of one leaf.
pub open spec fn differs_in_one_text(a: Markup, b: Markup) -> bool
    decreases a,
{
    match (a, b) {
        (Markup::Text(x), Markup::Text(y)) => x != y,
        (Markup::Element(open_a, body_a, close_a), Markup::Element(open_b, body_b, close_b)) => {
            open_a == open_b && close_a == close_b && differ_in_one_text(body_a, body_b)
        },
        _ => false,
    }
}

/// Whether `b` is `a` but for the text of one leaf.
pub open spec fn differ_in_one_text(a: Seq<Markup>, b: Seq<Markup>) -> bool
    decreases a,
{
    a.len() == b.len() && exists|i: int|
        0 <= i < a.len() && differs_in_one_text(#[trigger] a[i], b[i]) && forall|j: int|
            0 <= j < a.len() && j != i ==> #[trigger] a[j] == b[j]
}

/// Pieces that differ in the text of one leaf have trees that differ.
pub proof fn lemma_one_text_shows(a: Markup, b: Markup)
    requires
        differs_in_one_text(a, b),
    ensures
        tree_of(a) != tree_of(b),
    decreases a,
{
    match (a, b) {
        (Markup::Element(open_a, body_a, close_a), Markup::Element(open_b, body_b, close_b)) => {
            lemma_one_text_shows_all(body_a, body_b);
        },
        _ => {},
    }
}

/// Sequences of pieces that differ in the text of one leaf have trees that
/// differ.
pub proof fn lemma_one_text_shows_all(a: Seq<Markup>, b: Seq<Markup>)
    requires
        differ_in_one_text(a, b),
    ensures
        trees_of_all(a) != trees_of_all(b),
    decreases a,
{
    let i = choose|i: int|
        0 <= i < a.len() && differs_in_one_text(#[trigger] a[i], b[i]) && forall|j: int|
            0 <= j < a.len() && j != i ==> #[trigger] a[j] == b[j];
    lemma_one_text_shows(a[i], b[i]);
    lemma_trees_of_all(a);
    lemma_trees_of_all(b);
    assert(trees_of_all(a)[i] == tree_of(a[i]));
    assert(trees_of_all(b)[i] == tree_of(b[i]));
}

/// Two well-formed documents that differ in the text of one leaf only are
/// parsed into trees that differ.
pub proof fn lemma_parse_shows_one_text(a: Seq<Markup>, b: Seq<Markup>)
    requires
        well_formed_document(a),
        well_formed_document(b),
        differ_in_one_text(a, b),
    ensures
        document_tree(render_all(a)) is Ok,
        document_tree(render_all(b)) is Ok,
        document_tree(render_all(a))->Ok_0 != document_tree(render_all(b))->Ok_0,
{
    lemma_parse_of_document(a);
    lemma_parse_of_document(b);
    lemma_one_text_shows_all(a, b);
}

/// A script as it is written: `<script>`, its body, `</script>`.
pub open spec fn script_text(body: Seq<char>) -> Seq<char> {
    tag_text("script"@, false) + body + tag_text("script"@, true)
}

/// Whether `</script` begins at position `i` of a body that is followed
/// by `</script>`.
pub open spec fn script_ends_at(body: Seq<char>, i: int) -> bool {
    matches_at(body + tag_text("script"@, true), "</script"@, i, false)
}

/// A body that can stand in a script: it is not empty, does not begin with
/// `<`, and `</script` begins nowhere in it.
pub open spec fn is_script_body(body: Seq<char>) -> bool {
    &&& body.len() > 0
    &&& body[0] != '<'
    &&& forall|i: int| 0 <= i < body.len() ==> !(#[trigger] script_ends_at(body, i))
}

/// The payloads of a script: the tag, the body as text, the end tag.
pub open spec fn script_payloads(body: Seq<char>) -> Seq<PayloadView> {
    seq![
        PayloadView::Tag(plain_tag("script"@, false)),
        PayloadView::Text(body),
        PayloadView::Tag(plain_tag("script"@, true)),
    ]
}

/// The tree of a script: the tag with its body as its one child, a text.
pub open spec fn script_tree(body: Seq<char>) -> Tree {
    Tree {
        payload: PayloadView::Tag(plain_tag("script"@, false)),
        children: seq![Tree::leaf(PayloadView::Text(body))],
    }
}

/// The word `script` is a name.
proof fn lemma_script_is_name()
    ensures
        is_name("script"@),
{
    reveal_strlit("script");
}

/// The body of a script is read up to the `</script` of its end tag.
proof fn lemma_script_body_step(body: Seq<char>)
    requires
        is_script_body(body),
    ensures
        script_at(script_text(body), tag_text("script"@, false).len() as int) == Ok::<
            (Seq<char>, int),
            ParseError,
        >((body, (tag_text("script"@, false).len() + body.len()) as int)),
{
    reveal_strlit("</script");
    let name = "script"@;
    let open = tag_text(name, false);
    let close = tag_text(name, true);
    let s = script_text(body);
    let b = open.len() as int;
    let e = b + body.len();
    let rest = body + close;
    assert(s.subrange(0, s.len() as int) =~= s);
    lemma_holds_split(s, open + body, close, 0);
    lemma_holds_split(s, open, body, 0);
    assert forall|k: int| b <= k < s.len() implies s[k] == rest[k - b] by {}
    assert(matches_at(s, "</script"@, e, false)) by {
        reveal_strlit("script");
        assert forall|k: int| 0 <= k < 8 implies s[e + k] == "</script"@[k] by {
            lemma_holds_index(s, close, e, k);
        }
    }
    assert forall|j: int| b <= j < e implies !matches_at(s, "</script"@, j, false) by {
        if matches_at(s, "</script"@, j, false) {
            assert forall|k: int| 0 <= k < 8 implies rest[(j - b) + k] == "</script"@[k] by {
                assert(s[j + k] == "</script"@[k]);
            }
            assert(script_ends_at(body, j - b));
        }
    }
    lemma_first_match(s, "</script"@, b, false);
    assert(first_match(s, "</script"@, b, false) == Some(e));
    assert(s.subrange(b, e) =~= body);
}

/// Whether one step at the start of `s` reads `first` and ends at `cur`,
/// and `last` is read from there on.
#[verifier::opaque]
pub open spec fn reads_in_two(
    s: Seq<char>,
    first: Seq<PayloadView>,
    cur: int,
    last: Seq<PayloadView>,
) -> bool {
    &&& s.len() > 0
    &&& step(s, 0) == Ok::<(Seq<PayloadView>, int), ParseError>((first, cur))
    &&& tokens_from(s, cur) == Ok::<Seq<PayloadView>, ParseError>(last)
}

/// A document that is read in one step and what follows it holds the
/// payloads of the two.
proof fn lemma_tokens_in_two(
    s: Seq<char>,
    first: Seq<PayloadView>,
    cur: int,
    last: Seq<PayloadView>,
)
    requires
        reads_in_two(s, first, cur, last),
    ensures
        tokens(s) == Ok::<Seq<PayloadView>, ParseError>(first + last),
{
    reveal(reads_in_two);
    lemma_step(s, 0);
}

/// The first step on a script reads its tag and its body.
proof fn lemma_script_first_step(body: Seq<char>)
    requires
        is_script_body(body),
    ensures
        script_text(body).len() > 0,
        step(script_text(body), 0) == Ok::<(Seq<PayloadView>, int), ParseError>(
            (
                seq![PayloadView::Tag(plain_tag("script"@, false)), PayloadView::Text(body)],
                (tag_text("script"@, false).len() + body.len()) as int,
            ),
        ),
{
    let name = "script"@;
    let open = tag_text(name, false);
    let s = script_text(body);
    let b = open.len() as int;
    lemma_script_is_name();
    lemma_plain_tag(name, false);
    assert(holds(s, open, 0) && s[b] == body[0]) by {
        assert(s.subrange(0, s.len() as int) =~= s);
        lemma_holds_split(s, open + body, tag_text(name, true), 0);
        lemma_holds_split(s, open, body, 0);
        lemma_holds_index(s, body, b, 0);
    }
    lemma_markup_in_context(s, 0, open);
    lemma_script_body_step(body);
}

/// The step on the end tag of a script reads that tag, and the input ends.
proof fn lemma_script_last_step(body: Seq<char>)
    ensures
        tokens_from(
            script_text(body),
            (tag_text("script"@, false).len() + body.len()) as int,
        ) == Ok::<Seq<PayloadView>, ParseError>(seq![PayloadView::Tag(plain_tag("script"@, true))]),
{
    let name = "script"@;
    let open = tag_text(name, false);
    let close = tag_text(name, true);
    let s = script_text(body);
    let e = (open.len() + body.len()) as int;
    lemma_script_is_name();
    lemma_plain_tag(name, true);
    assert(holds(s, close, e)) by {
        assert(s.subrange(0, s.len() as int) =~= s);
        lemma_holds_split(s, open + body, close, 0);
    }
    lemma_tag_in_context(s, e, close);
    let last = seq![PayloadView::Tag(plain_tag(name, true))];
    assert(e + close.len() == s.len());
    assert(tokens_from(s, s.len() as int) == Ok::<Seq<PayloadView>, ParseError>(Seq::empty()));
    assert(last + Seq::<PayloadView>::empty() =~= last);
}

/// A script is read in two: its tag with its body, and its end tag.
proof fn lemma_script_in_two(body: Seq<char>)
    requires
        is_script_body(body),
    ensures
        reads_in_two(
            script_text(body),
            seq![PayloadView::Tag(plain_tag("script"@, false)), PayloadView::Text(body)],
            (tag_text("script"@, false).len() + body.len()) as int,
            seq![PayloadView::Tag(plain_tag("script"@, true))],
        ),
{
    reveal(reads_in_two);
    lemma_script_first_step(body);
    lemma_script_last_step(body);
}

/// The payloads of a script are its tag, its body and its end tag.
pub proof fn lemma_tokens_of_script(body: Seq<char>)
    requires
        is_script_body(body),
    ensures
        tokens(script_text(body)) == Ok::<Seq<PayloadView>, ParseError>(script_payloads(body)),
{
    let first = seq![PayloadView::Tag(plain_tag("script"@, false)), PayloadView::Text(body)];
    let last = seq![PayloadView::Tag(plain_tag("script"@, true))];
    let cur = (tag_text("script"@, false).len() + body.len()) as int;
    lemma_script_in_two(body);
    lemma_tokens_in_two(script_text(body), first, cur, last);
    assert(first + last =~= script_payloads(body));
}

/// The nodes of a script are nested into the tag with the body below it.
proof fn lemma_nest_of_script(body: Seq<char>)
    ensures
        nest(leaves(script_payloads(body)), 0).0 == seq![script_tree(body)],
{
    let name = "script"@;
    let nodes = leaves(script_payloads(body));
    assert(nodes.len() == 3);
    assert(nest(nodes, 3) == (Seq::<Tree>::empty(), 3int));
    assert(nest(nodes, 2) == (Seq::<Tree>::empty(), 3int));
    assert(nest(nodes, 1) == (seq![nodes[1]] + Seq::<Tree>::empty(), 3int)) by {
        lemma_terminator_from(nodes, Seq::<char>::empty(), 2);
    }
    assert(seq![nodes[1]] + Seq::<Tree>::empty() =~= seq![nodes[1]]);
    assert(terminator_from(nodes, name, 1) == 2) by {
        reveal_with_fuel(terminator_from, 3);
    }
    assert(nodes[0].with_children(seq![nodes[1]]) == script_tree(body)) by {
        assert(nodes[0].children + seq![nodes[1]] =~= seq![nodes[1]]);
    }
    assert(nest(nodes, 0).0 =~= seq![script_tree(body)]);
}

/// The body of a script is taken as it stands, whatever it holds that
/// looks like a tag: a script is parsed into the script tag with one child,
/// the text of the body.
pub proof fn lemma_parse_of_script(body: Seq<char>)
    requires
        is_script_body(body),
    ensures
        document_tree(script_text(body)) == Ok::<Tree, ParseError>(
            Tree { payload: root_tag(), children: seq![script_tree(body)] },
        ),
{
    lemma_tokens_of_script(body);
    lemma_nest_of_script(body);
}

} // verus!
