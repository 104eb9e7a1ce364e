//! How a flat sequence of nodes is nested into a tree.
//!
//! A start tag takes as its children what follows it up to the next end tag
//! met at its own level, provided that an end tag of its own name follows
//! somewhere; which end tag is met is not checked against the name.

use crate::dom::payload::PayloadView;
use crate::dom::{leaves, Tree};
use vstd::prelude::*;

verus! {

/// Whether `payload` is an end tag.
pub open spec fn is_end_tag(payload: PayloadView) -> bool {
    payload matches PayloadView::Tag(tag) && tag.terminator
}

/// Whether `payload` is an end tag named `name`.
pub open spec fn closes(payload: PayloadView, name: Seq<char>) -> bool {
    payload matches PayloadView::Tag(tag) && tag.terminator && tag.name == name
}

/// Whether `payload` is a tag that may take children: a start tag that is
/// not self-closing.
pub open spec fn may_nest(payload: PayloadView) -> bool {
    payload matches PayloadView::Tag(tag) && !tag.terminator && !tag.self_closing
}

/// The name of a tag; the empty name for what is no tag.
pub open spec fn name_of(payload: PayloadView) -> Seq<char> {
    match payload {
        PayloadView::Tag(tag) => tag.name,
        _ => Seq::empty(),
    }
}

/// The index of the first end tag named `name` at or after `from`, or the
/// length of `nodes` where there is none.
pub open spec fn terminator_from(nodes: Seq<Tree>, name: Seq<char>, from: int) -> int
    decreases nodes.len() - from,
{
    if from >= nodes.len() {
        nodes.len() as int
    } else if 0 <= from && closes(nodes[from].payload, name) {
        from
    } else {
        terminator_from(nodes, name, from + 1)
    }
}

/// `terminator_from` is the least index from `from` on of an end tag named
/// `name`.
pub proof fn lemma_terminator_from(nodes: Seq<Tree>, name: Seq<char>, from: int)
    requires
        0 <= from <= nodes.len(),
    ensures
        from <= terminator_from(nodes, name, from) <= nodes.len(),
        terminator_from(nodes, name, from) < nodes.len() ==> closes(
            nodes[terminator_from(nodes, name, from)].payload,
            name,
        ),
        forall|j: int|
            from <= j < terminator_from(nodes, name, from) ==> !closes(
                (#[trigger] nodes[j]).payload,
                name,
            ),
    decreases nodes.len() - from,
{
    if from < nodes.len() && !closes(nodes[from].payload, name) {
        lemma_terminator_from(nodes, name, from + 1);
    }
}

/// The children gathered for one parent from position `pos` on, and the
/// position after the last node that was consumed for them.
///
/// Gathering stops at the end of `nodes`, or at the first end tag met at
/// this level, which is consumed. Any other node becomes a child. A start
/// tag that is not self-closing and is followed somewhere by an end tag of
/// its name first takes children of its own: none where that end tag comes
/// next, which is then consumed with it; else what is gathered from the
/// next position on.
pub open spec fn nest(nodes: Seq<Tree>, pos: int) -> (Seq<Tree>, int)
    decreases nodes.len() - pos,
{
    if pos < 0 || pos >= nodes.len() {
        (Seq::empty(), pos)
    } else if is_end_tag(nodes[pos].payload) {
        (Seq::empty(), pos + 1)
    } else {
        let node = nodes[pos];
        let end = terminator_from(nodes, name_of(node.payload), pos + 1);
        let (child, after) = if may_nest(node.payload) && end == pos + 1 && end < nodes.len() {
            (node, pos + 2)
        } else if may_nest(node.payload) && end < nodes.len() {
            (node.with_children(nest(nodes, pos + 1).0), nest(nodes, pos + 1).1)
        } else {
            (node, pos + 1)
        };
        if pos < after <= nodes.len() {
            (seq![child] + nest(nodes, after).0, nest(nodes, after).1)
        } else {
            (seq![child], after)
        }
    }
}

/// Gathering consumes at least one node where one is left, and never goes
/// beyond the end of the sequence.
pub proof fn lemma_nest_advances(nodes: Seq<Tree>, pos: int)
    requires
        0 <= pos,
    ensures
        pos < nodes.len() ==> pos < nest(nodes, pos).1 <= nodes.len(),
        pos >= nodes.len() ==> nest(nodes, pos).1 == pos,
    decreases nodes.len() - pos,
{
    if pos < nodes.len() && !is_end_tag(nodes[pos].payload) {
        let node = nodes[pos];
        let end = terminator_from(nodes, name_of(node.payload), pos + 1);
        lemma_nest_advances(nodes, pos + 1);
        let after = if may_nest(node.payload) && end == pos + 1 && end < nodes.len() {
            pos + 2
        } else if may_nest(node.payload) && end < nodes.len() {
            nest(nodes, pos + 1).1
        } else {
            pos + 1
        };
        lemma_terminator_from(nodes, name_of(node.payload), pos + 1);
        lemma_nest_advances(nodes, after);
    }
}

/// No self-closing tag of the tree has children.
pub open spec fn self_closing_are_leaves(tree: Tree) -> bool
    decreases tree,
{
    &&& (tree.payload matches PayloadView::Tag(tag) && tag.self_closing) ==> tree.children.len()
        == 0
    &&& forall|i: int|
        0 <= i < tree.children.len() ==> self_closing_are_leaves(#[trigger] tree.children[i])
}

/// A self-closing tag is given no children: where none of the nodes to be
/// nested has a self-closing tag with children, none of the trees that
/// nesting yields has one, whatever else stands in the sequence.
pub proof fn lemma_nest_self_closing(nodes: Seq<Tree>, pos: int)
    requires
        0 <= pos,
        forall|i: int| 0 <= i < nodes.len() ==> self_closing_are_leaves(#[trigger] nodes[i]),
    ensures
        forall|j: int|
            0 <= j < nest(nodes, pos).0.len() ==> self_closing_are_leaves(
                #[trigger] nest(nodes, pos).0[j],
            ),
    decreases nodes.len() - pos,
{
    if pos < nodes.len() && !is_end_tag(nodes[pos].payload) {
        let node = nodes[pos];
        let end = terminator_from(nodes, name_of(node.payload), pos + 1);
        lemma_nest_advances(nodes, pos + 1);
        lemma_terminator_from(nodes, name_of(node.payload), pos + 1);
        let (child, after) = if may_nest(node.payload) && end == pos + 1 && end < nodes.len() {
            (node, pos + 2)
        } else if may_nest(node.payload) && end < nodes.len() {
            (node.with_children(nest(nodes, pos + 1).0), nest(nodes, pos + 1).1)
        } else {
            (node, pos + 1)
        };
        assert(self_closing_are_leaves(child)) by {
            assert(self_closing_are_leaves(node));
            if may_nest(node.payload) && end != pos + 1 && end < nodes.len() {
                lemma_nest_self_closing(nodes, pos + 1);
                let kids = nest(nodes, pos + 1).0;
                assert forall|i: int| 0 <= i < child.children.len() implies self_closing_are_leaves(
                    #[trigger] child.children[i],
                ) by {
                    if i < node.children.len() {
                        assert(child.children[i] == node.children[i]);
                    } else {
                        assert(child.children[i] == kids[i - node.children.len()]);
                    }
                }
            }
        }
        lemma_nest_self_closing(nodes, after);
        let gathered = nest(nodes, pos).0;
        assert forall|j: int| 0 <= j < gathered.len() implies self_closing_are_leaves(
            #[trigger] gathered[j],
        ) by {
            if j > 0 {
                assert(gathered[j] == nest(nodes, after).0[j - 1]);
            }
        }
    }
}

/// No node of the tree is an end tag.
pub open spec fn holds_no_end_tag(tree: Tree) -> bool
    decreases tree,
{
    &&& !is_end_tag(tree.payload)
    &&& forall|i: int|
        0 <= i < tree.children.len() ==> holds_no_end_tag(#[trigger] tree.children[i])
}

/// No end tag becomes a child: where the nodes to be nested hold no end tag
/// below them, the trees that nesting yields hold none at all.
pub proof fn lemma_nest_no_end_tag(nodes: Seq<Tree>, pos: int)
    requires
        0 <= pos,
        forall|i: int, k: int|
            0 <= i < nodes.len() && 0 <= k < nodes[i].children.len() ==> holds_no_end_tag(
                #[trigger] nodes[i].children[k],
            ),
    ensures
        forall|j: int|
            0 <= j < nest(nodes, pos).0.len() ==> holds_no_end_tag(
                #[trigger] nest(nodes, pos).0[j],
            ),
    decreases nodes.len() - pos,
{
    if pos < nodes.len() && !is_end_tag(nodes[pos].payload) {
        let node = nodes[pos];
        let end = terminator_from(nodes, name_of(node.payload), pos + 1);
        lemma_nest_advances(nodes, pos + 1);
        lemma_terminator_from(nodes, name_of(node.payload), pos + 1);
        let (child, after) = if may_nest(node.payload) && end == pos + 1 && end < nodes.len() {
            (node, pos + 2)
        } else if may_nest(node.payload) && end < nodes.len() {
            (node.with_children(nest(nodes, pos + 1).0), nest(nodes, pos + 1).1)
        } else {
            (node, pos + 1)
        };
        assert(holds_no_end_tag(child)) by {
            let kids = nest(nodes, pos + 1).0;
            if may_nest(node.payload) && end != pos + 1 && end < nodes.len() {
                lemma_nest_no_end_tag(nodes, pos + 1);
            }
            assert forall|i: int| 0 <= i < child.children.len() implies holds_no_end_tag(
                #[trigger] child.children[i],
            ) by {
                if i < node.children.len() {
                    assert(child.children[i] == node.children[i]);
                } else {
                    assert(child.children[i] == kids[i - node.children.len()]);
                }
            }
        }
        lemma_nest_no_end_tag(nodes, after);
        let gathered = nest(nodes, pos).0;
        assert forall|j: int| 0 <= j < gathered.len() implies holds_no_end_tag(
            #[trigger] gathered[j],
        ) by {
            if j > 0 {
                assert(gathered[j] == nest(nodes, after).0[j - 1]);
            }
        }
    }
}

/// Only tags have children in the tree: its text and comment nodes are
/// leaves.
pub open spec fn only_tags_have_children(tree: Tree) -> bool
    decreases tree,
{
    &&& !(tree.payload is Tag) ==> tree.children.len() == 0
    &&& forall|i: int|
        0 <= i < tree.children.len() ==> only_tags_have_children(#[trigger] tree.children[i])
}

/// Text and comment nodes stay leaves: where only tags have children among
/// the nodes to be nested, only tags have children in the trees that
/// nesting yields.
pub proof fn lemma_nest_only_tags_have_children(nodes: Seq<Tree>, pos: int)
    requires
        0 <= pos,
        forall|i: int| 0 <= i < nodes.len() ==> only_tags_have_children(#[trigger] nodes[i]),
    ensures
        forall|j: int|
            0 <= j < nest(nodes, pos).0.len() ==> only_tags_have_children(
                #[trigger] nest(nodes, pos).0[j],
            ),
    decreases nodes.len() - pos,
{
    if pos < nodes.len() && !is_end_tag(nodes[pos].payload) {
        let node = nodes[pos];
        let end = terminator_from(nodes, name_of(node.payload), pos + 1);
        lemma_nest_advances(nodes, pos + 1);
        lemma_terminator_from(nodes, name_of(node.payload), pos + 1);
        let (child, after) = if may_nest(node.payload) && end == pos + 1 && end < nodes.len() {
            (node, pos + 2)
        } else if may_nest(node.payload) && end < nodes.len() {
            (node.with_children(nest(nodes, pos + 1).0), nest(nodes, pos + 1).1)
        } else {
            (node, pos + 1)
        };
        assert(only_tags_have_children(child)) by {
            assert(only_tags_have_children(node));
            if may_nest(node.payload) && end != pos + 1 && end < nodes.len() {
                lemma_nest_only_tags_have_children(nodes, pos + 1);
                let kids = nest(nodes, pos + 1).0;
                assert forall|i: int|
                    0 <= i < child.children.len() implies only_tags_have_children(
                    #[trigger] child.children[i],
                ) by {
                    if i < node.children.len() {
                        assert(child.children[i] == node.children[i]);
                    } else {
                        assert(child.children[i] == kids[i - node.children.len()]);
                    }
                }
            }
        }
        lemma_nest_only_tags_have_children(nodes, after);
        let gathered = nest(nodes, pos).0;
        assert forall|j: int| 0 <= j < gathered.len() implies only_tags_have_children(
            #[trigger] gathered[j],
        ) by {
            if j > 0 {
                assert(gathered[j] == nest(nodes, after).0[j - 1]);
            }
        }
    }
}

/// The nodes from `from` up to `to` that are no end tags, in their order.
pub open spec fn kept(nodes: Seq<Tree>, from: int, to: int) -> Seq<Tree>
    decreases to - from,
{
    if from >= to || from < 0 || from >= nodes.len() {
        Seq::empty()
    } else if is_end_tag(nodes[from].payload) {
        kept(nodes, from + 1, to)
    } else {
        seq![nodes[from]] + kept(nodes, from + 1, to)
    }
}

/// The nodes kept of two ranges in a row are those kept of the whole.
pub proof fn lemma_kept_split(nodes: Seq<Tree>, from: int, mid: int, to: int)
    requires
        0 <= from <= mid <= to <= nodes.len(),
    ensures
        kept(nodes, from, to) == kept(nodes, from, mid) + kept(nodes, mid, to),
    decreases mid - from,
{
    if from < mid {
        lemma_kept_split(nodes, from + 1, mid, to);
        if !is_end_tag(nodes[from].payload) {
            assert(seq![nodes[from]] + (kept(nodes, from + 1, mid) + kept(nodes, mid, to))
                =~= (seq![nodes[from]] + kept(nodes, from + 1, mid)) + kept(nodes, mid, to));
        }
    } else {
        assert(kept(nodes, from, mid) + kept(nodes, mid, to) =~= kept(nodes, mid, to));
    }
}

/// The payloads of two sequences of trees in a row are those of the one
/// and then those of the other.
pub proof fn lemma_payloads_add(a: Seq<Tree>, b: Seq<Tree>)
    ensures
        Tree::payloads_all(a + b) == Tree::payloads_all(a) + Tree::payloads_all(b),
    decreases a.len(),
{
    if a.len() == 0 {
        assert(a + b =~= b);
        assert(Tree::payloads_all(a) + Tree::payloads_all(b) =~= Tree::payloads_all(b));
    } else {
        lemma_payloads_add(a.drop_first(), b);
        assert((a + b).drop_first() =~= a.drop_first() + b);
        assert(a[0].payloads() + (Tree::payloads_all(a.drop_first()) + Tree::payloads_all(b))
            =~= (a[0].payloads() + Tree::payloads_all(a.drop_first())) + Tree::payloads_all(b));
    }
}

/// The payloads of one tree and then a sequence of trees.
proof fn lemma_payloads_push_front(tree: Tree, rest: Seq<Tree>)
    ensures
        Tree::payloads_all(seq![tree] + rest) == tree.payloads() + Tree::payloads_all(rest),
{
    let all = seq![tree] + rest;
    assert(all.drop_first() =~= rest);
}

/// Order is kept: the payloads of the trees that nesting yields, in
/// document order, are the payloads of the nodes that it consumed, in their
/// order and without the end tags.
pub proof fn lemma_nest_keeps_order(nodes: Seq<Tree>, pos: int)
    requires
        0 <= pos <= nodes.len(),
    ensures
        Tree::payloads_all(nest(nodes, pos).0) == Tree::payloads_all(
            kept(nodes, pos, nest(nodes, pos).1),
        ),
    decreases nodes.len() - pos,
{
    lemma_nest_advances(nodes, pos);
    if pos < nodes.len() && !is_end_tag(nodes[pos].payload) {
        let node = nodes[pos];
        let end = terminator_from(nodes, name_of(node.payload), pos + 1);
        lemma_nest_advances(nodes, pos + 1);
        lemma_terminator_from(nodes, name_of(node.payload), pos + 1);
        let nests = may_nest(node.payload) && end != pos + 1 && end < nodes.len();
        let (child, after) = if may_nest(node.payload) && end == pos + 1 && end < nodes.len() {
            (node, pos + 2)
        } else if nests {
            (node.with_children(nest(nodes, pos + 1).0), nest(nodes, pos + 1).1)
        } else {
            (node, pos + 1)
        };
        lemma_nest_advances(nodes, after);
        let last = nest(nodes, after).1;
        lemma_nest_keeps_order(nodes, after);
        // the child holds the node and what was kept up to `after`
        assert(child.payloads() == node.payloads() + Tree::payloads_all(
            kept(nodes, pos + 1, after),
        )) by {
            if nests {
                let kids = nest(nodes, pos + 1).0;
                lemma_nest_keeps_order(nodes, pos + 1);
                lemma_payloads_add(node.children, kids);
                assert(seq![node.payload] + (Tree::payloads_all(node.children)
                    + Tree::payloads_all(kids)) =~= (seq![node.payload] + Tree::payloads_all(
                    node.children,
                )) + Tree::payloads_all(kids));
            } else {
                if after == pos + 2 {
                    assert(kept(nodes, pos + 1, after) =~= Seq::<Tree>::empty()) by {
                        reveal_with_fuel(kept, 2);
                    }
                }
                assert(Tree::payloads_all(kept(nodes, pos + 1, after)) =~= Seq::<
                    PayloadView,
                >::empty());
                assert(node.payloads() + Seq::<PayloadView>::empty() =~= node.payloads());
            }
        }
        lemma_payloads_push_front(child, nest(nodes, after).0);
        lemma_kept_split(nodes, pos + 1, after, last);
        lemma_payloads_add(kept(nodes, pos + 1, after), kept(nodes, after, last));
        lemma_payloads_push_front(node, kept(nodes, pos + 1, last));
        assert(node.payloads() + (Tree::payloads_all(kept(nodes, pos + 1, after))
            + Tree::payloads_all(kept(nodes, after, last))) =~= (node.payloads()
            + Tree::payloads_all(kept(nodes, pos + 1, after))) + Tree::payloads_all(
            kept(nodes, after, last),
        ));
    } else if pos < nodes.len() {
        assert(kept(nodes, pos, pos + 1) =~= Seq::<Tree>::empty()) by {
            reveal_with_fuel(kept, 2);
        }
    }
}

/// The payloads from `from` up to `to` that are no end tags, in their
/// order.
pub open spec fn without_end_tags(found: Seq<PayloadView>, from: int, to: int) -> Seq<PayloadView> {
    found.subrange(from, to).filter(|payload: PayloadView| !is_end_tag(payload))
}

/// Of single nodes, the payloads of those kept are the payloads that are
/// no end tags.
pub proof fn lemma_kept_leaves(found: Seq<PayloadView>, from: int, to: int)
    requires
        0 <= from <= to <= found.len(),
    ensures
        Tree::payloads_all(kept(leaves(found), from, to)) == without_end_tags(found, from, to),
    decreases to - from,
{
    let nodes = leaves(found);
    let pick = |payload: PayloadView| !is_end_tag(payload);
    let part = found.subrange(from, to);
    reveal(Seq::filter);
    if from == to {
        assert(part =~= Seq::<PayloadView>::empty());
    } else {
        lemma_kept_leaves(found, from, to - 1);
        lemma_kept_split(nodes, from, to - 1, to);
        lemma_payloads_add(kept(nodes, from, to - 1), kept(nodes, to - 1, to));
        assert(part.drop_last() =~= found.subrange(from, to - 1));
        assert(part.last() == found[to - 1]);
        assert(nodes[to - 1] == Tree::leaf(found[to - 1]));
        let tail = kept(nodes, to - 1, to);
        assert(tail =~= if is_end_tag(found[to - 1]) {
            Seq::<Tree>::empty()
        } else {
            seq![nodes[to - 1]]
        }) by {
            reveal_with_fuel(kept, 2);
        }
        if !is_end_tag(found[to - 1]) {
            assert(tail.len() == 1 && tail[0] == nodes[to - 1]);
            assert(tail.drop_first() =~= Seq::<Tree>::empty());
            assert(Tree::payloads_all(tail.drop_first()) =~= Seq::<PayloadView>::empty());
            assert(nodes[to - 1].children =~= Seq::<Tree>::empty());
            assert(Tree::payloads_all(nodes[to - 1].children) =~= Seq::<PayloadView>::empty());
            assert(tail[0].payloads() =~= seq![found[to - 1]]);
            assert(Tree::payloads_all(tail) =~= seq![found[to - 1]]);
            assert(part.drop_last().filter(pick).push(part.last()) =~= part.drop_last().filter(
                pick,
            ) + seq![found[to - 1]]);
        } else {
            assert(Tree::payloads_all(tail) =~= Seq::<PayloadView>::empty());
            assert(part.drop_last().filter(pick) + Seq::<PayloadView>::empty()
                =~= part.drop_last().filter(pick));
        }
    }
}

} // verus!
