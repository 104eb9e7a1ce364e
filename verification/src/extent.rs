//! Searching a tree for tags by name or by attribute.
//!
//! Nodes are visited in document order: a node before its children, the
//! children from first to last.

use crate::dom::payload::{Payload, PayloadView};
use crate::dom::{arena_wf, Node, NodeDataView};
use crate::text::str_eq;
use vstd::prelude::*;

verus! {

/// The name of an attribute and the value asked for.
pub struct Attribute<'a>(pub &'a str, pub &'a str);

/// What a search looks for.
pub enum Query {
    /// A tag with this name.
    Name(Seq<char>),
    /// A tag that has this attribute with this value.
    Attribute(Seq<char>, Seq<char>),
}

/// Whether a node with `payload` is what `query` looks for.
pub open spec fn selects(query: Query, payload: PayloadView) -> bool {
    match payload {
        PayloadView::Tag(tag) => match query {
            Query::Name(name) => tag.name == name,
            Query::Attribute(name, value) => tag.attributes matches Some(attributes)
                && attributes.contains_key(name) && attributes[name] == value,
        },
        _ => false,
    }
}

/// The number of children of node `i`.
pub open spec fn width(slots: Seq<NodeDataView>, i: int) -> nat {
    if 0 <= i < slots.len() {
        slots[i].children.len()
    } else {
        0
    }
}

/// The indices of the nodes below and including `i`, in document order.
pub open spec fn preorder(slots: Seq<NodeDataView>, i: int) -> Seq<usize>
    decreases slots.len() - i, width(slots, i) + 1,
{
    if 0 <= i < slots.len() {
        seq![i as usize] + preorder_below(slots, i, 0)
    } else {
        Seq::empty()
    }
}

/// The indices of the nodes below and including the children of `i` from
/// its `k`-th child on, in document order.
pub open spec fn preorder_below(slots: Seq<NodeDataView>, i: int, k: int) -> Seq<usize>
    decreases slots.len() - i, width(slots, i) - k,
{
    if 0 <= i < slots.len() && 0 <= k < slots[i].children.len() {
        let c = slots[i].children[k] as int;
        (if i < c < slots.len() {
            preorder(slots, c)
        } else {
            Seq::empty()
        }) + preorder_below(slots, i, k + 1)
    } else {
        Seq::empty()
    }
}

/// Those of `ids` whose nodes `query` looks for, in the same order.
pub open spec fn selected(slots: Seq<NodeDataView>, query: Query, ids: Seq<usize>) -> Seq<usize> {
    ids.filter(|id: usize| id < slots.len() && selects(query, slots[id as int].payload))
}

/// What a search for one node yields from node `i` on, where `found` is
/// what was found before: the node `i` where it is looked for; else what
/// the children yield.
pub open spec fn first_selected(
    slots: Seq<NodeDataView>,
    query: Query,
    i: int,
    found: Option<usize>,
) -> Option<usize>
    decreases slots.len() - i, width(slots, i) + 1,
{
    if 0 <= i < slots.len() {
        if selects(query, slots[i].payload) {
            Some(i as usize)
        } else {
            first_selected_below(slots, query, i, 0, found)
        }
    } else {
        found
    }
}

/// What a search for one node yields from the `k`-th child of `i` on: the
/// children are searched in order until something is found, be it by the
/// search of a child or before it.
pub open spec fn first_selected_below(
    slots: Seq<NodeDataView>,
    query: Query,
    i: int,
    k: int,
    found: Option<usize>,
) -> Option<usize>
    decreases slots.len() - i, width(slots, i) - k,
{
    if 0 <= i < slots.len() && 0 <= k < slots[i].children.len() {
        let c = slots[i].children[k] as int;
        let r = if i < c < slots.len() {
            first_selected(slots, query, c, found)
        } else {
            found
        };
        if r is Some {
            r
        } else {
            first_selected_below(slots, query, i, k + 1, r)
        }
    } else {
        found
    }
}

/// What the executable search functions look for.
enum Wanted<'a> {
    Name(&'a str),
    Attribute(&'a str, &'a str),
}

impl<'a> Wanted<'a> {
    spec fn query(self) -> Query {
        match self {
            Wanted::Name(name) => Query::Name(name@),
            Wanted::Attribute(name, value) => Query::Attribute(name@, value@),
        }
    }

    /// Whether `payload` is a tag that is looked for.
    fn selects(&self, payload: &Payload) -> (r: bool)
        ensures
            r == selects(self.query(), payload@),
    {
        if let Payload::Tag(tag) = payload {
            match self {
                Wanted::Name(name) => str_eq(tag.get_name(), name),
                Wanted::Attribute(name, value) => {
                    if let Some(attribute_value) = tag.get_attribute_value(name) {
                        str_eq(attribute_value.as_str(), value)
                    } else {
                        false
                    }
                },
            }
        } else {
            false
        }
    }
}

/// The search for one node, for either kind of query.
fn find_one(result: &mut Option<usize>, tree: &Node, source: usize, wanted: &Wanted)
    ensures
        *final(result) == first_selected(tree.slots(), wanted.query(), source as int, *old(result)),
    decreases tree.slots().len() - source,
{
    let data = match tree.get(source) {
        Some(data) => data,
        None => {
            return ;
        },
    };
    if wanted.selects(data.get_payload()) {
        *result = Some(source);
        return ;
    }
    let children = data.get_children();
    let mut k: usize = 0;
    while k < children.len()
        invariant_except_break
            first_selected(tree.slots(), wanted.query(), source as int, *old(result))
                == first_selected_below(
                tree.slots(),
                wanted.query(),
                source as int,
                k as int,
                *result,
            ),
        invariant
            tree.wf(),
            source < tree.slots().len(),
            children@ == tree.slots()[source as int].children,
            k <= children@.len(),
        ensures
            *result == first_selected(tree.slots(), wanted.query(), source as int, *old(result)),
        decreases children@.len() - k,
    {
        assert(source < tree.slots()[source as int].children[k as int] < tree.slots().len());
        find_one(result, tree, children[k], wanted);
        if result.is_some() {
            break ;
        }
        k += 1;
    }
}

/// The search for all nodes, for either kind of query.
fn find_all(result: &mut Vec<usize>, tree: &Node, source: usize, wanted: &Wanted)
    ensures
        final(result)@ == old(result)@ + selected(
            tree.slots(),
            wanted.query(),
            preorder(tree.slots(), source as int),
        ),
    decreases tree.slots().len() - source,
{
    let ghost slots = tree.slots();
    let ghost query = wanted.query();
    let data = match tree.get(source) {
        Some(data) => data,
        None => {
            proof {
                assert(result@ + selected(slots, query, Seq::empty()) =~= result@);
            }
            return ;
        },
    };
    let ghost pick = |id: usize| id < slots.len() && selects(query, slots[id as int].payload);
    if wanted.selects(data.get_payload()) {
        result.push(source);
    }
    let ghost head = seq![source];
    assert(head.filter(pick) =~= if pick(source) {
        head
    } else {
        Seq::empty()
    }) by {
        reveal_with_fuel(Seq::filter, 3);
        assert(head.drop_last() =~= Seq::<usize>::empty());
    }
    let children = data.get_children();
    let mut k: usize = 0;
    let ghost mut seen: Seq<usize> = Seq::empty();
    proof {
        assert(head + seen =~= head);
    }
    while k < children.len()
        invariant
            tree.wf(),
            slots == tree.slots(),
            query == wanted.query(),
            pick == |id: usize| id < slots.len() && selects(query, slots[id as int].payload),
            head == seq![source],
            source < slots.len(),
            children@ == slots[source as int].children,
            k <= children@.len(),
            preorder_below(slots, source as int, 0) == seen + preorder_below(
                slots,
                source as int,
                k as int,
            ),
            result@ == old(result)@ + (head + seen).filter(pick),
        decreases children@.len() - k,
    {
        let ghost below = preorder(slots, children@[k as int] as int);
        let ghost before = result@;
        find_all(result, tree, children[k], wanted);
        proof {
            assert(result@ == before + below.filter(pick));
            Seq::filter_distributes_over_add(head + seen, below, pick);
            assert((head + seen) + below =~= head + (seen + below));
            assert((old(result)@ + (head + seen).filter(pick)) + below.filter(pick) =~= old(
                result,
            )@ + ((head + seen).filter(pick) + below.filter(pick)));
            assert(seen + (below + preorder_below(slots, source as int, k + 1)) =~= (seen
                + below) + preorder_below(slots, source as int, k + 1));
            seen = seen + below;
        }
        k += 1;
    }
    proof {
        assert(seen + preorder_below(slots, source as int, k as int) =~= seen);
    }
}

/// Looks for the first tag, in document order from `source` on, that has
/// the attribute with the value asked for, and stores its index in
/// `result`. Where `result` holds a node already, the search of the
/// children ends with the first child.
pub fn get_node_by_attribute(
    result: &mut Option<usize>,
    tree: &Node,
    source: usize,
    attribute: &Attribute,
)
    ensures
        *final(result) == first_selected(
            tree.slots(),
            Query::Attribute(attribute.0@, attribute.1@),
            source as int,
            *old(result),
        ),
{
    find_one(result, tree, source, &Wanted::Attribute(attribute.0, attribute.1));
}

/// Looks for the first tag named `tag_name`, in document order from
/// `source` on, and stores its index in `result`. Where `result` holds a
/// node already, the search of the children ends with the first child.
pub fn get_node_by_name(result: &mut Option<usize>, tree: &Node, source: usize, tag_name: &str)
    ensures
        *final(result) == first_selected(
            tree.slots(),
            Query::Name(tag_name@),
            source as int,
            *old(result),
        ),
{
    find_one(result, tree, source, &Wanted::Name(tag_name));
}

/// Appends to `result` the indices of all tags from `source` on that have
/// the attribute with the value asked for, in document order.
pub fn get_nodes_by_attribute(
    result: &mut Vec<usize>,
    tree: &Node,
    source: usize,
    attribute: &Attribute,
)
    ensures
        final(result)@ == old(result)@ + selected(
            tree.slots(),
            Query::Attribute(attribute.0@, attribute.1@),
            preorder(tree.slots(), source as int),
        ),
{
    find_all(result, tree, source, &Wanted::Attribute(attribute.0, attribute.1));
}

/// Appends to `result` the indices of all tags named `tag_name` from
/// `source` on, in document order.
pub fn get_nodes_by_name(result: &mut Vec<usize>, tree: &Node, source: usize, tag_name: &str)
    ensures
        final(result)@ == old(result)@ + selected(
            tree.slots(),
            Query::Name(tag_name@),
            preorder(tree.slots(), source as int),
        ),
{
    find_all(result, tree, source, &Wanted::Name(tag_name));
}

/// The index of the first child of `node`, if it has one.
pub fn get_first_child(tree: &Node, node: usize) -> (r: Option<usize>)
    ensures
        match r {
            Some(child) => node < tree.slots().len() && tree.slots()[node as int].children.len()
                > 0 && child == tree.slots()[node as int].children[0],
            None => node >= tree.slots().len() || tree.slots()[node as int].children.len() == 0,
        },
{
    match tree.get(node) {
        Some(data) => {
            let children = data.get_children();
            match children.len() {
                0 => None,
                _ => Some(children[0]),
            }
        },
        None => None,
    }
}

/// The first of `ids`, if there is one.
pub open spec fn first_of(ids: Seq<usize>) -> Option<usize> {
    if ids.len() > 0 {
        Some(ids[0])
    } else {
        None
    }
}

/// What is selected from two sequences in a row is what is selected from
/// each, in a row.
proof fn lemma_selected_add(slots: Seq<NodeDataView>, query: Query, a: Seq<usize>, b: Seq<usize>)
    ensures
        selected(slots, query, a + b) == selected(slots, query, a) + selected(slots, query, b),
{
    let pick = |id: usize| id < slots.len() && selects(query, slots[id as int].payload);
    Seq::filter_distributes_over_add(a, b, pick);
}

/// What is selected from a single index is that index or nothing.
proof fn lemma_selected_one(slots: Seq<NodeDataView>, query: Query, id: usize)
    ensures
        selected(slots, query, seq![id]) == if id < slots.len() && selects(
            query,
            slots[id as int].payload,
        ) {
            seq![id]
        } else {
            Seq::empty()
        },
{
    reveal_with_fuel(Seq::filter, 3);
    assert(seq![id].drop_last() =~= Seq::<usize>::empty());
    let pick = |id: usize| id < slots.len() && selects(query, slots[id as int].payload);
    assert(seq![id].filter(pick) =~= if pick(id) {
        seq![id]
    } else {
        Seq::empty()
    });
}

/// A search for one node that starts with nothing found yields the first
/// node, in document order from `i` on, that the query looks for.
pub proof fn lemma_first_selected(slots: Seq<NodeDataView>, query: Query, i: int)
    requires
        arena_wf(slots),
        0 <= i < slots.len(),
    ensures
        first_selected(slots, query, i, None) == first_of(
            selected(slots, query, preorder(slots, i)),
        ),
    decreases slots.len() - i, width(slots, i) + 1,
{
    lemma_selected_add(slots, query, seq![i as usize], preorder_below(slots, i, 0));
    lemma_selected_one(slots, query, i as usize);
    if !selects(query, slots[i].payload) {
        lemma_first_selected_below(slots, query, i, 0);
        assert(Seq::<usize>::empty() + selected(slots, query, preorder_below(slots, i, 0))
            =~= selected(slots, query, preorder_below(slots, i, 0)));
    }
}

/// A search for one node among the children of `i` from the `k`-th on that
/// starts with nothing found yields the first node below them, in document
/// order, that the query looks for.
pub proof fn lemma_first_selected_below(slots: Seq<NodeDataView>, query: Query, i: int, k: int)
    requires
        arena_wf(slots),
        0 <= i < slots.len(),
        0 <= k <= slots[i].children.len(),
    ensures
        first_selected_below(slots, query, i, k, None) == first_of(
            selected(slots, query, preorder_below(slots, i, k)),
        ),
    decreases slots.len() - i, width(slots, i) - k,
{
    if k < slots[i].children.len() {
        let c = slots[i].children[k] as int;
        assert(i < c < slots.len());
        lemma_first_selected(slots, query, c);
        lemma_first_selected_below(slots, query, i, k + 1);
        lemma_selected_add(slots, query, preorder(slots, c), preorder_below(slots, i, k + 1));
        let here = selected(slots, query, preorder(slots, c));
        let there = selected(slots, query, preorder_below(slots, i, k + 1));
        if here.len() == 0 {
            assert(here + there =~= there);
        } else {
            assert((here + there)[0] == here[0]);
        }
    } else {
        assert(preorder_below(slots, i, k) =~= Seq::<usize>::empty());
        assert(selected(slots, query, Seq::<usize>::empty()) =~= Seq::<usize>::empty()) by {
            reveal_with_fuel(Seq::filter, 2);
        }
    }
}

} // verus!
