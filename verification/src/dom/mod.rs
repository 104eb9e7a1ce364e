//! The tree that parsing produces.
//!
//! A [`Node`] owns a whole tree. Its nodes live in one arena and are named by
//! their index: slot 0 is the node itself, every other slot is a descendant.
//! A slot lists the indices of its children, which it owns, and the index of
//! its parent, which it merely refers to.

pub mod payload;

pub use payload::Attributes;
pub use payload::Payload;
pub use payload::Tag;
pub use payload::Text;

use crate::dom::payload::PayloadView;
use vstd::prelude::*;
use vstd::std_specs::cmp::PartialEqSpec;
use vstd::std_specs::cmp::PartialEqSpecImpl;

verus! {

/// A tree as a mathematical value: a payload and the trees below it, in
/// document order. Parent links are not part of it.
pub struct Tree {
    pub payload: PayloadView,
    pub children: Seq<Tree>,
}

impl Tree {
    /// The tree that consists of one node.
    pub open spec fn leaf(payload: PayloadView) -> Tree {
        Tree { payload, children: Seq::empty() }
    }

    /// This tree with one more child at the end.
    pub open spec fn with_child(self, child: Tree) -> Tree {
        Tree { payload: self.payload, children: self.children.push(child) }
    }

    /// This tree with more children at the end.
    pub open spec fn with_children(self, children: Seq<Tree>) -> Tree {
        Tree { payload: self.payload, children: self.children + children }
    }

    /// The payloads of the tree in document order: that of the node, then
    /// those of the trees below it.
    pub open spec fn payloads(self) -> Seq<PayloadView>
        decreases self,
    {
        seq![self.payload] + Tree::payloads_all(self.children)
    }

    /// The payloads of a sequence of trees in document order.
    pub open spec fn payloads_all(trees: Seq<Tree>) -> Seq<PayloadView>
        decreases trees,
    {
        if trees.len() == 0 {
            Seq::empty()
        } else {
            trees[0].payloads() + Tree::payloads_all(trees.drop_first())
        }
    }

    /// The text of the tree: the texts of its text nodes, in document order.
    pub open spec fn text(self) -> Seq<char>
        decreases self,
    {
        (match self.payload {
            PayloadView::Text(text) => text,
            _ => Seq::empty(),
        }) + Tree::text_all(self.children)
    }

    /// The text of a sequence of trees.
    pub open spec fn text_all(trees: Seq<Tree>) -> Seq<char>
        decreases trees,
    {
        if trees.len() == 0 {
            Seq::empty()
        } else {
            trees[0].text() + Tree::text_all(trees.drop_first())
        }
    }

}

/// The trees that a sequence of handles stands for.
pub open spec fn trees_of(nodes: Seq<Node>) -> Seq<Tree> {
    Seq::new(nodes.len(), |i: int| nodes[i]@)
}

/// The single-node trees of a sequence of payloads.
pub open spec fn leaves(payloads: Seq<PayloadView>) -> Seq<Tree> {
    Seq::new(payloads.len(), |i: int| Tree::leaf(payloads[i]))
}

/// The mathematical content of one slot of the arena.
pub struct NodeDataView {
    pub payload: PayloadView,
    pub parent: Option<usize>,
    pub children: Seq<usize>,
}

/// One node of a tree: its payload, the index of its parent and the indices
/// of its children, all within the [`Node`] that owns it.
#[derive(Debug)]
pub struct NodeData {
    payload: Payload,
    parent: Option<usize>,
    children: Vec<usize>,
}

impl View for NodeData {
    type V = NodeDataView;

    closed spec fn view(&self) -> NodeDataView {
        NodeDataView {
            payload: self.payload@,
            parent: self.parent,
            children: self.children@,
        }
    }
}

impl NodeData {
    pub fn get_payload(&self) -> (r: &Payload)
        ensures
            r@ == self@.payload,
    {
        &self.payload
    }

    /// The indices of the children, in document order.
    pub fn get_children(&self) -> (r: &Vec<usize>)
        ensures
            r@ == self@.children,
    {
        &self.children
    }

    /// The index of the parent, or `None` for a node that was never attached.
    pub fn get_parent(&self) -> (r: Option<usize>)
        ensures
            r == self@.parent,
    {
        self.parent
    }

    pub fn has_parent(&self) -> (r: bool)
        ensures
            r == self@.parent is Some,
    {
        self.get_parent().is_some()
    }
}

impl Clone for NodeData {
    fn clone(&self) -> (r: NodeData)
        ensures
            r@ == self@,
    {
        let mut children: Vec<usize> = Vec::new();
        let mut k: usize = 0;
        while k < self.children.len()
            invariant
                k <= self.children@.len(),
                children@ == self.children@.take(k as int),
            decreases self.children@.len() - k,
        {
            children.push(self.children[k]);
            proof {
                assert(self.children@.take(k as int).push(self.children@[k as int])
                    =~= self.children@.take(k + 1));
            }
            k += 1;
        }
        proof {
            assert(self.children@.take(self.children@.len() as int) =~= self.children@);
        }
        NodeData { payload: self.payload.clone(), parent: self.parent, children }
    }
}

/// The slots of an arena form one tree rooted at slot 0: every child comes
/// after its parent, each parent link leads to the slot that lists the node
/// as a child, and no node is listed twice.
pub open spec fn arena_wf(slots: Seq<NodeDataView>) -> bool {
    &&& 1 <= slots.len() <= usize::MAX
    &&& slots[0].parent is None
    &&& forall|i: int|
        1 <= i < slots.len() ==> (#[trigger] slots[i]).parent is Some && slots[i].parent->0 < i
            && slots[slots[i].parent->0 as int].children.contains(i as usize)
    &&& forall|i: int, k: int|
        0 <= i < slots.len() && 0 <= k < slots[i].children.len() ==> i < (
        #[trigger] slots[i].children[k]) < slots.len() && slots[slots[i].children[k] as int].parent
            == Some(i as usize)
    &&& forall|i: int, k: int, l: int|
        0 <= i < slots.len() && 0 <= k < l < slots[i].children.len() ==> (
        #[trigger] slots[i].children[k]) < (#[trigger] slots[i].children[l])
}

/// The tree below slot `i` of an arena.
pub open spec fn tree_at(slots: Seq<NodeDataView>, i: int) -> Tree
    decreases slots.len() - i,
{
    Tree {
        payload: slots[i].payload,
        children: Seq::new(
            slots[i].children.len(),
            |k: int|
                {
                    let c = slots[i].children[k] as int;
                    if 0 <= i < c < slots.len() {
                        tree_at(slots, c)
                    } else {
                        Tree::leaf(slots[i].payload)
                    }
                },
        ),
    }
}

/// The views of the slots of an arena.
pub open spec fn views(nodes: Seq<NodeData>) -> Seq<NodeDataView> {
    Seq::new(nodes.len(), |i: int| nodes[i]@)
}

/// A slot moved `off` places up, as part of a tree that is attached below
/// slot 0 of another arena.
pub open spec fn shifted(slot: NodeDataView, off: int) -> NodeDataView {
    NodeDataView {
        payload: slot.payload,
        parent: match slot.parent {
            Some(p) => Some((p + off) as usize),
            None => Some(0usize),
        },
        children: Seq::new(slot.children.len(), |k: int| (slot.children[k] + off) as usize),
    }
}

/// The slot `y` has the payload of `x` and its children, `off` places further up.
pub open spec fn same_shape(x: NodeDataView, y: NodeDataView, off: int) -> bool {
    &&& y.payload == x.payload
    &&& y.children.len() == x.children.len()
    &&& forall|k: int|
        0 <= k < x.children.len() ==> (#[trigger] y.children[k]) == x.children[k] + off
}

/// Where the slots `lo..hi` of `a` reappear in `b`, `off` places further up
/// and with the same payloads and children, they carry the same trees.
proof fn lemma_tree_moved(
    a: Seq<NodeDataView>,
    b: Seq<NodeDataView>,
    off: int,
    lo: int,
    hi: int,
    i: int,
)
    requires
        0 <= lo <= i < hi <= a.len(),
        0 <= off,
        hi + off <= b.len(),
        b.len() <= usize::MAX,
        forall|j: int, k: int|
            lo <= j < hi && 0 <= k < a[j].children.len() ==> j < (#[trigger] a[j].children[k])
                < hi,
        forall|j: int| lo <= j < hi ==> same_shape(#[trigger] a[j], b[j + off], off),
    ensures
        tree_at(b, i + off) == tree_at(a, i),
    decreases hi - i,
{
    let ta = tree_at(a, i);
    let tb = tree_at(b, i + off);
    assert(same_shape(a[i], b[i + off], off));
    assert(ta.children.len() == tb.children.len());
    assert forall|k: int| 0 <= k < ta.children.len() implies ta.children[k] == tb.children[k] by {
        let c = a[i].children[k] as int;
        assert(i < c < hi);
        assert(b[i + off].children[k] == c + off);
        lemma_tree_moved(a, b, off, lo, hi, c);
    }
    assert(ta.children =~= tb.children);
}

/// `b` is `a` with the arena `t` attached below slot 0 as its last child.
pub open spec fn grafted(a: Seq<NodeDataView>, t: Seq<NodeDataView>, b: Seq<NodeDataView>) -> bool {
    &&& b.len() == a.len() + t.len()
    &&& b[0].payload == a[0].payload
    &&& b[0].parent == a[0].parent
    &&& b[0].children == a[0].children.push(a.len() as usize)
    &&& forall|j: int| 1 <= j < a.len() ==> #[trigger] b[j] == a[j]
    &&& forall|j: int|
        a.len() <= j < b.len() ==> #[trigger] b[j] == shifted(t[j - a.len()], a.len() as int)
}

/// Attaching leaves the trees as they were and adds the attached one.
proof fn lemma_graft_trees(a: Seq<NodeDataView>, t: Seq<NodeDataView>, b: Seq<NodeDataView>)
    requires
        arena_wf(a),
        arena_wf(t),
        grafted(a, t, b),
        b.len() <= usize::MAX,
    ensures
        tree_at(b, 0) == tree_at(a, 0).with_child(tree_at(t, 0)),
        tree_at(b, a.len() as int) == tree_at(t, 0),
{
    let off = a.len() as int;
    assert forall|j: int| 0 <= j < t.len() implies same_shape(#[trigger] t[j], b[j + off], off) by {
        assert(b[j + off] == shifted(t[j], off));
        assert forall|k: int| 0 <= k < t[j].children.len() implies (
        #[trigger] b[j + off].children[k]) == t[j].children[k] + off by {
            assert(t[j].children[k] < t.len());
        }
    }
    lemma_tree_moved(t, b, off, 0, t.len() as int, 0);
    let ta = tree_at(a, 0);
    let tb = tree_at(b, 0);
    assert(tb.children.len() == ta.children.len() + 1);
    assert forall|j: int| 1 <= j < a.len() implies same_shape(#[trigger] a[j], b[j + 0], 0) by {
        assert(b[j] == a[j]);
    }
    assert forall|k: int| 0 <= k < ta.children.len() implies tb.children[k] == ta.children[k] by {
        let c = a[0].children[k] as int;
        assert(b[0].children[k] == c);
        assert(0 < c < a.len());
        lemma_tree_moved(a, b, 0, 1, a.len() as int, c);
    }
    assert(b[0].children[ta.children.len() as int] == off);
    assert(tb.children =~= ta.children.push(tree_at(t, 0)));
}

/// After attaching, every slot but the first has its parent before it.
proof fn lemma_graft_parents(a: Seq<NodeDataView>, t: Seq<NodeDataView>, b: Seq<NodeDataView>)
    requires
        arena_wf(a),
        arena_wf(t),
        grafted(a, t, b),
        b.len() <= usize::MAX,
    ensures
        forall|i: int|
            1 <= i < b.len() ==> (#[trigger] b[i]).parent is Some && b[i].parent->0 < i
                && b[b[i].parent->0 as int].children.contains(i as usize),
{
    let off = a.len() as int;
    assert forall|i: int| 1 <= i < b.len() implies (#[trigger] b[i]).parent is Some
        && b[i].parent->0 < i && b[b[i].parent->0 as int].children.contains(i as usize) by {
        if i < off {
            assert(b[i] == a[i]);
            let p = a[i].parent->0 as int;
            assert(a[p].children.contains(i as usize));
            let k = choose|k: int| 0 <= k < a[p].children.len() && a[p].children[k] == i as usize;
            if p == 0 {
                assert(b[0].children[k] == i as usize);
            } else {
                assert(b[p] == a[p]);
            }
        } else {
            let j = i - off;
            assert(b[i] == shifted(t[j], off));
            if j == 0 {
                assert(b[0].children[a[0].children.len() as int] == i as usize);
            } else {
                let p = t[j].parent->0 as int;
                assert(t[p].children.contains(j as usize));
                let k = choose|k: int|
                    0 <= k < t[p].children.len() && t[p].children[k] == j as usize;
                assert(b[off + p] == shifted(t[p], off));
                assert(b[off + p].children[k] == i as usize);
            }
        }
    }
}

/// After attaching, the children of every slot come after it, in rising
/// order, and name it as their parent.
proof fn lemma_graft_children(a: Seq<NodeDataView>, t: Seq<NodeDataView>, b: Seq<NodeDataView>)
    requires
        arena_wf(a),
        arena_wf(t),
        grafted(a, t, b),
        b.len() <= usize::MAX,
    ensures
        forall|i: int, k: int|
            0 <= i < b.len() && 0 <= k < b[i].children.len() ==> i < (
            #[trigger] b[i].children[k]) < b.len() && b[b[i].children[k] as int].parent == Some(
                i as usize,
            ),
        forall|i: int, k: int, l: int|
            0 <= i < b.len() && 0 <= k < l < b[i].children.len() ==> (
            #[trigger] b[i].children[k]) < (#[trigger] b[i].children[l]),
{
    let off = a.len() as int;
    assert(b[off] == shifted(t[0], off));
    assert forall|i: int, k: int| 0 <= i < b.len() && 0 <= k < b[i].children.len() implies i < (
    #[trigger] b[i].children[k]) < b.len() && b[b[i].children[k] as int].parent == Some(
        i as usize,
    ) by {
        if i == 0 {
            if k < a[0].children.len() {
                let c = a[0].children[k] as int;
                assert(b[c] == a[c]);
            }
        } else if i < off {
            assert(b[i] == a[i]);
            let c = a[i].children[k] as int;
            assert(b[c] == a[c]);
        } else {
            let j = i - off;
            assert(b[i] == shifted(t[j], off));
            let c = t[j].children[k] as int;
            assert(j < c < t.len());
            assert(b[off + c] == shifted(t[c], off));
        }
    }
    assert forall|i: int, k: int, l: int|
        0 <= i < b.len() && 0 <= k < l < b[i].children.len() implies (#[trigger] b[i].children[k])
        < (#[trigger] b[i].children[l]) by {
        if i == 0 {
            if l < a[0].children.len() {
                assert(a[0].children[k] < a[0].children[l]);
            } else {
                assert(a[0].children[k] < a.len());
            }
        } else if i < off {
            assert(b[i] == a[i]);
            assert(a[i].children[k] < a[i].children[l]);
        } else {
            let j = i - off;
            assert(b[i] == shifted(t[j], off));
            assert(t[j].children[k] < t[j].children[l]);
            assert(t[j].children[l] < t.len());
        }
    }
}

/// What attaching one arena below the root of another yields.
pub proof fn lemma_graft(a: Seq<NodeDataView>, t: Seq<NodeDataView>, b: Seq<NodeDataView>)
    requires
        arena_wf(a),
        arena_wf(t),
        grafted(a, t, b),
        b.len() <= usize::MAX,
    ensures
        arena_wf(b),
        tree_at(b, 0) == tree_at(a, 0).with_child(tree_at(t, 0)),
        tree_at(b, a.len() as int) == tree_at(t, 0),
{
    lemma_graft_trees(a, t, b);
    lemma_graft_parents(a, t, b);
    lemma_graft_children(a, t, b);
}

/// Moves the indices held in the slot `i` of `nodes` up by `off`, and makes
/// slot 0 the parent of a slot that had none.
fn shift_slot(nodes: &mut Vec<NodeData>, i: usize, off: usize)
    requires
        i < old(nodes)@.len(),
        forall|k: int|
            0 <= k < old(nodes)@[i as int]@.children.len() ==> (
            #[trigger] old(nodes)@[i as int]@.children[k]) + off <= usize::MAX,
        old(nodes)@[i as int]@.parent is Some ==> old(nodes)@[i as int]@.parent->0 + off
            <= usize::MAX,
    ensures
        final(nodes)@.len() == old(nodes)@.len(),
        final(nodes)@[i as int]@ == shifted(old(nodes)@[i as int]@, off as int),
        forall|j: int|
            0 <= j < old(nodes)@.len() && j != i ==> #[trigger] final(nodes)@[j] == old(nodes)@[j],
{
    let ghost slot = nodes@[i as int]@;
    let count = nodes[i].children.len();
    let mut k: usize = 0;
    while k < count
        invariant
            i < nodes@.len(),
            nodes@.len() == old(nodes)@.len(),
            slot == old(nodes)@[i as int]@,
            count == slot.children.len(),
            k <= count,
            nodes@[i as int]@.payload == slot.payload,
            nodes@[i as int]@.parent == slot.parent,
            nodes@[i as int]@.children.len() == count,
            forall|l: int| 0 <= l < count ==> (#[trigger] slot.children[l]) + off <= usize::MAX,
            forall|l: int|
                0 <= l < k ==> #[trigger] nodes@[i as int]@.children[l] == slot.children[l] + off,
            forall|l: int|
                k <= l < count ==> #[trigger] nodes@[i as int]@.children[l] == slot.children[l],
            forall|j: int|
                0 <= j < nodes@.len() && j != i ==> #[trigger] nodes@[j] == old(nodes)@[j],
        decreases count - k,
    {
        assert(slot.children[k as int] + off <= usize::MAX);
        let moved = nodes[i].children[k] + off;
        nodes[i].children[k] = moved;
        k += 1;
    }
    let parent = match nodes[i].parent {
        Some(p) => Some(p + off),
        None => Some(0),
    };
    nodes[i].parent = parent;
    proof {
        assert(nodes@[i as int]@.children =~= shifted(slot, off as int).children);
    }
}

/// Attaches the tree held in `tail` below slot 0 of `nodes`, as its last child.
fn graft(nodes: &mut Vec<NodeData>, tail: Vec<NodeData>)
    requires
        arena_wf(views(old(nodes)@)),
        arena_wf(views(tail@)),
    ensures
        arena_wf(views(final(nodes)@)),
        grafted(views(old(nodes)@), views(tail@), views(final(nodes)@)),
        tree_at(views(final(nodes)@), 0) == tree_at(views(old(nodes)@), 0).with_child(
            tree_at(views(tail@), 0),
        ),
        tree_at(views(final(nodes)@), old(nodes)@.len() as int) == tree_at(views(tail@), 0),
{
    let ghost a = views(nodes@);
    let ghost t = views(tail@);
    let off = nodes.len();
    let mut tail = tail;
    nodes.append(&mut tail);
    let total = nodes.len();
    assert(total == off + t.len());
    let mut i: usize = off;
    while i < total
        invariant
            off <= i <= total,
            total == off + t.len(),
            nodes@.len() == total,
            a.len() == off,
            arena_wf(t),
            forall|j: int| 0 <= j < off ==> (#[trigger] nodes@[j])@ == a[j],
            forall|j: int|
                off <= j < i ==> (#[trigger] nodes@[j])@ == shifted(t[j - off], off as int),
            forall|j: int| i <= j < total ==> (#[trigger] nodes@[j])@ == t[j - off],
        decreases total - i,
    {
        proof {
            let slot = t[i - off];
            assert(nodes@[i as int]@ == slot);
            assert forall|k: int| 0 <= k < slot.children.len() implies (
            #[trigger] slot.children[k]) + off <= usize::MAX by {
                assert(slot.children[k] < t.len());
            }
            if slot.parent is Some {
                assert(i - off >= 1);
                assert(slot.parent->0 < i - off);
            }
        }
        shift_slot(nodes, i, off);
        i += 1;
    }
    let ghost mid = nodes@;
    nodes[0].children.push(off);
    proof {
        let b = views(nodes@);
        assert(nodes@[0]@.children == mid[0]@.children.push(off));
        assert forall|j: int| 1 <= j < a.len() implies #[trigger] b[j] == a[j] by {
            assert(nodes@[j] == mid[j]);
        }
        assert forall|j: int| a.len() <= j < b.len() implies #[trigger] b[j] == shifted(
            t[j - a.len()],
            a.len() as int,
        ) by {
            assert(nodes@[j] == mid[j]);
        }
        lemma_graft(a, t, b);
    }
}

/// A copy of an arena, slot by slot.
fn clone_slots(nodes: &Vec<NodeData>) -> (r: Vec<NodeData>)
    ensures
        views(r@) == views(nodes@),
{
    let mut r: Vec<NodeData> = Vec::new();
    let mut i: usize = 0;
    while i < nodes.len()
        invariant
            i <= nodes@.len(),
            r@.len() == i,
            forall|j: int| 0 <= j < i ==> (#[trigger] r@[j])@ == nodes@[j]@,
        decreases nodes@.len() - i,
    {
        r.push(nodes[i].clone());
        i += 1;
    }
    proof {
        assert(views(r@) =~= views(nodes@));
    }
    r
}

/// An arena with a single node.
fn single(payload: Payload) -> (r: Vec<NodeData>)
    ensures
        arena_wf(views(r@)),
        r@.len() == 1,
        views(r@)[0] == (NodeDataView { payload: payload@, parent: None, children: Seq::empty() }),
        tree_at(views(r@), 0) == Tree::leaf(payload@),
{
    let mut r: Vec<NodeData> = Vec::new();
    r.push(NodeData { payload, parent: None, children: Vec::new() });
    proof {
        assert(tree_at(views(r@), 0).children =~= Seq::<Tree>::empty());
    }
    r
}

/// Whether the trees below slot `i` of `a` and slot `j` of `b` are equal.
fn same_tree(a: &Vec<NodeData>, i: usize, b: &Vec<NodeData>, j: usize) -> (r: bool)
    requires
        arena_wf(views(a@)),
        arena_wf(views(b@)),
        i < a@.len(),
        j < b@.len(),
    ensures
        r == (tree_at(views(a@), i as int) == tree_at(views(b@), j as int)),
    decreases a@.len() - i,
{
    let ghost ta = tree_at(views(a@), i as int);
    let ghost tb = tree_at(views(b@), j as int);
    if a[i].payload != b[j].payload {
        return false;
    }
    let count = a[i].children.len();
    if count != b[j].children.len() {
        assert(ta.children.len() != tb.children.len());
        return false;
    }
    let mut k: usize = 0;
    while k < count
        invariant
            arena_wf(views(a@)),
            arena_wf(views(b@)),
            i < a@.len(),
            j < b@.len(),
            k <= count,
            count == a@[i as int]@.children.len(),
            count == b@[j as int]@.children.len(),
            ta == tree_at(views(a@), i as int),
            tb == tree_at(views(b@), j as int),
            forall|l: int| 0 <= l < k ==> ta.children[l] == tb.children[l],
        decreases count - k,
    {
        let ca = a[i].children[k];
        let cb = b[j].children[k];
        proof {
            assert(views(a@)[i as int].children[k as int] == ca);
            assert(views(b@)[j as int].children[k as int] == cb);
            assert(ta.children[k as int] == tree_at(views(a@), ca as int));
            assert(tb.children[k as int] == tree_at(views(b@), cb as int));
        }
        if !same_tree(a, ca, b, cb) {
            return false;
        }
        k += 1;
    }
    proof {
        assert(ta.children =~= tb.children);
    }
    true
}

/// The handle to a tree: the node at its root, with everything below it.
#[derive(Debug)]
pub struct Node {
    nodes: Vec<NodeData>,
}

impl View for Node {
    type V = Tree;

    closed spec fn view(&self) -> Tree {
        tree_at(views(self.nodes@), 0)
    }
}

impl Node {
    #[verifier::type_invariant]
    spec fn inv(self) -> bool {
        arena_wf(views(self.nodes@))
    }

    /// The slots of the arena: slot 0 is this node, the others are its
    /// descendants.
    pub closed spec fn slots(&self) -> Seq<NodeDataView> {
        views(self.nodes@)
    }

    /// What every value of this type satisfies.
    pub open spec fn wf(&self) -> bool {
        &&& arena_wf(self.slots())
        &&& self@ == tree_at(self.slots(), 0)
    }

    /// The tree below the node with index `id`.
    pub open spec fn subtree(&self, id: int) -> Tree {
        tree_at(self.slots(), id)
    }

    /// A node that has no parent and no children.
    pub fn new(payload: Payload) -> (r: Node)
        ensures
            r.wf(),
            r@ == Tree::leaf(payload@),
            r.slots().len() == 1,
            r.slots()[0] == (NodeDataView {
                payload: payload@,
                parent: None,
                children: Seq::empty(),
            }),
    {
        Node { nodes: single(payload) }
    }

    /// The number of nodes of the tree.
    pub fn len(&self) -> (r: usize)
        ensures
            self.wf(),
            r == self.slots().len(),
            r >= 1,
    {
        proof {
            use_type_invariant(self);
        }
        self.nodes.len()
    }

    /// The node with index `id`, if the tree has one.
    pub fn get(&self, id: usize) -> (r: Option<&NodeData>)
        ensures
            self.wf(),
            match r {
                Some(data) => id < self.slots().len() && data@ == self.slots()[id as int],
                None => id >= self.slots().len(),
            },
    {
        proof {
            use_type_invariant(self);
        }
        if id < self.nodes.len() {
            Some(&self.nodes[id])
        } else {
            None
        }
    }

    /// The node at the root of the tree.
    pub fn root(&self) -> (r: &NodeData)
        ensures
            self.wf(),
            r@ == self.slots()[0],
            r@.payload == self@.payload,
            r@.parent is None,
    {
        proof {
            use_type_invariant(self);
        }
        &self.nodes[0]
    }

    /// Whether the tree below the node `id` of this tree is equal to the
    /// tree below the node `other_id` of `other`: the two nodes have equal
    /// payloads and equal children, one for one. Parent links do not count,
    /// and where an index names no node the answer is no.
    pub fn same_subtree(&self, id: usize, other: &Node, other_id: usize) -> (r: bool)
        ensures
            r == (id < self.slots().len() && other_id < other.slots().len() && self.subtree(
                id as int,
            ) == other.subtree(other_id as int)),
    {
        proof {
            use_type_invariant(self);
            use_type_invariant(other);
        }
        if id >= self.nodes.len() || other_id >= other.nodes.len() {
            return false;
        }
        same_tree(&self.nodes, id, &other.nodes, other_id)
    }

    /// A second handle, to a tree equal to this one.
    pub fn get_copy_of_internal_arc(&self) -> (r: Node)
        ensures
            r.wf(),
            r@ == self@,
            r.slots() == self.slots(),
    {
        proof {
            use_type_invariant(self);
        }
        Node { nodes: clone_slots(&self.nodes) }
    }

    /// Appends a copy of `child`, with everything below it, to the children
    /// of this node, and makes this node the parent of the copy, which is
    /// the node with index `old(self).slots().len()`.
    pub fn add_child_and_update_parent(&mut self, child: &Node)
        ensures
            final(self).wf(),
            final(self)@ == old(self)@.with_child(child@),
            grafted(old(self).slots(), child.slots(), final(self).slots()),
            final(self).subtree(old(self).slots().len() as int) == child@,
    {
        self.adopt(child.get_copy_of_internal_arc());
    }

    /// Appends `child` itself, with everything below it, to the children of
    /// this node, and makes this node its parent. Its index is then
    /// `old(self).slots().len()`.
    pub fn adopt(&mut self, child: Node)
        ensures
            final(self).wf(),
            final(self)@ == old(self)@.with_child(child@),
            grafted(old(self).slots(), child.slots(), final(self).slots()),
            final(self).subtree(old(self).slots().len() as int) == child@,
    {
        proof {
            use_type_invariant(&*self);
            use_type_invariant(&child);
        }
        let mut nodes = single(Payload::Text(String::new()));
        core::mem::swap(&mut self.nodes, &mut nodes);
        graft(&mut nodes, child.nodes);
        self.nodes = nodes;
    }

    /// Appends a new node with `payload` to the children of this node and
    /// returns its index.
    pub fn create_and_add_child(&mut self, payload: Payload) -> (r: usize)
        ensures
            final(self).wf(),
            final(self)@ == old(self)@.with_child(Tree::leaf(payload@)),
            r == old(self).slots().len(),
            final(self).slots().len() == r + 1,
            final(self).slots()[r as int] == (NodeDataView {
                payload: payload@,
                parent: Some(0usize),
                children: Seq::empty(),
            }),
            final(self).slots()[0].children == old(self).slots()[0].children.push(r),
            forall|j: int| 1 <= j < r ==> #[trigger] final(self).slots()[j] == old(self).slots()[j],
    {
        proof {
            use_type_invariant(&*self);
        }
        let id = self.nodes.len();
        let new_child = Node::new(payload);
        let ghost slot = new_child.slots()[0];
        self.adopt(new_child);
        proof {
            assert(self.slots()[id as int] == shifted(slot, id as int));
            assert(self.slots()[id as int].children =~= Seq::<usize>::empty());
        }
        id
    }
}

impl core::ops::Deref for Node {
    type Target = NodeData;

    fn deref(&self) -> (r: &NodeData)
        ensures
            r@ == self.slots()[0],
    {
        self.root()
    }
}

impl Clone for Node {
    fn clone(&self) -> (r: Node)
        ensures
            r@ == self@,
            r.slots() == self.slots(),
    {
        self.get_copy_of_internal_arc()
    }
}

impl PartialEq for Node {
    fn eq(&self, other: &Node) -> (r: bool) {
        proof {
            use_type_invariant(self);
            use_type_invariant(other);
        }
        same_tree(&self.nodes, 0, &other.nodes, 0)
    }
}

impl PartialEqSpecImpl for Node {
    open spec fn obeys_eq_spec() -> bool {
        true
    }

    open spec fn eq_spec(&self, other: &Node) -> bool {
        self@ == other@
    }
}

/// Equality of handles is equality of the trees that they stand for, so it
/// is reflexive, symmetric and transitive.
pub proof fn lemma_eq_is_an_equivalence(a: Node, b: Node, c: Node)
    ensures
        PartialEqSpec::eq_spec(&a, &a),
        PartialEqSpec::eq_spec(&a, &b) ==> PartialEqSpec::eq_spec(&b, &a),
        PartialEqSpec::eq_spec(&a, &b) && PartialEqSpec::eq_spec(&b, &c) ==> PartialEqSpec::eq_spec(
            &a,
            &c,
        ),
{
}

/// Parent links are no part of a tree: two arenas that agree in the
/// payloads and the children of their slots carry the same trees, whatever
/// their parent links say.
pub proof fn lemma_tree_ignores_parents(a: Seq<NodeDataView>, b: Seq<NodeDataView>, i: int)
    requires
        arena_wf(a),
        a.len() == b.len(),
        forall|j: int|
            0 <= j < a.len() ==> (#[trigger] a[j]).payload == b[j].payload && a[j].children
                == b[j].children,
        0 <= i < a.len(),
    ensures
        tree_at(a, i) == tree_at(b, i),
{
    assert forall|j: int| 0 <= j < a.len() implies same_shape(#[trigger] a[j], b[j + 0], 0) by {}
    lemma_tree_moved(a, b, 0, 0, a.len() as int, i);
}

/// The subtree of a node consists of its payload and the subtrees of its
/// children, in their order.
pub proof fn lemma_subtree(node: Node, id: int)
    requires
        node.wf(),
        0 <= id < node.slots().len(),
    ensures
        node.subtree(id).payload == node.slots()[id].payload,
        node.subtree(id).children.len() == node.slots()[id].children.len(),
        forall|k: int|
            0 <= k < node.slots()[id].children.len() ==> #[trigger] node.subtree(id).children[k]
                == node.subtree(node.slots()[id].children[k] as int),
{
}

/// Every node but the root is the child of exactly the node that its parent
/// link names, and the root is nobody's child.
pub proof fn lemma_parent_links(node: Node, id: int)
    requires
        node.wf(),
        0 <= id < node.slots().len(),
    ensures
        id == 0 <==> node.slots()[id].parent is None,
        forall|p: int|
            0 <= p < node.slots().len() ==> (node.slots()[p].children.contains(id as usize)
                <==> node.slots()[id].parent == Some(p as usize)),
{
    let slots = node.slots();
    assert forall|p: int| 0 <= p < slots.len() implies (slots[p].children.contains(id as usize)
        <==> slots[id].parent == Some(p as usize)) by {
        if slots[p].children.contains(id as usize) {
            let k = choose|k: int|
                0 <= k < slots[p].children.len() && slots[p].children[k] == id as usize;
            assert(slots[slots[p].children[k] as int].parent == Some(p as usize));
        }
        if slots[id].parent == Some(p as usize) {
            assert(id >= 1);
            assert(slots[id].parent is Some);
        }
    }
}

} // verus!
