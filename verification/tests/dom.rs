use html::dom::{Attributes, Node, Payload, Tag};
use html::get_first_child;

#[test]
fn parent_test() {
    let child = Node::new(Payload::Text(String::from("Hello, world!")));
    let mut parent = Node::new(Payload::Tag(Tag::new("li")));

    parent.add_child_and_update_parent(&child);

    let child = parent.get(get_first_child(&parent, 0).unwrap()).unwrap();
    assert!(child.has_parent());
}

#[test]
fn copy_test() {
    let node = Node::new(Payload::Tag(Tag::new("li")));

    let copy_node = node.get_copy_of_internal_arc();
    assert_eq!(node, copy_node)
}

#[test]
fn new_node_has_no_parent_and_no_children() {
    let node = Node::new(Payload::Text(String::from("x")));
    assert_eq!(node.len(), 1);
    assert!(!node.has_parent());
    assert_eq!(node.get_parent(), None);
    assert!(node.get_children().is_empty());
    assert_eq!(node.get_payload(), &Payload::Text(String::from("x")));
    assert!(node.get(1).is_none());
}

#[test]
fn attached_child_points_back_to_its_parent() {
    let mut parent = Node::new(Payload::Tag(Tag::new("ul")));
    let first = parent.create_and_add_child(Payload::Tag(Tag::new("li")));
    let second = parent.create_and_add_child(Payload::Text(String::from("t")));
    assert_eq!((first, second), (1, 2));
    assert_eq!(parent.get_children(), &vec![1, 2]);
    assert_eq!(parent.get(first).unwrap().get_parent(), Some(0));
    assert_eq!(parent.get(second).unwrap().get_parent(), Some(0));
    assert_eq!(parent.get(second).unwrap().get_payload(), &Payload::Text(String::from("t")));
    // the root is nobody's child
    assert!(!parent.root().has_parent());
}

#[test]
fn attaching_a_tree_moves_its_indices_up() {
    let mut inner = Node::new(Payload::Tag(Tag::new("li")));
    inner.create_and_add_child(Payload::Text(String::from("a")));
    let mut outer = Node::new(Payload::Tag(Tag::new("ul")));
    outer.create_and_add_child(Payload::Comment(String::from("c")));
    outer.add_child_and_update_parent(&inner);

    assert_eq!(outer.len(), 4);
    assert_eq!(outer.get_children(), &vec![1, 2]);
    let li = outer.get(2).unwrap();
    assert_eq!(li.get_payload(), &Payload::Tag(Tag::new("li")));
    assert_eq!(li.get_parent(), Some(0));
    assert_eq!(li.get_children(), &vec![3]);
    let text = outer.get(3).unwrap();
    assert_eq!(text.get_payload(), &Payload::Text(String::from("a")));
    assert_eq!(text.get_parent(), Some(2));
    // the tree that was attached is left as it was
    assert_eq!(inner.len(), 2);
    assert!(!inner.has_parent());
}

#[test]
fn adopting_a_tree_is_attaching_it() {
    let mut inner = Node::new(Payload::Tag(Tag::new("li")));
    inner.create_and_add_child(Payload::Text(String::from("a")));
    let mut by_copy = Node::new(Payload::Tag(Tag::new("ul")));
    by_copy.add_child_and_update_parent(&inner);
    let mut by_move = Node::new(Payload::Tag(Tag::new("ul")));
    by_move.adopt(inner);
    assert!(by_copy == by_move);
    assert_eq!(by_move.len(), 3);
    assert_eq!(by_move.get(1).unwrap().get_parent(), Some(0));
    assert_eq!(by_move.get(2).unwrap().get_parent(), Some(1));
}

#[test]
fn equality_ignores_parent_links() {
    let mut a = Node::new(Payload::Tag(Tag::new("li")));
    a.create_and_add_child(Payload::Text(String::from("x")));
    let mut holder = Node::new(Payload::Tag(Tag::new("ul")));
    holder.add_child_and_update_parent(&a);

    // the same subtree, once standing alone and once below a parent
    let mut b = Node::new(Payload::Tag(Tag::new("li")));
    b.create_and_add_child(Payload::Text(String::from("x")));
    assert!(a == b);
    assert!(holder != a);

    let mut other = Node::new(Payload::Tag(Tag::new("ul")));
    other.add_child_and_update_parent(&b);
    assert!(holder == other);
    other.create_and_add_child(Payload::Text(String::from("y")));
    assert!(holder != other);
}

#[test]
fn equality_tells_children_apart() {
    let mut a = Node::new(Payload::Tag(Tag::new("p")));
    a.create_and_add_child(Payload::Text(String::from("x")));
    let mut b = Node::new(Payload::Tag(Tag::new("p")));
    b.create_and_add_child(Payload::Text(String::from("y")));
    assert!(a != b);
    let mut c = Node::new(Payload::Tag(Tag::new("p")));
    c.create_and_add_child(Payload::Comment(String::from("x")));
    assert!(a != c);
}

#[test]
fn clone_is_equal_and_independent() {
    let mut a = Node::new(Payload::Tag(Tag::new("p")));
    a.create_and_add_child(Payload::Text(String::from("x")));
    let b = a.clone();
    a.create_and_add_child(Payload::Text(String::from("y")));
    assert_eq!(b.len(), 2);
    assert_eq!(a.len(), 3);
    assert!(a != b);
}

#[test]
fn tag_accessors() {
    let mut tag = Tag::new("a");
    assert_eq!(tag.get_name(), "a");
    assert!(tag.get_attributes().is_none());
    assert!(!tag.is_terminator());
    assert!(!tag.is_self_closing());
    assert_eq!(tag.get_attribute_value("href"), None);

    tag.set_attribute("href", "x");
    tag.set_attribute("id", "1");
    tag.set_attribute("href", "y");
    assert_eq!(tag.get_attribute_value("href"), Some(String::from("y")));
    assert_eq!(tag.get_attribute_value("id"), Some(String::from("1")));
    assert_eq!(tag.get_attribute_value("class"), None);
    assert_eq!(tag.get_attributes().unwrap().len(), 2);

    tag.set_terminator(true);
    tag.set_self_closing(true);
    assert!(tag.is_terminator());
    assert!(tag.is_self_closing());

    tag.set_attributes(Attributes::new());
    assert_eq!(tag.get_attributes().unwrap().len(), 0);
    assert_eq!(tag.get_attribute_value("href"), None);
}

#[test]
fn tag_equality() {
    let mut a = Tag::new("a");
    let mut b = Tag::new("a");
    assert!(a == b);
    a.set_attribute("x", "1");
    a.set_attribute("y", "2");
    b.set_attribute("y", "2");
    assert!(a != b);
    b.set_attribute("x", "1");
    // the order of insertion does not count
    assert!(a == b);
    b.set_attribute("x", "3");
    assert!(a != b);
    // no attributes and an empty set of attributes differ
    let mut c = Tag::new("a");
    c.set_attributes(Attributes::new());
    assert!(c != Tag::new("a"));
    assert!(Tag::new("a") != Tag::new("b"));
    let mut d = Tag::new("a");
    d.set_terminator(true);
    assert!(d != Tag::new("a"));
    let mut e = Tag::new("a");
    e.set_self_closing(true);
    assert!(e != Tag::new("a"));
    assert!(a.clone() == a);
}

#[test]
fn attributes_behave_as_a_map() {
    let mut attrs = Attributes::new();
    assert_eq!(attrs.len(), 0);
    assert_eq!(attrs.insert(String::from("a"), String::from("1")), None);
    assert_eq!(attrs.insert(String::from("b"), String::from("2")), None);
    assert_eq!(attrs.insert(String::from("a"), String::from("3")), Some(String::from("1")));
    assert_eq!(attrs.len(), 2);
    assert_eq!(attrs.get("a"), Some(&String::from("3")));
    assert!(attrs.contains_key("b"));
    assert!(!attrs.contains_key("c"));
    assert_eq!(attrs.entry(0), Some((&String::from("a"), &String::from("3"))));
    assert_eq!(attrs.entry(1), Some((&String::from("b"), &String::from("2"))));
    assert_eq!(attrs.entry(2), None);
    assert_eq!(attrs.remove("c"), None);
    assert_eq!(attrs.remove("a"), Some(String::from("3")));
    assert_eq!(attrs.len(), 1);
    assert_eq!(attrs.get("a"), None);
    assert_eq!(attrs.entry(0), Some((&String::from("b"), &String::from("2"))));
    let copy = attrs.clone();
    assert!(copy == attrs);
}

#[test]
fn payload_equality() {
    assert!(Payload::Text(String::from("a")) == Payload::Text(String::from("a")));
    assert!(Payload::Text(String::from("a")) != Payload::Text(String::from("b")));
    assert!(Payload::Text(String::from("a")) != Payload::Comment(String::from("a")));
    assert!(Payload::Tag(Tag::new("a")) != Payload::Text(String::from("a")));
    assert!(Payload::Tag(Tag::new("a")) == Payload::Tag(Tag::new("a")).clone());
}

#[test]
fn subtrees_are_compared_node_by_node() {
    let mut inner = Node::new(Payload::Tag(Tag::new("li")));
    inner.create_and_add_child(Payload::Text(String::from("a")));
    let mut list = Node::new(Payload::Tag(Tag::new("ul")));
    list.add_child_and_update_parent(&inner);
    list.add_child_and_update_parent(&inner);
    list.create_and_add_child(Payload::Text(String::from("a")));
    // ul(li("a") li("a") "a"): indices 0, 1, 2, 3, 4, 5

    // a node inside a tree equals the same node standing alone
    assert!(list.same_subtree(1, &inner, 0));
    assert!(inner.same_subtree(0, &list, 3));
    // and its like elsewhere in the tree, whatever their parents are
    assert!(list.same_subtree(1, &list, 3));
    assert!(list.same_subtree(2, &list, 5));
    assert!(list.same_subtree(2, &inner, 1));
    assert!(list.same_subtree(0, &list, 0));
    // payload and children both count
    assert!(!list.same_subtree(0, &inner, 0));
    assert!(!list.same_subtree(1, &list, 2));
    assert!(!list.same_subtree(1, &inner, 1));
    // an index that names no node
    assert!(!list.same_subtree(6, &list, 6));
    assert!(!list.same_subtree(1, &inner, 2));
    // the whole trees are compared by `==`
    assert_eq!(list.same_subtree(0, &inner, 0), list == inner);
}
