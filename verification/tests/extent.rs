use html::dom::{Node, Payload, Tag};
use html::parse;
use html::{
    Attribute, get_first_child, get_node_by_attribute, get_node_by_name, get_nodes_by_attribute,
    get_nodes_by_name,
};

fn concat_all(parts: &[&str]) -> String {
    let mut doc = String::new();
    for part in parts {
        doc.push_str(part);
    }
    doc
}

fn sample() -> Node {
    let doc = concat_all(&[
        r#"<ul id="l">"#,
        r#"<li class="x">a</li>"#,
        r#"<li class="y">b</li>"#,
        r#"<li class="x"><b id="l">c</b></li>"#,
        "</ul>",
        "<p>d</p>",
    ]);
    parse(&doc).unwrap()
}

fn name_at(tree: &Node, id: usize) -> String {
    match tree.get(id).unwrap().get_payload() {
        Payload::Tag(t) => String::from(t.get_name()),
        Payload::Text(s) => format!("text:{}", s),
        Payload::Comment(s) => format!("comment:{}", s),
    }
}

#[test]
fn list_items_are_found_in_document_order() {
    let tree = parse("<ul><li>a</li><li>b</li></ul>").unwrap();
    let mut found = Vec::new();
    get_nodes_by_name(&mut found, &tree, 0, "li");
    assert_eq!(found, vec![2, 4]);
    assert_eq!(name_at(&tree, 1), "ul");
    assert_eq!(tree.get(1).unwrap().get_children(), &vec![2, 4]);
    assert_eq!(name_at(&tree, get_first_child(&tree, 2).unwrap()), "text:a");
    assert_eq!(name_at(&tree, get_first_child(&tree, 4).unwrap()), "text:b");
    assert_eq!(tree.get(2).unwrap().get_children().len(), 1);
    assert_eq!(tree.get(4).unwrap().get_children().len(), 1);
}

#[test]
fn nodes_by_name() {
    let tree = sample();
    let mut found = vec![99];
    get_nodes_by_name(&mut found, &tree, 0, "li");
    assert_eq!(found, vec![99, 2, 4, 6]);
    let mut found = Vec::new();
    get_nodes_by_name(&mut found, &tree, 6, "li");
    assert_eq!(found, vec![6]);
    let mut found = Vec::new();
    get_nodes_by_name(&mut found, &tree, 0, "root");
    assert_eq!(found, vec![0]);
    let mut found = Vec::new();
    get_nodes_by_name(&mut found, &tree, 0, "a");
    assert!(found.is_empty());
    get_nodes_by_name(&mut found, &tree, 1000, "li");
    assert!(found.is_empty());
}

#[test]
fn nodes_by_attribute() {
    let tree = sample();
    let mut found = Vec::new();
    get_nodes_by_attribute(&mut found, &tree, 0, &Attribute("class", "x"));
    assert_eq!(found, vec![2, 6]);
    let mut found = Vec::new();
    get_nodes_by_attribute(&mut found, &tree, 0, &Attribute("id", "l"));
    assert_eq!(found, vec![1, 7]);
    let mut found = Vec::new();
    get_nodes_by_attribute(&mut found, &tree, 0, &Attribute("class", "z"));
    assert!(found.is_empty());
    get_nodes_by_attribute(&mut found, &tree, 0, &Attribute("x", "class"));
    assert!(found.is_empty());
}

#[test]
fn node_by_name() {
    let tree = sample();
    let mut found = None;
    get_node_by_name(&mut found, &tree, 0, "li");
    assert_eq!(found, Some(2));
    let mut found = None;
    get_node_by_name(&mut found, &tree, 0, "b");
    assert_eq!(found, Some(7));
    let mut found = None;
    get_node_by_name(&mut found, &tree, 0, "p");
    assert_eq!(found, Some(9));
    let mut found = None;
    get_node_by_name(&mut found, &tree, 4, "b");
    assert_eq!(found, None);
    let mut found = None;
    get_node_by_name(&mut found, &tree, 0, "q");
    assert_eq!(found, None);
    get_node_by_name(&mut found, &tree, 77, "li");
    assert_eq!(found, None);
}

#[test]
fn node_by_name_where_something_was_found_before() {
    let tree = sample();
    // the source itself is always looked at
    let mut found = Some(50);
    get_node_by_name(&mut found, &tree, 1, "ul");
    assert_eq!(found, Some(1));
    // below it only the first children are, one level after the other
    let mut found = Some(50);
    get_node_by_name(&mut found, &tree, 0, "li");
    assert_eq!(found, Some(2));
    let mut found = Some(50);
    get_node_by_name(&mut found, &tree, 0, "p");
    assert_eq!(found, Some(50));
    let mut found = Some(50);
    get_node_by_name(&mut found, &tree, 0, "b");
    assert_eq!(found, Some(50));
}

#[test]
fn node_by_attribute() {
    let tree = sample();
    let mut found = None;
    get_node_by_attribute(&mut found, &tree, 0, &Attribute("class", "y"));
    assert_eq!(found, Some(4));
    let mut found = None;
    get_node_by_attribute(&mut found, &tree, 0, &Attribute("id", "l"));
    assert_eq!(found, Some(1));
    let mut found = None;
    get_node_by_attribute(&mut found, &tree, 2, &Attribute("id", "l"));
    assert_eq!(found, None);
    let mut found = None;
    get_node_by_attribute(&mut found, &tree, 6, &Attribute("id", "l"));
    assert_eq!(found, Some(7));
    let mut found = None;
    get_node_by_attribute(&mut found, &tree, 0, &Attribute("id", "m"));
    assert_eq!(found, None);
}

#[test]
fn first_child() {
    let tree = sample();
    assert_eq!(get_first_child(&tree, 0), Some(1));
    assert_eq!(get_first_child(&tree, 1), Some(2));
    assert_eq!(get_first_child(&tree, 3), None);
    assert_eq!(get_first_child(&tree, 500), None);
    let lone = Node::new(Payload::Tag(Tag::new("p")));
    assert_eq!(get_first_child(&lone, 0), None);
}
