use html::dom::{Node, Payload, Tag};
use html::parse;
use html::parser::input::Input;
use html::parser::{
    create_node_tree, create_node_vec, find_terminator, get_tag_end, parse_comment,
    parse_doctype, parse_tag, parse_tag_attr, parse_tag_attr_value, parse_tag_name, parse_text,
    parse_text_script, ParseError,
};

fn tag(name: &str) -> Payload {
    Payload::Tag(Tag::new(name))
}

fn end_tag(name: &str) -> Payload {
    let mut t = Tag::new(name);
    t.set_terminator(true);
    Payload::Tag(t)
}

fn tag_with(name: &str, attrs: &[(&str, &str)], self_closing: bool) -> Payload {
    let mut t = Tag::new(name);
    t.set_attributes(html::dom::Attributes::new());
    for (k, v) in attrs {
        t.set_attribute(k, v);
    }
    t.set_self_closing(self_closing);
    Payload::Tag(t)
}

fn text(s: &str) -> Payload {
    Payload::Text(String::from(s))
}

/// The tree written with brackets: a payload, then its children in parentheses.
fn show(tree: &Node, id: usize, out: &mut String) {
    let data = tree.get(id).unwrap();
    match data.get_payload() {
        Payload::Tag(t) => {
            out.push_str(t.get_name());
            if t.is_self_closing() {
                out.push('/');
            }
        }
        Payload::Text(s) => out.push_str(&format!("{:?}", s)),
        Payload::Comment(s) => out.push_str(&format!("#{:?}", s)),
    }
    if !data.get_children().is_empty() {
        out.push('(');
        for (k, child) in data.get_children().iter().enumerate() {
            if k > 0 {
                out.push(' ');
            }
            assert_eq!(tree.get(*child).unwrap().get_parent(), Some(id));
            show(tree, *child, out);
        }
        out.push(')');
    }
}

fn shape(doc: &str) -> String {
    let tree = parse(doc).unwrap();
    let mut out = String::new();
    show(&tree, 0, &mut out);
    out
}

fn payloads(doc: &str) -> Vec<Payload> {
    let mut input = Input::new(doc);
    let nodes = create_node_vec(&mut input).unwrap();
    assert!(input.is_end());
    nodes.iter().map(|n| {
        assert_eq!(n.len(), 1);
        n.get_payload().clone()
    }).collect()
}

#[test]
fn parse_test() {
    let html = r#"
        <body>
          <h1 class="h1">Hello</h1>
        </body>
        "#;

    match parse(&html) {
        Ok(_) => {}
        Err(e) => panic!("{}", e),
    }
}

#[test]
fn eq_test() {
    let a = r#"
        <head>
          <title>sample</title>
        </head>
        <body>
          <h1>section</h1>
          <ul>
            <li>list1</li>
            <li>list2</li>
          </ul>
        </body>
        "#;
    let a_node = parse(&a).unwrap();

    let b = r#"
        <head>
          <title>sample</title>
        </head>
        <body>
          <h1>section</h1>
          <ul>
            <li>list1</li>
            <li>list2</li>
          </ul>
        </body>
        "#;
    let b_node = parse(&b).unwrap();

    assert_eq!(a_node == b_node, true);
    assert_eq!(a_node != b_node, false);
}

#[test]
fn ne_test() {
    let a = r#"
        <head>
          <title>sample</title>
        </head>
        <body>
          <h1>section</h1>
          <ul>
            <li>list1</li>
            <li>list2</li>
          </ul>
        </body>
        "#;
    let a_dom = parse(&a).unwrap();

    let b = r#"
        <head>
          <title>sample</title>
        </head>
        <body>
          <h1>section</h1>
          <ul>
            <li>list1</li>
            <li>list3</li>
          </ul>
        </body>
        "#;
    let b_dom = parse(&b).unwrap();

    assert_eq!(a_dom == b_dom, false);
    assert_eq!(a_dom != b_dom, true);
}

#[test]
fn parse_nests_paired_tags() {
    assert_eq!(shape("<ul><li>a</li><li>b</li></ul>"), r#"root(ul(li("a") li("b")))"#);
    assert_eq!(
        shape(r#"<body><h1 class="h1">Hello</h1></body>"#),
        r#"root(body(h1("Hello")))"#
    );
    assert_eq!(shape("<a><a>x</a></a>"), r#"root(a(a("x")))"#);
}

#[test]
fn parse_keeps_the_text_of_paired_documents() {
    fn collect(tree: &Node, id: usize, out: &mut String) {
        let data = tree.get(id).unwrap();
        if let Payload::Text(s) = data.get_payload() {
            out.push_str(s);
        }
        for child in data.get_children() {
            collect(tree, *child, out);
        }
    }
    let tree = parse("<p>one<b>two</b>three</p><i>four</i>").unwrap();
    let mut out = String::new();
    collect(&tree, 0, &mut out);
    assert_eq!(out, "onetwothreefour");
}

#[test]
fn parse_root_is_a_tag_named_root() {
    let tree = parse("").unwrap();
    assert_eq!(tree.len(), 1);
    assert_eq!(tree.get_payload(), &tag("root"));
    assert!(!tree.has_parent());
    // without any tag the document is one text
    assert_eq!(shape("just text"), r#"root("just text")"#);
}

#[test]
fn parse_reads_text_before_the_first_tag() {
    assert_eq!(shape("hello<b>x</b>"), r#"root("hello" b("x"))"#);
    assert_eq!(shape("a<!--c-->b"), r##"root("a" #"c" "b")"##);
    // one space or line feed at the start is passed over, as anywhere else
    assert_eq!(shape(" hello<b>x</b>"), r#"root("hello" b("x"))"#);
    assert_eq!(shape("\n<b>x</b>"), r#"root(b("x"))"#);
    assert_eq!(shape("  <b>x</b>"), r#"root(" " b("x"))"#);
}

#[test]
fn parse_whitespace_between_tags() {
    // one space or line feed before a tag is passed over
    assert_eq!(shape("<a> <b></b>\n<c></c></a>"), "root(a(b c))");
    // more than that is text
    assert_eq!(shape("<a>  <b></b></a>"), r#"root(a(" " b))"#);
    // as is what follows a passed-over character
    assert_eq!(shape("<a> x </a>"), r#"root(a("x "))"#);
    // at the end of the input an empty text is left
    assert_eq!(shape("<a></a> "), r#"root(a "")"#);
    assert_eq!(shape("<a></a>tail"), r#"root(a "tail")"#);
}

#[test]
fn parse_self_closing_tags_have_no_children() {
    assert_eq!(shape(r#"<p><img src="x" />text</p>"#), r#"root(p(img/ "text"))"#);
    assert_eq!(shape("<p><br />a<br />b</p>"), r#"root(p(br/ "a" br/ "b"))"#);
    // without a space the slash belongs to the name
    assert_eq!(shape("<p><br/>text</p>"), r#"root(p(br/ "text"))"#);
    assert_eq!(
        payloads("<br/>"),
        vec![tag("br/")]
    );
    assert_eq!(payloads("<br />"), vec![tag_with("br", &[], true)]);
    assert_eq!(
        payloads(r#"<img src="x" />"#),
        vec![tag_with("img", &[("src", "x")], true)]
    );
    // an end tag of its name does not give a self-closing tag children
    assert_eq!(shape("<br />x</br>y"), r#"root(br/ "x")"#);
}

#[test]
fn parse_attribute_values_in_all_three_forms() {
    assert_eq!(payloads(r#"<a x="">"#), vec![tag_with("a", &[("x", "")], false)]);
    assert_eq!(payloads("<a x=''>"), vec![tag_with("a", &[("x", "")], false)]);
    assert_eq!(payloads("<a x=>"), vec![tag_with("a", &[("x", "")], false)]);
    assert_eq!(payloads(r#"<a x="1 2">"#), vec![tag_with("a", &[("x", "1 2")], false)]);
    assert_eq!(payloads("<a x='1 2'>"), vec![tag_with("a", &[("x", "1 2")], false)]);
    assert_eq!(payloads("<a x=1>"), vec![tag_with("a", &[("x", "1")], false)]);
    assert_eq!(
        payloads("<a x=1 y=2>"),
        vec![tag_with("a", &[("x", "1"), ("y", "2")], false)]
    );
    assert_eq!(payloads("<a x>"), vec![tag_with("a", &[("x", "")], false)]);
    assert_eq!(
        payloads(r#"<a x y="1">"#),
        vec![tag_with("a", &[("x", ""), ("y", "1")], false)]
    );
    assert_eq!(
        payloads(r#"<a x ="1">"#),
        vec![tag_with("a", &[("x", "1")], false)]
    );
    // a '>' between double quotes does not end the tag
    assert_eq!(payloads(r#"<a x="a>b">"#), vec![tag_with("a", &[("x", "a>b")], false)]);
    // the later of two attributes of one name stays
    assert_eq!(payloads("<a x=1 x=2>"), vec![tag_with("a", &[("x", "2")], false)]);
}

#[test]
fn parse_tag_names_are_trimmed() {
    assert_eq!(payloads("<div\n>"), vec![tag("div")]);
    assert_eq!(payloads("<\tdiv>"), vec![tag("div")]);
    assert_eq!(payloads("<div >"), vec![tag("div")]);
    assert_eq!(payloads("</div>"), vec![end_tag("div")]);
    assert_eq!(payloads("</div >"), vec![end_tag("div")]);
}

#[test]
fn parse_script_body_is_text() {
    let doc = r#"<script>alert("<b>not a tag</b>");</script>"#;
    assert_eq!(
        payloads(doc),
        vec![tag("script"), text(r#"alert("<b>not a tag</b>");"#), end_tag("script")]
    );
    assert_eq!(shape(doc), r#"root(script("alert(\"<b>not a tag</b>\");"))"#);
    let tree = parse(doc).unwrap();
    let script = tree.get(1).unwrap();
    assert_eq!(script.get_children().len(), 1);
    // a script that is closed at once has no body
    assert_eq!(payloads("<script></script>"), vec![tag("script"), end_tag("script")]);
    // a script that is never closed is an error
    assert_eq!(parse("<script>x"), Err(ParseError::UnterminatedTag.message()));
}

#[test]
fn parse_comments() {
    assert_eq!(
        payloads("<!-- a <b> c --><p>"),
        vec![Payload::Comment(String::from(" a <b> c ")), tag("p")]
    );
    assert_eq!(payloads("<!---->"), vec![Payload::Comment(String::new())]);
    assert_eq!(shape("<p><!--c-->x</p>"), r##"root(p(#"c" "x"))"##);
    // the closing mark is looked for after the opening one
    assert_eq!(parse("<!-->"), Err(ParseError::UnterminatedComment.message()));
    assert_eq!(payloads("<!-->x-->"), vec![Payload::Comment(String::from(">x"))]);
}

#[test]
fn parse_unterminated_input_is_an_error() {
    assert_eq!(parse("<div"), Err(String::from("Input ends in the middle of the tag.")));
    assert_eq!(parse(r#"<div class=""#), Err(ParseError::UnterminatedTag.message()));
    assert_eq!(parse("<p>a</p><"), Err(ParseError::UnterminatedTag.message()));
    assert_eq!(
        parse("<!-- abc"),
        Err(String::from("Input ends in the middle of the comment."))
    );
    assert_eq!(
        parse("<a x='>'>"),
        Err(String::from("There is no delimiter to terminate the attribute."))
    );
    // the input ends before the closing quote
    assert_eq!(parse(r#"<a x"y=">"#), Err(ParseError::UnterminatedTag.message()));
    let mut input = Input::new("<div");
    assert_eq!(create_node_vec(&mut input).err(), Some(ParseError::UnterminatedTag));
}

#[test]
fn parse_tolerates_unpaired_tags() {
    // a start tag without its end tag has no children
    assert_eq!(shape("<p>a<b>c"), r#"root(p "a" b "c")"#);
    // an end tag at the outermost level ends the tree
    assert_eq!(shape("<p>a</p></q><b>c</b>"), r#"root(p("a"))"#);
    assert_eq!(shape("</a><b>x</b>"), "root");
    // the first end tag met closes the level, whatever its name
    assert_eq!(shape("<a><b>x</a>y</b>z"), r#"root(a(b("x") "y") "z")"#);
    // an end tag of the same name further on is enough to open a level
    assert_eq!(shape("<a>x<b>y</b>z</a>"), r#"root(a("x" b("y") "z"))"#);
}

#[test]
fn error_messages() {
    assert_eq!(ParseError::UnterminatedTag.message(), "Input ends in the middle of the tag.");
    assert_eq!(
        ParseError::UnterminatedComment.message(),
        "Input ends in the middle of the comment."
    );
    assert_eq!(
        ParseError::MissingClosingDelimiter.message(),
        "There is no delimiter to terminate the attribute."
    );
    assert_eq!(ParseError::OutOfBounds.message(), "The range does not lie in the input.");
    assert_eq!(ParseError::NotHtml.message(), "Input is not html.");
}

#[test]
fn doctype_is_read_as_a_tag() {
    let mut input = Input::new("<!DOCTYPE html><p>");
    let node = parse_doctype(&mut input).unwrap();
    let mut expected = Tag::new("DOCTYPE");
    expected.set_attribute("html", "");
    assert_eq!(node.get_payload(), &Payload::Tag(expected));
    assert_eq!(input.get_cursor(), 15);

    let mut input = Input::new("  <!doctype HTML>");
    assert_eq!(parse_doctype(&mut input).err(), Some(ParseError::NotHtml));
    input.set_cursor(2);
    let node = parse_doctype(&mut input).unwrap();
    let mut expected = Tag::new("doctype");
    expected.set_attribute("HTML", "");
    assert_eq!(node.get_payload(), &Payload::Tag(expected));
    assert!(input.is_end());

    let mut input = Input::new("<!doctype htm>");
    assert_eq!(parse_doctype(&mut input).err(), Some(ParseError::NotHtml));
    let mut input = Input::new("<html>");
    assert_eq!(parse_doctype(&mut input).err(), Some(ParseError::NotHtml));
}

#[test]
fn tag_end_skips_quoted_spans() {
    let mut input = Input::new(r#"<a x=">" y>z>"#);
    input.set_cursor(1);
    assert_eq!(get_tag_end(&mut input), Ok(10));
    assert_eq!(input.get_cursor(), 1);
    // the character at the cursor is not looked at
    let mut input = Input::new(">>");
    assert_eq!(get_tag_end(&mut input), Ok(1));
    let mut input = Input::new(r#"<a x=">"#);
    assert_eq!(get_tag_end(&mut input), Err(ParseError::UnterminatedTag));
    let mut input = Input::new("");
    assert_eq!(get_tag_end(&mut input), Err(ParseError::UnterminatedTag));
}

#[test]
fn attribute_value_rules() {
    // x="ab" c>
    let doc = r#"x="ab" c>"#;
    let mut input = Input::new(doc);
    input.set_cursor(2);
    assert_eq!(parse_tag_attr_value(&mut input, 8, '"'), Ok(String::from("ab")));
    assert_eq!(input.get_cursor(), 5);
    // a bare value ends at the space
    let mut input = Input::new("x=ab c>");
    input.set_cursor(2);
    assert_eq!(parse_tag_attr_value(&mut input, 6, ' '), Ok(String::from("ab")));
    assert_eq!(input.get_cursor(), 4);
    // or at the end of the tag
    let mut input = Input::new("x=ab>");
    input.set_cursor(2);
    assert_eq!(parse_tag_attr_value(&mut input, 4, ' '), Ok(String::from("ab")));
    assert_eq!(input.get_cursor(), 4);
    // the quote comes after the end of the tag
    let mut input = Input::new("x='a>'");
    input.set_cursor(2);
    assert_eq!(
        parse_tag_attr_value(&mut input, 4, '\''),
        Err(ParseError::MissingClosingDelimiter)
    );
    // the quote never comes
    let mut input = Input::new("x='a>");
    input.set_cursor(2);
    assert_eq!(parse_tag_attr_value(&mut input, 4, '\''), Err(ParseError::UnterminatedTag));
    // a bare value asked for beyond what the input holds
    let mut input = Input::new("x=a");
    input.set_cursor(2);
    assert_eq!(parse_tag_attr_value(&mut input, 9, ' '), Err(ParseError::OutOfBounds));
}

#[test]
fn tag_rules_one_by_one() {
    let mut input = Input::new(r#"a=1 b="2" />rest"#);
    let t = parse_tag_attr(&mut input, Tag::new("x")).unwrap();
    assert_eq!(Payload::Tag(t), tag_with("x", &[("a", "1"), ("b", "2")], true));
    assert_eq!(input.get_cursor(), 12);

    let mut input = Input::new("name attr>rest");
    let t = parse_tag_name(&mut input, true).unwrap();
    let mut expected = Tag::new("name");
    expected.set_terminator(true);
    expected.set_attributes(html::dom::Attributes::new());
    expected.set_attribute("attr", "");
    assert!(t == expected);
    assert_eq!(input.get_cursor(), 10);

    let mut input = Input::new("</p>x");
    let node = parse_tag(&mut input).unwrap();
    assert_eq!(node.get_payload(), &end_tag("p"));
    assert_eq!(input.get_cursor(), 4);

    let mut input = Input::new("<!-- c -->x");
    let node = parse_comment(&mut input).unwrap();
    assert_eq!(node.get_payload(), &Payload::Comment(String::from(" c ")));
    assert_eq!(input.get_cursor(), 10);

    let mut input = Input::new("abc<p>");
    let node = parse_text(&mut input).unwrap();
    assert_eq!(node.get_payload(), &text("abc"));
    assert_eq!(input.get_cursor(), 3);
    let mut input = Input::new("abc");
    let node = parse_text(&mut input).unwrap();
    assert_eq!(node.get_payload(), &text("abc"));
    assert_eq!(input.get_cursor(), 3);

    let mut input = Input::new("a<b</script>");
    let node = parse_text_script(&mut input).unwrap();
    assert_eq!(node.get_payload(), &text("a<b"));
    assert_eq!(input.get_cursor(), 3);
    let mut input = Input::new("a<b</scrip>");
    assert_eq!(parse_text_script(&mut input).err(), Some(ParseError::UnterminatedTag));
}

#[test]
fn tree_builder_on_given_nodes() {
    let nodes: Vec<Node> = vec![
        Node::new(tag("a")),
        Node::new(text("x")),
        Node::new(end_tag("a")),
        Node::new(tag("b")),
        Node::new(end_tag("b")),
        Node::new(end_tag("c")),
        Node::new(text("never")),
    ];
    assert_eq!(find_terminator(&nodes, 0, &Tag::new("a")), Some(2));
    assert_eq!(find_terminator(&nodes, 3, &Tag::new("a")), None);
    assert_eq!(find_terminator(&nodes, 0, &Tag::new("c")), Some(5));
    assert_eq!(find_terminator(&nodes, 9, &Tag::new("c")), None);

    let mut root = Node::new(tag("root"));
    let end = create_node_tree(&nodes, 0, &mut root);
    assert_eq!(end, 6);
    let mut out = String::new();
    show(&root, 0, &mut out);
    assert_eq!(out, r#"root(a("x") b)"#);

    let mut root = Node::new(tag("root"));
    assert_eq!(create_node_tree(&nodes, 6, &mut root), 7);
    assert_eq!(root.len(), 2);
    let mut root = Node::new(tag("root"));
    assert_eq!(create_node_tree(&nodes, 7, &mut root), 7);
    assert_eq!(create_node_tree(&nodes, 20, &mut root), 20);
    assert_eq!(root.len(), 1);
}

/// A small generator of pseudo-random numbers, the same on every run.
fn next_random(state: &mut u64) -> u64 {
    *state ^= *state << 13;
    *state ^= *state >> 7;
    *state ^= *state << 17;
    *state
}

fn check_links(tree: &Node) {
    assert!(!tree.has_parent());
    let mut seen = vec![false; tree.len()];
    seen[0] = true;
    for id in 0..tree.len() {
        let data = tree.get(id).unwrap();
        for child in data.get_children() {
            assert!(*child > id && *child < tree.len());
            assert!(!seen[*child]);
            seen[*child] = true;
            assert_eq!(tree.get(*child).unwrap().get_parent(), Some(id));
        }
    }
    assert!(seen.iter().all(|s| *s));
}

#[test]
fn parse_of_arbitrary_input_ends_with_a_tree_or_an_error() {
    let alphabet: Vec<char> = "<>/=\"' \n!-ab".chars().collect();
    let known = [
        ParseError::UnterminatedTag.message(),
        ParseError::UnterminatedComment.message(),
        ParseError::MissingClosingDelimiter.message(),
    ];
    let mut state = 0x2545F4914F6CDD1Du64;
    let mut trees = 0;
    let mut errors = 0;
    for round in 0..4000 {
        let len = (next_random(&mut state) % 24) as usize;
        let mut doc = String::new();
        for _ in 0..len {
            let pick = (next_random(&mut state) >> 11) as usize % alphabet.len();
            doc.push(alphabet[pick]);
        }
        if round % 3 == 0 {
            doc.push_str("</script>");
        }
        match parse(&doc) {
            Ok(tree) => {
                trees += 1;
                check_links(&tree);
                assert!(tree == parse(&doc).unwrap());
                // a '<' that nothing closes cannot be in a document that parses
                if let Some(last) = doc.rfind('<') {
                    assert!(doc[last..].contains('>'), "{:?}", doc);
                }
            }
            Err(message) => {
                errors += 1;
                assert!(known.contains(&message), "{:?}: {}", doc, message);
            }
        }
    }
    assert!(trees > 100 && errors > 100);
}

/// A piece of a generated document: a text, or an element with its start
/// tag as written, its name and its body.
enum Piece {
    Text(String),
    Element(String, String, Vec<Piece>),
}

fn generate(state: &mut u64, depth: usize, first_may_be_text: bool) -> Vec<Piece> {
    let names = ["a", "b", "p", "div", "x-y"];
    let opens = ["<{}>", "<{} >", "<{} k=\"v w\">", "<{} k='1' l=2>", "<{}\n>", "<{} k>"];
    let texts = ["x", "hello world", "1 > 2", "é\tü ", "a\n b"];
    let count = (next_random(state) % 4) as usize;
    let mut pieces = Vec::new();
    let mut text_allowed = first_may_be_text;
    for _ in 0..count {
        let roll = next_random(state) % 3;
        if roll == 0 && text_allowed {
            let text = texts[(next_random(state) >> 9) as usize % texts.len()];
            pieces.push(Piece::Text(String::from(text)));
            text_allowed = false;
        } else {
            let name = names[(next_random(state) >> 9) as usize % names.len()];
            let open = opens[(next_random(state) >> 9) as usize % opens.len()].replace("{}", name);
            let body = if depth == 0 { Vec::new() } else { generate(state, depth - 1, true) };
            pieces.push(Piece::Element(open, String::from(name), body));
            text_allowed = true;
        }
    }
    pieces
}

fn write_down(pieces: &[Piece], doc: &mut String, texts: &mut String, shape: &mut String) {
    for (k, piece) in pieces.iter().enumerate() {
        if k > 0 {
            shape.push(' ');
        }
        match piece {
            Piece::Text(text) => {
                doc.push_str(text);
                texts.push_str(text);
                shape.push_str(&format!("{:?}", text));
            }
            Piece::Element(open, name, body) => {
                doc.push_str(open);
                shape.push_str(name);
                if !body.is_empty() {
                    shape.push('(');
                    write_down(body, doc, texts, shape);
                    shape.push(')');
                }
                doc.push_str(&format!("</{}>", name));
            }
        }
    }
}

fn strip_tags(doc: &str) -> String {
    let mut out = String::new();
    let mut in_tag = false;
    for c in doc.chars() {
        if in_tag {
            in_tag = c != '>';
        } else if c == '<' {
            in_tag = true;
        } else {
            out.push(c);
        }
    }
    out
}

fn text_below(tree: &Node, id: usize, out: &mut String) {
    let data = tree.get(id).unwrap();
    if let Payload::Text(s) = data.get_payload() {
        out.push_str(s);
    }
    for child in data.get_children() {
        text_below(tree, *child, out);
    }
}

#[test]
fn parse_gives_back_documents_of_paired_tags_and_text() {
    let mut state = 0x9E3779B97F4A7C15u64;
    let mut longest = 0;
    for _ in 0..1500 {
        let pieces = generate(&mut state, 3, true);
        let mut doc = String::new();
        let mut texts = String::new();
        let mut expected = String::from("root");
        if !pieces.is_empty() {
            expected.push('(');
        }
        write_down(&pieces, &mut doc, &mut texts, &mut expected);
        if !pieces.is_empty() {
            expected.push(')');
        }
        longest = longest.max(doc.len());

        let tree = parse(&doc).unwrap();
        let mut shape = String::new();
        show(&tree, 0, &mut shape);
        assert_eq!(shape, expected, "{:?}", doc);
        let mut found = String::new();
        text_below(&tree, 0, &mut found);
        assert_eq!(found, texts, "{:?}", doc);
        assert_eq!(found, strip_tags(&doc), "{:?}", doc);
        check_links(&tree);
    }
    assert!(longest > 100);
}

#[test]
fn parse_tells_documents_apart_that_differ_in_one_text() {
    let a = parse("<ul><li>list1</li><li>list2</li></ul>").unwrap();
    let b = parse("<ul><li>list1</li><li>list3</li></ul>").unwrap();
    let c = parse("<ul><li>list1</li><li>list2</li></ul>").unwrap();
    assert!(a != b);
    assert!(a == c);
    assert!(a == a);
}

#[test]
fn parse_of_a_long_and_a_deep_document() {
    // many siblings
    let mut doc = String::from("<ul>");
    for i in 0..3000 {
        doc.push_str(&format!("<li id=\"{}\">item {}</li>", i, i));
    }
    doc.push_str("</ul>");
    let tree = parse(&doc).unwrap();
    assert_eq!(tree.len(), 2 + 2 * 3000);
    assert_eq!(tree.get(1).unwrap().get_children().len(), 3000);
    check_links(&tree);

    // deep nesting
    let depth = 400;
    let mut doc = String::new();
    for i in 0..depth {
        doc.push_str(&format!("<d{}>", i));
    }
    doc.push_str("x");
    for i in (0..depth).rev() {
        doc.push_str(&format!("</d{}>", i));
    }
    let tree = parse(&doc).unwrap();
    assert_eq!(tree.len(), depth + 2);
    let mut id = 0;
    for _ in 0..depth + 1 {
        let children = tree.get(id).unwrap().get_children();
        assert_eq!(children.len(), 1);
        id = children[0];
    }
    assert_eq!(tree.get(id).unwrap().get_payload(), &text("x"));
    check_links(&tree);
}

#[test]
fn attributes_are_the_ones_that_are_written() {
    let mut input = Input::new("attr=\"v\" attr2='v2' attr3=v3 />");
    let t = parse_tag_attr(&mut input, Tag::new("tag")).unwrap();
    assert_eq!(
        Payload::Tag(t.clone()),
        tag_with("tag", &[("attr", "v"), ("attr2", "v2"), ("attr3", "v3")], true)
    );
    assert_eq!(t.get_attributes().unwrap().len(), 3);
    assert!(t.is_self_closing());
    assert!(!t.get_attributes().unwrap().contains_key("/"));
    assert!(input.is_end());

    // spaces between attributes, however many, give no attribute
    assert_eq!(
        payloads(r#"<a x="1"   y='2'  z=3   w  >"#),
        vec![tag_with("a", &[("x", "1"), ("y", "2"), ("z", "3"), ("w", "")], false)]
    );
    assert_eq!(payloads("<a x  y>"), vec![tag_with("a", &[("x", ""), ("y", "")], false)]);
    // a tag in which only spaces follow the name has no attributes
    assert_eq!(payloads("<a   >"), vec![tag("a")]);
    assert_eq!(payloads("<br   />"), vec![tag_with("br", &[], true)]);
    // quoted values next to one another
    assert_eq!(
        payloads(r#"<a x="1"y="2">"#),
        vec![tag_with("a", &[("x", "1"), ("y", "2")], false)]
    );
    // an attribute without a name
    assert_eq!(payloads("<a =v>"), vec![tag_with("a", &[("", "v")], false)]);
}

#[test]
fn attributes_are_read_up_to_the_end_of_the_tag() {
    // the first '>' stands between double quotes, the tag ends at the second
    let mut input = Input::new("a=b\" >\" >rest");
    assert_eq!(get_tag_end(&mut input), Ok(8));
    let t = parse_tag_attr(&mut input, Tag::new("tag")).unwrap();
    assert_eq!(input.get_cursor(), 9);
    assert_eq!(
        Payload::Tag(t),
        tag_with("tag", &[("a", "b\""), (">\"", "")], false)
    );

    // the same from the name on
    let mut input = Input::new("<t a=\">\" b>x");
    let node = parse_tag(&mut input).unwrap();
    assert_eq!(input.get_cursor(), 11);
    assert_eq!(node.get_payload(), &tag_with("t", &[("a", ">"), ("b", "")], false));

    // a '>' between the double quotes of the name region does not end the tag
    let mut input = Input::new("<t\" >\" c>x");
    let node = parse_tag(&mut input).unwrap();
    assert_eq!(input.get_cursor(), 9);
    assert_eq!(node.get_payload(), &tag_with("t\"", &[(">\"", ""), ("c", "")], false));
}
