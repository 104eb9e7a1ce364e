//! The tokenizer, the tree builder and the entry point that joins them.

pub mod attributes;
pub mod grammar;
pub mod input;
pub mod markup;
pub mod nesting;
pub mod tags;

use crate::dom::payload::{Attributes, Payload, PayloadView, Tag, TagView};
use crate::dom::{leaves, trees_of, Node, Tree};
use crate::parser::grammar::{
    attr_at, attr_value, attrs_from, attrs_of, attrs_within, comment_at, delimiter_at, doctype_at,
    lemma_attr_at, lemma_skip_spaces, lemma_step, lemma_tag_end_from, markup_at, script_at,
    skip_spaces, step, tag_at, tag_end, tag_end_from, text_at, tokens_from,
};
use crate::parser::input::{at, lemma_first_at, Input};
use crate::parser::nesting::{
    holds_no_end_tag, lemma_kept_leaves, lemma_nest_advances, lemma_nest_keeps_order,
    lemma_nest_no_end_tag, lemma_nest_only_tags_have_children, lemma_nest_self_closing,
    lemma_terminator_from, nest, only_tags_have_children, self_closing_are_leaves, terminator_from,
    without_end_tags,
};
use crate::text::{str_eq, trimmed};
use vstd::prelude::*;
use vstd::std_specs::cmp::PartialEqSpec;

verus! {

/// Why a document could not be read.
#[derive(Clone, Copy, Debug, PartialEq, Eq, Structural)]
pub enum ParseError {
    /// The input ends inside a tag, before an unquoted `>`.
    UnterminatedTag,
    /// A `<!--` is never closed by `-->`.
    UnterminatedComment,
    /// A quoted attribute value is not closed before the end of its tag.
    MissingClosingDelimiter,
    /// A range of the source text was asked for that does not lie in it.
    OutOfBounds,
    /// The input does not begin with the document type of HTML.
    NotHtml,
}

/// The message that stands for an error.
pub open spec fn message_text(e: ParseError) -> Seq<char> {
    match e {
        ParseError::UnterminatedTag => "Input ends in the middle of the tag."@,
        ParseError::UnterminatedComment => "Input ends in the middle of the comment."@,
        ParseError::MissingClosingDelimiter => "There is no delimiter to terminate the attribute."@,
        ParseError::OutOfBounds => "The range does not lie in the input."@,
        ParseError::NotHtml => "Input is not html."@,
    }
}

impl ParseError {
    /// A description of the error for a human reader.
    pub fn message(&self) -> (r: String)
        ensures
            r@ == message_text(*self),
    {
        match self {
            ParseError::UnterminatedTag => "Input ends in the middle of the tag.".to_owned(),
            ParseError::UnterminatedComment => {
                "Input ends in the middle of the comment.".to_owned()
            },
            ParseError::MissingClosingDelimiter => {
                "There is no delimiter to terminate the attribute.".to_owned()
            },
            ParseError::OutOfBounds => "The range does not lie in the input.".to_owned(),
            ParseError::NotHtml => "Input is not html.".to_owned(),
        }
    }
}

/// Reads the value of an attribute.
///
/// The cursor stands after the `=`: on the opening quote of a quoted value,
/// or on the first character of a bare one, for which `delimiter` is a
/// space. On success it stands on the character that ends the value.
pub fn parse_tag_attr_value(input: &mut Input, tag_end: usize, delimiter: char) -> (r: Result<
    String,
    ParseError,
>)
    ensures
        final(input).text() == old(input).text(),
        match attr_value(old(input).text(), old(input).pos() as int, tag_end as int, delimiter) {
            Ok((value, cur)) => r matches Ok(text) && text@ == value && final(input).pos() == cur,
            Err(e) => r matches Err(x) && x == e,
        },
{
    if delimiter != ' ' {
        // move cursor to after '"' or '\''
        input.next();
    }
    let value_bgn = input.get_cursor();
    let value_end = match input.find(delimiter) {
        Some(cursor) => {
            if cursor < tag_end {
                // value"
                //      ^
                cursor
            } else if delimiter == ' ' {
                // value>
                //      ^
                tag_end
            } else {
                return Err(ParseError::MissingClosingDelimiter);
            }
        },
        None => {
            if delimiter == ' ' {
                tag_end
            } else {
                return Err(ParseError::UnterminatedTag);
            }
        },
    };
    if value_bgn == value_end {
        return Ok(String::new());
    }
    input.set_cursor(value_end);
    input.get_string(value_bgn, value_end)
}

/// Finds the position of the `>` that ends the tag at the cursor, and
/// leaves the cursor where it was.
///
/// ```text
/// <tag attr="value" >
///                   ^
/// ```
pub fn get_tag_end(input: &mut Input) -> (r: Result<usize, ParseError>)
    ensures
        final(input).text() == old(input).text(),
        final(input).pos() == old(input).pos() as int,
        match r {
            Ok(end) => end < old(input).text().len() && end == tag_end(
                old(input).text(),
                old(input).pos() as int,
            ),
            Err(e) => e == ParseError::UnterminatedTag && tag_end(
                old(input).text(),
                old(input).pos() as int,
            ) >= old(input).text().len(),
        },
{
    let save_cursor_pos = input.get_cursor();
    let mut res: Option<usize> = None;
    let mut in_double_quote = false;
    while !input.is_end()
        invariant_except_break
            res is None,
            tag_end(old(input).text(), old(input).pos() as int) == tag_end_from(
                input.text(),
                input.pos() as int + 1,
                in_double_quote,
            ),
        invariant
            input.text() == old(input).text(),
            save_cursor_pos == old(input).pos(),
        ensures
            match res {
                Some(end) => end < input.text().len() && end == tag_end(
                    old(input).text(),
                    old(input).pos() as int,
                ),
                None => tag_end(old(input).text(), old(input).pos() as int) >= input.text().len(),
            },
        decreases input.text().len() - input.pos(),
    {
        input.next_char();
        if input.expect('"') {
            in_double_quote = !in_double_quote;
        }
        if !in_double_quote && input.expect('>') {
            // the '>' is not inside double quotes
            res = Some(input.get_cursor());
            break ;
        }
    }
    input.set_cursor(save_cursor_pos);
    match res {
        Some(end) => Ok(end),
        None => Err(ParseError::UnterminatedTag),
    }
}

/// Reads the attributes of a tag, up to and including its `>`, and returns
/// the tag with them. A bare `/` among them marks the tag as self-closing.
///
/// The cursor stands on the first character of the first attribute; the
/// end of the tag is looked for from there:
///
/// ```text
/// <attr>[ = "<value>"] [/]>
/// <attr>[ = '<value>'] [/]>
/// <attr>[ = <value>] [/]>
/// ```
pub fn parse_tag_attr(input: &mut Input, tag: Tag) -> (r: Result<Tag, ParseError>)
    ensures
        final(input).text() == old(input).text(),
        match attrs_of(old(input).text(), old(input).pos() as int, tag@) {
            Ok((found, cur)) => r matches Ok(t) && t@ == found && final(input).pos() == cur,
            Err(e) => r matches Err(x) && x == e,
        },
{
    let ghost s = input.text();
    let ghost origin = input.pos() as int;
    // get the end position of the tag
    let tag_end = match get_tag_end(input) {
        Ok(end) => end,
        Err(e) => {
            return Err(e);
        },
    };
    proof {
        lemma_tag_end_from(s, origin + 1, false);
    }
    parse_attrs_up_to(input, tag, tag_end)
}

/// Reads the attributes of a tag from the cursor up to the `>` of the tag
/// at `tag_end`, and leaves the cursor after that `>`.
fn parse_attrs_up_to(input: &mut Input, tag: Tag, tag_end: usize) -> (r: Result<Tag, ParseError>)
    requires
        old(input).pos() <= tag_end < old(input).text().len(),
        old(input).text()[tag_end as int] == '>',
    ensures
        final(input).text() == old(input).text(),
        match attrs_within(old(input).text(), old(input).pos() as int, tag_end as int, tag@) {
            Ok((found, cur)) => r matches Ok(t) && t@ == found && final(input).pos() == cur,
            Err(e) => r matches Err(x) && x == e,
        },
{
    let ghost s = input.text();
    let ghost origin = input.pos() as int;
    let mut attrs = Attributes::new();
    // get the attributes and their values; the closing '/' counts as one
    loop
        invariant_except_break
            0 <= input.pos() <= tag_end,
            attrs_from(s, origin, tag_end as int, Map::empty()) == attrs_from(
                s,
                input.pos() as int,
                tag_end as int,
                attrs@,
            ),
        invariant
            input.text() == s,
            s == old(input).text(),
            origin == old(input).pos(),
            0 <= origin <= tag_end < s.len(),
            s[tag_end as int] == '>',
        ensures
            match attrs_from(s, origin, tag_end as int, Map::empty()) {
                Ok((found, cur)) => attrs@ == found && input.pos() == cur,
                Err(e) => false,
            },
        decreases tag_end - input.pos(),
    {
        let ghost before = input.pos() as int;
        proof {
            lemma_skip_spaces(s, before);
        }
        // pass over the spaces before the attribute
        while input.expect(' ')
            invariant
                input.text() == s,
                before <= input.pos() <= s.len(),
                skip_spaces(s, before) == skip_spaces(s, input.pos() as int),
            decreases s.len() - input.pos(),
        {
            input.next_char();
        }
        if input.get_cursor() >= tag_end {
            // the end of tag
            input.next();
            break ;
        }
        let ghost p = input.pos() as int;
        proof {
            lemma_attr_at(s, p, tag_end as int);
            lemma_first_at(s, '=', p);
            lemma_first_at(s, ' ', p);
        }
        // get attribute name
        let attr_name_bgn = input.get_cursor();
        let mut attr_name_end = tag_end;
        // attr="value"
        //     ^
        if let Some(cursor) = input.find('=') {
            if cursor < tag_end {
                attr_name_end = cursor;
            }
        }
        // attr = "value"
        //     ^
        if let Some(cursor) = input.find(' ') {
            if cursor < attr_name_end {
                attr_name_end = cursor;
            }
        }
        assert(attr_name_end == grammar::attr_name_end(s, p, tag_end as int));
        input.set_cursor(attr_name_end);
        let attr_name = match input.get_string(attr_name_bgn, attr_name_end) {
            Ok(name) => name,
            Err(e) => {
                return Err(e);
            },
        };
        // look for the '=' that may follow the name after spaces
        while input.expect(' ')
            invariant
                input.text() == s,
                attr_name_end <= input.pos() <= s.len(),
                skip_spaces(s, attr_name_end as int) == skip_spaces(s, input.pos() as int),
            decreases s.len() - input.pos(),
        {
            input.next_char();
        }
        let mut attr_value = String::new();
        if input.get_cursor() < tag_end && input.expect('=') {
            // move cursor to after '='
            input.next_char();
            let delimiter = if input.expect('"') {
                '"'
            } else if input.expect('\'') {
                '\''
            } else {
                ' '
            };
            assert(delimiter == delimiter_at(s, input.pos() as int));
            attr_value = match parse_tag_attr_value(input, tag_end, delimiter) {
                Ok(value) => value,
                Err(e) => {
                    return Err(e);
                },
            };
            if delimiter != ' ' {
                // move cursor to after the closing '"' or '\''
                input.next_char();
            }
        } else {
            input.set_cursor(attr_name_end);
        }
        assert(attr_at(s, p, tag_end as int) == Ok::<(Seq<char>, Seq<char>, int), ParseError>(
            (attr_name@, attr_value@, input.pos() as int),
        ));
        attrs.insert(attr_name, attr_value);
    }
    let mut tag = tag;
    // the attribute '/' is the mark of a self-closing tag
    let ghost found = attrs@;
    if attrs.remove("/").is_some() {
        tag.set_self_closing(true);
    } else {
        assert(found.remove("/"@) =~= found);
    }
    tag.set_attributes(attrs);
    Ok(tag)
}

/// Reads the name of a tag, trimmed, and whatever follows it up to and
/// including the `>` of the tag.
///
/// The cursor stands on the first character of the name:
///
/// ```text
/// <tag_name> [<attr>[="<value>"]] [/]>
/// ```
pub fn parse_tag_name(input: &mut Input, terminator: bool) -> (r: Result<Tag, ParseError>)
    ensures
        final(input).text() == old(input).text(),
        match tag_at(old(input).text(), old(input).pos() as int, terminator) {
            Ok((found, cur)) => r matches Ok(t) && t@ == found && final(input).pos() == cur,
            Err(e) => r matches Err(x) && x == e,
        },
{
    let ghost s = input.text();
    let ghost p = input.pos() as int;
    // get the start position of the tag name
    let name_bgn = input.get_cursor();
    // get the end position of the tag
    let tag_end = match get_tag_end(input) {
        Ok(end) => end,
        Err(e) => {
            return Err(e);
        },
    };
    proof {
        lemma_tag_end_from(s, p + 1, false);
        lemma_first_at(s, ' ', p);
    }
    let mut name_end = tag_end;
    // li attr="value"
    //   ^
    if let Some(cursor) = input.find(' ') {
        if cursor < tag_end {
            name_end = cursor;
        }
    }
    input.set_cursor(name_end);
    let tag_name = match input.get_string(name_bgn, name_end) {
        Ok(name) => name,
        Err(e) => {
            return Err(e);
        },
    };
    let tag_name = trimmed(tag_name.as_str());
    let mut tag = Tag::new(tag_name.as_str());
    tag.set_terminator(terminator);
    proof {
        lemma_skip_spaces(s, name_end as int);
    }
    // <tag   attr="value">
    //     ^^^
    while input.expect(' ')
        invariant
            input.text() == s,
            name_end <= input.pos() <= s.len(),
            skip_spaces(s, name_end as int) == skip_spaces(s, input.pos() as int),
        decreases s.len() - input.pos(),
    {
        input.next_char();
    }
    if input.get_cursor() >= tag_end {
        // <tag>  or  <tag >
        //     ^           ^
        input.next();
        return Ok(tag);
    }
    // <tag attr="value">
    //      ^
    parse_attrs_up_to(input, tag, tag_end)
}

/// Reads a start tag or an end tag. The cursor stands on its `<`.
pub fn parse_tag(input: &mut Input) -> (r: Result<Node, ParseError>)
    ensures
        final(input).text() == old(input).text(),
        match markup_at(old(input).text(), old(input).pos() as int) {
            Ok((found, cur)) => r matches Ok(node) && node.wf() && node@ == Tree::leaf(
                PayloadView::Tag(found),
            ) && final(input).pos() == cur,
            Err(e) => r matches Err(x) && x == e,
        },
{
    // move cursor to after '<'
    input.next();
    let mut terminator = false;
    if input.expect('/') {
        // move cursor to after '/'
        input.next();
        terminator = true;
    }
    match parse_tag_name(input, terminator) {
        Ok(tag) => Ok(Node::new(Payload::Tag(tag))),
        Err(e) => Err(e),
    }
}

/// Reads a comment. The cursor stands on the `<` of its `<!--`.
pub fn parse_comment(input: &mut Input) -> (r: Result<Node, ParseError>)
    ensures
        final(input).text() == old(input).text(),
        match comment_at(old(input).text(), old(input).pos() as int) {
            Ok((found, cur)) => r matches Ok(node) && node.wf() && node@ == Tree::leaf(
                PayloadView::Comment(found),
            ) && final(input).pos() == cur,
            Err(e) => r matches Err(x) && x == e,
        },
{
    let ghost s = input.text();
    let ghost p = input.pos() as int;
    proof {
        reveal_strlit("-->");
        crate::parser::input::lemma_first_match(s, "-->"@, p + 4, false);
    }
    if input.len() < 4 || input.get_cursor() > input.len() - 4 {
        return Err(ParseError::UnterminatedComment);
    }
    // get the position after '<!--'
    let bgn = input.get_cursor() + 4;
    input.set_cursor(bgn);
    let end = match input.find_str("-->") {
        Some(cursor) => {
            // move cursor to after "-->"
            input.set_cursor(cursor + 3);
            cursor
        },
        None => {
            return Err(ParseError::UnterminatedComment);
        },
    };
    match input.get_string(bgn, end) {
        Ok(text) => Ok(Node::new(Payload::Comment(text))),
        Err(e) => Err(e),
    }
}

/// Reads text up to the next tag, or up to the end of the input.
pub fn parse_text(input: &mut Input) -> (r: Result<Node, ParseError>)
    ensures
        final(input).text() == old(input).text(),
        match text_at(old(input).text(), old(input).pos() as int) {
            Ok((found, cur)) => r matches Ok(node) && node.wf() && node@ == Tree::leaf(
                PayloadView::Text(found),
            ) && final(input).pos() == cur,
            Err(e) => r matches Err(x) && x == e,
        },
{
    let bgn = input.get_cursor();
    // the beginning of the next tag is the end of the text
    let end = match input.find('<') {
        Some(cursor) => cursor,
        None => input.len(),
    };
    input.set_cursor(end);
    match input.get_string(bgn, end) {
        Ok(text) => Ok(Node::new(Payload::Text(text))),
        Err(e) => Err(e),
    }
}

/// Reads the body of a script as text, up to its `</script`.
pub fn parse_text_script(input: &mut Input) -> (r: Result<Node, ParseError>)
    ensures
        final(input).text() == old(input).text(),
        match script_at(old(input).text(), old(input).pos() as int) {
            Ok((found, cur)) => r matches Ok(node) && node.wf() && node@ == Tree::leaf(
                PayloadView::Text(found),
            ) && final(input).pos() == cur,
            Err(e) => r matches Err(x) && x == e,
        },
{
    let bgn = input.get_cursor();
    let end = match input.find_str("</script") {
        Some(cursor) => {
            // </script
            // ^
            input.set_cursor(cursor);
            cursor
        },
        None => {
            return Err(ParseError::UnterminatedTag);
        },
    };
    match input.get_string(bgn, end) {
        Ok(text) => Ok(Node::new(Payload::Text(text))),
        Err(e) => Err(e),
    }
}

/// Reads `<!doctype html>`, in small or capital letters, as a tag named
/// `doctype` with the attribute `html`, both as the input writes them.
/// The cursor stands on its `<`.
pub fn parse_doctype(input: &mut Input) -> (r: Result<Node, ParseError>)
    ensures
        final(input).text() == old(input).text(),
        match doctype_at(old(input).text(), old(input).pos() as int) {
            Ok((found, cur)) => r matches Ok(node) && node.wf() && node@ == Tree::leaf(
                PayloadView::Tag(found),
            ) && final(input).pos() == cur,
            Err(e) => r matches Err(x) && x == e,
        },
{
    proof {
        reveal_strlit("<!doctype html>");
    }
    if input.len() < 15 || !input.expect_str_insensitive("<!doctype html>") {
        return Err(ParseError::NotHtml);
    }
    // the tag name is "doctype"
    input.next();  // move cursor to '!'
    input.next();  // move cursor to 'd'
    let bgn = input.get_cursor();
    let end = bgn + 7;
    input.set_cursor(end);  // move cursor to the ' ' before "html"
    let name = match input.get_string(bgn, end) {
        Ok(name) => name,
        Err(e) => {
            return Err(e);
        },
    };
    let mut tag = Tag::new(name.as_str());
    input.next();  // move cursor to 'h'
    // the attribute is "html", its value is ""
    let mut attr = Attributes::new();
    let bgn = input.get_cursor();
    let end = bgn + 4;
    input.set_cursor(end);  // move cursor to '>'
    let html = match input.get_string(bgn, end) {
        Ok(html) => html,
        Err(e) => {
            return Err(e);
        },
    };
    attr.insert(html, String::new());
    tag.set_attributes(attr);
    let node = Node::new(Payload::Tag(tag));
    input.next();  // move cursor to after '>'
    Ok(node)
}

/// Reads the document from the cursor up to its end, and returns its nodes
/// in document order, not yet nested.
pub fn create_node_vec(input: &mut Input) -> (r: Result<Vec<Node>, ParseError>)
    ensures
        final(input).text() == old(input).text(),
        match tokens_from(old(input).text(), old(input).pos() as int) {
            Ok(found) => r matches Ok(nodes) && trees_of(nodes@) == leaves(found)
                && final(input).pos() == if old(input).pos() <= old(input).text().len() {
                old(input).text().len()
            } else {
                old(input).pos()
            },
            Err(e) => r matches Err(x) && x == e,
        },
{
    let ghost s = input.text();
    let ghost origin = input.pos() as int;
    let mut node_vec: Vec<Node> = Vec::new();
    let ghost done: Seq<PayloadView> = Seq::empty();
    proof {
        assert(trees_of(node_vec@) =~= leaves(done));
        match tokens_from(s, origin) {
            Ok(rest) => {
                assert(done + rest =~= rest);
            },
            Err(_) => {},
        }
    }
    while !input.is_end()
        invariant
            input.text() == s,
            s == old(input).text(),
            origin == old(input).pos(),
            origin <= s.len() ==> input.pos() <= s.len(),
            origin > s.len() ==> input.pos() == origin,
            trees_of(node_vec@) == leaves(done),
            tokens_from(s, origin) == (match tokens_from(s, input.pos() as int) {
                Ok(rest) => Ok::<Seq<PayloadView>, ParseError>(done + rest),
                Err(e) => Err(e),
            }),
        decreases s.len() - input.pos(),
    {
        let ghost p = input.pos() as int;
        let ghost before = node_vec@;
        proof {
            lemma_step(s, p);
        }
        if input.expect_str("<!--") {
            // comment
            match parse_comment(input) {
                Ok(node) => node_vec.push(node),
                Err(e) => {
                    return Err(e);
                },
            }
        } else if input.expect('<') {
            // tag
            match parse_tag(input) {
                Ok(node) => {
                    let mut is_bgn_script = false;
                    if let Payload::Tag(tag) = node.root().get_payload() {
                        if str_eq(tag.get_name(), "script") && !tag.is_terminator() {
                            is_bgn_script = true;
                        }
                    }
                    node_vec.push(node);
                    // the body of a script is taken as text
                    if is_bgn_script && !input.expect('<') {
                        match parse_text_script(input) {
                            Ok(node) => node_vec.push(node),
                            Err(e) => {
                                return Err(e);
                            },
                        }
                    }
                },
                Err(e) => {
                    return Err(e);
                },
            }
        } else {
            if input.expect(' ') || input.expect('\n') {
                // skip ' ' and '\n'
                input.next_char();
            }
            if !input.expect('<') {
                // text
                match parse_text(input) {
                    Ok(node) => node_vec.push(node),
                    Err(e) => {
                        return Err(e);
                    },
                }
            }
        }
        proof {
            let (found, cur) = step(s, p)->Ok_0;
            assert(input.pos() == cur);
            assert(trees_of(node_vec@) =~= leaves(done + found)) by {
                assert(trees_of(before).len() == leaves(done).len());
                assert(node_vec@.len() == before.len() + found.len());
                assert forall|i: int| 0 <= i < node_vec@.len() implies trees_of(node_vec@)[i]
                    == leaves(done + found)[i] by {
                    if i < before.len() {
                        assert(node_vec@[i] == before[i]);
                        assert(trees_of(before)[i] == leaves(done)[i]);
                    } else {
                        assert((done + found)[i] == found[i - before.len()]);
                    }
                }
            }
            match tokens_from(s, cur) {
                Ok(rest) => {
                    assert(done + (found + rest) =~= (done + found) + rest);
                },
                Err(_) => {},
            }
            done = done + found;
        }
    }
    proof {
        match tokens_from(s, input.pos() as int) {
            Ok(rest) => {
                assert(done + rest =~= done);
            },
            Err(_) => {},
        }
    }
    Ok(node_vec)
}

/// Finds the first end tag named as `starter` at or after `from`.
pub fn find_terminator(node_vec: &Vec<Node>, from: usize, starter: &Tag) -> (r: Option<usize>)
    ensures
        match r {
            Some(i) => i < node_vec@.len() && i == terminator_from(
                trees_of(node_vec@),
                starter@.name,
                from as int,
            ),
            None => terminator_from(trees_of(node_vec@), starter@.name, from as int)
                >= node_vec@.len(),
        },
{
    let mut i: usize = from;
    while i < node_vec.len()
        invariant
            from <= i,
            terminator_from(trees_of(node_vec@), starter@.name, from as int) == terminator_from(
                trees_of(node_vec@),
                starter@.name,
                i as int,
            ),
        decreases node_vec@.len() - i,
    {
        let node = &node_vec[i];
        proof {
            assert(trees_of(node_vec@)[i as int] == node@);
        }
        if let Payload::Tag(tag) = node.root().get_payload() {
            if tag.is_terminator() && str_eq(starter.get_name(), tag.get_name()) {
                return Some(i);
            }
        }
        i += 1;
    }
    None
}

/// Nests the nodes from position `pos` on below `parent`, up to the end of
/// `node_vec` or up to the first end tag met at this level, and returns the
/// position after the last node that it consumed.
pub fn create_node_tree(node_vec: &Vec<Node>, pos: usize, parent: &mut Node) -> (r: usize)
    requires
        old(parent).wf(),
    ensures
        final(parent).wf(),
        final(parent)@ == old(parent)@.with_children(nest(trees_of(node_vec@), pos as int).0),
        r == nest(trees_of(node_vec@), pos as int).1,
        pos <= r,
    decreases node_vec@.len() - pos,
{
    let ghost nodes = trees_of(node_vec@);
    let ghost done: Seq<Tree> = Seq::empty();
    let mut cur: usize = pos;
    proof {
        assert(parent@.with_children(done) == parent@) by {
            assert(parent@.children + done =~= parent@.children);
        }
        assert(done + nest(nodes, pos as int).0 =~= nest(nodes, pos as int).0);
        lemma_nest_advances(nodes, pos as int);
    }
    while cur < node_vec.len()
        invariant
            nodes == trees_of(node_vec@),
            pos <= cur,
            parent.wf(),
            parent@ == old(parent)@.with_children(done),
            nest(nodes, pos as int).0 == done + nest(nodes, cur as int).0,
            nest(nodes, pos as int).1 == nest(nodes, cur as int).1,
        decreases node_vec@.len() - cur,
    {
        let ghost at_cur = cur as int;
        let token = &node_vec[cur];
        proof {
            assert(nodes[at_cur] == token@);
            lemma_nest_advances(nodes, at_cur);
            lemma_nest_advances(nodes, at_cur + 1);
        }
        cur += 1;
        let mut nests = false;
        if let Payload::Tag(tag) = token.root().get_payload() {
            if tag.is_terminator() {
                // </tag>
                proof {
                    assert(done + Seq::<Tree>::empty() =~= done);
                }
                return cur;
            }
            if !tag.is_self_closing() {
                // not <tag />
                proof {
                    lemma_terminator_from(nodes, tag@.name, at_cur + 1);
                }
                if let Some(terminator_idx) = find_terminator(node_vec, cur, tag) {
                    if terminator_idx == cur {
                        // <tag></tag>: no children, the end tag goes
                        cur += 1;
                    } else {
                        nests = true;
                    }
                }
            }
        }
        let mut node = token.get_copy_of_internal_arc();
        if nests {
            // the children come first
            cur = create_node_tree(node_vec, cur, &mut node);
        }
        proof {
            let after = cur as int;
            lemma_nest_advances(nodes, after);
            assert(nest(nodes, at_cur).0 == seq![node@] + nest(nodes, after).0);
            assert(done + (seq![node@] + nest(nodes, after).0) =~= done.push(node@) + nest(
                nodes,
                after,
            ).0);
            assert(old(parent)@.with_children(done).with_child(node@) == old(
                parent,
            )@.with_children(done.push(node@))) by {
                assert((old(parent)@.children + done).push(node@) =~= old(parent)@.children
                    + done.push(node@));
            }
            done = done.push(node@);
        }
        parent.adopt(node);
    }
    proof {
        lemma_nest_advances(nodes, cur as int);
        assert(done + nest(nodes, cur as int).0 =~= done);
    }
    cur
}

/// The tag of the node under which the nodes of a document are nested.
pub open spec fn root_tag() -> PayloadView {
    PayloadView::Tag(
        TagView { name: "root"@, attributes: None, self_closing: false, terminator: false },
    )
}

/// The tree of a document: its nodes, nested below a tag named `root`.
pub open spec fn document_tree(s: Seq<char>) -> Result<Tree, ParseError> {
    match grammar::tokens(s) {
        Ok(found) => Ok(Tree { payload: root_tag(), children: nest(leaves(found), 0).0 }),
        Err(e) => Err(e),
    }
}

/// Parses a document and returns the root of its tree: a tag named `root`
/// whose children are the top-level nodes of the document. Where scanning
/// fails, the message of the error is returned, and no tree.
pub fn parse(doc: &str) -> (r: Result<Node, String>)
    ensures
        match document_tree(doc@) {
            Ok(tree) => r matches Ok(root) && root.wf() && root@ == tree,
            Err(e) => r matches Err(message) && message@ == message_text(e),
        },
{
    let mut input = Input::new(doc);
    let node_vec = match create_node_vec(&mut input) {
        Ok(node_vec) => node_vec,
        Err(e) => {
            return Err(e.message());
        },
    };
    let tag = Tag::new("root");
    let payload = Payload::Tag(tag);
    let mut root = Node::new(payload);
    create_node_tree(&node_vec, 0, &mut root);
    proof {
        let tree = document_tree(doc@)->Ok_0;
        assert(root@.children =~= tree.children);
    }
    Ok(root)
}

/// A document is refused only for a tag, a comment or an attribute value
/// that is not closed.
pub proof fn lemma_document_errors(s: Seq<char>)
    ensures
        document_tree(s) matches Err(e) ==> grammar::is_syntax_error(e),
{
    grammar::lemma_tokens_from_errors(s, 0);
}

/// An input in which some `<` is followed by no `>` is refused: there is
/// no tree of a part of it.
pub proof fn lemma_unterminated_input(s: Seq<char>)
    requires
        grammar::is_left_open(s, 0),
    ensures
        document_tree(s) is Err,
{
    grammar::lemma_tokens_from_left_open(s, 0);
}

/// The root of the tree of a document is a tag named `root`, whatever the
/// document holds.
pub proof fn lemma_document_root(s: Seq<char>)
    ensures
        document_tree(s) matches Ok(tree) ==> tree.payload == root_tag(),
{
}

/// In the tree of a document no self-closing tag has children, whatever
/// stands around the tag. A tag is self-closing where a bare `/` stands
/// among its attributes, as in `<br />`; a `/` written to the name, as in
/// `<br/>`, belongs to the name.
pub proof fn lemma_self_closing_tags_have_no_children(s: Seq<char>)
    ensures
        document_tree(s) matches Ok(tree) ==> self_closing_are_leaves(tree),
{
    if let Ok(found) = grammar::tokens(s) {
        let nodes = leaves(found);
        assert forall|i: int| 0 <= i < nodes.len() implies self_closing_are_leaves(
            #[trigger] nodes[i],
        ) by {}
        lemma_nest_self_closing(nodes, 0);
    }
}

/// No end tag is a node of the tree of a document.
pub proof fn lemma_no_end_tag_in_tree(s: Seq<char>)
    ensures
        document_tree(s) matches Ok(tree) ==> holds_no_end_tag(tree),
{
    if let Ok(found) = grammar::tokens(s) {
        lemma_nest_no_end_tag(leaves(found), 0);
    }
}

/// In the tree of a document only tags have children: every text and every
/// comment is a leaf.
pub proof fn lemma_texts_and_comments_are_leaves(s: Seq<char>)
    ensures
        document_tree(s) matches Ok(tree) ==> only_tags_have_children(tree),
{
    if let Ok(found) = grammar::tokens(s) {
        let nodes = leaves(found);
        assert forall|i: int| 0 <= i < nodes.len() implies only_tags_have_children(
            #[trigger] nodes[i],
        ) by {}
        lemma_nest_only_tags_have_children(nodes, 0);
    }
}

/// The tree of a document keeps the order of the document: below the root
/// its payloads are, in document order, the payloads that were read up to
/// where nesting ended, without the end tags.
pub proof fn lemma_tree_keeps_order(s: Seq<char>)
    ensures
        match grammar::tokens(s) {
            Ok(found) => document_tree(s) matches Ok(tree) && Tree::payloads_all(tree.children)
                == without_end_tags(found, 0, nest(leaves(found), 0).1),
            Err(e) => document_tree(s) is Err,
        },
{
    if let Ok(found) = grammar::tokens(s) {
        let nodes = leaves(found);
        lemma_nest_advances(nodes, 0);
        lemma_nest_keeps_order(nodes, 0);
        lemma_kept_leaves(found, 0, nest(nodes, 0).1);
    }
}

/// Two trees parsed from the same document compare equal.
pub proof fn lemma_same_document_same_tree(s: Seq<char>, a: Node, b: Node)
    requires
        document_tree(s) == Ok::<Tree, ParseError>(a@),
        document_tree(s) == Ok::<Tree, ParseError>(b@),
    ensures
        PartialEqSpec::eq_spec(&a, &b),
{
}

} // verus!
