use html::parser::input::Input;
use html::parser::ParseError;
use html::text::{chars_of, is_whitespace, str_eq, trimmed};

#[test]
fn cursor_moves_and_stops_at_the_end() {
    let mut input = Input::new("ab");
    assert_eq!(input.len(), 2);
    assert_eq!(input.get_cursor(), 0);
    assert!(!input.is_end());
    assert!(input.expect('a'));
    assert!(!input.expect('b'));
    input.next();
    assert!(input.expect('b'));
    input.next_char();
    assert!(input.is_end());
    assert!(!input.expect('b'));
    input.next();
    input.next_char();
    assert_eq!(input.get_cursor(), 2);
    input.set_cursor(7);
    assert!(input.is_end());
    input.next();
    assert_eq!(input.get_cursor(), 7);
    input.set_cursor(1);
    assert!(input.expect('b'));
}

#[test]
fn find_looks_from_the_cursor_on() {
    let mut input = Input::new("a=b=c");
    assert_eq!(input.find('='), Some(1));
    assert_eq!(input.find('a'), Some(0));
    input.set_cursor(1);
    assert_eq!(input.find('='), Some(1));
    input.set_cursor(2);
    assert_eq!(input.find('='), Some(3));
    assert_eq!(input.find('a'), None);
    assert_eq!(input.get_cursor(), 2);
    input.set_cursor(9);
    assert_eq!(input.find('c'), None);
}

#[test]
fn find_str_and_expect_str() {
    let mut input = Input::new("ab<!--x-->y--> <!DOCTYPE");
    assert_eq!(input.find_str("-->"), Some(7));
    assert_eq!(input.find_str("<!--"), Some(2));
    assert!(!input.expect_str("<!--"));
    input.set_cursor(2);
    assert!(input.expect_str("<!--"));
    assert!(input.expect_str(""));
    input.set_cursor(8);
    assert_eq!(input.find_str("-->"), Some(11));
    input.set_cursor(12);
    assert_eq!(input.find_str("-->"), None);
    assert_eq!(input.find_str("y"), None);
    assert_eq!(input.find_str(""), Some(12));
    assert_eq!(input.find_str("<!doctype"), None);
    assert_eq!(input.find_str_insensitive("<!doctype"), Some(15));
    input.set_cursor(15);
    assert!(!input.expect_str("<!doctype"));
    assert!(input.expect_str_insensitive("<!doctype"));
    assert!(input.expect_str_insensitive("<!DocType"));
    assert!(!input.expect_str_insensitive("<!doctypes"));
    input.set_cursor(24);
    assert_eq!(input.find_str(""), Some(24));
    input.set_cursor(25);
    assert_eq!(input.find_str(""), None);
    assert!(!input.expect_str(""));
}

#[test]
fn positions_count_characters() {
    let mut input = Input::new("é<ü>");
    assert_eq!(input.len(), 4);
    assert_eq!(input.find('<'), Some(1));
    assert_eq!(input.get_string(2, 3), Ok(String::from("ü")));
    assert_eq!(input.get_char(0), Ok('é'));
    input.set_cursor(2);
    assert!(input.expect('ü'));
    // only ASCII letters match regardless of case
    assert!(!Input::new("É").expect_str_insensitive("é"));
}

#[test]
fn get_string_checks_its_range() {
    let input = Input::new("hello");
    assert_eq!(input.get_string(1, 3), Ok(String::from("el")));
    assert_eq!(input.get_string(0, 5), Ok(String::from("hello")));
    assert_eq!(input.get_string(2, 2), Ok(String::new()));
    assert_eq!(input.get_string(5, 5), Ok(String::new()));
    assert_eq!(input.get_string(3, 2), Err(ParseError::OutOfBounds));
    assert_eq!(input.get_string(0, 6), Err(ParseError::OutOfBounds));
    assert_eq!(input.get_string(6, 6), Err(ParseError::OutOfBounds));
    assert_eq!(input.get_char(4), Ok('o'));
    assert_eq!(input.get_char(5), Err(ParseError::OutOfBounds));
}

#[test]
fn text_helpers() {
    assert_eq!(chars_of("aé"), vec!['a', 'é']);
    assert_eq!(chars_of(""), Vec::<char>::new());
    assert_eq!(trimmed("  ab c \n"), "ab c");
    assert_eq!(trimmed(" a"), "a");
    assert_eq!(trimmed("  "), "");
    assert_eq!(trimmed("a b"), "a b");
    assert_eq!(trimmed("\t x\u{a0}\u{3000}"), "x");
    assert_eq!(trimmed(""), "");
    assert!(str_eq("abc", "abc"));
    assert!(str_eq("", ""));
    assert!(!str_eq("abc", "abd"));
    assert!(!str_eq("abc", "ab"));
    assert!(!str_eq("ab", "abc"));
}

#[test]
fn whitespace_is_as_char_defines_it() {
    let mut c = 0u32;
    while c < 0x11000 {
        if let Some(ch) = char::from_u32(c) {
            assert_eq!(is_whitespace(ch), ch.is_whitespace(), "{:x}", c);
        }
        c += 1;
    }
}
