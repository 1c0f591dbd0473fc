use srclex::combinators::{
    block_comments, exact, exact_optional, line_comment, line_comment_optional, line_ending_optional,
    match_prefix, match_prefix_optional, rest_of_line, symbol, symbol_optional, white_line_comments,
    white_line_comments_optional, white_lines, white_lines_optional, whitespace_optional,
};
use srclex::{LexError, Token};

#[test]
fn free_whitespace_and_line_endings() {
    let (white, after) = whitespace_optional(Token::from(" \tx"));
    assert_eq!(white, Some(Token::from(" \t")));
    assert_eq!(after, Token::new("x", 0, 2));
    let (ending, after) = line_ending_optional(Token::from("\r\nx"));
    assert_eq!(ending, Some(Token::from("\r\n")));
    assert_eq!(after, Token::new("x", 1, 0));
    let (ending, after) = line_ending_optional(Token::from("\n\r"));
    assert_eq!((ending.map(|e| e.value()), after.value()), (Some("\n"), "\r"));
    let (white, after) = white_lines_optional(Token::from(" \r\n\t\n x"));
    assert_eq!(white.map(|w| w.value()), Some(" \r\n\t\n "));
    assert_eq!(after, Token::new("x", 2, 1));
    assert!(white_lines(Token::from("x")).is_err());
}

#[test]
fn free_symbols_and_exact_values() {
    let (sym, after) = symbol_optional(Token::from("a_1+b"));
    assert_eq!((sym.map(|s| s.value()), after.value()), (Some("a_1"), "+b"));
    let error: LexError<()> = symbol(Token::from("+b")).unwrap_err();
    assert_eq!(error.token(), Token::from("+b"));
    assert_eq!(exact(Token::from("abc"), "ab").unwrap().0, Token::from("ab"));
    assert!(exact(Token::from("abc"), "b").is_err());
    assert_eq!(exact_optional(Token::from("\r\n"), "\r"), (None, Token::from("\r\n")));
    assert!(exact(Token::from("\r\n"), "\r").is_err());
    let (digits, rest) = match_prefix(Token::from("123x"), |c| c.is_ascii_digit()).unwrap();
    assert_eq!((digits.value(), rest.value()), ("123", "x"));
}

#[test]
fn free_line_comments() {
    let (comment, after) = line_comment_optional(Token::from("--note\r\nx"), "--");
    assert_eq!(comment, Some(Token::new("note", 0, 2)));
    assert_eq!(after, Token::new("x", 1, 0));
    let (line, ending, rest) = rest_of_line(Token::from("ab\ncd"));
    assert_eq!((line.value(), ending.map(|e| e.value()), rest.value()), ("ab", Some("\n"), "cd"));
    assert!(line_comment(Token::from("-x"), "--").is_err());
    let (layout, after) = white_line_comments_optional(Token::from(" --a\n\n --b\nx"), "--");
    assert_eq!(layout.map(|l| l.value()), Some(" --a\n\n --b\n"));
    assert_eq!(after, Token::new("x", 3, 0));
    assert!(white_line_comments(Token::from("x"), "--").is_err());
}

#[test]
fn white_line_comments_optional_twice_finds_nothing() {
    for text in ["", "x", " // a\n\t\n//b", "  \r\n// c\r\ny // d", "//"] {
        let (_first, after) = white_line_comments_optional(Token::from(text), "//");
        let (second, again) = white_line_comments_optional(after, "//");
        assert!(second.is_none());
        assert_eq!(again, after);
    }
}

#[test]
fn block_comments_trims_and_stops_at_the_first_mismatch() {
    let text: String = [
        "ignored",
        "        /ignored",
        "\t    //four",
        "    \t//three",
        "        //two",
        "\t\t//one",
        "    \t",
    ]
    .join("\n");
    let comments: Vec<&str> = block_comments(Token::from(text.as_str()), "//");
    assert_eq!(comments, vec!["one", "two", "three", "four"]);
    let comments: Vec<&str> = block_comments(Token::from("\t//  spaced  \n\t"), "//");
    assert_eq!(comments, vec!["spaced"]);
    assert!(block_comments(Token::from("//a"), "//").is_empty());
}

#[test]
fn block_comments_strips_a_crlf_whole() {
    let comments: Vec<&str> = block_comments(Token::from("//b\r\n//a\r\n"), "//");
    assert_eq!(comments, vec!["a", "b"]);
    let comments: Vec<&str> = block_comments(Token::from("//c\r//b\n//a\r\n"), "//");
    assert_eq!(comments, vec!["a", "b", "c"]);
}

#[test]
fn block_comments_trims_unicode_white_space() {
    let comments: Vec<&str> = block_comments(Token::from("\u{3000}// x\u{a0}\n"), "//");
    assert_eq!(comments, vec!["x"]);
}

#[test]
fn prefix_filters_may_accept_non_ascii_bytes() {
    let (prefix, rest) = match_prefix_optional(Token::from("你好x"), |c| c > 127);
    assert_eq!(prefix, Some(Token::from("你好")));
    assert_eq!(rest, Token::new("x", 0, 6));
}
