use srclex::{CommentConfig, Config, Context, ParseContext, Token};

#[test]
fn line_ending() {
    let test_cases: &[(&str, &str)] = &[
        ("", ""),
        ("\r", "\r"),
        ("\n", "\n"),
        ("\r\n", "\r\n"),
        ("\rtext", "\r"),
        ("\ntext", "\n"),
        ("\r\ntext", "\r\n"),
        ("\n\r", "\n"),
    ];
    for (input, expected) in test_cases {
        let config: Config = Config::default();
        let parser: Context = Context::new(Token::from(*input), &config);
        let (result, _) = parser.line_ending();
        if expected.is_empty() {
            assert!(result.is_none());
        } else {
            assert_eq!(result.map(|p| p.token().value()), Some(*expected),);
        }
    }
}

#[test]
fn whitespace() {
    let test_cases: &[(&str, &str)] = &[
        ("text", ""),
        (" ", " "),
        ("\t", "\t"),
        (" \t", " \t"),
        (" text", " "),
        ("\ttext", "\t"),
        (" \ttext", " \t"),
    ];
    for (input, expected) in test_cases {
        let config: Config = Config::default();
        let parser: Context = Context::new(Token::from(*input), &config);
        let (result, _) = parser.whitespace();
        if expected.is_empty() {
            assert!(result.is_none());
        } else {
            assert_eq!(result.map(|p| p.token().value()), Some(*expected));
        }
    }
}

#[test]
#[allow(clippy::type_complexity)]
fn line_comment() {
    let test_cases: &[(&str, Option<(&str, &str, Option<&str>)>, &str)] = &[
        ("", None, ""),
        ("/", None, "/"),
        (" //", None, " //"),
        ("//c", Some(("//", "c", None)), ""),
        ("//c\r", Some(("//", "c", Some("\r"))), ""),
        ("//c\r\n", Some(("//", "c", Some("\r\n"))), ""),
        ("//c\r\nafter", Some(("//", "c", Some("\r\n"))), "after"),
    ];

    let config: Config = Config::default().with_line_comment_delimiter("//");
    for (input, expected, after_expected) in test_cases {
        let c: Context = Context::new(Token::from(*input), &config);
        let (result, after_result) = c.line_comment();
        assert_eq!(after_result.value(), *after_expected);
        let result: Option<(&str, &str, Option<&str>)> =
            result.map(|(a, b, c)| (a.value(), b.value(), c.map(|c| c.value())));
        assert_eq!(result, *expected);
    }
}

#[test]
fn white_line_comments() {
    let test_cases: &[(&str, &str, &str)] = &[
        ("", "", ""),
        ("x", "", "x"),
        (" \r\n x", " \r\n ", "x"),
        (" \r\n //x", " \r\n //x", ""),
        (" \r\n //x\r\nx", " \r\n //x\r\n", "x"),
    ];

    let config: Config = Config::default().with_line_comment_delimiter("//");
    for (input, expected, after_expected) in test_cases {
        let c: Context = Context::new(Token::from(*input), &config);
        let (result, after_result) = c.white_line_comments();
        assert_eq!(result.map(|r| r.value()).unwrap_or(""), *expected);
        assert_eq!(after_result.value(), *after_expected);
    }
}

#[test]
fn line_comment_block() {
    #[allow(clippy::useless_vec)]
    let text: String = vec![
        "  //ignored",
        "        ",
        "\t    //four",
        "    \t//three",
        "        //two",
        "\t\t//one",
        "    \t",
    ]
    .join("\n");

    let config: Config = Config::default().with_line_comment_delimiter("//");
    let context: Context = Context::new(Token::from(text.as_str()), &config);

    let (comments, _): (Vec<Token>, _) = context.line_comment_block();

    assert_eq!(
        comments.iter().map(|t| t.value()).collect::<Vec<&str>>(),
        vec!["one", "two", "three", "four"]
    );
}

#[test]
fn line_comment_block_line_comment_block() {
    #[allow(clippy::useless_vec)]
    let text: String = vec![
        "ignored",
        "        /ignored",
        "\t    //four",
        "    \t//three",
        "        //two",
        "\t\t//one",
        "    \t",
    ]
    .join("\n");

    let config: Config = Config::default().with_line_comment_delimiter("//");
    let context: ParseContext = ParseContext::new(Token::from(text.as_str()), &config);

    let comments: Vec<Token> = context.line_comment_block_vec();

    assert_eq!(
        comments.iter().map(|t| t.value()).collect::<Vec<&str>>(),
        vec!["one", "two", "three", "four"]
    );
}

#[test]
fn comment_block_keeps_positions_and_consumes_the_layout() {
    let text: &str = "    // a\n    //b\n    fn";
    let config: Config = Config::default().with_line_comment_delimiter("//");
    let context: Context = Context::new(Token::from(text), &config);
    let (comments, after) = context.line_comment_block();
    assert_eq!(comments, vec![Token::new("b", 1, 6), Token::new(" a", 0, 6)]);
    assert_eq!(after.token(), Token::new("fn", 2, 4));
}

#[test]
fn comment_block_stops_at_a_line_without_the_delimiter() {
    let text: &str = "//top\n  \n//mid\n//low\n";
    let config: Config = Config::default().with_line_comment_delimiter("//");
    let context: Context = Context::new(Token::from(text), &config);
    let (comments, after) = context.line_comment_block();
    assert_eq!(comments.iter().map(|t| t.value()).collect::<Vec<&str>>(), vec!["low", "mid"]);
    assert!(after.is_empty());
}

#[test]
fn comment_block_without_delimiter_is_empty_and_consumes_nothing() {
    let config: Config = Config::default();
    for text in ["  //a\n//b\nx", "", "\n\n", "x"] {
        let context: Context = Context::new(Token::from(text), &config);
        let (comments, after) = context.line_comment_block();
        assert!(comments.is_empty());
        assert_eq!(after.token(), context.token());
    }
}

#[test]
fn comment_block_counts_tab_stops_with_the_tab_width() {
    let text: &str = "  //two\n\t//one\n  ";
    let config: Config = Config::default().with_line_comment_delimiter("//").with_spaces_per_tab(2);
    let context: Context = Context::new(Token::from(text), &config);
    let (comments, _) = context.line_comment_block();
    assert_eq!(comments.iter().map(|t| t.value()).collect::<Vec<&str>>(), vec!["one", "two"]);
    assert_eq!(config.spaces_per_tab(), 2);
    assert_eq!(config.line_comment_delimiter(), Some("//"));
}

#[test]
fn exact_refuses_to_split_a_crlf() {
    let config: Config = Config::default();
    let context: Context = Context::new(Token::from("\r\n"), &config);
    let (result, after) = context.exact("\r");
    assert!(result.is_none());
    assert_eq!(after.token(), context.token());
    let (result, after) = context.exact("\r\n");
    assert_eq!(result, Some(Token::from("\r\n")));
    assert_eq!(after.token(), Token::new("", 1, 0));
    let context: Context = Context::new(Token::from("\rx"), &config);
    assert_eq!(context.exact("\r").0, Some(Token::from("\r")));
}

#[test]
fn exact_symbol_matches_only_whole_symbols() {
    let config: Config = Config::default();
    let context: Context = Context::new(Token::from("letter = 1"), &config);
    assert!(context.exact_symbol("let").0.is_none());
    let (found, after) = context.exact_symbol("letter");
    assert_eq!(found, Some(Token::from("letter")));
    assert_eq!(after.value(), " = 1");
    assert_eq!(context.exact("let").0, Some(Token::from("let")));
    let (symbol, after) = context.symbol();
    assert_eq!(symbol.map(|s| s.value()), Some("letter"));
    assert_eq!(after.len(), 4);
}

#[test]
fn rest_of_line_splits_at_the_first_line_ending() {
    let config: Config = Config::default();
    let context: Context = Context::new(Token::from("ab\r\ncd"), &config);
    let (line, ending, after) = context.rest_of_line();
    assert_eq!(line.value(), "ab");
    assert_eq!(ending.map(|e| e.value()), Some("\r\n"));
    assert_eq!(after.token(), Token::new("cd", 1, 0));
    let (line, ending, after) = after.rest_of_line();
    assert_eq!((line.value(), ending.is_none(), after.value()), ("cd", true, ""));
    let (white, after) = Context::new(Token::from(" \r\n\tx"), &config).white_lines();
    assert_eq!(white.map(|w| w.value()), Some(" \r\n\t"));
    assert_eq!(after.value(), "x");
}

#[test]
fn marks_and_chars_skip_layout_first() {
    let config: Config = Config::default().with_line_comment_delimiter("#");
    let context: Context = Context::new(Token::from(" # note\n ; rest"), &config);
    assert!(context.mark(';').0.is_none());
    let (mark, after) = context.white_mark(';');
    assert_eq!(mark, Some(Token::new(";", 1, 1)));
    assert_eq!(after.value(), " rest");
    let (none, same) = context.white_mark(',');
    assert!(none.is_none());
    assert_eq!(same.token(), context.token());
    let (c, after) = context.parse_char(';', "semicolon").unwrap();
    assert_eq!((c.value(), after.value()), (";", " rest"));
    let error = context.parse_char(',', "comma").unwrap_err();
    assert_eq!(error.token(), Token::new(";", 1, 1));
    assert_eq!(*error.error(), "comma");
    let error = Context::new(Token::from("  name"), &config).to_error(1);
    assert_eq!(error.token(), Token::from(" "));
    assert_eq!(Context::new(Token::from("é!"), &config).mark('é').0, Some(Token::from("é")));
}

#[test]
fn get_line_text_finds_each_line() {
    let config: Config = Config::default();
    let context: Context = Context::new(Token::from("zero\r\none\rtwo\n"), &config);
    assert_eq!(context.get_line_text(0), Some("zero"));
    assert_eq!(context.get_line_text(1), Some("one"));
    assert_eq!(context.get_line_text(2), Some("two"));
    assert_eq!(context.get_line_text(3), Some(""));
    assert_eq!(context.get_line_text(4), None);
}

#[test]
fn delimiter_validity() {
    assert!(Config::is_valid_line_comment_delimiter("//"));
    assert!(!Config::is_valid_line_comment_delimiter(""));
    assert!(!Config::is_valid_line_comment_delimiter("/\n"));
    assert!(!CommentConfig::is_valid_line_comment_delimiter("\r#"));
    let config: CommentConfig = CommentConfig::default();
    assert_eq!(config.line_comment_delimiter(), None);
    let config: CommentConfig = config.with_line_comment_delimiter("--");
    assert_eq!(config.clone().line_comment_delimiter(), Some("--"));
    let mut config: Config = Config::default();
    assert_eq!(config.spaces_per_tab(), 4);
    config.set_spaces_per_tab(8);
    config.set_line_comment_delimiter(";");
    assert_eq!((config.spaces_per_tab(), config.line_comment_delimiter()), (8, Some(";")));
}

#[test]
fn prefix_matchers_take_the_longest_run() {
    let config: Config = Config::default();
    let context: Context = Context::new(Token::from("aaab"), &config);
    let (a, rest) = context.match_prefix(|c| c == b'a');
    assert_eq!((a.map(|a| a.value()), rest.value()), (Some("aaa"), "b"));
    let (none, rest) = context.match_prefix_optional_unchecked(|c| c == b'z');
    assert!(none.is_none());
    assert_eq!(rest.value(), "aaab");
    let (empty, rest) = context.match_prefix_unchecked(|c| c == b'z');
    assert_eq!((empty.value(), rest.value()), ("", "aaab"));
    let (left, right) = context.split(2);
    assert_eq!((left.value(), right.value()), ("aa", "ab"));
    assert!(context.split_optional(0).0.is_none());
}
