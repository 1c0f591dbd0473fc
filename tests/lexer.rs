use srclex::{Kind, Lex, Lexeme as Token, Lexer};

#[test]
fn lex_tests_properties() {
    let source: &str = "the source code";
    let tokens: &[Token] = &[
        Token::new(Kind::Symbol, "the", 0, 0),
        Token::new(Kind::Whitespace, " ", 0, 3),
        Token::new(Kind::Symbol, "source", 0, 4),
        Token::new(Kind::Whitespace, " ", 0, 10),
        Token::new(Kind::Symbol, "code", 0, 11),
    ];
    let lex: Lex = Lexer::default().lex(source).unwrap();
    assert_eq!(lex.source(), source);
    assert_eq!(lex.tokens(), tokens);
}

#[test]
fn lex_tests_display() {
    let source: &str = "the code\nsecond line\n";
    let lex: Lex = Lexer::default().lex(source).unwrap();
    let s: String = lex.to_string();
    let result: Vec<&str> = s.split("\n").collect();
    let expected: Vec<&str> = vec![
        "line 1:",
        "    0    : symbol           the",
        "    3    : whitespace       s",
        "    4    : symbol           code",
        "    8    : line-ending      n",
        "line 2:",
        "    0    : symbol           second",
        "    6    : whitespace       s",
        "    7    : symbol           line",
        "    11   : line-ending      n",
        "",
    ];
    assert_eq!(result, expected);
}

#[test]
fn lex() {
    let test_cases: &[(&str, &[Token])] = &[
        ("", &[]),
        ("你好", &[Token::new(Kind::NonAscii, "你好", 0, 0)]),
        (
            "\x7F你好\x7F",
            &[
                Token::new(Kind::Controls, "\x7F", 0, 0),
                Token::new(Kind::NonAscii, "你好", 0, 1),
                Token::new(Kind::Controls, "\x7F", 0, 7),
            ],
        ),
        (
            "\r \r\r \r\n \n\r",
            &[
                Token::new(Kind::LineEnding, "\r", 0, 0),
                Token::new(Kind::Whitespace, " ", 1, 0),
                Token::new(Kind::LineEnding, "\r", 1, 1),
                Token::new(Kind::LineEnding, "\r", 2, 0),
                Token::new(Kind::Whitespace, " ", 3, 0),
                Token::new(Kind::LineEnding, "\r\n", 3, 1),
                Token::new(Kind::Whitespace, " ", 4, 0),
                Token::new(Kind::LineEnding, "\n", 4, 1),
                Token::new(Kind::LineEnding, "\r", 5, 0),
            ],
        ),
        (
            " \tx\t ",
            &[
                Token::new(Kind::Whitespace, " \t", 0, 0),
                Token::new(Kind::Symbol, "x", 0, 2),
                Token::new(Kind::Whitespace, "\t ", 0, 3),
            ],
        ),
        (
            "\x00\r\x1F\n\x7F\t",
            &[
                Token::new(Kind::Controls, "\x00", 0, 0),
                Token::new(Kind::LineEnding, "\r", 0, 1),
                Token::new(Kind::Controls, "\x1F", 1, 0),
                Token::new(Kind::LineEnding, "\n", 1, 1),
                Token::new(Kind::Controls, "\x7F", 2, 0),
                Token::new(Kind::Whitespace, "\t", 2, 1),
            ],
        ),
        (
            "azAZ09_!",
            &[
                Token::new(Kind::Symbol, "azAZ09_", 0, 0),
                Token::new(Kind::Special(b'!'), "!", 0, 7),
            ],
        ),
    ];
    for (source, expected) in test_cases {
        let result: Lex = Lexer::default().lex(&source).unwrap();
        assert_eq!(result.tokens(), *expected);
    }
}

#[test]
fn token_tests_properties() {
    let token: Token = Token::new(Kind::Symbol, "azAZ09_", 1, 2);
    assert_eq!(token.kind(), Kind::Symbol);
    assert_eq!(token.value(), "azAZ09_");
    assert_eq!(token.line(), 1);
    assert_eq!(token.position(), 2);
}

#[test]
fn token_tests_display() {
    let token: Token = Token::new(Kind::Symbol, "azAZ09_", 1, 2);
    let result: String = token.to_string();
    let expected: &str = "Token([1:2]:symbol azAZ09_)";
    assert_eq!(result, expected);

    let token: Token = Token::new(Kind::Controls, "\x00\x1F\x7F", 3, 4);
    let result: String = token.to_string();
    let expected: &str = "Token([3:4]:controls ???)";
    assert_eq!(result, expected);
}

#[test]
fn round_trip_reconstructs_source() {
    let source: &str = "fn main() {\r\n\tlet x = 1_0;\n\r// 你好\x01\x02\n}";
    let lex: Lex = Lexer::default().lex(source).unwrap();
    let joined: String = lex.tokens().iter().map(|t| t.value()).collect();
    assert_eq!(joined, source);
    assert!(Lex::matches(source, lex.tokens()));
}

#[test]
fn adjacent_tokens_are_maximal() {
    let source: &str = "ab  cd\r\n\r\n\n\r!!\x01\x02你好";
    let lex: Lex = Lexer::default().lex(source).unwrap();
    let tokens = lex.tokens();
    for pair in tokens.windows(2) {
        let (a, b) = (pair[0], pair[1]);
        if a.kind() == b.kind() {
            assert!(matches!(b.kind(), Kind::Special(_) | Kind::LineEnding));
            assert!(!(a.value() == "\r" && b.value() == "\n"));
        }
    }
    assert!(Lex::has_no_duplicates(tokens));
    assert_eq!(tokens[3].value(), "\r\n");
    assert_eq!(tokens[7].kind(), Kind::Special(b'!'));
    assert_eq!(tokens[8].kind(), Kind::Special(b'!'));
}

#[test]
fn positions_reset_after_line_endings() {
    let source: &str = "a b\r\ncd\n\nx";
    let lex: Lex = Lexer::default().lex(source).unwrap();
    let tokens = lex.tokens();
    for pair in tokens.windows(2) {
        let (a, b) = (pair[0], pair[1]);
        if a.kind() == Kind::LineEnding {
            assert_eq!((b.line(), b.position()), (a.line() + 1, 0));
        } else {
            assert_eq!(b.line(), a.line());
            assert_eq!(b.position() as usize, a.position() as usize + a.value().len());
        }
    }
    assert!(Lex::matches_lines_and_positions(tokens));
    let last = tokens[tokens.len() - 1];
    assert_eq!((last.value(), last.line(), last.position()), ("x", 3, 0));
}

#[test]
fn validation_rejects_mismatched_tokens() {
    let source: &str = "ab";
    let good: &[Token] = &[Token::new(Kind::Symbol, "ab", 0, 0)];
    let split: &[Token] = &[Token::new(Kind::Symbol, "a", 0, 0), Token::new(Kind::Symbol, "b", 0, 1)];
    let shifted: &[Token] = &[Token::new(Kind::Symbol, "ab", 0, 1)];
    let short: &[Token] = &[Token::new(Kind::Symbol, "a", 0, 0)];
    assert!(Lex::matches(source, good));
    assert!(!Lex::has_no_duplicates(split));
    assert!(Lex::matches_source(source, split));
    assert!(!Lex::matches_lines_and_positions(shifted));
    assert!(!Lex::matches_source(source, short));
    let crlf: &[Token] = &[Token::new(Kind::LineEnding, "\r", 0, 0), Token::new(Kind::LineEnding, "\n", 1, 0)];
    assert!(!Lex::has_no_duplicates(crlf));
}

#[test]
fn next_kind_and_len_classifies_first_run() {
    assert_eq!(Lexer::next_kind_and_len("\r\nx"), (Kind::LineEnding, 2));
    assert_eq!(Lexer::next_kind_and_len("\n\r"), (Kind::LineEnding, 1));
    assert_eq!(Lexer::next_kind_and_len("::"), (Kind::Special(b':'), 1));
    assert_eq!(Lexer::next_kind_and_len("ab_1 c"), (Kind::Symbol, 4));
    assert_eq!(Lexer::line_ending_len(b"\r"), 1);
    assert_eq!(Lexer::prefix_len(b"aaab", |c| c == b'a'), 3);
}
