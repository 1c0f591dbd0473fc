use srclex::{Config, Error, Token};

#[test]
fn to_error() {
    let test_cases: &[(&str, &str)] = &[
        ("", ""),
        ("symbol after-symbol", "symbol"),
        ("! not-symbol", "!"),
    ];
    for (input, expected) in test_cases {
        let config: Config = Config::default();
        let token: Token = Token::from(*input);
        let result: Error<&str> = token.to_error(&config, "error");

        let expected: Token = Token::from(*expected);
        let expected: Error<&str> = Error::new(expected, "error");
        assert_eq!(result, expected);
    }
}

#[test]
fn to_error_keeps_a_crlf_and_a_multibyte_char_whole() {
    let config: Config = Config::default();
    let result = Token::from("\r\nx").to_error(&config, 7);
    assert_eq!(result.token().value(), "\r\n");
    assert_eq!(*result.error(), 7);
    let result = Token::new("你好", 2, 3).to_error(&config, ());
    assert_eq!(result.token(), Token::new("你", 2, 3));
    let mapped = Token::from("x").to_error(&config, 2).map(|e| e * 10);
    assert_eq!(mapped.to_error(), 20);
}

#[test]
fn is_valid_split_index() {
    let test_cases: &[(&str, usize, bool)] = &[
        ("", 0, true),
        ("\r\n", 0, true),
        ("\r\n", 2, true),
        ("你好", 0, true),
        ("你好", 1, false),
        ("你好", 2, false),
        ("你好", 3, true),
        ("你好", 4, false),
        ("你好", 5, false),
        ("你好", 6, true),
        ("\r\n", 1, false),
        ("\rx", 1, true),
        ("x\n", 1, true),
        ("\n\r", 1, true),
    ];
    for (input, index, expected) in test_cases {
        let result: bool = Token::from(*input).is_valid_split_index(*index);
        assert_eq!(result, *expected);
    }
}

#[test]
fn split() {
    let test_cases: &[(&str, usize, &str, Token)] = &[
        ("", 0, "", Token::from("")),
        ("hello", 0, "", Token::from("hello")),
        ("hello", 5, "hello", Token::new("", 0, 5)),
        ("0\r1\n2", 2, "0\r", Token::new("1\n2", 1, 0)),
        ("0\r1\n2", 4, "0\r1\n", Token::new("2", 2, 0)),
        ("0\r1\n2\r\n123", 7, "0\r1\n2\r\n", Token::new("123", 3, 0)),
        ("0\r1\n2\r\n123", 10, "0\r1\n2\r\n123", Token::new("", 3, 3)),
    ];
    for (input, index, expected_left, expected_right) in test_cases {
        let (left, right) = Token::from(*input).split(*index);
        assert_eq!(left.value(), *expected_left);
        assert_eq!(right, *expected_right);
    }
}

#[test]
fn split_keeps_position_within_a_line() {
    let (left, right) = Token::new("ab\r\ncd", 4, 7).split(1);
    assert_eq!(left, Token::new("a", 4, 7));
    assert_eq!(right, Token::new("b\r\ncd", 4, 8));
    assert_eq!(Token::from("x").split_optional(0), (None, Token::from("x")));
    assert_eq!(Token::from("xy").split_optional(1), (Some(Token::from("x")), Token::new("y", 0, 1)));
}

#[test]
fn crlf_is_never_split() {
    let token: Token = Token::from("a\r\nb");
    for index in 0..=token.len() {
        if token.is_valid_split_index(index) {
            let (left, right) = token.split(index);
            assert!(!(left.value().ends_with('\r') && right.value().starts_with('\n')));
        }
    }
    assert!(!token.is_valid_split_index(2));
    assert!(!token.is_valid_split_index(9));
}

#[test]
fn line_endings_are_counted_once_per_crlf() {
    assert_eq!(Token::from("a\r\nb\rc\n\nd").line_ending_count_and_last_line_len(), (4, 1));
    assert_eq!(Token::from("abc").line_ending_count_and_last_line_len(), (0, 3));
    assert_eq!(Token::from("ab\r").line_ending_count_and_last_line_len(), (1, 0));
}

#[test]
fn token_properties() {
    let token: Token = Token::new("ab", 3, 4);
    assert_eq!((token.value(), token.line(), token.position()), ("ab", 3, 4));
    assert_eq!(token.bytes(), b"ab");
    assert_eq!(token.len(), 2);
    assert!(!token.is_empty());
    assert!(Token::from("").is_empty());
    assert!(Token::from("\r\n").is_line_ending());
    assert!(!Token::from("\n\r").is_line_ending());
    assert!(Token::from(" \t").is_whitespace());
    assert!(!Token::from(" x").is_whitespace());
    assert_eq!(token.with_new_line(), Token::new("ab", 4, 0));
}

#[test]
fn token_rendering() {
    assert_eq!(Token::new("\r\n", 2, 3).to_string(), "[line=2 pos=3 len=2]: line-ending(rn)");
    assert_eq!(Token::from(" \t").to_string(), "[line=0 pos=0 len=2]: whitespace(spaces=5)");
    assert_eq!(Token::new("abc", 1, 4).to_string(), "[line=1 pos=4 len=3]: abc");
    assert_eq!(Token::from("").to_string(), "[line=0 pos=0 len=0]: whitespace(spaces=0)");
}
