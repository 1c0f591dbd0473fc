use srclex::parse::{IntParseError, IntParser};

#[test]
fn validate_strips_outer_underscores_and_reports_the_first_broken_rule() {
    let parser: IntParser = IntParser::default();
    assert_eq!(parser.validate("1_000"), Ok("1_000"));
    assert_eq!(parser.validate(""), Err(IntParseError::Empty));
    assert_eq!(parser.validate("12é"), Err(IntParseError::InvalidChar('é')));
    assert_eq!(parser.validate("1-2"), Err(IntParseError::InvalidChar('-')));
    assert_eq!(parser.validate("_1"), Err(IntParseError::StartsWithUnderscore));
    assert_eq!(parser.validate("1_"), Err(IntParseError::EndsWithUnderscore));
    assert_eq!(parser.validate("1__2"), Err(IntParseError::ContainsDoubleUnderscore));
}

#[test]
fn parse_values_and_ranges() {
    let parser: IntParser = IntParser::default();
    assert_eq!(parser.parse_u8("255"), Ok(255));
    assert_eq!(parser.parse_u8("256"), Err(IntParseError::ValueOutOfRange));
    assert_eq!(parser.parse_u16("65535"), Ok(65535));
    assert_eq!(parser.parse_u32("4294967296"), Err(IntParseError::ValueOutOfRange));
    assert_eq!(parser.parse_u64("18446744073709551615"), Ok(u64::MAX));
    assert_eq!(parser.parse_u128("007"), Ok(7));
    assert_eq!(parser.parse_u8("1_0"), Err(IntParseError::ValueOutOfRange));
    assert_eq!(parser.parse_u8("x"), Err(IntParseError::InvalidChar('x')));
}

#[test]
fn error_messages() {
    assert_eq!(IntParseError::Empty.message(), "integers cannot be empty");
    assert_eq!(IntParseError::InvalidChar('x').message(), "the integer contains an invalid char");
    assert_eq!(IntParseError::ContainsUnderscore.message(), "integers cannot contain underscores");
    assert_eq!(IntParseError::ContainsOnlyUnderscores.message(), "integers cannot contain only underscores");
    assert_eq!(IntParseError::ValueOutOfRange.message(), "the integer value is out of range");
}
