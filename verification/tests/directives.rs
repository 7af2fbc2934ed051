use zonary::error::ZonaryError;
use zonary::preprocessor::PreprocessorDirective;

fn parse(s: &str) -> Result<PreprocessorDirective, ZonaryError> {
    PreprocessorDirective::parse(s)
}

#[test]
fn parse_replace_chars() {
    assert_eq!(
        parse("/00 01000001 01000010").unwrap(),
        PreprocessorDirective::ReplaceChars('A', 'B')
    );
    assert_eq!(
        parse("  /00\t01100001   01100010 ").unwrap(),
        PreprocessorDirective::ReplaceChars('a', 'b')
    );
}

#[test]
fn parse_set_bit_width() {
    assert_eq!(parse("/01 00010000").unwrap(), PreprocessorDirective::SetBitWidth(16));
    assert_eq!(parse("/01 00000010").unwrap(), PreprocessorDirective::SetBitWidth(2));
    assert_eq!(parse("/01 11111111").unwrap(), PreprocessorDirective::SetBitWidth(255));
}

#[test]
fn parse_reserved() {
    assert_eq!(parse("/10").unwrap(), PreprocessorDirective::Reserved);
    assert_eq!(parse("/11").unwrap(), PreprocessorDirective::Reserved);
    assert_eq!(parse("/11 whatever follows").unwrap(), PreprocessorDirective::Reserved);
}

#[test]
fn parse_empty_directive() {
    assert!(matches!(parse(""), Err(ZonaryError::EmptyDirective)));
    assert!(matches!(parse(" \t\n "), Err(ZonaryError::EmptyDirective)));
}

#[test]
fn parse_arity_errors() {
    assert!(matches!(parse("/00 01000001"), Err(ZonaryError::ReplaceCharsArity)));
    assert!(matches!(
        parse("/00 01000001 01000010 01000011"),
        Err(ZonaryError::ReplaceCharsArity)
    ));
    assert!(matches!(parse("/01"), Err(ZonaryError::BitWidthArity)));
    assert!(matches!(parse("/01 00000100 00000100"), Err(ZonaryError::BitWidthArity)));
}

#[test]
fn parse_custom_char_errors() {
    assert!(matches!(
        parse("/00 01000001 01000001"),
        Err(ZonaryError::IdenticalCustomChars)
    ));
    // '0' is 00110000, '<' is 00111100
    assert!(matches!(
        parse("/00 00110000 01000001"),
        Err(ZonaryError::ReservedCustomChar)
    ));
    assert!(matches!(
        parse("/00 01000001 00111100"),
        Err(ZonaryError::ReservedCustomChar)
    ));
    assert!(matches!(parse("/00 00011111 01000001"), Err(ZonaryError::AsciiOutOfRange)));
    assert!(matches!(parse("/00 01000001 01111111"), Err(ZonaryError::AsciiOutOfRange)));
}

#[test]
fn parse_parameter_errors() {
    assert!(matches!(parse("/01 0000010"), Err(ZonaryError::ParameterLength)));
    assert!(matches!(parse("/01 000001000"), Err(ZonaryError::ParameterLength)));
    // eight characters but nine bytes
    assert!(matches!(parse("/01 0000010\u{e9}"), Err(ZonaryError::ParameterLength)));
    assert!(matches!(parse("/01 0000010x"), Err(ZonaryError::ParameterNotBinary)));
    assert!(matches!(parse("/01 00000001"), Err(ZonaryError::BitWidthTooSmall)));
    assert!(matches!(parse("/01 00000000"), Err(ZonaryError::BitWidthTooSmall)));
}

#[test]
fn parse_unknown_directive() {
    match parse("/02 00000000") {
        Err(ZonaryError::UnknownDirective(name)) => assert_eq!(name, "/02"),
        _ => panic!("expected an unknown directive"),
    }
    match parse("/000") {
        Err(ZonaryError::UnknownDirective(name)) => assert_eq!(name, "/000"),
        _ => panic!("expected an unknown directive"),
    }
}

#[test]
fn directive_to_string() {
    assert_eq!(
        PreprocessorDirective::ReplaceChars('A', 'B').to_string(),
        "/00 01000001 01000010"
    );
    assert_eq!(PreprocessorDirective::SetBitWidth(16).to_string(), "/01 00010000");
    assert_eq!(PreprocessorDirective::Reserved.to_string(), "/10");
}

#[test]
fn law_render_parse_roundtrip_examples() {
    let samples = [
        PreprocessorDirective::ReplaceChars('a', 'b'),
        PreprocessorDirective::ReplaceChars(' ', '~'),
        PreprocessorDirective::ReplaceChars('x', 'Y'),
        PreprocessorDirective::SetBitWidth(2),
        PreprocessorDirective::SetBitWidth(64),
        PreprocessorDirective::SetBitWidth(255),
        PreprocessorDirective::Reserved,
    ];
    for d in samples.iter() {
        assert_eq!(parse(&d.to_string()).unwrap(), *d);
    }
}
