use semfilter::parser::{is_match, parse, TokenType};
use semfilter::tokenizer::Token;

#[test]
fn parser_test_parse_token() {
    assert!(matches!(parse("test"), Token::String(_, _)));
    assert!(matches!(parse("3.14"), Token::Number(_, _)));
    assert!(matches!(parse("10"), Token::Integer(_, _)));
    assert!(matches!(parse("test@gmail.com"), Token::Email(_, _)));
    assert!(matches!(parse("127.0.0.1"), Token::Ipv4(_, _)));
    assert!(matches!(parse("1762:0:0:0:0:B03:1:AF18"), Token::Ipv6(_, _)));
    assert!(matches!(parse("1970-07-31"), Token::Date(_, _, _)));
}

#[test]
fn a_text_that_only_looks_like_a_kind_is_a_string() {
    assert!(matches!(parse("1970-13-45"), Token::String(_, _)));
    assert!(matches!(parse("999.999.999.999"), Token::String(_, _)));
    assert!(matches!(parse("now()"), Token::String(_, _)));
    assert!(matches!(parse(""), Token::String(_, _)));
    assert_eq!(parse("1970-13-45").get_value(), "1970-13-45");
    assert_eq!(parse("1970-13-45").get_type(), "string");
    assert_eq!(parse("007").get_value(), "7");
}

#[test]
fn every_kind_has_its_shape() {
    assert!(is_match(&TokenType::Date, "1970-07-31"));
    assert!(!is_match(&TokenType::Date, "1970/07/31"));
    assert!(is_match(&TokenType::Email, "test@gmail.com"));
    assert!(!is_match(&TokenType::Email, "test@gmail"));
    assert!(is_match(&TokenType::Number, "3.14"));
    assert!(!is_match(&TokenType::Number, "3"));
    assert!(is_match(&TokenType::Integer, "10"));
    assert!(!is_match(&TokenType::Integer, "3.14"));
    assert!(is_match(&TokenType::Ipv4, "127.0.0.1"));
    assert!(!is_match(&TokenType::Ipv4, "127.0.0"));
    assert!(is_match(&TokenType::Ipv6, "1762:0:0:0:0:B03:1:AF18"));
    assert!(!is_match(&TokenType::Ipv6, "127.0.0.1"));
    assert!(is_match(&TokenType::SemVersion, "1.0.0-alpha+build"));
    assert!(!is_match(&TokenType::SemVersion, "1.0"));
    assert!(!is_match(&TokenType::String, "anything"));
}

#[test]
fn kinds_go_by_their_names() {
    let kinds = [
        (TokenType::Date, "date"),
        (TokenType::Email, "email"),
        (TokenType::Number, "number"),
        (TokenType::Integer, "integer"),
        (TokenType::Ipv4, "ipv4"),
        (TokenType::Ipv6, "ipv6"),
        (TokenType::SemVersion, "semver"),
        (TokenType::String, "string"),
    ];
    for (kind, name) in kinds {
        assert_eq!(kind.name(), name);
        assert_eq!(TokenType::from_name(name), Some(kind));
    }
    assert_eq!(TokenType::from_name("Date"), None);
    assert_eq!(TokenType::from_name(""), None);
}
