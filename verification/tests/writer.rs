use semfilter::grammar::parse_expression;
use semfilter::parser::TokenType;
use semfilter::query::{Expr, Operator, Selector, TypeExpr};
use semfilter::writer::write_query;

#[test]
fn a_query_is_written_with_one_blank_around_its_operators() {
    let cases = [
        ("  date( 3 , %Y/%m/%d )<=1970/07/31 ", "date(3,%Y/%m/%d) <= 1970/07/31"),
        ("semver(*)!in[1.0.0,2.0.0 , now()]", "semver(*) !in [1.0.0, 2.0.0, now()]"),
        ("string(0)matchx", "string(0) match x"),
        ("integer(007) in [ 1 ]", "integer(7) in [1]"),
        (
            "string(0)==a&&(string(1)==b||string(2)==c)||string(3)!=d",
            "string(0) == a && (string(1) == b || string(2) == c) || string(3) != d",
        ),
        ("((ipv4(*) > 10.0.0.0))", "((ipv4(*) > 10.0.0.0))"),
        ("email(1)>=a@b.c", "email(1) >= a@b.c"),
        ("number(2)<3.5", "number(2) < 3.5"),
        ("ipv6(2)>::1", "ipv6(2) > ::1"),
    ];
    for (text, wanted) in cases {
        assert_eq!(write_query(&parse_expression(text).unwrap()), wanted);
    }
}

#[test]
fn what_is_written_reads_back() {
    for text in [
        "date(0) == 1970-07-31",
        "date(0, %d.%m.%Y) in [31.07.1970, now()]",
        "string(*) match ^a.*z$ && (integer(1) < 5 || integer(1) > 10) && semver(2) != 1.0.0",
        "(((string(0) == a)))",
        "string(0) < =",
        "integer(18446744073709551615) == 1 || integer(99999999999999999999) == 1",
    ] {
        let tree = parse_expression(text).unwrap();
        let written = write_query(&tree);
        let again = parse_expression(written.as_str()).unwrap();
        assert_eq!(format!("{:?}", again), format!("{:?}", tree), "{}", text);
        assert_eq!(write_query(&again), written);
    }
}

#[test]
fn a_tree_that_is_no_query_is_written_all_the_same() {
    let field = TypeExpr { kind: TokenType::String, selector: Selector::Every, format: None };
    let empty = Expr::Contains(field, false, Vec::new());
    assert_eq!(write_query(&empty), "string(*) in []");
    assert!(parse_expression("string(*) in []").is_err());
    let field = TypeExpr { kind: TokenType::String, selector: Selector::Index(0), format: None };
    let blank = Expr::Simple(field, Operator::Eq, "a b".to_string());
    assert_eq!(write_query(&blank), "string(0) == a b");
    assert!(parse_expression("string(0) == a b").is_err());
}
