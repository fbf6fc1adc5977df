use semfilter::calendar::CalendarDate;
use semfilter::evaluator::{eval_in, eval_op, evaluate_line, evaluate_line_on};
use semfilter::grammar::parse_expression;
use semfilter::parser::TokenType;
use semfilter::query::{Expr, Operator, Selector};

#[test]
fn test_empty_tokens() {
    assert!(evaluate_line(&mut parse_expression("date(0) == 1970-07-31").unwrap(), &vec!()).is_ok());
}

#[test]
fn test_empty_expressions() {
    assert!(parse_expression("").is_err());
}

#[test]
fn test_date_format_expression() {
    assert!(parse_expression("date(0, %Y/%m/%d) == 1970/07/31").is_ok());
}

#[test]
fn test_error_reporting() {
    let tokens: Vec<&str> = vec!["1970-07-31", "1900-01-01", "42", "test"];

    assert!(evaluate_line(&mut parse_expression("date(0) == 1970-07-31").unwrap(), &tokens).is_ok());
    assert!(evaluate_line(&mut parse_expression("date(1) == 1900-01-01").unwrap(), &tokens).is_ok());

    // should fail
    assert!(evaluate_line(&mut parse_expression("date(9) == 1900-01-01").unwrap(), &tokens).unwrap() == false);
}

#[test]
fn test_date_format() {
    assert!(evaluate_line(&mut parse_expression("date(0, %Y/%m/%d) == 1970/07/31").unwrap(), &vec!("1970/07/31")).is_ok());
    assert!(evaluate_line(&mut parse_expression("date(0, %Y-%m-%d) == 1970/07/31").unwrap(), &vec!("1970-07-31")).is_err());
}

#[test]
fn test_match() {
    let tokens: Vec<&str> = vec!["1970-07-31"];
    assert!(evaluate_line(&mut parse_expression("date(0) match \\d{4}-\\d{2}-\\d{2}").unwrap(), &tokens).is_err());
}

#[test]
fn test_in() {
    let tokens: Vec<&str> = vec!["test"];
    assert!(evaluate_line(&mut parse_expression("string(*) in [this, is, a, test]").unwrap(), &tokens).unwrap() == true);
}

#[test]
fn test_not_in() {
    let tokens: Vec<&str> = vec!["blaha"];
    assert!(evaluate_line(&mut parse_expression("string(*) !in [this, is, a, test]").unwrap(), &tokens).unwrap() == true);
}

#[test]
fn test_multiple_token_eval() {
    let tokens: Vec<&str> = vec!["1970-07-31", "1900-01-01", "test"];
    assert!(evaluate_line(&mut parse_expression("date(*) == 2000-01-01").unwrap(), &tokens).unwrap() == false);

    let tokens: Vec<&str> = vec!["1970-07-31", "1970-07-31", "test"];
    assert!(evaluate_line(&mut parse_expression("date(0) == 1970-07-31").unwrap(), &tokens).unwrap() == true);
}

#[test]
fn test_parsing_should_pass() {
    let tokens: Vec<&str> = vec!["1970-07-31"];

    assert!(evaluate_line(&mut parse_expression("date(0) in [1970-07-31, now()]").unwrap(), &tokens).is_ok());
    assert!(evaluate_line(&mut parse_expression("date(0) == 1970-07-31 && date(0) == 1970-07-31 || date(0) == 1970-07-31").unwrap(), &tokens).is_ok());
    assert!(evaluate_line(&mut parse_expression("date(0) == 1970-07-31 && date(0) == 1970-07-31 || date(0) == 1970-07-30").unwrap(), &tokens).is_ok());

    // these are negative tests....
    assert!(evaluate_line(&mut parse_expression("date(0) == 1970-07-31 && date(0) == 1970-07-30 || date(0) == 1970-07-30").unwrap(), &tokens).unwrap() == false);
    assert!(evaluate_line(&mut parse_expression("date(0) == 1900-01-01").unwrap(), &tokens).unwrap() == false);
}

fn ask(query: &str, tokens: &[&str]) -> Result<bool, String> {
    evaluate_line(&parse_expression(query).unwrap(), &tokens.to_vec())
}

#[test]
fn a_date_equals_itself() {
    assert_eq!(ask("date(0) == 1970-07-31", &["1970-07-31"]), Ok(true));
}

#[test]
fn a_date_differs_from_another() {
    assert_eq!(ask("date(0) == 1900-01-01", &["1970-07-31"]), Ok(false));
}

#[test]
fn a_place_beyond_the_line_is_false() {
    let tokens = ["1970-07-31", "1900-01-01", "42", "test"];
    assert_eq!(ask("date(9) == 1900-01-01", &tokens), Ok(false));
    assert_eq!(ask("date(4) == 1900-01-01", &tokens), Ok(false));
    assert_eq!(ask("date(1) == 1900-01-01", &tokens), Ok(true));
    assert_eq!(ask("string(9) match .*", &tokens), Ok(false));
    assert_eq!(ask("date(9) match .*", &tokens), Ok(false));
    assert_eq!(ask("date(9) in [x]", &tokens), Ok(false));
    assert_eq!(ask("date(9) !in [x]", &tokens), Ok(false));
    assert_eq!(
        ask("date(99999999999999999999999999) == 1900-01-01", &tokens),
        Ok(false)
    );
}

#[test]
fn a_star_asks_for_one_token_that_fits() {
    let tokens = ["1970-07-31", "1970-07-31", "test"];
    assert_eq!(ask("date(*) == 1970-07-31", &tokens), Ok(true));
    assert_eq!(ask("date(*) == 1970-08-01", &tokens), Ok(false));
    assert_eq!(ask("date(*) < 1970-08-01", &tokens), Ok(true));
    assert_eq!(ask("integer(*) > 41", &["a", "7", "42", "b"]), Ok(true));
    assert_eq!(ask("integer(*) > 42", &["a", "7", "42", "b"]), Ok(false));
    assert_eq!(ask("integer(*) > 42", &[]), Ok(false));
    assert_eq!(ask("integer(*) != 42", &["a", "b"]), Ok(false));
}

#[test]
fn a_star_finds_a_string_in_a_list_or_not() {
    assert_eq!(ask("string(*) in [this, is, a, test]", &["test"]), Ok(true));
    assert_eq!(ask("string(*) !in [this, is, a, test]", &["test"]), Ok(false));
    assert_eq!(
        ask("string(*) !in [this, is, a, test]", &["test", "other"]),
        Ok(true)
    );
}

#[test]
fn a_date_goes_by_its_format() {
    assert_eq!(
        ask("date(0, %Y/%m/%d) == 1970/07/31", &["1970/07/31"]),
        Ok(true)
    );
    assert_eq!(
        ask("date(0, %Y-%m-%d) == 1970/07/31", &["1970-07-31"]),
        Err("Problem parsing date value 1970/07/31 using format '%Y-%m-%d'".to_string())
    );
    assert_eq!(
        ask("date(0, %Y-%m-%d) == 1970/07/31", &["1970/07/31"]),
        Ok(false)
    );
    assert_eq!(
        ask("date(0,%d.%m.%Y) >= 01.01.1970", &["31.07.1970"]),
        Ok(true)
    );
}

#[test]
fn now_may_stand_in_a_list() {
    assert_eq!(ask("date(0) in [1970-07-31, now()]", &["1970-07-31"]), Ok(true));
    let today = chrono::Utc::now().date_naive();
    let text = today.format("%Y-%m-%d").to_string();
    let query = parse_expression("date(0) in [1970-07-31, now()]").unwrap();
    let day = CalendarDate { year: 2001, month: 2, day: 3 };
    assert_eq!(evaluate_line_on(&query, &vec!["2001-02-03"], day), Ok(true));
    assert_eq!(evaluate_line_on(&query, &vec!["2001-02-04"], day), Ok(false));
    assert_eq!(evaluate_line_on(&query, &vec!["now()"], day), Ok(true));
    let later = parse_expression("date(0) <= now()").unwrap();
    assert_eq!(evaluate_line(&later, &vec![text.as_str()]), Ok(true));
    assert_eq!(evaluate_line(&later, &vec!["1970-07-31"]), Ok(true));
    assert_eq!(evaluate_line(&later, &vec!["9999-12-31"]), Ok(false));
}

#[test]
fn and_and_or_bind_alike_and_group_to_the_left() {
    let tokens = ["1970-07-31"];
    assert_eq!(
        ask(
            "date(0)==1970-07-31 && date(0)==1970-07-30 || date(0)==1970-07-30",
            &tokens
        ),
        Ok(false)
    );
    // with `&&` binding tighter this would be true
    assert_eq!(
        ask(
            "date(0)==1970-07-31 || date(0)==1970-07-30 && date(0)==1970-07-30",
            &tokens
        ),
        Ok(false)
    );
    assert_eq!(
        ask(
            "date(0)==1970-07-31 || (date(0)==1970-07-30 && date(0)==1970-07-30)",
            &tokens
        ),
        Ok(true)
    );
    assert_eq!(
        ask(
            "date(0)==1970-07-30 && date(0)==1970-07-30 || date(0)==1970-07-31",
            &tokens
        ),
        Ok(true)
    );
}

#[test]
fn an_error_on_either_side_is_the_verdict() {
    let tokens = ["1970-07-31", "x"];
    let message = "only string type is allowed for match expressions".to_string();
    assert_eq!(
        ask("string(1) == y && date(0) match x", &tokens),
        Err(message.clone())
    );
    assert_eq!(
        ask("string(1) == x || date(0) match x", &tokens),
        Err(message.clone())
    );
    assert_eq!(
        ask("date(0) match x || string(1) == x", &tokens),
        Err(message.clone())
    );
    assert_eq!(
        ask("date(0) match x && date(0) == junk", &tokens),
        Err(message.clone())
    );
    assert_eq!(
        ask("date(0) == junk && date(0) match x", &tokens),
        Err("Problem parsing date value junk using format '%Y-%m-%d'".to_string())
    );
}

#[test]
fn match_is_for_strings_only() {
    let message = "only string type is allowed for match expressions".to_string();
    assert_eq!(ask("string(0) match ^te.t$", &["test"]), Ok(true));
    assert_eq!(ask("string(0) match ^te.t$", &["toast"]), Ok(false));
    assert_eq!(ask("string(*) match \\d+", &["a", "b7"]), Ok(true));
    assert_eq!(ask("string(0) match *a", &["test"]), Ok(false));
    for query in [
        "date(0) match x",
        "integer(1) match x",
        "number(2) match x",
        "email(3) match x",
        "ipv4(4) match x",
        "ipv6(5) match x",
        "semver(6) match x",
        "integer(*) match x",
    ] {
        let tokens = ["1970-07-31", "42", "3.14", "a@b.c", "127.0.0.1", "::1", "1.0.0"];
        assert_eq!(ask(query, &tokens), Err(message.clone()), "{}", query);
    }
    // a token that does not read as the kind is passed over first
    assert_eq!(ask("date(0) match x", &["test"]), Ok(false));
    assert_eq!(ask("integer(*) match x", &["a", "b"]), Ok(false));
}

#[test]
fn a_list_is_the_same_as_equalities_joined_by_or() {
    let lines: [&[&str]; 5] = [
        &["1970-07-31", "7", "test"],
        &["1900-01-01"],
        &["x", "1970-07-30"],
        &[],
        &["junk"],
    ];
    let pairs = [
        (
            "date(0) in [1970-07-31, 1900-01-01, 1970-07-30]",
            "date(0) == 1970-07-31 || date(0) == 1900-01-01 || date(0) == 1970-07-30",
        ),
        (
            "date(*) in [1970-07-31, 1900-01-01, 1970-07-30]",
            "date(*) == 1970-07-31 || date(*) == 1900-01-01 || date(*) == 1970-07-30",
        ),
        (
            "date(*) in [1970-07-31, junk, 1970-07-30]",
            "date(*) == 1970-07-31 || date(*) == junk || date(*) == 1970-07-30",
        ),
        (
            "date(1) in [1970-07-30, junk]",
            "date(1) == 1970-07-30 || date(1) == junk",
        ),
        (
            "integer(*) in [7]",
            "integer(*) == 7",
        ),
    ];
    for tokens in lines {
        for (list, chain) in pairs {
            assert_eq!(ask(list, tokens), ask(chain, tokens), "{} on {:?}", list, tokens);
        }
    }
    assert_eq!(
        ask("date(*) in [1970-07-31, junk, 1970-07-30]", &["1970-07-31"]),
        Err("Problem parsing date value junk using format '%Y-%m-%d'".to_string())
    );
}

#[test]
fn every_kind_compares() {
    assert_eq!(ask("integer(0) < 10", &["9"]), Ok(true));
    assert_eq!(ask("integer(0) <= 9", &["9"]), Ok(true));
    assert_eq!(ask("integer(0) >= 10", &["9"]), Ok(false));
    assert_eq!(ask("integer(0) != 9", &["09"]), Ok(false));
    assert_eq!(ask("integer(0) == ten", &["9"]).is_err(), true);
    assert_eq!(ask("number(0) > 9.5", &["10.25"]), Ok(true));
    assert_eq!(ask("number(0) == 1.50", &["1.5"]), Ok(true));
    assert_eq!(ask("string(0) > 10", &["9"]), Ok(true));
    assert_eq!(ask("email(0) == a@b.c", &["a@b.c"]), Ok(true));
    assert_eq!(ask("ipv4(0) < 10.0.0.1", &["9.255.255.255"]), Ok(true));
    assert_eq!(ask("ipv6(0) == ::1", &["0:0:0:0:0:0:0:1"]), Ok(true));
    assert_eq!(ask("semver(0) < 1.0.0", &["1.0.0-rc.1"]), Ok(true));
    assert_eq!(ask("semver(0) > 1.0.0-pre.8", &["1.0.0-pre.12"]), Ok(true));
    assert_eq!(ask("semver(*) >= 2.0.0", &["a", "1.9.9", "2.0.1"]), Ok(true));
}

#[test]
fn the_same_query_gives_the_same_verdict() {
    let query = "date(*) >= 1970-01-01 && string(*) in [a, b]";
    let one = parse_expression(query).unwrap();
    let other = parse_expression(query).unwrap();
    assert_eq!(format!("{:?}", one), format!("{:?}", other));
    let tokens = vec!["1970-07-31", "b"];
    let first = evaluate_line(&one, &tokens);
    assert_eq!(first, Ok(true));
    assert_eq!(evaluate_line(&one, &tokens), first);
    assert_eq!(evaluate_line(&other, &tokens), first);
    for year in [1, 1970, 2024, 9999] {
        let day = CalendarDate { year, month: 6, day: 15 };
        assert_eq!(evaluate_line_on(&one, &tokens, day), first);
    }
}

#[test]
fn a_query_is_read_into_a_tree() {
    match parse_expression("  date( 3 , %Y/%m/%d )<=1970/07/31  ").unwrap() {
        Expr::Simple(field, op, value) => {
            assert_eq!(field.kind, TokenType::Date);
            assert_eq!(field.selector, Selector::Index(3));
            assert_eq!(field.format, Some("%Y/%m/%d".to_string()));
            assert_eq!(op, Operator::Lte);
            assert_eq!(value, "1970/07/31");
        }
        other => panic!("{:?}", other),
    }
    match parse_expression("semver(*)!in[1.0.0,2.0.0 , now()]").unwrap() {
        Expr::Contains(field, negated, members) => {
            assert_eq!(field.kind, TokenType::SemVersion);
            assert_eq!(field.selector, Selector::Every);
            assert_eq!(field.format, None);
            assert!(negated);
            assert_eq!(members, vec!["1.0.0", "2.0.0", "now()"]);
        }
        other => panic!("{:?}", other),
    }
    match parse_expression("string(0)==a&&(string(1)==b||string(2)==c)||string(3)matchd").unwrap() {
        Expr::Or(left, right) => {
            assert!(matches!(*right, Expr::Simple(_, Operator::Match, _)));
            match *left {
                Expr::And(first, second) => {
                    assert!(matches!(*first, Expr::Simple(_, Operator::Eq, _)));
                    match *second {
                        Expr::Group(inner) => assert!(matches!(*inner, Expr::Or(_, _))),
                        other => panic!("{:?}", other),
                    }
                }
                other => panic!("{:?}", other),
            }
        }
        other => panic!("{:?}", other),
    }
    match parse_expression("integer(18446744073709551616) > 1").unwrap() {
        Expr::Simple(field, _, _) => assert_eq!(field.selector, Selector::Index(u64::MAX)),
        other => panic!("{:?}", other),
    }
}

#[test]
fn what_is_no_query_is_refused() {
    for text in [
        "",
        "   ",
        "date",
        "date(0)",
        "date(0) ==",
        "date() == x",
        "date(-1) == x",
        "date(0,) == x",
        "dates(0) == x",
        "float(0) == x",
        "date(0) = x",
        "date(0) == x &&",
        "date(0) == x & date(0) == y",
        "date(0) == x date(0) == y",
        "(date(0) == x",
        "date(0) == x)",
        "()",
        "date(0) in []",
        "date(0) in [a,]",
        "date(0) in [a b]",
        "date(0) in a",
        "date(0) in [a",
        "date(0) == [a]",
        "date(0, %Y %m) == x",
    ] {
        let read = parse_expression(text);
        assert!(read.is_err(), "{}", text);
        assert_eq!(read.unwrap_err().query, text);
    }
    assert_eq!(
        parse_expression("nonsense").unwrap_err().message(),
        "the expression does not follow the grammar: nonsense"
    );
}

#[test]
fn one_token_is_judged_by_kind_operator_and_value() {
    let day = CalendarDate { year: 2001, month: 2, day: 3 };
    assert_eq!(eval_op("date", Operator::Eq, "now()", None, "2001-02-03", day), Ok(true));
    assert_eq!(eval_op("date", Operator::Gt, "now()", None, "2001-02-03", day), Ok(false));
    assert_eq!(eval_op("integer", Operator::Lt, "5", None, "4", day), Ok(true));
    assert_eq!(eval_op("integer", Operator::Lt, "5", None, "four", day), Ok(false));
    assert_eq!(eval_op("nothing", Operator::Eq, "5", None, "5", day), Ok(false));
    assert_eq!(
        eval_op("integer", Operator::Lt, "five", None, "4", day),
        Err("Problem parsing integer value five".to_string())
    );
    let members = vec!["3".to_string(), "4".to_string()];
    assert_eq!(eval_in("integer", false, &members, None, "4", day), Ok(true));
    assert_eq!(eval_in("integer", true, &members, None, "4", day), Ok(false));
    assert_eq!(eval_in("integer", false, &members, None, "5", day), Ok(false));
    assert_eq!(eval_in("integer", true, &members, None, "5", day), Ok(true));
    assert_eq!(eval_in("integer", true, &members, None, "x", day), Ok(false));
    assert_eq!(eval_in("integer", false, &Vec::new(), None, "5", day), Ok(false));
}
