use semfilter::calendar::CalendarDate;
use semfilter::text::Order;
use semfilter::tokenizer::{full_lines, Token};

#[test]
fn tokenizer_test_parse_token() {
    assert!(matches!(
        Token::new("string", "test", None, true).unwrap(),
        Token::String(_, _),
    ));
    assert!(matches!(
        Token::new("number", "3.14", None, true).unwrap(),
        Token::Number(_, _)
    ));
    assert!(matches!(
        Token::new("integer", "10", None, true).unwrap(),
        Token::Integer(_, _)
    ));
    assert!(matches!(
        Token::new("email", "test@gmail.com", None, true).unwrap(),
        Token::Email(_, _)
    ));
    assert!(matches!(
        Token::new("ipv4", "127.0.0.1", None, true).unwrap(),
        Token::Ipv4(_, _)
    ));
    assert!(matches!(
        Token::new("ipv6", "1762:0:0:0:0:B03:1:AF18", None, true).unwrap(),
        Token::Ipv6(_, _)
    ));
    assert!(matches!(
        Token::new("date", "1970-07-31", None, true).unwrap(),
        Token::Date(_, _, _)
    ));
    assert!(matches!(
        Token::new("date", "1970/07/31", Some("%Y/%m/%d"), true).unwrap(),
        Token::Date(_, _, _)
    ));
    assert!(matches!(
        Token::new("semver", "1.0.0", None, true).unwrap(),
        Token::SemVersion(_, _)
    ));
}

#[test]
fn test_copy() {
    let t = Token::new("string", "string_value", None, true);
    let copy_t = t.unwrap().copy("new_value", None).unwrap();

    assert!(copy_t.get_value() == "new_value");
    assert!(copy_t.get_type() == "string");
}

#[test]
fn test_parse_invalid_format_specifier() {
    assert!(Token::new("date", "1970/07/31", Some("%Y-%m-%d"), true).is_err());
}

#[test]
fn test_is_match() {
    assert!(Token::new("string", "test", None, true)
        .unwrap()
        .is_match("test"));
    assert!(!Token::new("string", "test", None, true)
        .unwrap()
        .is_match("blaha"));
}

#[test]
fn test_parse_invalid_token() {
    assert!(Token::new("invalid", "1.0.0", None, true).is_err());
}

#[test]
fn unknown_kind_is_named_in_the_error() {
    assert_eq!(
        Token::new("invalid", "1.0.0", None, true).unwrap_err(),
        "Type invalid not supported"
    );
    assert_eq!(
        Token::new("ivp4", "127.0.0.1", None, true).unwrap_err(),
        "Type ivp4 not supported"
    );
}

#[test]
fn validation_asks_for_the_shape_of_the_kind() {
    assert_eq!(
        Token::new("email", "nobody", None, true).unwrap_err(),
        "Type email not supported"
    );
    assert!(matches!(
        Token::new("email", "nobody", None, false).unwrap(),
        Token::Email(_, _)
    ));
    assert!(Token::new("integer", "+7", None, true).is_err());
    assert_eq!(
        Token::new("integer", "+7", None, false).unwrap().get_value(),
        "7"
    );
    assert!(Token::new("number", "42", None, true).is_err());
    assert!(Token::new("number", "42", None, false).is_err());
    assert_eq!(
        Token::new("date", "1970-7-31", None, true).unwrap_err(),
        "Type date not supported"
    );
    assert_eq!(
        Token::new("date", "1970-7-31", None, false).unwrap().get_value(),
        "1970-07-31"
    );
    assert!(Token::new("date", "1970-7-31", Some("%Y-%m-%d"), true).is_ok());
    assert!(Token::new("date", "now()", None, true).is_ok());
    assert!(Token::new("semver", "1.0", None, true).is_err());
}

#[test]
fn a_value_that_does_not_read_is_a_problem() {
    assert_eq!(
        Token::new_no_validation("integer", "abc", None).unwrap_err(),
        "Problem parsing integer value abc"
    );
    assert_eq!(
        Token::new("integer", "18446744073709551616", None, true).unwrap_err(),
        "Problem parsing integer value 18446744073709551616"
    );
    assert_eq!(
        Token::new("ipv4", "256.1.1.1", None, true).unwrap_err(),
        "Problem parsing ipv4 value 256.1.1.1"
    );
    assert_eq!(
        Token::new("ipv4", "01.1.1.1", None, true).unwrap_err(),
        "Problem parsing ipv4 value 01.1.1.1"
    );
    assert_eq!(
        Token::new_no_validation("semver", "1.0.unknown", None).unwrap_err(),
        "Problem parsing semver value 1.0.unknown"
    );
    assert_eq!(
        Token::new_no_validation("ipv6", "1:2:3", None).unwrap_err(),
        "Problem parsing ipv6 value 1:2:3"
    );
}

#[test]
fn a_date_that_does_not_read_names_value_and_format() {
    assert_eq!(
        Token::new("date", "1970/07/31", None, false).unwrap_err(),
        "Problem parsing date value 1970/07/31 using format '%Y-%m-%d'"
    );
    assert_eq!(
        Token::new("date", "1970-02-30", Some("%Y-%m-%d"), true).unwrap_err(),
        "Problem parsing date value 1970-02-30 using format '%Y-%m-%d'"
    );
}

#[test]
fn a_format_that_cannot_show_a_date_is_refused() {
    assert!(Token::new(
        "date",
        "2014-05-17T12:34:56",
        Some("%Y-%m-%dT%H:%M:%S"),
        false
    )
    .is_err());
}

#[test]
fn accessors_give_kind_value_and_format() {
    let date = Token::new("date", "31.07.1970", Some("%d.%m.%Y"), false).unwrap();
    assert_eq!(date.get_type(), "date");
    assert_eq!(date.get_value(), "31.07.1970");
    assert_eq!(date.get_format(), Some("%d.%m.%Y"));

    let plain = Token::new("date", "1970-7-31", None, false).unwrap();
    assert_eq!(plain.get_value(), "1970-07-31");
    assert_eq!(plain.get_format(), Some("%Y-%m-%d"));

    let number = Token::new("number", "003.1400", None, true).unwrap();
    assert_eq!(number.get_type(), "number");
    assert_eq!(number.get_value(), "3.14");
    assert_eq!(number.get_format(), None);

    assert_eq!(
        Token::new("number", "0.0", None, true).unwrap().get_value(),
        "0.0"
    );
    assert_eq!(
        Token::new("integer", "0042", None, true).unwrap().get_value(),
        "42"
    );
    assert_eq!(
        Token::new("ipv4", "127.0.0.1", None, true).unwrap().get_value(),
        "127.0.0.1"
    );
    assert_eq!(
        Token::new("ipv6", "1762:0:0:0:0:B03:1:AF18", None, true)
            .unwrap()
            .get_value(),
        "1762:0:0:0:0:b03:1:af18"
    );
    assert_eq!(
        Token::new("ipv6", "::1", None, true).unwrap().get_value(),
        "0:0:0:0:0:0:0:1"
    );
    assert_eq!(
        Token::new("ipv6", "fe80::", None, true).unwrap().get_value(),
        "fe80:0:0:0:0:0:0:0"
    );
    assert_eq!(
        Token::new("ipv6", "1:2::7:8", None, true).unwrap().get_value(),
        "1:2:0:0:0:0:7:8"
    );
    assert_eq!(
        Token::new("semver", "1.2.3-alpha.1+build.5", None, true)
            .unwrap()
            .get_value(),
        "1.2.3-alpha.1+build.5"
    );
    assert_eq!(
        Token::new("email", "a@b.c", None, true).unwrap().get_value(),
        "a@b.c"
    );
}

#[test]
fn badly_shaped_addresses_are_refused() {
    for text in [":", ":1:2", "1:2:", ":::", "1::2::3", "1:2:3:4:5:6:7:8:9", "12345::", "g::"] {
        assert!(
            Token::new_no_validation("ipv6", text, None).is_err(),
            "{}",
            text
        );
    }
    assert!(Token::new_no_validation("ipv6", "::", None).is_ok());
    assert!(Token::new_no_validation("ipv6", "1:2:3:4:5:6:7::", None).is_ok());
    assert!(Token::new_no_validation("ipv6", "1:2:3:4:5:6:7:8::", None).is_err());
    for text in ["1.2.3", "1.2.3.4.5", "1..2.3", "1.2.3.", "a.b.c.d", "1.2.3.1000"] {
        assert!(
            Token::new_no_validation("ipv4", text, None).is_err(),
            "{}",
            text
        );
    }
}

fn order(kind: &str, a: &str, b: &str) -> Option<Order> {
    let x = Token::new_no_validation(kind, a, None).unwrap();
    let y = Token::new_no_validation(kind, b, None).unwrap();
    x.compare(&y)
}

#[test]
fn tokens_of_one_kind_compare_by_value() {
    assert_eq!(order("integer", "9", "10"), Some(Order::Less));
    assert_eq!(order("integer", "10", "010"), Some(Order::Equal));
    assert_eq!(order("string", "9", "10"), Some(Order::Greater));
    assert_eq!(order("string", "abc", "abd"), Some(Order::Less));
    assert_eq!(order("string", "ab", "abc"), Some(Order::Less));
    assert_eq!(order("number", "9.5", "10.25"), Some(Order::Less));
    assert_eq!(order("number", "1.50", "1.5"), Some(Order::Equal));
    assert_eq!(order("number", "1.15", "1.2"), Some(Order::Less));
    assert_eq!(order("number", "2.0", "1.99"), Some(Order::Greater));
    assert_eq!(order("date", "1970-07-31", "1970-08-01"), Some(Order::Less));
    assert_eq!(order("date", "1971-01-01", "1970-12-31"), Some(Order::Greater));
    assert_eq!(order("ipv4", "9.0.0.1", "10.0.0.1"), Some(Order::Less));
    assert_eq!(order("ipv4", "10.0.1.0", "10.0.0.255"), Some(Order::Greater));
    assert_eq!(order("ipv6", "::9", "::a"), Some(Order::Less));
    assert_eq!(order("ipv6", "::1", "0:0:0:0:0:0:0:1"), Some(Order::Equal));
    assert_eq!(order("email", "a@b.c", "a@b.d"), Some(Order::Less));
}

#[test]
fn versions_compare_as_semantic_versions() {
    assert_eq!(order("semver", "1.5.0", "1.19.0"), Some(Order::Less));
    assert_eq!(order("semver", "1.0.0-alpha", "1.0.0"), Some(Order::Less));
    assert_eq!(order("semver", "1.0.0", "1.0.0-rc.1"), Some(Order::Greater));
    assert_eq!(order("semver", "1.0.0-pre.8", "1.0.0-pre.12"), Some(Order::Less));
    assert_eq!(order("semver", "1.0.0-pre.1", "1.0.0-pre.x"), Some(Order::Less));
    assert_eq!(order("semver", "1.0.0-alpha", "1.0.0-alpha.1"), Some(Order::Less));
    assert_eq!(order("semver", "1.0.0+demo.90", "1.0.0+demo.200"), Some(Order::Less));
    assert_eq!(order("semver", "1.0.0+demo.90", "1.0.0+demo.090"), Some(Order::Less));
    assert_eq!(order("semver", "1.2.3-a+b", "1.2.3-a+b"), Some(Order::Equal));
    assert_eq!(order("semver", "1.20.0", "1.20.0+bc17664"), Some(Order::Less));
}

#[test]
fn tokens_of_two_kinds_do_not_compare() {
    let x = Token::new("integer", "1", None, true).unwrap();
    let y = Token::new("string", "1", None, true).unwrap();
    assert_eq!(x.compare(&y), None);
    assert_eq!(y.compare(&x), None);
}

#[test]
fn exactly_one_of_less_equal_greater() {
    let kinds = [
        ("integer", ["1", "2", "10"]),
        ("number", ["1.0", "1.5", "10.25"]),
        ("string", ["a", "b", "ab"]),
        ("date", ["1970-07-31", "1970-08-01", "1969-01-01"]),
        ("ipv4", ["1.2.3.4", "1.2.3.5", "10.0.0.1"]),
        ("ipv6", ["::1", "::2", "1::"]),
        ("semver", ["1.0.0", "1.0.0-alpha", "1.0.1+x"]),
        ("email", ["a@b.c", "b@b.c", "a@b.d"]),
    ];
    for (kind, values) in kinds {
        for a in values {
            for b in values {
                let forth = order(kind, a, b).unwrap();
                let back = order(kind, b, a).unwrap();
                match forth {
                    Order::Less => assert_eq!(back, Order::Greater),
                    Order::Equal => assert_eq!(back, Order::Equal),
                    Order::Greater => assert_eq!(back, Order::Less),
                }
                assert_eq!(forth == Order::Equal, a == b);
            }
        }
    }
}

#[test]
fn a_copy_made_from_what_a_token_shows_is_equal() {
    let tokens = [
        Token::new("string", "some text", None, true).unwrap(),
        Token::new("number", "003.1400", None, true).unwrap(),
        Token::new("integer", "0042", None, true).unwrap(),
        Token::new("email", "test@gmail.com", None, true).unwrap(),
        Token::new("date", "1970-7-31", None, false).unwrap(),
        Token::new("date", "1970/07/31", Some("%Y/%m/%d"), true).unwrap(),
        Token::new("date", "31Jul70", Some("%d%b%y"), true).unwrap(),
        Token::new("ipv4", "127.0.0.1", None, true).unwrap(),
        Token::new("ipv6", "1762::B03:1:AF18", None, true).unwrap(),
        Token::new("semver", "1.2.3-rc.1+build", None, true).unwrap(),
    ];
    for t in tokens.iter() {
        let copy = t.copy(t.get_value().as_str(), t.get_format()).unwrap();
        assert_eq!(t.compare(&copy), Some(Order::Equal));
        assert_eq!(copy.get_value(), t.get_value());
        assert_eq!(copy.get_type(), t.get_type());
        assert_eq!(copy.get_format(), t.get_format());
    }
}

#[test]
fn copy_keeps_the_format_unless_one_is_given() {
    let t = Token::new("date", "1970/07/31", Some("%Y/%m/%d"), true).unwrap();
    let same = t.copy("1971/01/01", None).unwrap();
    assert_eq!(same.get_format(), Some("%Y/%m/%d"));
    assert_eq!(same.get_value(), "1971/01/01");
    let other = t.copy("01.01.1971", Some("%d.%m.%Y")).unwrap();
    assert_eq!(other.get_format(), Some("%d.%m.%Y"));
    assert_eq!(same.compare(&other), Some(Order::Equal));
    assert!(t.copy("1971-01-01", None).is_err());
}

#[test]
fn now_is_the_day_that_is_handed_in() {
    let day = CalendarDate { year: 2001, month: 2, day: 3 };
    let t = Token::new_on("date", "now()", None, false, day).unwrap();
    assert_eq!(t.get_value(), "2001-02-03");
    let u = Token::new_on("date", "now()", Some("%d/%m/%Y"), true, day).unwrap();
    assert_eq!(u.get_value(), "03/02/2001");
    let fixed = Token::new_on("date", "1999-12-31", None, false, day).unwrap();
    assert_eq!(fixed.get_value(), "1999-12-31");
    let copy = fixed.copy_on("now()", None, day).unwrap();
    assert_eq!(copy.get_value(), "2001-02-03");
    assert!(Token::new_on(
        "date",
        "now()",
        None,
        false,
        CalendarDate { year: 2001, month: 2, day: 30 }
    )
    .is_err());
}

#[test]
fn now_is_today_by_the_clock() {
    let today = chrono::Utc::now().date_naive().format("%Y-%m-%d").to_string();
    let t = Token::new("date", "now()", None, true).unwrap();
    let u = Token::new("date", today.as_str(), None, true).unwrap();
    // one day apart at most, should midnight fall between the two readings
    assert!(t.compare(&u) == Some(Order::Equal) || t.compare(&u) == Some(Order::Less));
}

#[test]
fn is_match_takes_a_regular_expression() {
    let t = Token::new("string", "test-42", None, true).unwrap();
    assert!(t.is_match("^test-\\d+$"));
    assert!(t.is_match("st-4"));
    assert!(!t.is_match("^\\d+$"));
    assert!(!t.is_match("(unclosed"));
    let n = Token::new("integer", "0042", None, true).unwrap();
    assert!(n.is_match("^42$"));
}

#[test]
fn lines_keep_their_line_feeds() {
    assert_eq!(full_lines(""), Vec::<String>::new());
    assert_eq!(full_lines("a"), vec!["a"]);
    assert_eq!(full_lines("a\n"), vec!["a\n"]);
    assert_eq!(full_lines("a\nb"), vec!["a\n", "b"]);
    assert_eq!(full_lines("\n\nx y\r\n"), vec!["\n", "\n", "x y\r\n"]);
    let text = "one\ntwo\n\nthree";
    assert_eq!(full_lines(text).concat(), text);
}

#[test]
fn tokens_take_the_usual_operators() {
    let a = Token::new("integer", "9", None, true).unwrap();
    let b = Token::new("integer", "10", None, true).unwrap();
    let c = Token::new("integer", "010", None, true).unwrap();
    let s = Token::new("string", "10", None, true).unwrap();
    assert!(a < b);
    assert!(a <= b);
    assert!(b > a);
    assert!(b >= c);
    assert!(b <= c);
    assert!(b == c);
    assert!(a != b);
    assert!(!(b < c));
    assert!(b != s);
    assert!(!(b < s) && !(b > s) && !(b <= s) && !(b >= s));
    assert_eq!(b.partial_cmp(&s), None);
    assert_eq!(a.partial_cmp(&b), Some(std::cmp::Ordering::Less));
    let early = Token::new("date", "31.12.1969", Some("%d.%m.%Y"), true).unwrap();
    let late = Token::new("date", "1970-01-01", None, true).unwrap();
    assert!(early < late);
    assert!(early.copy("01.01.1970", None).unwrap() == late);
}
