use semfilter::address::{Ipv4Address, Ipv6Address};
use semfilter::calendar::{read_day, show_day, CalendarDate};
use semfilter::grammar::parse_expression;
use semfilter::number::Decimal;
use semfilter::pattern::pattern_matches;
use semfilter::text::{
    chars_of, compare_numbers, compare_text, decimal_string, parse_u64, text_eq, Order,
};
use semfilter::version::SemVer;

#[test]
fn unsigned_numbers_are_read_and_written_in_decimal() {
    assert_eq!(parse_u64("0"), Some(0));
    assert_eq!(parse_u64("0042"), Some(42));
    assert_eq!(parse_u64("+42"), Some(42));
    assert_eq!(parse_u64("18446744073709551615"), Some(u64::MAX));
    assert_eq!(parse_u64("18446744073709551616"), None);
    assert_eq!(parse_u64("99999999999999999999999"), None);
    assert_eq!(parse_u64(""), None);
    assert_eq!(parse_u64("+"), None);
    assert_eq!(parse_u64("-1"), None);
    assert_eq!(parse_u64("4 2"), None);
    assert_eq!(parse_u64("٤٢"), None);
    assert_eq!(decimal_string(0), "0");
    assert_eq!(decimal_string(42), "42");
    assert_eq!(decimal_string(1000), "1000");
    assert_eq!(decimal_string(u64::MAX), "18446744073709551615");
    for n in [0, 7, 10, 99, 100, 12345, u64::MAX] {
        assert_eq!(parse_u64(decimal_string(n).as_str()), Some(n));
    }
}

#[test]
fn texts_compare_character_by_character() {
    assert_eq!(chars_of("aé☃"), vec!['a', 'é', '☃']);
    assert!(text_eq("abc", "abc"));
    assert!(!text_eq("abc", "abd"));
    assert!(!text_eq("abc", "ab"));
    assert_eq!(compare_text("", ""), Order::Equal);
    assert_eq!(compare_text("", "a"), Order::Less);
    assert_eq!(compare_text("b", "a"), Order::Greater);
    assert_eq!(compare_text("Z", "a"), Order::Less);
    assert_eq!(compare_text("é", "z"), Order::Greater);
    assert_eq!(compare_numbers(1, 2), Order::Less);
    assert_eq!(compare_numbers(2, 2), Order::Equal);
    assert_eq!(compare_numbers(3, 2), Order::Greater);
}

#[test]
fn numbers_keep_their_shortest_form() {
    let d = Decimal::parse("0010.0500").unwrap();
    assert_eq!(d.whole, "10");
    assert_eq!(d.frac, "05");
    assert_eq!(d.show(), "10.05");
    let zero = Decimal::parse("000.000").unwrap();
    assert_eq!(zero.show(), "0.0");
    assert_eq!(zero.compare(&Decimal::parse("0.0").unwrap()), Order::Equal);
    assert_eq!(zero.compare(&Decimal::parse("0.01").unwrap()), Order::Less);
    let long = Decimal::parse("123456789012345678901234567890.123456789012345678901").unwrap();
    let longer = Decimal::parse("123456789012345678901234567890.123456789012345678902").unwrap();
    assert_eq!(long.compare(&longer), Order::Less);
    assert_eq!(long.show(), "123456789012345678901234567890.123456789012345678901");
    for text in ["", ".", "1.", ".5", "1", "1.2.3", "1,5", "-1.5", "1e5", "1.5e3", " 1.5"] {
        assert!(Decimal::parse(text).is_none(), "{}", text);
    }
}

#[test]
fn addresses_are_read_into_octets_and_groups() {
    assert_eq!(Ipv4Address::parse("127.0.0.1").unwrap().octets, [127, 0, 0, 1]);
    assert_eq!(Ipv4Address::parse("255.255.255.255").unwrap().octets, [255; 4]);
    assert_eq!(Ipv4Address::parse("0.0.0.0").unwrap().show(), "0.0.0.0");
    assert_eq!(
        Ipv6Address::parse("1762:0:0:0:0:B03:1:AF18").unwrap().groups,
        [0x1762, 0, 0, 0, 0, 0xb03, 1, 0xaf18]
    );
    assert_eq!(Ipv6Address::parse("::").unwrap().groups, [0; 8]);
    assert_eq!(Ipv6Address::parse("::1").unwrap().groups, [0, 0, 0, 0, 0, 0, 0, 1]);
    assert_eq!(Ipv6Address::parse("1::").unwrap().groups, [1, 0, 0, 0, 0, 0, 0, 0]);
    assert_eq!(
        Ipv6Address::parse("1:2::7:8").unwrap().groups,
        [1, 2, 0, 0, 0, 0, 7, 8]
    );
    assert_eq!(
        Ipv6Address::parse("1:2:3:4:5:6:7::").unwrap().groups,
        [1, 2, 3, 4, 5, 6, 7, 0]
    );
    assert_eq!(
        Ipv6Address::parse("::2:3:4:5:6:7:8").unwrap().groups,
        [0, 2, 3, 4, 5, 6, 7, 8]
    );
    assert_eq!(
        Ipv6Address::parse("ffff:FFFF:0:00:000:0000:f:0f").unwrap().show(),
        "ffff:ffff:0:0:0:0:f:f"
    );
    assert!(Ipv6Address::parse("::ffff:1.2.3.4").is_none());
    assert!(Ipv6Address::parse("").is_none());
}

#[test]
fn versions_are_read_into_their_parts() {
    let v = SemVer::parse("1.2.3-alpha.1+build.5").unwrap();
    assert_eq!((v.major, v.minor, v.patch), (1, 2, 3));
    assert_eq!(v.pre, "alpha.1");
    assert_eq!(v.build, "build.5");
    assert_eq!(v.show(), "1.2.3-alpha.1+build.5");
    let plain = SemVer::parse("10.20.30").unwrap();
    assert_eq!(plain.pre, "");
    assert_eq!(plain.build, "");
    assert_eq!(plain.show(), "10.20.30");
    assert_eq!(SemVer::parse("1.0.0+x").unwrap().show(), "1.0.0+x");
    for text in ["", "1", "1.0", "1.0.01", "1.0.0-", "1.0.0+", "1.0.0-a_b", "v1.0.0", "1.0.0 "] {
        assert!(SemVer::parse(text).is_none(), "{}", text);
    }
    // parts that are no versions still compare, as plain text
    let odd = SemVer { major: 1, minor: 0, patch: 0, pre: "a_b".to_string(), build: String::new() };
    let other = SemVer { major: 1, minor: 0, patch: 0, pre: "a_c".to_string(), build: String::new() };
    assert_eq!(odd.compare(&other), Order::Less);
    assert_eq!(other.compare(&odd), Order::Greater);
    assert_eq!(odd.compare(&odd), Order::Equal);
}

#[test]
fn days_are_read_and_shown_under_a_format() {
    assert_eq!(
        read_day("1970-07-31", "%Y-%m-%d"),
        Some(CalendarDate { year: 1970, month: 7, day: 31 })
    );
    assert_eq!(
        read_day("31 July 1970", "%d %B %Y"),
        Some(CalendarDate { year: 1970, month: 7, day: 31 })
    );
    assert_eq!(read_day("1970-07-32", "%Y-%m-%d"), None);
    assert_eq!(read_day("1970-07", "%Y-%m"), None);
    assert_eq!(read_day("1970-07-31", "%Y-%m-%d trailing"), None);
    let day = CalendarDate { year: 1970, month: 7, day: 31 };
    assert_eq!(show_day(day, "%Y-%m-%d"), Some("1970-07-31".to_string()));
    assert_eq!(show_day(day, "%d %B %Y"), Some("31 July 1970".to_string()));
    assert_eq!(show_day(day, "%A, %-d %B, %C%y"), Some("Friday, 31 July, 1970".to_string()));
    // shown, but not enough to read the day back
    assert_eq!(show_day(day, "%Y-%m"), None);
    assert_eq!(show_day(day, "%H:%M"), None);
    assert_eq!(show_day(CalendarDate { year: 1970, month: 2, day: 30 }, "%Y-%m-%d"), None);
    assert_eq!(
        day.compare(&CalendarDate { year: 1970, month: 8, day: 1 }),
        Order::Less
    );
    assert_eq!(day.compare(&day), Order::Equal);
    let today = CalendarDate::today();
    assert!(1 <= today.month && today.month <= 12);
    assert!(1 <= today.day && today.day <= 31);
    assert!(today.year >= 2024);
}

#[test]
fn patterns_are_regular_expressions() {
    assert!(pattern_matches("^a+$", "aaa"));
    assert!(!pattern_matches("^a+$", "aab"));
    assert!(pattern_matches("", "anything"));
    assert!(pattern_matches("\\d", "٤"));
    assert!(!pattern_matches("(", "("));
}

#[test]
fn a_copy_of_a_query_is_the_same_query() {
    let tree = parse_expression("date(0, %Y) == now() && (string(*) in [a, b] || integer(1) < 2)")
        .unwrap();
    let copy = tree.clone();
    assert_eq!(format!("{:?}", copy), format!("{:?}", tree));
}
