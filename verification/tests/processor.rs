use semfilter::calendar::CalendarDate;
use semfilter::cli::parse_cli;
use semfilter::grammar::parse_expression;
use semfilter::processor::{process_input, process_input_on, process_line};
use semfilter::text::trim;

fn day() -> CalendarDate {
    CalendarDate { year: 2001, month: 2, day: 3 }
}

#[test]
fn a_line_is_split_and_its_fields_are_trimmed() {
    let query = parse_expression("string(1) == b && integer(2) == 3").unwrap();
    assert_eq!(process_line(&query, " ", "a b 3\n", day()), Ok(true));
    assert_eq!(process_line(&query, ",", "a,  b ,3\r\n", day()), Ok(true));
    assert_eq!(process_line(&query, ",", "a b 3\n", day()), Ok(false));
    assert_eq!(process_line(&query, " +", "a    b  3", day()), Ok(true));
    assert_eq!(process_line(&query, " ", "a  b 3", day()), Ok(false));
    assert_eq!(process_line(&query, "[,;]", "a;b,3", day()), Ok(true));
}

#[test]
fn a_separator_that_is_no_regular_expression_is_an_error() {
    let query = parse_expression("string(0) == a").unwrap();
    assert_eq!(
        process_line(&query, "(", "a b", day()),
        Err("Invalid token separator: (".to_string())
    );
}

#[test]
fn lines_that_pass_come_out_as_they_came() {
    let args = parse_cli("integer(1) >= 10", None, None).unwrap();
    let input = "a 9 x\nb 10 y\n\nc 11\nd ten\ne 12";
    let outcome = process_input_on(&args, input, day());
    assert_eq!(outcome.output, "b 10 y\nc 11\ne 12");
    assert_eq!(outcome.error, None);
    let again = process_input(&args, input);
    assert_eq!(again.output, "b 10 y\nc 11\ne 12");
    assert_eq!(again.error, None);
    let nothing = process_input_on(&args, "", day());
    assert_eq!(nothing.output, "");
    assert_eq!(nothing.error, None);
}

#[test]
fn the_run_ends_at_the_first_error() {
    let args = parse_cli("date(0) == 2001-02-03 || date(0) match x", None, Some(",")).unwrap();
    let outcome = process_input_on(&args, "x\nnow()\n2001-02-03\nnow()\n", day());
    assert_eq!(outcome.output, "");
    assert_eq!(
        outcome.error,
        Some("Error in expression: only string type is allowed for match expressions".to_string())
    );
    let args = parse_cli("date(0) == now() && date(1) == junk", None, Some(",")).unwrap();
    let outcome = process_input_on(&args, "now(),x\n2001-02-03\nx,1970-01-01\n1970-01-01,1970-01-01\nnow()\n", day());
    assert_eq!(outcome.output, "");
    assert_eq!(
        outcome.error,
        Some(
            "Error in expression: Problem parsing date value junk using format '%Y-%m-%d'"
                .to_string()
        )
    );
    let args = parse_cli("integer(0) > 1 && string(*) in [a]", None, Some("(")).unwrap();
    let outcome = process_input_on(&args, "2 a\n", day());
    assert_eq!(outcome.output, "");
    assert_eq!(
        outcome.error,
        Some("Error in expression: Invalid token separator: (".to_string())
    );
}

#[test]
fn output_before_an_error_is_kept() {
    let args = parse_cli("string(0) == a || integer(1) < 5 || date(2) match x", None, None).unwrap();
    let outcome = process_input_on(&args, "a\nb 3\nc 9\nd 9 1970-01-01\na\n", day());
    assert_eq!(outcome.output, "a\nb 3\n");
    assert_eq!(
        outcome.error,
        Some("Error in expression: only string type is allowed for match expressions".to_string())
    );
}

#[test]
fn what_is_no_query_ends_the_run_at_once() {
    let args = parse_cli("date(0) ==", None, None).unwrap();
    let outcome = process_input_on(&args, "1970-01-01\n", day());
    assert_eq!(outcome.output, "");
    assert_eq!(
        outcome.error,
        Some(
            "Error parsing expression: the expression does not follow the grammar: date(0) =="
                .to_string()
        )
    );
}

#[test]
fn trimming_takes_white_space_from_both_ends() {
    assert_eq!(trim("  a b \t\r\n"), "a b");
    assert_eq!(trim("\u{a0}\u{3000}x\u{2028}"), "x");
    assert_eq!(trim("   "), "");
    assert_eq!(trim(""), "");
    assert_eq!(trim("x"), "x");
    assert_eq!(trim("\u{200b}x"), "\u{200b}x");
}
