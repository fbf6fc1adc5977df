//! Tokens: one field of a line, read as a value of one kind.

use crate::address::{
    groups_order, ipv4_shown, ipv6_shown, octets_order, parse_ipv4_spec, parse_ipv6_spec,
    Ipv4Address, Ipv6Address,
};
use crate::calendar::{
    day_parsed, day_shown, read_day, show_day, today_utc, CalendarDate, DateValue, DateView,
};
use crate::number::{parse_decimal_spec, Decimal, DecimalView};
use crate::parser::{is_match, TokenType};
use crate::pattern::{pattern_matches, regex_matches};
use crate::text::{
    compare_numbers, compare_text, decimal_string, decimal_text, lex_order, number_order,
    parse_u64, parse_u64_spec, text_eq, Order,
};
use crate::version::{version_read, SemVer, SemVerView};
use std::cmp::Ordering;
use vstd::prelude::*;
use vstd::string::StringExecFns;

verus! {

/// One field of a line, read as a value of one kind. Each variant holds the
/// name of its kind and the value; a date also holds its format.
#[derive(Debug)]
pub enum Token {
    String(String, String),
    Number(String, Decimal),
    Integer(String, u64),
    Email(String, String),
    Date(String, DateValue, String),
    Ipv4(String, Ipv4Address),
    Ipv6(String, Ipv6Address),
    SemVersion(String, SemVer),
}

/// What a `Token` holds.
pub enum TokenView {
    String(Seq<char>, Seq<char>),
    Number(Seq<char>, DecimalView),
    Integer(Seq<char>, u64),
    Email(Seq<char>, Seq<char>),
    Date(Seq<char>, DateView, Seq<char>),
    Ipv4(Seq<char>, Seq<u8>),
    Ipv6(Seq<char>, Seq<u16>),
    SemVersion(Seq<char>, SemVerView),
}

impl View for Token {
    type V = TokenView;

    open spec fn view(&self) -> TokenView {
        match self {
            Token::String(t, v) => TokenView::String(t@, v@),
            Token::Number(t, v) => TokenView::Number(t@, v@),
            Token::Integer(t, v) => TokenView::Integer(t@, *v),
            Token::Email(t, v) => TokenView::Email(t@, v@),
            Token::Date(t, v, f) => TokenView::Date(t@, v@, f@),
            Token::Ipv4(t, v) => TokenView::Ipv4(t@, v@),
            Token::Ipv6(t, v) => TokenView::Ipv6(t@, v@),
            Token::SemVersion(t, v) => TokenView::SemVersion(t@, v@),
        }
    }
}

/// The format of a date where none is given.
pub open spec fn default_format() -> Seq<char> {
    "%Y-%m-%d"@
}

/// The text that stands for today's date.
pub open spec fn now_literal() -> Seq<char> {
    "now()"@
}

/// What a format argument holds.
pub open spec fn format_view(format: Option<&str>) -> Option<Seq<char>> {
    match format {
        Some(f) => Some(f@),
        None => None,
    }
}

/// The error for a kind that is not known, or whose shape the value lacks.
pub open spec fn unsupported_message(type_term: Seq<char>) -> Seq<char> {
    "Type "@ + type_term + " not supported"@
}

/// The error for a value that cannot be read as its kind.
pub open spec fn problem_message(type_term: Seq<char>, value: Seq<char>) -> Seq<char> {
    "Problem parsing "@ + type_term + " value "@ + value
}

/// The error for a date that cannot be read under its format, or cannot be
/// shown under it again.
pub open spec fn date_message(value: Seq<char>, format: Seq<char>) -> Seq<char> {
    "Problem parsing date value "@ + value + " using format '"@ + format + "'"@
}

/// The date token for `value` under `format`: today for the text `now()`,
/// else the day that the value reads as. The day must show under the format
/// as a text that reads back as the same day and is not `now()` itself.
pub open spec fn date_token(value: Seq<char>, format: Seq<char>, today: CalendarDate) -> Result<
    TokenView,
    Seq<char>,
> {
    let day = if value == now_literal() {
        Some(today)
    } else {
        day_parsed(value, format)
    };
    match day {
        Some(d) => match day_shown(d, format) {
            Some(text) => if text != now_literal() {
                Ok(TokenView::Date("date"@, DateView { date: d, shown: text }, format))
            } else {
                Err(date_message(value, format))
            },
            None => Err(date_message(value, format)),
        },
        None => Err(date_message(value, format)),
    }
}

/// The value of kind `kind` that `value` reads as, under the name `tag`.
/// Dates and strings are not read here.
pub open spec fn value_read(kind: TokenType, tag: Seq<char>, value: Seq<char>) -> Option<
    TokenView,
> {
    match kind {
        TokenType::Email => Some(TokenView::Email(tag, value)),
        TokenType::Number => match parse_decimal_spec(value) {
            Some(d) => Some(TokenView::Number(tag, d)),
            None => None,
        },
        TokenType::Integer => match parse_u64_spec(value) {
            Some(n) => Some(TokenView::Integer(tag, n)),
            None => None,
        },
        TokenType::Ipv4 => match parse_ipv4_spec(value) {
            Some(a) => Some(TokenView::Ipv4(tag, a)),
            None => None,
        },
        TokenType::Ipv6 => match parse_ipv6_spec(value) {
            Some(a) => Some(TokenView::Ipv6(tag, a)),
            None => None,
        },
        TokenType::SemVersion => match version_read(value) {
            Some(v) => Some(TokenView::SemVersion(tag, v)),
            None => None,
        },
        _ => None,
    }
}

/// The token that `Token::new` builds, or the message of its error.
///
/// A kind that is not known is an error. A string is taken as it is. Of
/// the other kinds the value must have the shape of the kind where
/// `validate` is set, and must read as a value of the kind in either case.
/// A date is read under the given format, or under `%Y-%m-%d` where none is
/// given, and `now()` stands for `today`; the shape of a date is that of
/// `%Y-%m-%d`, so it is asked for only where no format is given, and not of
/// `now()`.
pub open spec fn construct(
    type_term: Seq<char>,
    value: Seq<char>,
    format: Option<Seq<char>>,
    validate: bool,
    today: CalendarDate,
) -> Result<TokenView, Seq<char>> {
    match TokenType::named(type_term) {
        None => Err(unsupported_message(type_term)),
        Some(TokenType::Date) => if validate && format is None && value != now_literal()
            && !TokenType::Date.accepts(value) {
            Err(unsupported_message(type_term))
        } else {
            date_token(
                value,
                match format {
                    Some(f) => f,
                    None => default_format(),
                },
                today,
            )
        },
        Some(TokenType::String) => Ok(TokenView::String(type_term, value)),
        Some(kind) => if validate && !kind.accepts(value) {
            Err(unsupported_message(type_term))
        } else {
            match value_read(kind, type_term, value) {
                Some(t) => Ok(t),
                None => Err(problem_message(type_term, value)),
            }
        },
    }
}

/// Whether building the token looks at today's date.
pub open spec fn reads_clock(type_term: Seq<char>, value: Seq<char>) -> bool {
    type_term == "date"@ && value == now_literal()
}

/// Whether `result` is what `want` says: the token with that view, or the
/// error with that message.
pub open spec fn built(result: Result<Token, String>, want: Result<TokenView, Seq<char>>) -> bool {
    match (result, want) {
        (Ok(t), Ok(v)) => t@ == v,
        (Err(e), Err(m)) => e@ == m,
        _ => false,
    }
}

impl TokenView {
    /// The name of the token's kind, as the token holds it.
    pub open spec fn tag(self) -> Seq<char> {
        match self {
            TokenView::String(t, _) => t,
            TokenView::Number(t, _) => t,
            TokenView::Integer(t, _) => t,
            TokenView::Email(t, _) => t,
            TokenView::Date(t, _, _) => t,
            TokenView::Ipv4(t, _) => t,
            TokenView::Ipv6(t, _) => t,
            TokenView::SemVersion(t, _) => t,
        }
    }

    /// The value written out as text.
    pub open spec fn shown(self) -> Seq<char> {
        match self {
            TokenView::String(_, v) => v,
            TokenView::Number(_, v) => v.shown(),
            TokenView::Integer(_, v) => decimal_text(v as nat),
            TokenView::Email(_, v) => v,
            TokenView::Date(_, v, _) => v.shown,
            TokenView::Ipv4(_, v) => ipv4_shown(v),
            TokenView::Ipv6(_, v) => ipv6_shown(v),
            TokenView::SemVersion(_, v) => v.shown(),
        }
    }

    /// The format, which only a date has.
    pub open spec fn format(self) -> Option<Seq<char>> {
        match self {
            TokenView::Date(_, _, f) => Some(f),
            _ => None,
        }
    }

    /// The token is one that `construct` builds: it bears the name of its
    /// kind, its value is in shortest form, and what it shows reads back as
    /// the same value.
    pub open spec fn wf(self) -> bool {
        match self {
            TokenView::String(t, _) => t == "string"@,
            TokenView::Number(t, v) => t == "number"@ && v.wf(),
            TokenView::Integer(t, _) => t == "integer"@,
            TokenView::Email(t, _) => t == "email"@,
            TokenView::Date(t, v, f) => t == "date"@ && day_shown(v.date, f) == Some(v.shown)
                && v.shown != now_literal(),
            TokenView::Ipv4(t, v) => t == "ipv4"@ && v.len() == 4,
            TokenView::Ipv6(t, v) => t == "ipv6"@ && v.len() == 8,
            TokenView::SemVersion(t, v) => t == "semver"@ && version_read(v.shown()) == Some(v),
        }
    }

    /// How two tokens of one kind stand to each other by their values:
    /// dates by the calendar, numbers by size, addresses by their octets or
    /// groups, versions as `semver` orders them, texts in dictionary order.
    /// Tokens of two kinds do not compare.
    pub open spec fn order(self, other: TokenView) -> Option<Order> {
        match (self, other) {
            (TokenView::String(_, a), TokenView::String(_, b)) => Some(lex_order(a, b)),
            (TokenView::Number(_, a), TokenView::Number(_, b)) => Some(a.order(b)),
            (TokenView::Integer(_, a), TokenView::Integer(_, b)) => Some(number_order(a, b)),
            (TokenView::Email(_, a), TokenView::Email(_, b)) => Some(lex_order(a, b)),
            (TokenView::Date(_, a, _), TokenView::Date(_, b, _)) => Some(a.date.order(b.date)),
            (TokenView::Ipv4(_, a), TokenView::Ipv4(_, b)) => Some(octets_order(a, b, 0)),
            (TokenView::Ipv6(_, a), TokenView::Ipv6(_, b)) => Some(groups_order(a, b, 0)),
            (TokenView::SemVersion(_, a), TokenView::SemVersion(_, b)) => Some(a.order(b)),
            _ => None,
        }
    }

    /// Whether two tokens are of one kind.
    pub open spec fn same_kind(self, other: TokenView) -> bool {
        self.order(other) is Some
    }
}

/// The format under which `copy` reads: the one given, else that of the
/// token copied.
pub open spec fn copy_format(source: TokenView, format: Option<Seq<char>>) -> Option<Seq<char>> {
    if format is Some {
        format
    } else {
        source.format()
    }
}

fn unsupported(type_term: &str) -> (r: String)
    ensures
        r@ == unsupported_message(type_term@),
{
    let mut out = String::from_str("Type ");
    out.append(type_term);
    out.append(" not supported");
    out
}

fn problem(type_term: &str, value: &str) -> (r: String)
    ensures
        r@ == problem_message(type_term@, value@),
{
    let mut out = String::from_str("Problem parsing ");
    out.append(type_term);
    out.append(" value ");
    out.append(value);
    out
}

fn date_problem(value: &str, format: &str) -> (r: String)
    ensures
        r@ == date_message(value@, format@),
{
    let mut out = String::from_str("Problem parsing date value ");
    out.append(value);
    out.append(" using format '");
    out.append(format);
    out.append("'");
    out
}

/// What is built is well formed.
pub proof fn lemma_construct_wf(
    type_term: Seq<char>,
    value: Seq<char>,
    format: Option<Seq<char>>,
    validate: bool,
    today: CalendarDate,
)
    ensures
        construct(type_term, value, format, validate, today) matches Ok(t) ==> t.wf()
            && t.tag() == type_term,
{
    TokenType::lemma_name_named(type_term);
    let built = construct(type_term, value, format, validate, today);
    if built is Ok {
        let t = built->Ok_0;
        match TokenType::named(type_term) {
            Some(TokenType::Number) => {
                let dot = crate::text::first_index_of(value, '.');
                crate::text::lemma_first_index_of(value, '.');
                crate::number::lemma_trim_leading(value.take(dot));
                crate::number::lemma_trim_trailing(value.skip(dot + 1));
                assert(t.wf());
            },
            Some(TokenType::Ipv4) => {
                assert(t.wf());
            },
            Some(TokenType::Ipv6) => {
                crate::address::lemma_ipv6_parsed_len(value);
                assert(t.wf());
            },
            Some(TokenType::SemVersion) => {
                assert(t.wf());
            },
            Some(TokenType::Date) => {
                assert(t.wf());
            },
            Some(TokenType::Email) => {
                assert(t.wf());
            },
            Some(TokenType::Integer) => {
                assert(t.wf());
            },
            Some(TokenType::String) => {
                assert(t.wf());
            },
            None => {},
        }
    }
}

impl Token {
    /// Builds a token without asking for the shape of the kind.
    pub fn new_no_validation(type_term: &str, value: &str, format: Option<&str>) -> (r: Result<
        Token,
        String,
    >)
        ensures
            exists|today: CalendarDate|
                today.in_range() && built(
                    r,
                    construct(type_term@, value@, format_view(format), false, today),
                ),
            !reads_clock(type_term@, value@) ==> forall|today: CalendarDate|
                built(r, construct(type_term@, value@, format_view(format), false, today)),
            r matches Ok(t) ==> t@.wf(),
    {
        Token::new(type_term, value, format, false)
    }

    /// Builds a token of the kind that `type_term` names from `value`; see
    /// `construct`. Today's date is read from the clock where `value` is
    /// `now()` and the kind is a date.
    pub fn new(type_term: &str, value: &str, format: Option<&str>, validate: bool) -> (r: Result<
        Token,
        String,
    >)
        ensures
            exists|today: CalendarDate|
                today.in_range() && built(
                    r,
                    construct(type_term@, value@, format_view(format), validate, today),
                ),
            !reads_clock(type_term@, value@) ==> forall|today: CalendarDate|
                built(r, construct(type_term@, value@, format_view(format), validate, today)),
            r matches Ok(t) ==> t@.wf(),
    {
        let today = if text_eq(type_term, "date") && text_eq(value, "now()") {
            today_utc()
        } else {
            CalendarDate { year: 1970, month: 1, day: 1 }
        };
        let r = Token::new_on(type_term, value, format, validate, today);
        proof {
            assert(today.in_range());
            assert(built(r, construct(type_term@, value@, format_view(format), validate, today)));
        }
        r
    }

    /// Builds a token as `new` does, with `today` for today's date.
    pub fn new_on(
        type_term: &str,
        value: &str,
        format: Option<&str>,
        validate: bool,
        today: CalendarDate,
    ) -> (r: Result<Token, String>)
        ensures
            built(r, construct(type_term@, value@, format_view(format), validate, today)),
            r matches Ok(t) ==> t@.wf(),
    {
        proof {
            lemma_construct_wf(type_term@, value@, format_view(format), validate, today);
        }
        let kind = match TokenType::from_name(type_term) {
            Some(kind) => kind,
            None => {
                return Err(unsupported(type_term));
            },
        };
        match kind {
            TokenType::Date => {
                return match format {
                    Some(f) => Token::try_parse_date(value, f, today),
                    None => if validate && !text_eq(value, "now()") && !is_match(&kind, value) {
                        Err(unsupported(type_term))
                    } else {
                        Token::try_parse_date(value, "%Y-%m-%d", today)
                    },
                };
            },
            TokenType::String => {
                return Ok(Token::String(String::from_str(type_term), String::from_str(value)));
            },
            _ => {},
        }
        if validate && !is_match(&kind, value) {
            return Err(unsupported(type_term));
        }
        let tag = String::from_str(type_term);
        let read = match kind {
            TokenType::Email => Some(Token::Email(tag, String::from_str(value))),
            TokenType::Number => match Decimal::parse(value) {
                Some(d) => Some(Token::Number(tag, d)),
                None => None,
            },
            TokenType::Integer => match parse_u64(value) {
                Some(n) => Some(Token::Integer(tag, n)),
                None => None,
            },
            TokenType::Ipv4 => match Ipv4Address::parse(value) {
                Some(a) => Some(Token::Ipv4(tag, a)),
                None => None,
            },
            TokenType::Ipv6 => match Ipv6Address::parse(value) {
                Some(a) => Some(Token::Ipv6(tag, a)),
                None => None,
            },
            TokenType::SemVersion => match SemVer::parse(value) {
                Some(v) => Some(Token::SemVersion(tag, v)),
                None => None,
            },
            _ => None,
        };
        match read {
            Some(t) => Ok(t),
            None => Err(problem(type_term, value)),
        }
    }

    /// Builds a token of the kind of `self` from `value`, without asking for
    /// the shape of the kind. A date is read under `format`, or under the
    /// format of `self` where none is given.
    pub fn copy(&self, value: &str, format: Option<&str>) -> (r: Result<Token, String>)
        ensures
            exists|today: CalendarDate|
                today.in_range() && built(
                    r,
                    construct(
                        self@.tag(),
                        value@,
                        copy_format(self@, format_view(format)),
                        false,
                        today,
                    ),
                ),
            !reads_clock(self@.tag(), value@) ==> forall|today: CalendarDate|
                built(
                    r,
                    construct(
                        self@.tag(),
                        value@,
                        copy_format(self@, format_view(format)),
                        false,
                        today,
                    ),
                ),
            r matches Ok(t) ==> t@.wf(),
    {
        let format = if format.is_some() {
            format
        } else {
            self.get_format()
        };
        Token::new(self.get_type().as_str(), value, format, false)
    }

    /// Builds a token as `copy` does, with `today` for today's date.
    pub fn copy_on(&self, value: &str, format: Option<&str>, today: CalendarDate) -> (r: Result<
        Token,
        String,
    >)
        ensures
            built(
                r,
                construct(
                    self@.tag(),
                    value@,
                    copy_format(self@, format_view(format)),
                    false,
                    today,
                ),
            ),
            r matches Ok(t) ==> t@.wf(),
    {
        let format = if format.is_some() {
            format
        } else {
            self.get_format()
        };
        Token::new_on(self.get_type().as_str(), value, format, false, today)
    }

    fn try_parse_date(value: &str, f: &str, today: CalendarDate) -> (r: Result<Token, String>)
        ensures
            built(r, date_token(value@, f@, today)),
    {
        let day = if text_eq(value, "now()") {
            Some(today)
        } else {
            read_day(value, f)
        };
        match day {
            Some(d) => match show_day(d, f) {
                Some(text) => if !text_eq(text.as_str(), "now()") {
                    Ok(
                        Token::Date(
                            String::from_str("date"),
                            DateValue { date: d, shown: text },
                            String::from_str(f),
                        ),
                    )
                } else {
                    Err(date_problem(value, f))
                },
                None => Err(date_problem(value, f)),
            },
            None => Err(date_problem(value, f)),
        }
    }

    fn get_value_tuple(&self) -> (r: (String, String, Option<&str>))
        ensures
            r.0@ == self@.tag(),
            r.1@ == self@.shown(),
            format_view(r.2) == self@.format(),
    {
        match self {
            Token::Date(t, v, f) => (t.clone(), v.shown.clone(), Some(f.as_str())),
            Token::String(t, v) => (t.clone(), v.clone(), None),
            Token::Integer(t, v) => (t.clone(), decimal_string(*v), None),
            Token::Number(t, v) => (t.clone(), v.show(), None),
            Token::Email(t, v) => (t.clone(), v.clone(), None),
            Token::Ipv4(t, v) => (t.clone(), v.show(), None),
            Token::Ipv6(t, v) => (t.clone(), v.show(), None),
            Token::SemVersion(t, v) => (t.clone(), v.show(), None),
        }
    }

    /// The format, which only a date has.
    pub fn get_format(&self) -> (r: Option<&str>)
        ensures
            format_view(r) == self@.format(),
    {
        match self {
            Token::Date(_, _, f) => Some(f.as_str()),
            _ => None,
        }
    }

    /// The value written out as text.
    pub fn get_value(&self) -> (r: String)
        ensures
            r@ == self@.shown(),
    {
        let (_, value, _) = self.get_value_tuple();
        value
    }

    /// The name of the token's kind.
    pub fn get_type(&self) -> (r: String)
        ensures
            r@ == self@.tag(),
    {
        let (token_type, _, _) = self.get_value_tuple();
        token_type
    }

    /// Whether the regular expression `regex_val` matches somewhere in the
    /// value written out as text. What is no regular expression matches
    /// nothing.
    pub fn is_match(&self, regex_val: &str) -> (r: bool)
        ensures
            r == (regex_matches(regex_val@, self@.shown()) == Some(true)),
    {
        let v = self.get_value();
        pattern_matches(regex_val, v.as_str())
    }

    /// How `self` stands to `other`, where both are of one kind.
    pub fn compare(&self, other: &Token) -> (r: Option<Order>)
        ensures
            r == self@.order(other@),
    {
        match (self, other) {
            (Token::String(_, a), Token::String(_, b)) => Some(
                compare_text(a.as_str(), b.as_str()),
            ),
            (Token::Number(_, a), Token::Number(_, b)) => Some(a.compare(b)),
            (Token::Integer(_, a), Token::Integer(_, b)) => Some(compare_numbers(*a, *b)),
            (Token::Email(_, a), Token::Email(_, b)) => Some(compare_text(a.as_str(), b.as_str())),
            (Token::Date(_, a, _), Token::Date(_, b, _)) => Some(a.date.compare(&b.date)),
            (Token::Ipv4(_, a), Token::Ipv4(_, b)) => Some(a.compare(b)),
            (Token::Ipv6(_, a), Token::Ipv6(_, b)) => Some(a.compare(b)),
            (Token::SemVersion(_, a), Token::SemVersion(_, b)) => Some(a.compare(b)),
            _ => None,
        }
    }
}

impl PartialEq for Token {
    /// Whether two tokens are of one kind and hold equal values.
    fn eq(&self, other: &Token) -> (r: bool) {
        match self.compare(other) {
            Some(Order::Equal) => true,
            _ => false,
        }
    }
}

impl vstd::std_specs::cmp::PartialEqSpecImpl for Token {
    open spec fn obeys_eq_spec() -> bool {
        true
    }

    open spec fn eq_spec(&self, other: &Token) -> bool {
        self@.order(other@) == Some(Order::Equal)
    }
}

impl PartialOrd for Token {
    /// How two tokens of one kind stand to each other by their values.
    fn partial_cmp(&self, other: &Token) -> (r: Option<Ordering>) {
        match self.compare(other) {
            Some(Order::Less) => Some(Ordering::Less),
            Some(Order::Equal) => Some(Ordering::Equal),
            Some(Order::Greater) => Some(Ordering::Greater),
            None => None,
        }
    }
}

impl vstd::std_specs::cmp::PartialOrdSpecImpl for Token {
    open spec fn obeys_partial_cmp_spec() -> bool {
        true
    }

    open spec fn partial_cmp_spec(&self, other: &Token) -> Option<Ordering> {
        match self@.order(other@) {
            Some(Order::Less) => Some(Ordering::Less),
            Some(Order::Equal) => Some(Ordering::Equal),
            Some(Order::Greater) => Some(Ordering::Greater),
            None => None,
        }
    }
}

/// The lines of a text: each ends with its line feed, but for the last,
/// which ends where the text ends. The empty text has no line.
pub open spec fn lines_of(s: Seq<char>) -> Seq<Seq<char>>
    decreases s.len(),
{
    let k = crate::text::first_index_of(s, '\n');
    if s.len() == 0 {
        Seq::empty()
    } else if 0 <= k < s.len() {
        seq![s.take(k + 1)] + lines_of(s.skip(k + 1))
    } else {
        seq![s]
    }
}

/// Texts put one after the other.
pub open spec fn concat(parts: Seq<Seq<char>>) -> Seq<char>
    decreases parts.len(),
{
    if parts.len() == 0 {
        Seq::empty()
    } else {
        concat(parts.drop_last()) + parts.last()
    }
}

/// `concat` of a first part and more parts.
pub proof fn lemma_concat_first(first: Seq<char>, rest: Seq<Seq<char>>)
    ensures
        concat(seq![first] + rest) == first + concat(rest),
    decreases rest.len(),
{
    let all = seq![first] + rest;
    if rest.len() == 0 {
        assert(all.drop_last() =~= Seq::<Seq<char>>::empty());
        assert(rest =~= Seq::<Seq<char>>::empty());
        assert(concat(all.drop_last()) =~= Seq::<char>::empty());
        assert(all.last() == first);
        assert(concat(all) =~= first + concat(rest));
    } else {
        assert(all.drop_last() =~= seq![first] + rest.drop_last());
        assert(all.last() == rest.last());
        lemma_concat_first(first, rest.drop_last());
        assert(concat(all) =~= first + concat(rest));
    }
}

/// The lines of a text, put one after the other, are the text; no line is
/// empty, and a line feed stands only at the end of a line.
pub proof fn lemma_lines_of(s: Seq<char>)
    ensures
        concat(lines_of(s)) == s,
        forall|i: int|
            0 <= i < lines_of(s).len() ==> (#[trigger] lines_of(s)[i]).len() > 0 && forall|j: int|
                0 <= j < lines_of(s)[i].len() - 1 ==> lines_of(s)[i][j] != '\n',
        forall|i: int| 0 <= i < lines_of(s).len() - 1 ==> (#[trigger] lines_of(s)[i]).last() == '\n',
    decreases s.len(),
{
    let k = crate::text::first_index_of(s, '\n');
    crate::text::lemma_first_index_of(s, '\n');
    if s.len() == 0 {
    } else if k < s.len() {
        let rest = s.skip(k + 1);
        lemma_lines_of(rest);
        lemma_concat_first(s.take(k + 1), lines_of(rest));
        assert(s.take(k + 1) + rest =~= s);
        let all = lines_of(s);
        assert forall|i: int| 0 <= i < all.len() implies (#[trigger] all[i]).len() > 0 && forall|
            j: int,
        |
            0 <= j < all[i].len() - 1 ==> all[i][j] != '\n' by {
            if i > 0 {
                assert(all[i] == lines_of(rest)[i - 1]);
            }
        }
        assert forall|i: int| 0 <= i < all.len() - 1 implies (#[trigger] all[i]).last() == '\n' by {
            if i > 0 {
                assert(all[i] == lines_of(rest)[i - 1]);
            }
        }
    } else {
        assert(lines_of(s).drop_last() =~= Seq::<Seq<char>>::empty());
        assert(concat(lines_of(s).drop_last()) =~= Seq::<char>::empty());
        assert(lines_of(s).last() == s);
        assert(concat(lines_of(s)) =~= s);
    }
}

/// The lines of a text, each with the line feed that ends it: put one
/// after the other they are the text again.
pub fn full_lines(input: &str) -> (r: Vec<String>)
    ensures
        r.deep_view() == lines_of(input@),
        concat(r.deep_view()) == input@,
        forall|i: int| 0 <= i < r.len() ==> (#[trigger] r[i])@.len() > 0,
{
    proof {
        lemma_lines_of(input@);
    }
    let chars = crate::text::chars_of(input);
    let n = chars.len();
    let mut out: Vec<String> = Vec::new();
    let mut pos: usize = 0;
    assert(input@.skip(0) =~= input@);
    assert(out.deep_view() =~= Seq::<Seq<char>>::empty());
    while pos < n
        invariant
            pos <= n,
            n == chars.len(),
            chars@ == input@,
            lines_of(input@) == out.deep_view() + lines_of(input@.skip(pos as int)),
        decreases n - pos,
    {
        let ghost rest = input@.skip(pos as int);
        let ghost before = out.deep_view();
        assert(rest =~= chars@.subrange(pos as int, n as int));
        let end = crate::text::find_char(&chars, pos, n, '\n');
        let stop: usize = if end < n {
            end + 1
        } else {
            n
        };
        let line = crate::text::slice_text(input, pos, stop);
        proof {
            assert(line@ =~= rest.take(stop - pos));
            assert(rest.skip(stop - pos) =~= input@.skip(stop as int));
            if end >= n {
                assert(rest.take(stop - pos) =~= rest);
                assert(lines_of(input@.skip(stop as int)) =~= Seq::<Seq<char>>::empty());
            }
        }
        out.push(line);
        proof {
            assert(out.deep_view() =~= before + seq![rest.take(stop - pos)]);
            assert(lines_of(input@) =~= out.deep_view() + lines_of(input@.skip(stop as int)));
        }
        pos = stop;
    }
    assert(lines_of(input@.skip(n as int)) =~= Seq::<Seq<char>>::empty());
    assert(out.deep_view() + Seq::<Seq<char>>::empty() =~= out.deep_view());
    assert forall|i: int| 0 <= i < out.len() implies (#[trigger] out[i])@.len() > 0 by {
        assert(out.deep_view()[i] == out[i]@);
    }
    out
}

} // verus!
