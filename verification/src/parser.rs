//! The kinds of token and the shape of text that each kind accepts.

use crate::pattern::{pattern_matches, regex_matches};
use crate::calendar::CalendarDate;
use crate::text::text_eq;
use crate::tokenizer::{construct, now_literal, Token, TokenView};
use vstd::prelude::*;
use vstd::string::StringExecFns;

verus! {

/// The kinds of value that a token can hold.
#[derive(Clone, Copy, Debug, PartialEq, Eq, Hash, Structural)]
pub enum TokenType {
    Date,
    Email,
    Number,
    Integer,
    Ipv4,
    Ipv6,
    SemVersion,
    String,
}

impl TokenType {
    /// The name by which a query calls the kind.
    pub open spec fn name_spec(self) -> Seq<char> {
        match self {
            TokenType::Date => "date"@,
            TokenType::Email => "email"@,
            TokenType::Number => "number"@,
            TokenType::Integer => "integer"@,
            TokenType::Ipv4 => "ipv4"@,
            TokenType::Ipv6 => "ipv6"@,
            TokenType::SemVersion => "semver"@,
            TokenType::String => "string"@,
        }
    }

    /// The kind that a name calls, if it calls one.
    pub open spec fn named(name: Seq<char>) -> Option<TokenType> {
        if name == "date"@ {
            Some(TokenType::Date)
        } else if name == "email"@ {
            Some(TokenType::Email)
        } else if name == "number"@ {
            Some(TokenType::Number)
        } else if name == "integer"@ {
            Some(TokenType::Integer)
        } else if name == "ipv4"@ {
            Some(TokenType::Ipv4)
        } else if name == "ipv6"@ {
            Some(TokenType::Ipv6)
        } else if name == "semver"@ {
            Some(TokenType::SemVersion)
        } else if name == "string"@ {
            Some(TokenType::String)
        } else {
            None
        }
    }

    /// The regular expression that a text of the kind has to match where it
    /// is validated; a string has none.
    pub open spec fn pattern_spec(self) -> Option<Seq<char>> {
        match self {
            TokenType::Date => Some("^\\d{4}-\\d{2}-\\d{2}$"@),
            TokenType::Email => Some("^\\S+@\\S+\\.\\S+$"@),
            TokenType::Number => Some("^\\d+\\.(\\d{1,2})+$"@),
            TokenType::Integer => Some("^\\d+$"@),
            TokenType::Ipv4 => Some("^(?:[0-9]{1,3}\\.){3}[0-9]{1,3}$"@),
            TokenType::Ipv6 => Some("^(([0-9a-fA-F]{0,4}:){1,7}[0-9a-fA-F]{0,4})$"@),
            TokenType::SemVersion => Some(
                "^(0|\\d*)\\.(0|\\d*)\\.(0|\\d*)(\\-\\w+(\\.\\w+)*)?(\\+\\w+(\\.\\w+)*)?$"@,
            ),
            TokenType::String => None,
        }
    }

    /// Whether a text has the shape that the kind accepts.
    pub open spec fn accepts(self, text: Seq<char>) -> bool {
        match self.pattern_spec() {
            Some(p) => regex_matches(p, text) == Some(true),
            None => false,
        }
    }

    /// Every kind is the one that its name calls.
    pub proof fn lemma_named_name(self)
        ensures
            TokenType::named(self.name_spec()) == Some(self),
    {
        reveal_strlit("date");
        reveal_strlit("email");
        reveal_strlit("number");
        reveal_strlit("integer");
        reveal_strlit("ipv4");
        reveal_strlit("ipv6");
        reveal_strlit("semver");
        reveal_strlit("string");
        let n = self.name_spec();
        match self {
            TokenType::Date => {
                assert(n.len() == 4 && n[0] == 'd');
            },
            TokenType::Email => {
                assert(n.len() == 5 && n[0] == 'e');
            },
            TokenType::Number => {
                assert(n.len() == 6 && n[0] == 'n');
            },
            TokenType::Integer => {
                assert(n.len() == 7 && n[0] == 'i');
            },
            TokenType::Ipv4 => {
                assert(n.len() == 4 && n[0] == 'i' && n[3] == '4');
            },
            TokenType::Ipv6 => {
                assert(n.len() == 4 && n[0] == 'i' && n[3] == '6');
            },
            TokenType::SemVersion => {
                assert(n.len() == 6 && n[0] == 's' && n[1] == 'e');
            },
            TokenType::String => {
                assert(n.len() == 6 && n[0] == 's' && n[1] == 't');
            },
        }
    }

    /// A name calls only the kind that bears it.
    pub proof fn lemma_name_named(name: Seq<char>)
        ensures
            TokenType::named(name) matches Some(kind) ==> kind.name_spec() == name,
    {
    }

    /// The name by which a query calls the kind.
    pub fn name(&self) -> (r: &'static str)
        ensures
            r@ == self.name_spec(),
    {
        match self {
            TokenType::Date => "date",
            TokenType::Email => "email",
            TokenType::Number => "number",
            TokenType::Integer => "integer",
            TokenType::Ipv4 => "ipv4",
            TokenType::Ipv6 => "ipv6",
            TokenType::SemVersion => "semver",
            TokenType::String => "string",
        }
    }

    /// The kind that `name` calls, if it calls one.
    pub fn from_name(name: &str) -> (r: Option<TokenType>)
        ensures
            r == TokenType::named(name@),
    {
        if text_eq(name, "date") {
            Some(TokenType::Date)
        } else if text_eq(name, "email") {
            Some(TokenType::Email)
        } else if text_eq(name, "number") {
            Some(TokenType::Number)
        } else if text_eq(name, "integer") {
            Some(TokenType::Integer)
        } else if text_eq(name, "ipv4") {
            Some(TokenType::Ipv4)
        } else if text_eq(name, "ipv6") {
            Some(TokenType::Ipv6)
        } else if text_eq(name, "semver") {
            Some(TokenType::SemVersion)
        } else if text_eq(name, "string") {
            Some(TokenType::String)
        } else {
            None
        }
    }

    /// The regular expression of the kind, if it has one.
    pub fn pattern(&self) -> (r: Option<&'static str>)
        ensures
            match r {
                Some(p) => self.pattern_spec() == Some(p@),
                None => self.pattern_spec() is None,
            },
    {
        match self {
            TokenType::Date => Some("^\\d{4}-\\d{2}-\\d{2}$"),
            TokenType::Email => Some("^\\S+@\\S+\\.\\S+$"),
            TokenType::Number => Some("^\\d+\\.(\\d{1,2})+$"),
            TokenType::Integer => Some("^\\d+$"),
            TokenType::Ipv4 => Some("^(?:[0-9]{1,3}\\.){3}[0-9]{1,3}$"),
            TokenType::Ipv6 => Some("^(([0-9a-fA-F]{0,4}:){1,7}[0-9a-fA-F]{0,4})$"),
            TokenType::SemVersion => Some(
                "^(0|\\d*)\\.(0|\\d*)\\.(0|\\d*)(\\-\\w+(\\.\\w+)*)?(\\+\\w+(\\.\\w+)*)?$",
            ),
            TokenType::String => None,
        }
    }
}

/// Whether `text` has the shape that the kind accepts. No text has the
/// shape of a string, which has no shape of its own.
pub fn is_match(token_type: &TokenType, text: &str) -> (r: bool)
    ensures
        r == token_type.accepts(text@),
{
    match token_type.pattern() {
        Some(p) => pattern_matches(p, text),
        None => false,
    }
}

/// The token that `text` makes as a value of `kind`, where it has the shape
/// of the kind and reads as a value of it. The text `now()` reads as
/// nothing here.
pub open spec fn read_as(kind: TokenType, text: Seq<char>) -> Option<TokenView> {
    if kind.accepts(text) && text != now_literal() {
        match construct(
            kind.name_spec(),
            text,
            None,
            false,
            CalendarDate { year: 1970, month: 1, day: 1 },
        ) {
            Ok(t) => Some(t),
            Err(_) => None,
        }
    } else {
        None
    }
}

/// The token that a text makes where its kind is not given: the first of
/// date, email, version 4 address, version 6 address, number and integer
/// that it reads as, and a string where it reads as none of them.
pub open spec fn sniffed(text: Seq<char>) -> TokenView {
    if read_as(TokenType::Date, text) is Some {
        read_as(TokenType::Date, text)->0
    } else if read_as(TokenType::Email, text) is Some {
        read_as(TokenType::Email, text)->0
    } else if read_as(TokenType::Ipv4, text) is Some {
        read_as(TokenType::Ipv4, text)->0
    } else if read_as(TokenType::Ipv6, text) is Some {
        read_as(TokenType::Ipv6, text)->0
    } else if read_as(TokenType::Number, text) is Some {
        read_as(TokenType::Number, text)->0
    } else if read_as(TokenType::Integer, text) is Some {
        read_as(TokenType::Integer, text)->0
    } else {
        TokenView::String("string"@, text)
    }
}

fn try_as(kind: TokenType, text: &str) -> (r: Option<Token>)
    ensures
        match r {
            Some(t) => read_as(kind, text@) == Some(t@) && t@.wf(),
            None => read_as(kind, text@) is None,
        },
{
    if is_match(&kind, text) && !text_eq(text, "now()") {
        match Token::new_on(
            kind.name(),
            text,
            None,
            false,
            CalendarDate { year: 1970, month: 1, day: 1 },
        ) {
            Ok(t) => Some(t),
            Err(_) => None,
        }
    } else {
        None
    }
}

/// Reads a text as a token of the first kind that fits; see `sniffed`.
pub fn parse(text: &str) -> (r: Token)
    ensures
        r@ == sniffed(text@),
        r@.wf(),
{
    if let Some(t) = try_as(TokenType::Date, text) {
        t
    } else if let Some(t) = try_as(TokenType::Email, text) {
        t
    } else if let Some(t) = try_as(TokenType::Ipv4, text) {
        t
    } else if let Some(t) = try_as(TokenType::Ipv6, text) {
        t
    } else if let Some(t) = try_as(TokenType::Number, text) {
        t
    } else if let Some(t) = try_as(TokenType::Integer, text) {
        t
    } else {
        Token::String(String::from_str("string"), String::from_str(text))
    }
}

} // verus!
