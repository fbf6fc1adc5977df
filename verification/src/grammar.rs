//! The query language: its grammar, and the reader that turns the text of
//! a query into a tree.
//!
//! ```text
//! query    = expr
//! expr     = term { ( "&&" | "||" ) term }
//! term     = simple | contains | "(" expr ")"
//! simple   = field op value
//! contains = field ( "in" | "!in" ) "[" value { "," value } "]"
//! field    = kind "(" ( digits | "*" ) [ "," format ] ")"
//! kind     = "date" | "string" | "integer" | "number" | "email"
//!          | "ipv4" | "ipv6" | "semver"
//! op       = "==" | "!=" | "<=" | ">=" | "<" | ">" | "match"
//! ```
//!
//! Blanks may stand between any two of these parts. `&&` and `||` bind
//! equally and group to the left.

use crate::parser::TokenType;
use crate::query::{Expr, ExprView, Operator, Selector, TypeExpr, TypeExprView};
use crate::text::{chars_of, digits_value, is_digit, read_digits, slice_text};
use vstd::prelude::*;
use vstd::string::StringExecFns;

verus! {

/// The classes of character by which the reader finds where a part ends.
#[derive(Clone, Copy, Debug, PartialEq, Eq, Structural)]
pub enum CharClass {
    /// Blanks: space, tab, line feed and carriage return.
    Space,
    /// The ten digits.
    Digit,
    /// What a format is made of: anything but blanks, commas and parentheses.
    Format,
    /// What a value is made of: anything but blanks, commas, brackets,
    /// parentheses, `&` and `|`.
    Value,
}

/// Whether `c` is a blank.
pub open spec fn is_space(c: char) -> bool {
    c == ' ' || c == '\t' || c == '\n' || c == '\r'
}

/// Whether `c` belongs to `class`.
pub open spec fn in_class(class: CharClass, c: char) -> bool {
    match class {
        CharClass::Space => is_space(c),
        CharClass::Digit => is_digit(c),
        CharClass::Format => !is_space(c) && c != ',' && c != '(' && c != ')',
        CharClass::Value => !is_space(c) && c != ',' && c != '[' && c != ']' && c != '(' && c
            != ')' && c != '&' && c != '|',
    }
}

/// Where the run of characters of `class` that begins at `i` ends.
pub open spec fn run_end(s: Seq<char>, i: int, class: CharClass) -> int
    decreases s.len() - i,
{
    if 0 <= i < s.len() && in_class(class, s[i]) {
        run_end(s, i + 1, class)
    } else {
        i
    }
}

/// Where the blanks that begin at `i` end.
pub open spec fn skip_spaces(s: Seq<char>, i: int) -> int {
    run_end(s, i, CharClass::Space)
}

/// Whether `word` stands in `s` at `i`.
pub open spec fn has_at(s: Seq<char>, i: int, word: Seq<char>) -> bool {
    0 <= i && i + word.len() <= s.len() && s.subrange(i, i + word.len()) == word
}

/// Whether the character `c` stands in `s` at `i`.
pub open spec fn char_at(s: Seq<char>, i: int, c: char) -> bool {
    0 <= i < s.len() && s[i] == c
}

/// The kind whose name stands at `i`, and where the name ends.
pub open spec fn kind_at(s: Seq<char>, i: int) -> Option<(TokenType, int)> {
    if has_at(s, i, "date"@) {
        Some((TokenType::Date, i + "date"@.len()))
    } else if has_at(s, i, "string"@) {
        Some((TokenType::String, i + "string"@.len()))
    } else if has_at(s, i, "integer"@) {
        Some((TokenType::Integer, i + "integer"@.len()))
    } else if has_at(s, i, "number"@) {
        Some((TokenType::Number, i + "number"@.len()))
    } else if has_at(s, i, "email"@) {
        Some((TokenType::Email, i + "email"@.len()))
    } else if has_at(s, i, "ipv4"@) {
        Some((TokenType::Ipv4, i + "ipv4"@.len()))
    } else if has_at(s, i, "ipv6"@) {
        Some((TokenType::Ipv6, i + "ipv6"@.len()))
    } else if has_at(s, i, "semver"@) {
        Some((TokenType::SemVersion, i + "semver"@.len()))
    } else {
        None
    }
}

/// The place that a run of digits names: its value, or the largest place
/// there is where the value is larger still.
pub open spec fn index_of_digits(digits: Seq<char>) -> u64 {
    if digits_value(digits) <= u64::MAX {
        digits_value(digits) as u64
    } else {
        u64::MAX
    }
}

/// The selector at `i`: a star, or a run of digits.
pub open spec fn selector_at(s: Seq<char>, i: int) -> Option<(Selector, int)> {
    let end = run_end(s, i, CharClass::Digit);
    if char_at(s, i, '*') {
        Some((Selector::Every, i + 1))
    } else if end > i {
        Some((Selector::Index(index_of_digits(s.subrange(i, end))), end))
    } else {
        None
    }
}

/// The field at `i`: a kind, and in parentheses a selector and, after a
/// comma, a format.
pub open spec fn field_at(s: Seq<char>, i: int) -> Option<(TypeExprView, int)> {
    match kind_at(s, i) {
        Some((kind, after_kind)) => {
            let open = skip_spaces(s, after_kind);
            if char_at(s, open, '(') {
                match selector_at(s, skip_spaces(s, open + 1)) {
                    Some((selector, after_selector)) => {
                        let next = skip_spaces(s, after_selector);
                        if char_at(s, next, ',') {
                            let from = skip_spaces(s, next + 1);
                            let to = run_end(s, from, CharClass::Format);
                            let close = skip_spaces(s, to);
                            if to > from && char_at(s, close, ')') {
                                Some(
                                    (
                                        TypeExprView {
                                            kind,
                                            selector,
                                            format: Some(s.subrange(from, to)),
                                        },
                                        close + 1,
                                    ),
                                )
                            } else {
                                None
                            }
                        } else if char_at(s, next, ')') {
                            Some((TypeExprView { kind, selector, format: None }, next + 1))
                        } else {
                            None
                        }
                    },
                    None => None,
                }
            } else {
                None
            }
        },
        None => None,
    }
}

/// The operator at `i`.
pub open spec fn operator_at(s: Seq<char>, i: int) -> Option<(Operator, int)> {
    if has_at(s, i, "=="@) {
        Some((Operator::Eq, i + "=="@.len()))
    } else if has_at(s, i, "!="@) {
        Some((Operator::Neq, i + "!="@.len()))
    } else if has_at(s, i, "<="@) {
        Some((Operator::Lte, i + "<="@.len()))
    } else if has_at(s, i, ">="@) {
        Some((Operator::Gte, i + ">="@.len()))
    } else if has_at(s, i, "<"@) {
        Some((Operator::Lt, i + "<"@.len()))
    } else if has_at(s, i, ">"@) {
        Some((Operator::Gt, i + ">"@.len()))
    } else if has_at(s, i, "match"@) {
        Some((Operator::Match, i + "match"@.len()))
    } else {
        None
    }
}

/// The value at `i`: the text `now()`, or a run of value characters.
pub open spec fn value_at(s: Seq<char>, i: int) -> Option<(Seq<char>, int)> {
    let end = run_end(s, i, CharClass::Value);
    if has_at(s, i, "now()"@) {
        Some(("now()"@, i + "now()"@.len()))
    } else if end > i {
        Some((s.subrange(i, end), end))
    } else {
        None
    }
}

/// The values of a list from `i` on, up to and with the closing bracket.
pub open spec fn members_at(s: Seq<char>, i: int) -> Option<(Seq<Seq<char>>, int)>
    decreases s.len() - i,
{
    match value_at(s, i) {
        Some((value, after)) => {
            let next = skip_spaces(s, after);
            if char_at(s, next, ']') {
                Some((seq![value], next + 1))
            } else if char_at(s, next, ',') && i < skip_spaces(s, next + 1) <= s.len() {
                match members_at(s, skip_spaces(s, next + 1)) {
                    Some((rest, end)) => Some((seq![value] + rest, end)),
                    None => None,
                }
            } else {
                None
            }
        },
        None => None,
    }
}

/// The list at `i`: values in brackets with commas between them.
pub open spec fn list_at(s: Seq<char>, i: int) -> Option<(Seq<Seq<char>>, int)> {
    if char_at(s, i, '[') {
        members_at(s, skip_spaces(s, i + 1))
    } else {
        None
    }
}

/// The comparison at `i`: a field, then an operator and a value, or `in`
/// or `!in` and a list.
pub open spec fn leaf_at(s: Seq<char>, i: int) -> Option<(ExprView, int)> {
    match field_at(s, i) {
        Some((field, after_field)) => {
            let at = skip_spaces(s, after_field);
            match operator_at(s, at) {
                Some((op, after_op)) => match value_at(s, skip_spaces(s, after_op)) {
                    Some((value, end)) => Some((ExprView::Simple(field, op, value), end)),
                    None => None,
                },
                None => {
                    let negated = has_at(s, at, "!in"@);
                    let after_word = if negated {
                        at + "!in"@.len()
                    } else {
                        at + "in"@.len()
                    };
                    if negated || has_at(s, at, "in"@) {
                        match list_at(s, skip_spaces(s, after_word)) {
                            Some((members, end)) => Some(
                                (ExprView::Contains(field, negated, members), end),
                            ),
                            None => None,
                        }
                    } else {
                        None
                    }
                },
            }
        },
        None => None,
    }
}

/// The term at `i`: a query in parentheses, or a comparison.
pub open spec fn term_at(s: Seq<char>, i: int) -> Option<(ExprView, int)>
    decreases s.len() - i, 1int,
{
    if char_at(s, i, '(') {
        if i < skip_spaces(s, i + 1) <= s.len() {
            match expr_at(s, skip_spaces(s, i + 1)) {
                Some((inner, after)) => {
                    let close = skip_spaces(s, after);
                    if char_at(s, close, ')') {
                        Some((ExprView::Group(Box::new(inner)), close + 1))
                    } else {
                        None
                    }
                },
                None => None,
            }
        } else {
            None
        }
    } else {
        leaf_at(s, i)
    }
}

/// The query at `i`: a term, and as many more as `&&` or `||` join to it.
pub open spec fn expr_at(s: Seq<char>, i: int) -> Option<(ExprView, int)>
    decreases s.len() - i, 2int,
{
    match term_at(s, i) {
        Some((first, after)) => if i < after <= s.len() {
            rest_at(s, after, first)
        } else {
            None
        },
        None => None,
    }
}

/// The query that `left`, which ends at `i`, makes with the terms that
/// `&&` or `||` join to it from there on.
pub open spec fn rest_at(s: Seq<char>, i: int, left: ExprView) -> Option<(ExprView, int)>
    decreases s.len() - i, 0int,
{
    let at = skip_spaces(s, i);
    let both = has_at(s, at, "&&"@);
    if both || has_at(s, at, "||"@) {
        let from = skip_spaces(s, at + 2);
        if i < from <= s.len() {
            match term_at(s, from) {
                Some((right, after)) => if i < after <= s.len() {
                    rest_at(
                        s,
                        after,
                        if both {
                            ExprView::And(Box::new(left), Box::new(right))
                        } else {
                            ExprView::Or(Box::new(left), Box::new(right))
                        },
                    )
                } else {
                    None
                },
                None => None,
            }
        } else {
            None
        }
    } else {
        Some((left, i))
    }
}

/// The tree of a query: the text is one expression with nothing but blanks
/// before and after it. `None` where the text is no query.
pub open spec fn query_tree(s: Seq<char>) -> Option<ExprView> {
    match expr_at(s, skip_spaces(s, 0)) {
        Some((tree, end)) => if skip_spaces(s, end) == s.len() {
            Some(tree)
        } else {
            None
        },
        None => None,
    }
}

/// Whether a text can stand as a value in a query: it is `now()`, or made
/// of one or more value characters.
pub open spec fn is_value(value: Seq<char>) -> bool {
    value == "now()"@ || (value.len() >= 1 && forall|i: int|
        0 <= i < value.len() ==> in_class(CharClass::Value, #[trigger] value[i]))
}

/// Whether a field can stand in a query: its format, if it has one, is made
/// of one or more format characters.
pub open spec fn is_field(field: TypeExprView) -> bool {
    field.format matches Some(format) ==> format.len() >= 1 && forall|i: int|
        0 <= i < format.len() ==> in_class(CharClass::Format, #[trigger] format[i])
}

/// Whether a tree is a term of the grammar: a comparison, or a query in
/// parentheses.
pub open spec fn is_term(tree: ExprView) -> bool {
    tree is Simple || tree is Contains || tree is Group
}

/// Whether a tree is one that the reader can give: fields and values can
/// stand in a query, no list is empty, and what stands to the right of `&&`
/// or `||` is a term.
pub open spec fn is_query(tree: ExprView) -> bool
    decreases tree,
{
    match tree {
        ExprView::Simple(field, _, value) => is_field(field) && is_value(value),
        ExprView::Contains(field, _, members) => is_field(field) && members.len() >= 1 && forall|
            i: int,
        |
            0 <= i < members.len() ==> is_value(#[trigger] members[i]),
        ExprView::Group(inner) => is_query(*inner),
        ExprView::And(left, right) => is_query(*left) && is_query(*right) && is_term(*right),
        ExprView::Or(left, right) => is_query(*left) && is_query(*right) && is_term(*right),
    }
}

/// Why a text is no query: it does not follow the grammar.
#[derive(Debug)]
pub struct ParseError {
    /// The text that was to be read.
    pub query: String,
}

impl ParseError {
    /// The error in words.
    pub fn message(&self) -> (r: String)
        ensures
            r@ == "the expression does not follow the grammar: "@ + self.query@,
    {
        let mut out = String::from_str("the expression does not follow the grammar: ");
        out.append(self.query.as_str());
        out
    }
}

/// The text of a query, and its characters for looking at them one by one.
struct Source<'a> {
    text: &'a str,
    chars: Vec<char>,
}

impl<'a> Source<'a> {
    spec fn wf(&self) -> bool {
        self.chars@ == self.text@
    }

    fn new(text: &'a str) -> (r: Source<'a>)
        ensures
            r.wf(),
            r.text@ == text@,
    {
        Source { text, chars: chars_of(text) }
    }

    fn in_class(class: CharClass, c: char) -> (r: bool)
        ensures
            r == in_class(class, c),
    {
        let space = c == ' ' || c == '\t' || c == '\n' || c == '\r';
        match class {
            CharClass::Space => space,
            CharClass::Digit => c >= '0' && c <= '9',
            CharClass::Format => !space && c != ',' && c != '(' && c != ')',
            CharClass::Value => !space && c != ',' && c != '[' && c != ']' && c != '(' && c != ')'
                && c != '&' && c != '|',
        }
    }

    /// Where the run of characters of `class` that begins at `i` ends.
    fn scan(&self, i: usize, class: CharClass) -> (r: usize)
        requires
            i <= self.chars.len(),
        ensures
            r == run_end(self.chars@, i as int, class),
            i <= r <= self.chars.len(),
            forall|k: int| i <= k < r ==> in_class(class, #[trigger] self.chars@[k]),
    {
        let mut j: usize = i;
        while j < self.chars.len() && Self::in_class(class, self.chars[j])
            invariant
                i <= j <= self.chars.len(),
                run_end(self.chars@, i as int, class) == run_end(self.chars@, j as int, class),
                forall|k: int| i <= k < j ==> in_class(class, #[trigger] self.chars@[k]),
            decreases self.chars.len() - j,
        {
            j += 1;
        }
        j
    }

    fn blanks(&self, i: usize) -> (r: usize)
        requires
            i <= self.chars.len(),
        ensures
            r == skip_spaces(self.chars@, i as int),
            i <= r <= self.chars.len(),
    {
        self.scan(i, CharClass::Space)
    }

    /// Whether `c` stands at `i`.
    fn is_at(&self, i: usize, c: char) -> (r: bool)
        ensures
            r == char_at(self.chars@, i as int, c),
    {
        i < self.chars.len() && self.chars[i] == c
    }

    /// Where `word` ends if it stands at `i`.
    fn word_at(&self, i: usize, word: &str) -> (r: Option<usize>)
        requires
            i <= self.chars.len(),
        ensures
            match r {
                Some(end) => has_at(self.chars@, i as int, word@) && end == i + word@.len(),
                None => !has_at(self.chars@, i as int, word@),
            },
    {
        let w = chars_of(word);
        if w.len() > self.chars.len() - i {
            return None;
        }
        let mut k: usize = 0;
        while k < w.len()
            invariant
                k <= w.len(),
                i + w.len() <= self.chars.len(),
                w@ == word@,
                forall|j: int| 0 <= j < k ==> self.chars@[i + j] == w@[j],
            decreases w.len() - k,
        {
            if self.chars[i + k] != w[k] {
                assert(self.chars@.subrange(i as int, i + w.len())[k as int] != w@[k as int]);
                return None;
            }
            k += 1;
        }
        assert(self.chars@.subrange(i as int, i + w.len()) =~= w@);
        Some(i + w.len())
    }

    fn kind(&self, i: usize) -> (r: Option<(TokenType, usize)>)
        requires
            i <= self.chars.len(),
        ensures
            match r {
                Some((kind, end)) => kind_at(self.chars@, i as int) == Some((kind, end as int))
                    && i < end <= self.chars.len(),
                None => kind_at(self.chars@, i as int) is None,
            },
    {
        proof {
            reveal_strlit("date");
            reveal_strlit("string");
            reveal_strlit("integer");
            reveal_strlit("number");
            reveal_strlit("email");
            reveal_strlit("ipv4");
            reveal_strlit("ipv6");
            reveal_strlit("semver");
        }
        if let Some(end) = self.word_at(i, "date") {
            Some((TokenType::Date, end))
        } else if let Some(end) = self.word_at(i, "string") {
            Some((TokenType::String, end))
        } else if let Some(end) = self.word_at(i, "integer") {
            Some((TokenType::Integer, end))
        } else if let Some(end) = self.word_at(i, "number") {
            Some((TokenType::Number, end))
        } else if let Some(end) = self.word_at(i, "email") {
            Some((TokenType::Email, end))
        } else if let Some(end) = self.word_at(i, "ipv4") {
            Some((TokenType::Ipv4, end))
        } else if let Some(end) = self.word_at(i, "ipv6") {
            Some((TokenType::Ipv6, end))
        } else if let Some(end) = self.word_at(i, "semver") {
            Some((TokenType::SemVersion, end))
        } else {
            None
        }
    }

    fn selector(&self, i: usize) -> (r: Option<(Selector, usize)>)
        requires
            i <= self.chars.len(),
        ensures
            match r {
                Some((selector, end)) => selector_at(self.chars@, i as int) == Some(
                    (selector, end as int),
                ) && i < end <= self.chars.len(),
                None => selector_at(self.chars@, i as int) is None,
            },
    {
        let end = self.scan(i, CharClass::Digit);
        if self.is_at(i, '*') {
            Some((Selector::Every, i + 1))
        } else if end > i {
            proof {
                let run = self.chars@.subrange(i as int, end as int);
                assert forall|k: int| 0 <= k < run.len() implies is_digit(#[trigger] run[k]) by {
                    assert(run[k] == self.chars@[i + k]);
                }
            }
            let index = match read_digits(&self.chars, i, end) {
                Some(n) => n,
                None => u64::MAX,
            };
            Some((Selector::Index(index), end))
        } else {
            None
        }
    }

    fn field(&self, i: usize) -> (r: Option<(TypeExpr, usize)>)
        requires
            self.wf(),
            i <= self.chars.len(),
        ensures
            match r {
                Some((field, end)) => field_at(self.chars@, i as int) == Some(
                    (field@, end as int),
                ) && i < end <= self.chars.len(),
                None => field_at(self.chars@, i as int) is None,
            },
    {
        let (kind, after_kind) = match self.kind(i) {
            Some(found) => found,
            None => {
                return None;
            },
        };
        let open = self.blanks(after_kind);
        if !self.is_at(open, '(') {
            return None;
        }
        let (selector, after_selector) = match self.selector(self.blanks(open + 1)) {
            Some(found) => found,
            None => {
                return None;
            },
        };
        let next = self.blanks(after_selector);
        if self.is_at(next, ',') {
            let from = self.blanks(next + 1);
            let to = self.scan(from, CharClass::Format);
            let close = self.blanks(to);
            if to > from && self.is_at(close, ')') {
                let format = slice_text(self.text, from, to);
                Some((TypeExpr { kind, selector, format: Some(format) }, close + 1))
            } else {
                None
            }
        } else if self.is_at(next, ')') {
            Some((TypeExpr { kind, selector, format: None }, next + 1))
        } else {
            None
        }
    }

    fn operator(&self, i: usize) -> (r: Option<(Operator, usize)>)
        requires
            i <= self.chars.len(),
        ensures
            match r {
                Some((op, end)) => operator_at(self.chars@, i as int) == Some((op, end as int))
                    && i < end <= self.chars.len(),
                None => operator_at(self.chars@, i as int) is None,
            },
    {
        proof {
            reveal_strlit("==");
            reveal_strlit("!=");
            reveal_strlit("<=");
            reveal_strlit(">=");
            reveal_strlit("<");
            reveal_strlit(">");
            reveal_strlit("match");
        }
        if let Some(end) = self.word_at(i, "==") {
            Some((Operator::Eq, end))
        } else if let Some(end) = self.word_at(i, "!=") {
            Some((Operator::Neq, end))
        } else if let Some(end) = self.word_at(i, "<=") {
            Some((Operator::Lte, end))
        } else if let Some(end) = self.word_at(i, ">=") {
            Some((Operator::Gte, end))
        } else if let Some(end) = self.word_at(i, "<") {
            Some((Operator::Lt, end))
        } else if let Some(end) = self.word_at(i, ">") {
            Some((Operator::Gt, end))
        } else if let Some(end) = self.word_at(i, "match") {
            Some((Operator::Match, end))
        } else {
            None
        }
    }

    fn value(&self, i: usize) -> (r: Option<(String, usize)>)
        requires
            self.wf(),
            i <= self.chars.len(),
        ensures
            match r {
                Some((value, end)) => value_at(self.chars@, i as int) == Some(
                    (value@, end as int),
                ) && i < end <= self.chars.len(),
                None => value_at(self.chars@, i as int) is None,
            },
    {
        let end = self.scan(i, CharClass::Value);
        proof {
            reveal_strlit("now()");
        }
        if let Some(after) = self.word_at(i, "now()") {
            Some((String::from_str("now()"), after))
        } else if end > i {
            Some((slice_text(self.text, i, end), end))
        } else {
            None
        }
    }

    fn members(&self, i: usize) -> (r: Option<(Vec<String>, usize)>)
        requires
            self.wf(),
            i <= self.chars.len(),
        ensures
            match r {
                Some((members, end)) => members_at(self.chars@, i as int) == Some(
                    (members.deep_view(), end as int),
                ) && i < end <= self.chars.len(),
                None => members_at(self.chars@, i as int) is None,
            },
    {
        let mut out: Vec<String> = Vec::new();
        let mut at: usize = i;
        let ghost s = self.chars@;
        assert(out.deep_view() =~= Seq::<Seq<char>>::empty());
        loop
            invariant_except_break
                self.wf(),
                s == self.chars@,
                i <= at <= s.len(),
                at == i <==> out.len() == 0,
                members_at(s, i as int) == match members_at(s, at as int) {
                    Some((rest, end)) => Some((out.deep_view() + rest, end)),
                    None => None,
                },
            ensures
                members_at(s, i as int) == Some((out.deep_view(), at as int)),
                i < at <= s.len(),
            decreases s.len() - at,
        {
            let ghost before = out.deep_view();
            let (value, after) = match self.value(at) {
                Some(found) => found,
                None => {
                    return None;
                },
            };
            let next = self.blanks(after);
            let ghost text = value@;
            out.push(value);
            assert(out.deep_view() =~= before + seq![text]);
            if self.is_at(next, ']') {
                assert(before + seq![text] =~= before + (seq![text]));
                at = next + 1;
                break;
            } else if self.is_at(next, ',') {
                let from = self.blanks(next + 1);
                proof {
                    match members_at(s, from as int) {
                        Some((rest, end)) => {
                            assert(before + (seq![text] + rest) =~= out.deep_view() + rest);
                        },
                        None => {},
                    }
                }
                at = from;
            } else {
                return None;
            }
        }
        Some((out, at))
    }

    fn list(&self, i: usize) -> (r: Option<(Vec<String>, usize)>)
        requires
            self.wf(),
            i <= self.chars.len(),
        ensures
            match r {
                Some((members, end)) => list_at(self.chars@, i as int) == Some(
                    (members.deep_view(), end as int),
                ) && i < end <= self.chars.len(),
                None => list_at(self.chars@, i as int) is None,
            },
    {
        if self.is_at(i, '[') {
            self.members(self.blanks(i + 1))
        } else {
            None
        }
    }

    fn leaf(&self, i: usize) -> (r: Option<(Expr, usize)>)
        requires
            self.wf(),
            i <= self.chars.len(),
        ensures
            match r {
                Some((tree, end)) => leaf_at(self.chars@, i as int) == Some((tree@, end as int))
                    && i < end <= self.chars.len(),
                None => leaf_at(self.chars@, i as int) is None,
            },
    {
        let (field, after_field) = match self.field(i) {
            Some(found) => found,
            None => {
                return None;
            },
        };
        let at = self.blanks(after_field);
        match self.operator(at) {
            Some((op, after_op)) => match self.value(self.blanks(after_op)) {
                Some((value, end)) => Some((Expr::Simple(field, op, value), end)),
                None => None,
            },
            None => {
                let (negated, after_word) = match self.word_at(at, "!in") {
                    Some(end) => (true, end),
                    None => match self.word_at(at, "in") {
                        Some(end) => (false, end),
                        None => {
                            return None;
                        },
                    },
                };
                match self.list(self.blanks(after_word)) {
                    Some((members, end)) => Some((Expr::Contains(field, negated, members), end)),
                    None => None,
                }
            },
        }
    }

    fn term(&self, i: usize) -> (r: Option<(Expr, usize)>)
        requires
            self.wf(),
            i <= self.chars.len(),
        ensures
            match r {
                Some((tree, end)) => term_at(self.chars@, i as int) == Some((tree@, end as int))
                    && i < end <= self.chars.len(),
                None => term_at(self.chars@, i as int) is None,
            },
        decreases self.chars.len() - i, 1int,
    {
        if self.is_at(i, '(') {
            let from = self.blanks(i + 1);
            match self.expr(from) {
                Some((inner, after)) => {
                    let close = self.blanks(after);
                    if self.is_at(close, ')') {
                        Some((Expr::Group(Box::new(inner)), close + 1))
                    } else {
                        None
                    }
                },
                None => None,
            }
        } else {
            self.leaf(i)
        }
    }

    fn expr(&self, i: usize) -> (r: Option<(Expr, usize)>)
        requires
            self.wf(),
            i <= self.chars.len(),
        ensures
            match r {
                Some((tree, end)) => expr_at(self.chars@, i as int) == Some((tree@, end as int))
                    && i < end <= self.chars.len(),
                None => expr_at(self.chars@, i as int) is None,
            },
        decreases self.chars.len() - i, 2int,
    {
        let (first, after) = match self.term(i) {
            Some(found) => found,
            None => {
                return None;
            },
        };
        let ghost s = self.chars@;
        let ghost first_view = first@;
        let mut left = first;
        let mut at: usize = after;
        proof {
            reveal_strlit("&&");
            reveal_strlit("||");
        }
        loop
            invariant_except_break
                self.wf(),
                s == self.chars@,
                i < after <= at <= s.len(),
                "&&"@.len() == 2,
                "||"@.len() == 2,
                expr_at(s, i as int) == rest_at(s, after as int, first_view),
                rest_at(s, after as int, first_view) == rest_at(s, at as int, left@),
            ensures
                rest_at(s, after as int, first_view) == Some((left@, at as int)),
                i < at <= s.len(),
            decreases s.len() - at,
        {
            let here = self.blanks(at);
            let both = self.word_at(here, "&&").is_some();
            if !both && self.word_at(here, "||").is_none() {
                break;
            }
            let from = self.blanks(here + 2);
            let (right, end) = match self.term(from) {
                Some(found) => found,
                None => {
                    return None;
                },
            };
            left = if both {
                Expr::And(Box::new(left), Box::new(right))
            } else {
                Expr::Or(Box::new(left), Box::new(right))
            };
            at = end;
        }
        Some((left, at))
    }
}

/// Reads a query; see `query_tree` for what it reads, and `is_query` for
/// the trees that come of it.
pub fn parse_expression(expr: &str) -> (r: Result<Expr, ParseError>)
    ensures
        match r {
            Ok(tree) => query_tree(expr@) == Some(tree@) && is_query(tree@),
            Err(e) => query_tree(expr@) is None && e.query@ == expr@,
        },
{
    proof {
        crate::writer::law_read_is_query(expr@);
    }
    let source = Source::new(expr);
    match source.expr(source.blanks(0)) {
        Some((tree, end)) => if source.blanks(end) == source.chars.len() {
            Ok(tree)
        } else {
            Err(ParseError { query: String::from_str(expr) })
        },
        None => Err(ParseError { query: String::from_str(expr) }),
    }
}

} // verus!
