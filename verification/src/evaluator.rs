//! What a query says of a line: each comparison reads the tokens it selects
//! as values of its kind, and `&&` and `||` join the verdicts from left to
//! right.

use crate::calendar::{today_utc, CalendarDate};
use crate::parser::TokenType;
use crate::pattern::regex_matches;
use crate::query::{Expr, ExprView, Operator, Selector, TypeExpr};
use crate::text::Order;
use crate::tokenizer::{construct, format_view, now_literal, Token, TokenView};
use vstd::prelude::*;
use vstd::string::StringExecFns;

verus! {

/// The error for `match` on a field that is no string.
pub open spec fn match_message() -> Seq<char> {
    "only string type is allowed for match expressions"@
}

/// Whether two values that stand to each other as `order` says meet `op`.
/// Values that do not compare meet `!=` only.
pub open spec fn holds(op: Operator, order: Option<Order>) -> bool {
    match op {
        Operator::Eq => order == Some(Order::Equal),
        Operator::Neq => order != Some(Order::Equal),
        Operator::Lt => order == Some(Order::Less),
        Operator::Gt => order == Some(Order::Greater),
        Operator::Lte => order == Some(Order::Less) || order == Some(Order::Equal),
        Operator::Gte => order == Some(Order::Greater) || order == Some(Order::Equal),
        Operator::Match => false,
    }
}

/// The verdict of `kind op value` on one token of a line.
///
/// A token that does not read as the kind gives `false`. `match` asks
/// whether the regular expression `value` matches the token, which it does
/// not where it is no regular expression, and is an error on any kind but a
/// string. Every other operator reads `value` as the kind too, which is an
/// error where it cannot be read, and compares.
pub open spec fn compared(
    type_term: Seq<char>,
    op: Operator,
    value: Seq<char>,
    format: Option<Seq<char>>,
    token: Seq<char>,
    today: CalendarDate,
) -> Result<bool, Seq<char>> {
    match construct(type_term, token, format, false, today) {
        Err(_) => Ok(false),
        Ok(field) => if op == Operator::Match {
            if field is String {
                Ok(regex_matches(value, field.shown()) == Some(true))
            } else {
                Err(match_message())
            }
        } else {
            match construct(type_term, value, format, false, today) {
                Err(e) => Err(e),
                Ok(other) => Ok(holds(op, field.order(other))),
            }
        },
    }
}

/// Whether `field` equals one of `members`, each read as the kind of the
/// field; the first member that cannot be read is an error, wherever the
/// field is found.
pub open spec fn among(
    type_term: Seq<char>,
    field: TokenView,
    members: Seq<Seq<char>>,
    format: Option<Seq<char>>,
    today: CalendarDate,
) -> Result<bool, Seq<char>>
    decreases members.len(),
{
    if members.len() == 0 {
        Ok(false)
    } else {
        match among(type_term, field, members.drop_last(), format, today) {
            Err(e) => Err(e),
            Ok(found) => match construct(type_term, members.last(), format, false, today) {
                Err(e) => Err(e),
                Ok(other) => Ok(found || field.order(other) == Some(Order::Equal)),
            },
        }
    }
}

/// The verdict of `kind in members`, or of `kind !in members` where
/// `negated` is set, on one token of a line. A token that does not read as
/// the kind gives `false` either way.
pub open spec fn contained(
    type_term: Seq<char>,
    negated: bool,
    members: Seq<Seq<char>>,
    format: Option<Seq<char>>,
    token: Seq<char>,
    today: CalendarDate,
) -> Result<bool, Seq<char>> {
    match construct(type_term, token, format, false, today) {
        Err(_) => Ok(false),
        Ok(field) => match among(type_term, field, members, format, today) {
            Err(e) => Err(e),
            Ok(found) => Ok(found != negated),
        },
    }
}

/// The verdict of a comparison on one token. What is no comparison gives
/// `false`.
pub open spec fn token_verdict(leaf: ExprView, token: Seq<char>, today: CalendarDate) -> Result<
    bool,
    Seq<char>,
> {
    match leaf {
        ExprView::Simple(field, op, value) => compared(
            field.kind.name_spec(),
            op,
            value,
            field.format,
            token,
            today,
        ),
        ExprView::Contains(field, negated, members) => contained(
            field.kind.name_spec(),
            negated,
            members,
            field.format,
            token,
            today,
        ),
        _ => Ok(false),
    }
}

/// The verdict of a comparison on every token: the first error, if a token
/// gives one; else whether some token gives `true`.
pub open spec fn any_verdict(leaf: ExprView, tokens: Seq<Seq<char>>, today: CalendarDate) -> Result<
    bool,
    Seq<char>,
>
    decreases tokens.len(),
{
    if tokens.len() == 0 {
        Ok(false)
    } else {
        match any_verdict(leaf, tokens.drop_last(), today) {
            Err(e) => Err(e),
            Ok(found) => match token_verdict(leaf, tokens.last(), today) {
                Err(e) => Err(e),
                Ok(here) => Ok(found || here),
            },
        }
    }
}

/// The tokens that a comparison selects; none for what is no comparison.
pub open spec fn selector_of(leaf: ExprView) -> Selector {
    match leaf {
        ExprView::Simple(field, _, _) => field.selector,
        ExprView::Contains(field, _, _) => field.selector,
        _ => Selector::Every,
    }
}

/// The verdict of a comparison on a line. A place that the line does not
/// have gives `false`.
pub open spec fn leaf_verdict(leaf: ExprView, tokens: Seq<Seq<char>>, today: CalendarDate) -> Result<
    bool,
    Seq<char>,
> {
    match selector_of(leaf) {
        Selector::Index(n) => if n >= tokens.len() {
            Ok(false)
        } else {
            token_verdict(leaf, tokens[n as int], today)
        },
        Selector::Every => any_verdict(leaf, tokens, today),
    }
}

/// Two verdicts joined: the error of the left one, else that of the right
/// one, else both with `&&` where `both` is set and with `||` where not.
pub open spec fn joined(
    both: bool,
    left: Result<bool, Seq<char>>,
    right: Result<bool, Seq<char>>,
) -> Result<bool, Seq<char>> {
    match left {
        Err(e) => Err(e),
        Ok(l) => match right {
            Err(e) => Err(e),
            Ok(r) => Ok(
                if both {
                    l && r
                } else {
                    l || r
                },
            ),
        },
    }
}

/// The verdict of a query on a line, with `today` for today's date.
pub open spec fn verdict(tree: ExprView, tokens: Seq<Seq<char>>, today: CalendarDate) -> Result<
    bool,
    Seq<char>,
>
    decreases tree,
{
    match tree {
        ExprView::Group(inner) => verdict(*inner, tokens, today),
        ExprView::And(left, right) => joined(
            true,
            verdict(*left, tokens, today),
            verdict(*right, tokens, today),
        ),
        ExprView::Or(left, right) => joined(
            false,
            verdict(*left, tokens, today),
            verdict(*right, tokens, today),
        ),
        _ => leaf_verdict(tree, tokens, today),
    }
}

/// Whether a query looks at today's date on a line: a comparison of dates
/// does where its value, one of its members or a token of the line is
/// `now()`.
pub open spec fn reads_clock(tree: ExprView, tokens: Seq<Seq<char>>) -> bool
    decreases tree,
{
    match tree {
        ExprView::Simple(field, _, value) => field.kind == TokenType::Date && (value
            == now_literal() || tokens.contains(now_literal())),
        ExprView::Contains(field, _, members) => field.kind == TokenType::Date && (
        members.contains(now_literal()) || tokens.contains(now_literal())),
        ExprView::Group(inner) => reads_clock(*inner, tokens),
        ExprView::And(left, right) => reads_clock(*left, tokens) || reads_clock(*right, tokens),
        ExprView::Or(left, right) => reads_clock(*left, tokens) || reads_clock(*right, tokens),
    }
}

/// Whether the tree is a comparison.
pub open spec fn is_leaf(tree: ExprView) -> bool {
    tree is Simple || tree is Contains
}

/// The texts of the tokens of a line.
pub open spec fn line_view(tokens: Seq<&str>) -> Seq<Seq<char>> {
    Seq::new(tokens.len(), |i: int| tokens[i]@)
}

/// Whether `result` is what `want` says: that verdict, or the error with
/// that message.
pub open spec fn answers(result: Result<bool, String>, want: Result<bool, Seq<char>>) -> bool {
    match (result, want) {
        (Ok(b), Ok(w)) => b == w,
        (Err(e), Err(m)) => e@ == m,
        _ => false,
    }
}

/// `among` of a list with one more member.
proof fn lemma_among_step(
    type_term: Seq<char>,
    field: TokenView,
    members: Seq<Seq<char>>,
    k: int,
    format: Option<Seq<char>>,
    today: CalendarDate,
)
    requires
        0 <= k < members.len(),
    ensures
        among(type_term, field, members.take(k + 1), format, today) == match among(
            type_term,
            field,
            members.take(k),
            format,
            today,
        ) {
            Err(e) => Err(e),
            Ok(found) => match construct(type_term, members[k], format, false, today) {
                Err(e) => Err(e),
                Ok(other) => Ok(found || field.order(other) == Some(Order::Equal)),
            },
        },
{
    assert(members.take(k + 1).drop_last() =~= members.take(k));
    assert(members.take(k + 1).last() == members[k]);
}

/// `any_verdict` of a line with one more token.
proof fn lemma_any_step(leaf: ExprView, tokens: Seq<Seq<char>>, k: int, today: CalendarDate)
    requires
        0 <= k < tokens.len(),
    ensures
        any_verdict(leaf, tokens.take(k + 1), today) == match any_verdict(
            leaf,
            tokens.take(k),
            today,
        ) {
            Err(e) => Err(e),
            Ok(found) => match token_verdict(leaf, tokens[k], today) {
                Err(e) => Err(e),
                Ok(here) => Ok(found || here),
            },
        },
{
    assert(tokens.take(k + 1).drop_last() =~= tokens.take(k));
    assert(tokens.take(k + 1).last() == tokens[k]);
}

/// Reading a value as `copy` does, from a token that was built for
/// `type_term` under `format`, is reading it for `type_term` under `format`.
proof fn lemma_copy_reads_alike(
    type_term: Seq<char>,
    token: Seq<char>,
    value: Seq<char>,
    format: Option<Seq<char>>,
    today: CalendarDate,
)
    ensures
        construct(type_term, token, format, false, today) matches Ok(field) ==> construct(
            field.tag(),
            value,
            crate::tokenizer::copy_format(field, format),
            false,
            today,
        ) == construct(type_term, value, format, false, today),
{
    crate::tokenizer::lemma_construct_wf(type_term, token, format, false, today);
}

/// Once a member cannot be read, no later member mends it.
proof fn lemma_among_error_stays(
    type_term: Seq<char>,
    field: TokenView,
    members: Seq<Seq<char>>,
    k: int,
    format: Option<Seq<char>>,
    today: CalendarDate,
)
    requires
        0 <= k <= members.len(),
        among(type_term, field, members.take(k), format, today) is Err,
    ensures
        among(type_term, field, members, format, today) == among(
            type_term,
            field,
            members.take(k),
            format,
            today,
        ),
    decreases members.len() - k,
{
    if k == members.len() {
        assert(members.take(k) =~= members);
    } else {
        lemma_among_step(type_term, field, members, k, format, today);
        lemma_among_error_stays(type_term, field, members, k + 1, format, today);
    }
}

/// Once a token gives an error, no later token mends it.
proof fn lemma_any_error_stays(leaf: ExprView, tokens: Seq<Seq<char>>, k: int, today: CalendarDate)
    requires
        0 <= k <= tokens.len(),
        any_verdict(leaf, tokens.take(k), today) is Err,
    ensures
        any_verdict(leaf, tokens, today) == any_verdict(leaf, tokens.take(k), today),
    decreases tokens.len() - k,
{
    if k == tokens.len() {
        assert(tokens.take(k) =~= tokens);
    } else {
        lemma_any_step(leaf, tokens, k, today);
        lemma_any_error_stays(leaf, tokens, k + 1, today);
    }
}

fn match_error() -> (r: String)
    ensures
        r@ == match_message(),
{
    String::from_str("only string type is allowed for match expressions")
}

fn meets(op: Operator, order: Option<Order>) -> (r: bool)
    ensures
        r == holds(op, order),
{
    match op {
        Operator::Eq => match order {
            Some(Order::Equal) => true,
            _ => false,
        },
        Operator::Neq => match order {
            Some(Order::Equal) => false,
            _ => true,
        },
        Operator::Lt => match order {
            Some(Order::Less) => true,
            _ => false,
        },
        Operator::Gt => match order {
            Some(Order::Greater) => true,
            _ => false,
        },
        Operator::Lte => match order {
            Some(Order::Less) => true,
            Some(Order::Equal) => true,
            _ => false,
        },
        Operator::Gte => match order {
            Some(Order::Greater) => true,
            Some(Order::Equal) => true,
            _ => false,
        },
        Operator::Match => false,
    }
}

/// The verdict of `type_term op value` on the token `token_val`; see
/// `compared`.
pub fn eval_op(
    type_term: &str,
    op: Operator,
    value: &str,
    format: Option<&str>,
    token_val: &str,
    today: CalendarDate,
) -> (r: Result<bool, String>)
    ensures
        answers(r, compared(type_term@, op, value@, format_view(format), token_val@, today)),
{
    let token = match Token::new_on(type_term, token_val, format, false, today) {
        Ok(token) => token,
        Err(_) => {
            return Ok(false);
        },
    };
    match op {
        Operator::Match => match &token {
            Token::String(_, _) => Ok(token.is_match(value)),
            _ => Err(match_error()),
        },
        _ => {
            proof {
                lemma_copy_reads_alike(type_term@, token_val@, value@, format_view(format), today);
            }
            match token.copy_on(value, format, today) {
                Ok(other) => Ok(meets(op, token.compare(&other))),
                Err(e) => Err(e),
            }
        },
    }
}

/// The verdict of `type_term in members`, or of `!in` where `negated` is
/// set, on the token `token_val`; see `contained`.
pub fn eval_in(
    type_term: &str,
    negated: bool,
    members: &Vec<String>,
    format: Option<&str>,
    token_val: &str,
    today: CalendarDate,
) -> (r: Result<bool, String>)
    ensures
        answers(
            r,
            contained(
                type_term@,
                negated,
                members.deep_view(),
                format_view(format),
                token_val@,
                today,
            ),
        ),
{
    let token = match Token::new_on(type_term, token_val, format, false, today) {
        Ok(token) => token,
        Err(_) => {
            return Ok(false);
        },
    };
    let ghost texts = members.deep_view();
    let ghost field = token@;
    let mut found = false;
    let mut k: usize = 0;
    assert(texts.take(0) =~= Seq::<Seq<char>>::empty());
    while k < members.len()
        invariant
            k <= members.len(),
            texts == members.deep_view(),
            field == token@,
            construct(type_term@, token_val@, format_view(format), false, today) == Ok::<
                TokenView,
                Seq<char>,
            >(field),
            among(type_term@, field, texts.take(k as int), format_view(format), today) == Ok::<
                bool,
                Seq<char>,
            >(found),
        decreases members.len() - k,
    {
        proof {
            lemma_among_step(type_term@, field, texts, k as int, format_view(format), today);
            lemma_copy_reads_alike(
                type_term@,
                token_val@,
                texts[k as int],
                format_view(format),
                today,
            );
            assert(texts[k as int] == members[k as int]@);
        }
        match token.copy_on(members[k].as_str(), format, today) {
            Ok(other) => {
                if let Some(Order::Equal) = token.compare(&other) {
                    found = true;
                }
            },
            Err(e) => {
                proof {
                    lemma_among_error_stays(
                        type_term@,
                        field,
                        texts,
                        k + 1,
                        format_view(format),
                        today,
                    );
                }
                return Err(e);
            },
        }
        k += 1;
    }
    assert(texts.take(members.len() as int) =~= texts);
    Ok(found != negated)
}

/// The verdict of a comparison on one token; see `token_verdict`.
fn eval_token(leaf: &Expr, token_val: &str, today: CalendarDate) -> (r: Result<bool, String>)
    ensures
        answers(r, token_verdict(leaf@, token_val@, today)),
{
    match leaf {
        Expr::Simple(field, op, value) => eval_op(
            field.kind.name(),
            *op,
            value.as_str(),
            format_of(field),
            token_val,
            today,
        ),
        Expr::Contains(field, negated, members) => eval_in(
            field.kind.name(),
            *negated,
            members,
            format_of(field),
            token_val,
            today,
        ),
        _ => Ok(false),
    }
}

fn format_of(field: &TypeExpr) -> (r: Option<&str>)
    ensures
        format_view(r) == field@.format,
{
    match &field.format {
        Some(f) => Some(f.as_str()),
        None => None,
    }
}

fn selector_in(leaf: &Expr) -> (r: Selector)
    ensures
        r == selector_of(leaf@),
{
    match leaf {
        Expr::Simple(field, _, _) => field.selector,
        Expr::Contains(field, _, _) => field.selector,
        _ => Selector::Every,
    }
}

/// The verdict of a comparison on a line; see `leaf_verdict`.
pub fn eval(leaf: &Expr, tokens: &Vec<&str>, today: CalendarDate) -> (r: Result<bool, String>)
    ensures
        answers(r, leaf_verdict(leaf@, line_view(tokens@), today)),
{
    let ghost line = line_view(tokens@);
    match selector_in(leaf) {
        Selector::Index(n) => {
            if n >= tokens.len() as u64 {
                Ok(false)
            } else {
                let at = n as usize;
                assert(line[n as int] == tokens@[at as int]@);
                eval_token(leaf, tokens[at], today)
            }
        },
        Selector::Every => {
            let mut found = false;
            let mut k: usize = 0;
            assert(line.take(0) =~= Seq::<Seq<char>>::empty());
            while k < tokens.len()
                invariant
                    k <= tokens.len(),
                    selector_of(leaf@) == Selector::Every,
                    line == line_view(tokens@),
                    any_verdict(leaf@, line.take(k as int), today) == Ok::<bool, Seq<char>>(found),
                decreases tokens.len() - k,
            {
                proof {
                    lemma_any_step(leaf@, line, k as int, today);
                    assert(line[k as int] == tokens@[k as int]@);
                }
                match eval_token(leaf, tokens[k], today) {
                    Ok(here) => {
                        found = found || here;
                    },
                    Err(e) => {
                        proof {
                            lemma_any_error_stays(leaf@, line, k + 1, today);
                        }
                        return Err(e);
                    },
                }
                k += 1;
            }
            assert(line.take(tokens.len() as int) =~= line);
            Ok(found)
        },
    }
}

/// The verdict of a query on a line, with `today` for today's date; see
/// `verdict`.
pub fn process_grammar(tree: &Expr, tokens: &Vec<&str>, today: CalendarDate) -> (r: Result<
    bool,
    String,
>)
    ensures
        answers(r, verdict(tree@, line_view(tokens@), today)),
    decreases tree,
{
    match tree {
        Expr::Group(inner) => process_grammar(inner, tokens, today),
        Expr::And(left, right) => {
            let l = process_grammar(left, tokens, today);
            let r = process_grammar(right, tokens, today);
            match l {
                Err(e) => Err(e),
                Ok(l) => match r {
                    Err(e) => Err(e),
                    Ok(r) => Ok(l && r),
                },
            }
        },
        Expr::Or(left, right) => {
            let l = process_grammar(left, tokens, today);
            let r = process_grammar(right, tokens, today);
            match l {
                Err(e) => Err(e),
                Ok(l) => match r {
                    Err(e) => Err(e),
                    Ok(r) => Ok(l || r),
                },
            }
        },
        _ => eval(tree, tokens, today),
    }
}

/// The verdict of a query on a line, with `today` for today's date.
pub fn evaluate_line_on(grammar: &Expr, tokens: &Vec<&str>, today: CalendarDate) -> (r: Result<
    bool,
    String,
>)
    ensures
        answers(r, verdict(grammar@, line_view(tokens@), today)),
{
    process_grammar(grammar, tokens, today)
}

/// Building a token does not depend on the day unless it is a date built
/// from `now()`.
pub proof fn lemma_construct_without_clock(
    type_term: Seq<char>,
    value: Seq<char>,
    format: Option<Seq<char>>,
    validate: bool,
    one: CalendarDate,
    other: CalendarDate,
)
    requires
        !crate::tokenizer::reads_clock(type_term, value),
    ensures
        construct(type_term, value, format, validate, one) == construct(
            type_term,
            value,
            format,
            validate,
            other,
        ),
{
    TokenType::lemma_name_named(type_term);
}

proof fn lemma_among_without_clock(
    type_term: Seq<char>,
    field: TokenView,
    members: Seq<Seq<char>>,
    format: Option<Seq<char>>,
    one: CalendarDate,
    other: CalendarDate,
)
    requires
        type_term != "date"@ || !members.contains(now_literal()),
    ensures
        among(type_term, field, members, format, one) == among(
            type_term,
            field,
            members,
            format,
            other,
        ),
    decreases members.len(),
{
    if members.len() > 0 {
        let front = members.drop_last();
        assert forall|m: Seq<char>| front.contains(m) implies members.contains(m) by {
            let i = choose|i: int| 0 <= i < front.len() && front[i] == m;
            assert(members[i] == m);
        }
        lemma_among_without_clock(type_term, field, front, format, one, other);
        assert(members.contains(members.last()));
        lemma_construct_without_clock(type_term, members.last(), format, false, one, other);
    }
}

proof fn lemma_token_verdict_without_clock(
    leaf: ExprView,
    tokens: Seq<Seq<char>>,
    token: Seq<char>,
    one: CalendarDate,
    other: CalendarDate,
)
    requires
        is_leaf(leaf),
        !reads_clock(leaf, tokens),
        tokens.contains(token),
    ensures
        token_verdict(leaf, token, one) == token_verdict(leaf, token, other),
{
    match leaf {
        ExprView::Simple(field, op, value) => {
            let name = field.kind.name_spec();
            field.kind.lemma_named_name();
            TokenType::lemma_named_name(TokenType::Date);
            lemma_construct_without_clock(name, token, field.format, false, one, other);
            lemma_construct_without_clock(name, value, field.format, false, one, other);
        },
        ExprView::Contains(field, negated, members) => {
            let name = field.kind.name_spec();
            field.kind.lemma_named_name();
            TokenType::lemma_named_name(TokenType::Date);
            lemma_construct_without_clock(name, token, field.format, false, one, other);
            if let Ok(t) = construct(name, token, field.format, false, one) {
                lemma_among_without_clock(name, t, members, field.format, one, other);
            }
        },
        _ => {},
    }
}

proof fn lemma_any_without_clock(
    leaf: ExprView,
    tokens: Seq<Seq<char>>,
    k: int,
    one: CalendarDate,
    other: CalendarDate,
)
    requires
        is_leaf(leaf),
        !reads_clock(leaf, tokens),
        0 <= k <= tokens.len(),
    ensures
        any_verdict(leaf, tokens.take(k), one) == any_verdict(leaf, tokens.take(k), other),
    decreases k,
{
    if k > 0 {
        lemma_any_without_clock(leaf, tokens, k - 1, one, other);
        lemma_any_step(leaf, tokens, k - 1, one);
        lemma_any_step(leaf, tokens, k - 1, other);
        assert(tokens.contains(tokens[k - 1]));
        lemma_token_verdict_without_clock(leaf, tokens, tokens[k - 1], one, other);
    } else {
        assert(tokens.take(0) =~= Seq::<Seq<char>>::empty());
    }
}

/// A query that does not look at today's date on a line gives the same
/// verdict on it whatever the day.
pub proof fn lemma_verdict_without_clock(
    tree: ExprView,
    tokens: Seq<Seq<char>>,
    one: CalendarDate,
    other: CalendarDate,
)
    requires
        !reads_clock(tree, tokens),
    ensures
        verdict(tree, tokens, one) == verdict(tree, tokens, other),
    decreases tree,
{
    match tree {
        ExprView::Group(inner) => {
            lemma_verdict_without_clock(*inner, tokens, one, other);
        },
        ExprView::And(left, right) => {
            lemma_verdict_without_clock(*left, tokens, one, other);
            lemma_verdict_without_clock(*right, tokens, one, other);
        },
        ExprView::Or(left, right) => {
            lemma_verdict_without_clock(*left, tokens, one, other);
            lemma_verdict_without_clock(*right, tokens, one, other);
        },
        _ => {
            match selector_of(tree) {
                Selector::Index(n) => {
                    if n < tokens.len() {
                        assert(tokens.contains(tokens[n as int]));
                        lemma_token_verdict_without_clock(
                            tree,
                            tokens,
                            tokens[n as int],
                            one,
                            other,
                        );
                    }
                },
                Selector::Every => {
                    lemma_any_without_clock(tree, tokens, tokens.len() as int, one, other);
                    assert(tokens.take(tokens.len() as int) =~= tokens);
                },
            }
        },
    }
}

/// The verdict of a query on the tokens of a line. Today's date, which
/// `now()` stands for, is read from the clock once; a query that does not
/// look at it gives the verdict that it gives on any day.
pub fn evaluate_line(grammar: &Expr, tokens: &Vec<&str>) -> (r: Result<bool, String>)
    ensures
        exists|today: CalendarDate|
            today.in_range() && answers(r, verdict(grammar@, line_view(tokens@), today)),
        !reads_clock(grammar@, line_view(tokens@)) ==> forall|today: CalendarDate|
            answers(r, verdict(grammar@, line_view(tokens@), today)),
{
    let today = today_utc();
    let r = evaluate_line_on(grammar, tokens, today);
    proof {
        assert(today.in_range() && answers(r, verdict(grammar@, line_view(tokens@), today)));
        if !reads_clock(grammar@, line_view(tokens@)) {
            assert forall|day: CalendarDate|
                answers(r, verdict(grammar@, line_view(tokens@), day)) by {
                lemma_verdict_without_clock(grammar@, line_view(tokens@), today, day);
            }
        }
    }
    r
}

} // verus!
