//! What holds of tokens, queries and verdicts whatever the input.

use crate::address::{
    lemma_groups_order_equal, lemma_ipv4_shown_reads_back, lemma_ipv6_shown_reads_back,
    lemma_octets_order_equal,
};
use crate::calendar::CalendarDate;
use crate::evaluator::{
    among, any_verdict, holds, is_leaf, joined, match_message, selector_of, token_verdict, verdict,
};
use crate::grammar::query_tree;
use crate::number::size_order;
use crate::parser::TokenType;
use crate::query::{ExprView, Operator, Selector, TypeExprView};
use crate::text::{lemma_lex_order_equal, lemma_parse_decimal_text, Order};
use crate::tokenizer::{construct, copy_format, TokenView};
use vstd::prelude::*;

verus! {

/// Reading a query depends on its text alone: two trees read from one text
/// are the same tree.
pub proof fn law_parse_is_a_function(text: Seq<char>, one: ExprView, other: ExprView)
    requires
        query_tree(text) == Some(one),
        query_tree(text) == Some(other),
    ensures
        one == other,
{
}

/// A token compares equal to itself.
pub proof fn law_order_reflexive(t: TokenView)
    requires
        t.wf(),
    ensures
        t.order(t) == Some(Order::Equal),
{
    match t {
        TokenView::String(_, v) => {
            lemma_lex_order_equal(v, v);
        },
        TokenView::Number(_, v) => {
            v.lemma_order_equal(v);
        },
        TokenView::Email(_, v) => {
            lemma_lex_order_equal(v, v);
        },
        TokenView::Ipv4(_, v) => {
            lemma_octets_order_equal(v, v, 0);
        },
        TokenView::Ipv6(_, v) => {
            lemma_groups_order_equal(v, v, 0);
        },
        TokenView::SemVersion(_, v) => {
            v.lemma_order_equal(v);
        },
        _ => {},
    }
}

/// A token built again from what it shows, under its own format, is the
/// same token, and so compares equal to it.
pub proof fn law_copy_round_trip(t: TokenView, today: CalendarDate)
    requires
        t.wf(),
    ensures
        construct(t.tag(), t.shown(), copy_format(t, t.format()), false, today) == Ok::<
            TokenView,
            Seq<char>,
        >(t),
        t.order(t) == Some(Order::Equal),
{
    law_order_reflexive(t);
    TokenType::lemma_named_name(TokenType::String);
    TokenType::lemma_named_name(TokenType::Number);
    TokenType::lemma_named_name(TokenType::Integer);
    TokenType::lemma_named_name(TokenType::Email);
    TokenType::lemma_named_name(TokenType::Date);
    TokenType::lemma_named_name(TokenType::Ipv4);
    TokenType::lemma_named_name(TokenType::Ipv6);
    TokenType::lemma_named_name(TokenType::SemVersion);
    match t {
        TokenView::Number(_, v) => {
            v.lemma_shown_reads_back();
        },
        TokenView::Integer(_, v) => {
            lemma_parse_decimal_text(v);
        },
        TokenView::Ipv4(_, v) => {
            lemma_ipv4_shown_reads_back(v);
        },
        TokenView::Ipv6(_, v) => {
            lemma_ipv6_shown_reads_back(v);
        },
        _ => {},
    }
}

/// Two numbers stand in order as they stand by size: scaled by a power of
/// ten that makes both whole, the smaller number is the smaller whole
/// number.
pub proof fn law_numbers_order_by_size(a: TokenView, b: TokenView, k: nat)
    requires
        a.wf(),
        b.wf(),
        a matches TokenView::Number(_, x) && x.frac.len() <= k,
        b matches TokenView::Number(_, y) && y.frac.len() <= k,
    ensures
        a.order(b) == Some(size_order(a->Number_1.scaled(k), b->Number_1.scaled(k))),
{
    a->Number_1.lemma_order_is_by_size(b->Number_1, k);
}

/// Of two tokens of one kind exactly one holds: the first is less than,
/// equal to, or greater than the second.
pub proof fn law_order_total(a: TokenView, b: TokenView)
    requires
        a.same_kind(b),
    ensures
        holds(Operator::Lt, a.order(b)) || holds(Operator::Eq, a.order(b)) || holds(
            Operator::Gt,
            a.order(b),
        ),
        !(holds(Operator::Lt, a.order(b)) && holds(Operator::Eq, a.order(b))),
        !(holds(Operator::Lt, a.order(b)) && holds(Operator::Gt, a.order(b))),
        !(holds(Operator::Eq, a.order(b)) && holds(Operator::Gt, a.order(b))),
        holds(Operator::Neq, a.order(b)) == !holds(Operator::Eq, a.order(b)),
        holds(Operator::Lte, a.order(b)) == !holds(Operator::Gt, a.order(b)),
        holds(Operator::Gte, a.order(b)) == !holds(Operator::Lt, a.order(b)),
{
}

/// A comparison at a place that the line does not have gives `false`.
pub proof fn law_index_out_of_range(leaf: ExprView, tokens: Seq<Seq<char>>, today: CalendarDate)
    requires
        is_leaf(leaf),
        selector_of(leaf) matches Selector::Index(n) && n >= tokens.len(),
    ensures
        verdict(leaf, tokens, today) == Ok::<bool, Seq<char>>(false),
{
}

/// What `any_verdict` gives: whether some token gives `true`, where every
/// token gives a verdict; else the error of the first token that gives one.
pub proof fn lemma_any_is_exists(leaf: ExprView, tokens: Seq<Seq<char>>, today: CalendarDate)
    ensures
        match any_verdict(leaf, tokens, today) {
            Ok(found) => (forall|i: int|
                0 <= i < tokens.len() ==> (#[trigger] token_verdict(leaf, tokens[i], today))
                    is Ok) && found == (exists|i: int|
                0 <= i < tokens.len() && #[trigger] token_verdict(leaf, tokens[i], today) == Ok::<
                    bool,
                    Seq<char>,
                >(true)),
            Err(e) => exists|i: int|
                0 <= i < tokens.len() && #[trigger] token_verdict(leaf, tokens[i], today) == Err::<
                    bool,
                    Seq<char>,
                >(e) && forall|j: int|
                    0 <= j < i ==> (#[trigger] token_verdict(leaf, tokens[j], today)) is Ok,
        },
    decreases tokens.len(),
{
    if tokens.len() > 0 {
        let front = tokens.drop_last();
        let n = front.len() as int;
        lemma_any_is_exists(leaf, front, today);
        assert forall|i: int| 0 <= i < n implies front[i] == tokens[i] by {}
        match any_verdict(leaf, front, today) {
            Err(e) => {
                let i = choose|i: int|
                    0 <= i < front.len() && #[trigger] token_verdict(leaf, front[i], today) == Err::<
                        bool,
                        Seq<char>,
                    >(e) && forall|j: int|
                        0 <= j < i ==> (#[trigger] token_verdict(leaf, front[j], today)) is Ok;
                assert(token_verdict(leaf, tokens[i], today) == Err::<bool, Seq<char>>(e));
                assert forall|j: int| 0 <= j < i implies (#[trigger] token_verdict(
                    leaf,
                    tokens[j],
                    today,
                )) is Ok by {
                    assert(token_verdict(leaf, front[j], today) is Ok);
                }
            },
            Ok(found) => {
                assert forall|j: int| 0 <= j < n implies (#[trigger] token_verdict(
                    leaf,
                    tokens[j],
                    today,
                )) is Ok by {
                    assert(token_verdict(leaf, front[j], today) is Ok);
                }
                match token_verdict(leaf, tokens.last(), today) {
                    Err(e) => {
                        assert(token_verdict(leaf, tokens[n], today) == Err::<bool, Seq<char>>(e));
                    },
                    Ok(here) => {
                        if found {
                            let i = choose|i: int|
                                0 <= i < front.len() && #[trigger] token_verdict(
                                    leaf,
                                    front[i],
                                    today,
                                ) == Ok::<bool, Seq<char>>(true);
                            assert(token_verdict(leaf, tokens[i], today) == Ok::<bool, Seq<char>>(
                                true,
                            ));
                        } else if here {
                            assert(token_verdict(leaf, tokens[n], today) == Ok::<bool, Seq<char>>(
                                true,
                            ));
                        } else {
                            assert forall|i: int| 0 <= i < tokens.len() implies #[trigger] token_verdict(
                                leaf,
                                tokens[i],
                                today,
                            ) != Ok::<bool, Seq<char>>(true) by {
                                if i < n {
                                    assert(token_verdict(leaf, front[i], today) != Ok::<
                                        bool,
                                        Seq<char>,
                                    >(true));
                                }
                            }
                        }
                    },
                }
            },
        }
    }
}

/// Where every token gives a verdict, a comparison on every token holds
/// exactly when it holds on one of them; where not, its error is that of
/// the first token that gives one.
pub proof fn law_every_is_exists(leaf: ExprView, tokens: Seq<Seq<char>>, today: CalendarDate)
    requires
        is_leaf(leaf),
        selector_of(leaf) == Selector::Every,
    ensures
        match verdict(leaf, tokens, today) {
            Ok(found) => (forall|i: int|
                0 <= i < tokens.len() ==> (#[trigger] token_verdict(leaf, tokens[i], today))
                    is Ok) && found == (exists|i: int|
                0 <= i < tokens.len() && #[trigger] token_verdict(leaf, tokens[i], today) == Ok::<
                    bool,
                    Seq<char>,
                >(true)),
            Err(e) => exists|i: int|
                0 <= i < tokens.len() && #[trigger] token_verdict(leaf, tokens[i], today) == Err::<
                    bool,
                    Seq<char>,
                >(e) && forall|j: int|
                    0 <= j < i ==> (#[trigger] token_verdict(leaf, tokens[j], today)) is Ok,
        },
{
    lemma_any_is_exists(leaf, tokens, today);
}

/// A comparison holds of a token only where the token reads as the kind of
/// the comparison.
pub proof fn law_verdict_needs_the_kind(leaf: ExprView, token: Seq<char>, today: CalendarDate)
    requires
        is_leaf(leaf),
        token_verdict(leaf, token, today) != Ok::<bool, Seq<char>>(false),
    ensures
        leaf matches ExprView::Simple(field, _, _) ==> construct(
            field.kind.name_spec(),
            token,
            field.format,
            false,
            today,
        ) is Ok,
        leaf matches ExprView::Contains(field, _, _) ==> construct(
            field.kind.name_spec(),
            token,
            field.format,
            false,
            today,
        ) is Ok,
{
}

/// `match` on a field that is no string is an error wherever the token at
/// its place reads as the kind of the field.
pub proof fn law_match_needs_string(
    field: TypeExprView,
    value: Seq<char>,
    tokens: Seq<Seq<char>>,
    today: CalendarDate,
)
    requires
        field.kind != TokenType::String,
        field.selector matches Selector::Index(n) && n < tokens.len() && construct(
            field.kind.name_spec(),
            tokens[n as int],
            field.format,
            false,
            today,
        ) is Ok,
    ensures
        verdict(ExprView::Simple(field, Operator::Match, value), tokens, today) == Err::<
            bool,
            Seq<char>,
        >(match_message()),
{
    field.kind.lemma_named_name();
}

/// `match` on every token, for a field that is no string, is an error
/// wherever some token reads as the kind of the field.
pub proof fn law_match_needs_string_everywhere(
    field: TypeExprView,
    value: Seq<char>,
    tokens: Seq<Seq<char>>,
    today: CalendarDate,
)
    requires
        field.kind != TokenType::String,
        field.selector == Selector::Every,
        exists|i: int|
            0 <= i < tokens.len() && (#[trigger] construct(
                field.kind.name_spec(),
                tokens[i],
                field.format,
                false,
                today,
            )) is Ok,
    ensures
        verdict(ExprView::Simple(field, Operator::Match, value), tokens, today) == Err::<
            bool,
            Seq<char>,
        >(match_message()),
{
    let leaf = ExprView::Simple(field, Operator::Match, value);
    field.kind.lemma_named_name();
    law_every_is_exists(leaf, tokens, today);
    let i = choose|i: int|
        0 <= i < tokens.len() && (#[trigger] construct(
            field.kind.name_spec(),
            tokens[i],
            field.format,
            false,
            today,
        )) is Ok;
    assert(token_verdict(leaf, tokens[i], today) == Err::<bool, Seq<char>>(match_message()));
    assert forall|j: int| 0 <= j < tokens.len() implies #[trigger] token_verdict(
        leaf,
        tokens[j],
        today,
    ) != Ok::<bool, Seq<char>>(true) by {}
}

/// The query that asks of a field whether it equals the first member, or
/// the second, and so on: `field == a || field == b || field == c`, grouped
/// to the left as the reader groups it.
pub open spec fn either_of(field: TypeExprView, members: Seq<Seq<char>>) -> ExprView
    decreases members.len(),
{
    if members.len() <= 1 {
        ExprView::Simple(field, Operator::Eq, members[0])
    } else {
        ExprView::Or(
            Box::new(either_of(field, members.drop_last())),
            Box::new(ExprView::Simple(field, Operator::Eq, members.last())),
        )
    }
}

/// Whether a member of a list cannot be read does not depend on the field
/// that is sought in the list.
proof fn lemma_among_error_alike(
    type_term: Seq<char>,
    one: TokenView,
    other: TokenView,
    members: Seq<Seq<char>>,
    format: Option<Seq<char>>,
    today: CalendarDate,
)
    ensures
        among(type_term, one, members, format, today) is Err ==> among(
            type_term,
            one,
            members,
            format,
            today,
        ) == among(type_term, other, members, format, today),
        among(type_term, one, members, format, today) is Ok ==> among(
            type_term,
            other,
            members,
            format,
            today,
        ) is Ok,
    decreases members.len(),
{
    if members.len() > 0 {
        lemma_among_error_alike(type_term, one, other, members.drop_last(), format, today);
    }
}

/// On one token, seeking a field in a list is seeking it in the list
/// without its last member, or comparing it with that member.
proof fn lemma_contained_splits(
    field: TypeExprView,
    members: Seq<Seq<char>>,
    token: Seq<char>,
    today: CalendarDate,
)
    requires
        members.len() >= 1,
    ensures
        members.len() == 1 ==> token_verdict(
            ExprView::Contains(field, false, members),
            token,
            today,
        ) == token_verdict(ExprView::Simple(field, Operator::Eq, members[0]), token, today),
        members.len() > 1 ==> token_verdict(
            ExprView::Contains(field, false, members),
            token,
            today,
        ) == joined(
            false,
            token_verdict(ExprView::Contains(field, false, members.drop_last()), token, today),
            token_verdict(ExprView::Simple(field, Operator::Eq, members.last()), token, today),
        ),
{
    let name = field.kind.name_spec();
    if let Ok(t) = construct(name, token, field.format, false, today) {
        if members.len() == 1 {
            assert(members.drop_last().len() == 0);
            assert(members.last() == members[0]);
            assert(among(name, t, members.drop_last(), field.format, today) == Ok::<
                bool,
                Seq<char>,
            >(false));
        }
    }
}

/// Comparisons that give the same verdict on each token give the same
/// verdict on every token.
proof fn lemma_any_alike(
    one: ExprView,
    other: ExprView,
    tokens: Seq<Seq<char>>,
    today: CalendarDate,
)
    requires
        forall|i: int|
            0 <= i < tokens.len() ==> token_verdict(one, #[trigger] tokens[i], today)
                == token_verdict(other, tokens[i], today),
    ensures
        any_verdict(one, tokens, today) == any_verdict(other, tokens, today),
    decreases tokens.len(),
{
    if tokens.len() > 0 {
        let front = tokens.drop_last();
        assert forall|i: int| 0 <= i < front.len() implies token_verdict(
            one,
            #[trigger] front[i],
            today,
        ) == token_verdict(other, front[i], today) by {
            assert(front[i] == tokens[i]);
        }
        lemma_any_alike(one, other, front, today);
        assert(tokens.last() == tokens[tokens.len() - 1]);
    }
}

/// Where the verdict on every token is no error, no token gives one.
proof fn lemma_any_ok(leaf: ExprView, tokens: Seq<Seq<char>>, today: CalendarDate)
    requires
        any_verdict(leaf, tokens, today) is Ok,
    ensures
        forall|i: int|
            0 <= i < tokens.len() ==> (#[trigger] token_verdict(leaf, tokens[i], today)) is Ok,
    decreases tokens.len(),
{
    if tokens.len() > 0 {
        let front = tokens.drop_last();
        lemma_any_ok(leaf, front, today);
        assert forall|i: int| 0 <= i < tokens.len() implies (#[trigger] token_verdict(
            leaf,
            tokens[i],
            today,
        )) is Ok by {
            if i < front.len() {
                assert(front[i] == tokens[i]);
            }
        }
    }
}

/// Where a list cannot be read for one token and a value cannot be read
/// for another, the list cannot be read for that other token either.
proof fn lemma_errors_alike(
    field: TypeExprView,
    members: Seq<Seq<char>>,
    value: Seq<char>,
    one: Seq<char>,
    other: Seq<char>,
    today: CalendarDate,
)
    requires
        token_verdict(ExprView::Contains(field, false, members), one, today) is Err,
        token_verdict(ExprView::Simple(field, Operator::Eq, value), other, today) is Err,
    ensures
        token_verdict(ExprView::Contains(field, false, members), other, today) is Err,
{
    let name = field.kind.name_spec();
    let here = construct(name, one, field.format, false, today)->Ok_0;
    let there = construct(name, other, field.format, false, today)->Ok_0;
    lemma_among_error_alike(name, here, there, members, field.format, today);
}

/// Where `whole` gives on each token what `first` and `second` give there,
/// joined by `||`, and an error of `first` on one token and an error of
/// `second` on another mean an error of `first` on that other one, `whole`
/// gives on every token what `first` and `second` give on every token,
/// joined by `||`.
proof fn lemma_any_joins(
    whole: ExprView,
    first: ExprView,
    second: ExprView,
    tokens: Seq<Seq<char>>,
    today: CalendarDate,
)
    requires
        forall|i: int|
            0 <= i < tokens.len() ==> token_verdict(whole, #[trigger] tokens[i], today) == joined(
                false,
                token_verdict(first, tokens[i], today),
                token_verdict(second, tokens[i], today),
            ),
        forall|i: int, j: int|
            0 <= i < tokens.len() && 0 <= j < tokens.len() && token_verdict(
                first,
                #[trigger] tokens[i],
                today,
            ) is Err && token_verdict(second, #[trigger] tokens[j], today) is Err
                ==> token_verdict(first, tokens[j], today) is Err,
    ensures
        any_verdict(whole, tokens, today) == joined(
            false,
            any_verdict(first, tokens, today),
            any_verdict(second, tokens, today),
        ),
    decreases tokens.len(),
{
    if tokens.len() > 0 {
        let front = tokens.drop_last();
        let n = front.len() as int;
        assert forall|i: int| 0 <= i < n implies #[trigger] front[i] == tokens[i] by {}
        assert(tokens.last() == tokens[n]);
        assert forall|i: int| 0 <= i < front.len() implies token_verdict(
            whole,
            #[trigger] front[i],
            today,
        ) == joined(
            false,
            token_verdict(first, front[i], today),
            token_verdict(second, front[i], today),
        ) by {
            assert(front[i] == tokens[i]);
        }
        assert forall|i: int, j: int|
            0 <= i < front.len() && 0 <= j < front.len() && token_verdict(
                first,
                #[trigger] front[i],
                today,
            ) is Err && token_verdict(second, #[trigger] front[j], today) is Err implies token_verdict(
            first,
            front[j],
            today,
        ) is Err by {
            assert(front[i] == tokens[i] && front[j] == tokens[j]);
        }
        lemma_any_joins(whole, first, second, front, today);
        if any_verdict(first, front, today) is Ok && any_verdict(second, front, today) is Err
            && token_verdict(first, tokens[n], today) is Err {
            lemma_any_ok(first, front, today);
            lemma_any_is_exists(second, front, today);
            let e = any_verdict(second, front, today)->Err_0;
            let j = choose|j: int|
                0 <= j < front.len() && #[trigger] token_verdict(second, front[j], today) == Err::<
                    bool,
                    Seq<char>,
                >(e) && forall|k: int|
                    0 <= k < j ==> (#[trigger] token_verdict(second, front[k], today)) is Ok;
            assert(front[j] == tokens[j]);
            assert(token_verdict(first, tokens[j], today) is Err);
            assert(token_verdict(first, front[j], today) is Ok);
            assert(false);
        }
    }
}

/// On every token, seeking a field in a list is seeking it in the list
/// without its last member, or comparing it with that member.
proof fn lemma_any_splits(
    field: TypeExprView,
    members: Seq<Seq<char>>,
    tokens: Seq<Seq<char>>,
    today: CalendarDate,
)
    requires
        members.len() > 1,
    ensures
        any_verdict(ExprView::Contains(field, false, members), tokens, today) == joined(
            false,
            any_verdict(ExprView::Contains(field, false, members.drop_last()), tokens, today),
            any_verdict(ExprView::Simple(field, Operator::Eq, members.last()), tokens, today),
        ),
{
    let whole = ExprView::Contains(field, false, members);
    let first = ExprView::Contains(field, false, members.drop_last());
    let second = ExprView::Simple(field, Operator::Eq, members.last());
    assert forall|i: int| 0 <= i < tokens.len() implies token_verdict(
        whole,
        #[trigger] tokens[i],
        today,
    ) == joined(
        false,
        token_verdict(first, tokens[i], today),
        token_verdict(second, tokens[i], today),
    ) by {
        lemma_contained_splits(field, members, tokens[i], today);
    }
    assert forall|i: int, j: int|
        0 <= i < tokens.len() && 0 <= j < tokens.len() && token_verdict(
            first,
            #[trigger] tokens[i],
            today,
        ) is Err && token_verdict(second, #[trigger] tokens[j], today) is Err implies token_verdict(
        first,
        tokens[j],
        today,
    ) is Err by {
        lemma_errors_alike(field, members.drop_last(), members.last(), tokens[i], tokens[j], today);
    }
    lemma_any_joins(whole, first, second, tokens, today);
}

/// Seeking a field in a list is asking whether it equals the first member,
/// or the second, and so on, at one place of the line or on every token:
/// both give the same verdict or the same error.
pub proof fn law_in_is_either_equal(
    field: TypeExprView,
    members: Seq<Seq<char>>,
    tokens: Seq<Seq<char>>,
    today: CalendarDate,
)
    requires
        members.len() >= 1,
    ensures
        verdict(ExprView::Contains(field, false, members), tokens, today) == verdict(
            either_of(field, members),
            tokens,
            today,
        ),
    decreases members.len(),
{
    let whole = ExprView::Contains(field, false, members);
    if members.len() == 1 {
        let single = ExprView::Simple(field, Operator::Eq, members[0]);
        match field.selector {
            Selector::Index(n) => {
                if n < tokens.len() {
                    lemma_contained_splits(field, members, tokens[n as int], today);
                }
            },
            Selector::Every => {
                assert forall|i: int| 0 <= i < tokens.len() implies token_verdict(
                    whole,
                    #[trigger] tokens[i],
                    today,
                ) == token_verdict(single, tokens[i], today) by {
                    lemma_contained_splits(field, members, tokens[i], today);
                }
                lemma_any_alike(whole, single, tokens, today);
            },
        }
    } else {
        let first = ExprView::Contains(field, false, members.drop_last());
        let second = ExprView::Simple(field, Operator::Eq, members.last());
        law_in_is_either_equal(field, members.drop_last(), tokens, today);
        match field.selector {
            Selector::Index(n) => {
                if n < tokens.len() {
                    lemma_contained_splits(field, members, tokens[n as int], today);
                }
            },
            Selector::Every => {
                lemma_any_splits(field, members, tokens, today);
            },
        }
        assert(verdict(whole, tokens, today) == joined(
            false,
            verdict(first, tokens, today),
            verdict(second, tokens, today),
        ));
    }
}

} // verus!
