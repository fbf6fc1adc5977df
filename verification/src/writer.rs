//! Queries written out as text, and the proof that what is written reads
//! back as the query it was written from.

use crate::grammar::{
    char_at, expr_at, field_at, has_at, in_class, is_field, is_query, is_term, is_value, kind_at,
    leaf_at, list_at, members_at, operator_at, query_tree, rest_at, run_end, selector_at,
    skip_spaces, term_at, value_at, CharClass,
};
use crate::parser::TokenType;
use crate::query::{Expr, ExprView, Operator, Selector, TypeExpr, TypeExprView};
use crate::text::{decimal_text, is_digit, lemma_decimal_text_reads_back, push_decimal};
use vstd::prelude::*;
use vstd::string::StringExecFns;

verus! {

/// A selector written out: a star, or the place in decimal.
pub open spec fn selector_text(selector: Selector) -> Seq<char> {
    match selector {
        Selector::Every => seq!['*'],
        Selector::Index(n) => decimal_text(n as nat),
    }
}

/// An operator written out.
pub open spec fn operator_text(op: Operator) -> Seq<char> {
    match op {
        Operator::Eq => "=="@,
        Operator::Neq => "!="@,
        Operator::Lte => "<="@,
        Operator::Gte => ">="@,
        Operator::Lt => "<"@,
        Operator::Gt => ">"@,
        Operator::Match => "match"@,
    }
}

/// A field written out: `kind(selector)`, or `kind(selector,format)`.
pub open spec fn field_text(field: TypeExprView) -> Seq<char> {
    field.kind.name_spec() + seq!['('] + selector_text(field.selector) + (match field.format {
        Some(format) => seq![','] + format,
        None => Seq::empty(),
    }) + seq![')']
}

/// The values of a list written out, with a comma and a blank between them.
pub open spec fn members_text(members: Seq<Seq<char>>) -> Seq<char>
    decreases members.len(),
{
    if members.len() == 0 {
        Seq::empty()
    } else if members.len() == 1 {
        members[0]
    } else {
        members[0] + seq![',', ' '] + members_text(members.skip(1))
    }
}

/// A query written out: a blank on either side of an operator, of `in`
/// and `!in`, of `&&` and `||`, and none elsewhere but after the commas of
/// a list.
pub open spec fn written(tree: ExprView) -> Seq<char>
    decreases tree,
{
    match tree {
        ExprView::Simple(field, op, value) => field_text(field) + seq![' '] + operator_text(op)
            + seq![' '] + value,
        ExprView::Contains(field, negated, members) => field_text(field) + (if negated {
            seq![' ', '!', 'i', 'n', ' ', '[']
        } else {
            seq![' ', 'i', 'n', ' ', '[']
        }) + members_text(members) + seq![']'],
        ExprView::Group(inner) => seq!['('] + written(*inner) + seq![')'],
        ExprView::And(left, right) => written(*left) + seq![' ', '&', '&', ' '] + written(*right),
        ExprView::Or(left, right) => written(*left) + seq![' ', '|', '|', ' '] + written(*right),
    }
}

/// What may follow a value in what is written: the end, a blank, a comma,
/// or a closing parenthesis or bracket.
spec fn ends_value(s: Seq<char>, j: int) -> bool {
    j == s.len() || (0 <= j < s.len() && (s[j] == ' ' || s[j] == ')' || s[j] == ']' || s[j]
        == ','))
}

/// A word that stands in a text stands there character by character.
proof fn lemma_has_at_chars(s: Seq<char>, i: int, word: Seq<char>)
    requires
        has_at(s, i, word),
    ensures
        forall|k: int| 0 <= k < word.len() ==> s[i + k] == #[trigger] word[k],
{
    assert forall|k: int| 0 <= k < word.len() implies s[i + k] == #[trigger] word[k] by {
        assert(s.subrange(i, i + word.len())[k] == s[i + k]);
    }
}

/// Where two words stand one after the other, each stands in its place.
proof fn lemma_has_at_split(s: Seq<char>, i: int, first: Seq<char>, second: Seq<char>)
    requires
        has_at(s, i, first + second),
    ensures
        has_at(s, i, first),
        has_at(s, i + first.len(), second),
{
    lemma_has_at_chars(s, i, first + second);
    assert(s.subrange(i, i + first.len()) =~= first) by {
        assert forall|k: int| 0 <= k < first.len() implies s.subrange(i, i + first.len())[k]
            == first[k] by {
            assert((first + second)[k] == first[k]);
        }
    }
    assert(s.subrange(i + first.len(), i + first.len() + second.len()) =~= second) by {
        assert forall|k: int| 0 <= k < second.len() implies s.subrange(
            i + first.len(),
            i + first.len() + second.len(),
        )[k] == second[k] by {
            assert((first + second)[first.len() + k] == second[k]);
        }
    }
}

/// A run of characters of a class ends where the first character outside
/// the class stands.
proof fn lemma_run_end(s: Seq<char>, i: int, j: int, class: CharClass)
    requires
        0 <= i <= j <= s.len(),
        forall|k: int| i <= k < j ==> in_class(class, #[trigger] s[k]),
        j == s.len() || !in_class(class, s[j]),
    ensures
        run_end(s, i, class) == j,
    decreases j - i,
{
    if i < j {
        lemma_run_end(s, i + 1, j, class);
    }
}

/// No blank is skipped where none stands.
proof fn lemma_no_spaces(s: Seq<char>, i: int)
    requires
        0 <= i <= s.len(),
        i == s.len() || !in_class(CharClass::Space, s[i]),
    ensures
        skip_spaces(s, i) == i,
{
    lemma_run_end(s, i, i, CharClass::Space);
}

/// One blank is skipped where one stands before something else.
proof fn lemma_one_space(s: Seq<char>, i: int)
    requires
        0 <= i < s.len(),
        s[i] == ' ',
        i + 1 == s.len() || !in_class(CharClass::Space, s[i + 1]),
    ensures
        skip_spaces(s, i) == i + 1,
{
    lemma_run_end(s, i, i + 1, CharClass::Space);
}

/// The value that stands at `i`, and after which a value may end, is the
/// value that is read there.
proof fn lemma_value_at(s: Seq<char>, i: int, value: Seq<char>)
    requires
        is_value(value),
        has_at(s, i, value),
        ends_value(s, i + value.len()),
    ensures
        value_at(s, i) == Some((value, i + value.len())),
{
    reveal_strlit("now()");
    let now = "now()"@;
    lemma_has_at_chars(s, i, value);
    if value != now {
        let j = i + value.len();
        assert forall|k: int| i <= k < j implies in_class(CharClass::Value, #[trigger] s[k]) by {
            assert(s[k] == value[k - i]);
        }
        lemma_run_end(s, i, j, CharClass::Value);
        if has_at(s, i, now) {
            lemma_has_at_chars(s, i, now);
            assert(s[i + 3] == now[3]);
            if value.len() > 3 {
                assert(s[i + 3] == value[3]);
                assert(in_class(CharClass::Value, value[3]));
            } else if value.len() == 3 {
            } else if value.len() == 2 {
                assert(s[i + 2] == now[2]);
            } else {
                assert(s[i + 1] == now[1]);
            }
            assert(false);
        }
        assert(s.subrange(i, j) == value);
    }
}

/// The name of a kind that stands at `i` is read as that kind.
proof fn lemma_kind_at(s: Seq<char>, i: int, kind: TokenType)
    requires
        has_at(s, i, kind.name_spec()),
    ensures
        kind_at(s, i) == Some((kind, i + kind.name_spec().len())),
        kind.name_spec().len() >= 4,
        !in_class(CharClass::Space, kind.name_spec()[0]),
{
    reveal_strlit("date");
    reveal_strlit("string");
    reveal_strlit("integer");
    reveal_strlit("number");
    reveal_strlit("email");
    reveal_strlit("ipv4");
    reveal_strlit("ipv6");
    reveal_strlit("semver");
    let name = kind.name_spec();
    lemma_has_at_chars(s, i, name);
    assert(s[i] == name[0]);
    assert(s[i + 1] == name[1]);
    assert(s[i + 3] == name[3]);
    if has_at(s, i, "date"@) {
        lemma_has_at_chars(s, i, "date"@);
        assert(s[i] == "date"@[0]);
    }
    if has_at(s, i, "string"@) {
        lemma_has_at_chars(s, i, "string"@);
        assert(s[i] == "string"@[0] && s[i + 1] == "string"@[1]);
    }
    if has_at(s, i, "integer"@) {
        lemma_has_at_chars(s, i, "integer"@);
        assert(s[i] == "integer"@[0] && s[i + 1] == "integer"@[1]);
    }
    if has_at(s, i, "number"@) {
        lemma_has_at_chars(s, i, "number"@);
        assert(s[i] == "number"@[0]);
    }
    if has_at(s, i, "email"@) {
        lemma_has_at_chars(s, i, "email"@);
        assert(s[i] == "email"@[0]);
    }
    if has_at(s, i, "ipv4"@) {
        lemma_has_at_chars(s, i, "ipv4"@);
        assert(s[i] == "ipv4"@[0] && s[i + 1] == "ipv4"@[1] && s[i + 3] == "ipv4"@[3]);
    }
    if has_at(s, i, "ipv6"@) {
        lemma_has_at_chars(s, i, "ipv6"@);
        assert(s[i] == "ipv6"@[0] && s[i + 1] == "ipv6"@[1] && s[i + 3] == "ipv6"@[3]);
    }
    if has_at(s, i, "semver"@) {
        lemma_has_at_chars(s, i, "semver"@);
        assert(s[i] == "semver"@[0] && s[i + 1] == "semver"@[1]);
    }
}

/// The selector that stands at `i`, before a comma or a closing
/// parenthesis, is the selector that is read there.
proof fn lemma_selector_at(s: Seq<char>, i: int, selector: Selector)
    requires
        has_at(s, i, selector_text(selector)),
        i + selector_text(selector).len() < s.len(),
        s[i + selector_text(selector).len()] == ',' || s[i + selector_text(selector).len()]
            == ')',
    ensures
        selector_at(s, i) == Some((selector, i + selector_text(selector).len())),
        selector_text(selector).len() >= 1,
{
    let text = selector_text(selector);
    lemma_has_at_chars(s, i, text);
    match selector {
        Selector::Every => {
            assert(s[i] == text[0]);
        },
        Selector::Index(n) => {
            lemma_decimal_text_reads_back(n as nat);
            let j = i + text.len();
            assert(s[i] == text[0]);
            assert(is_digit(text[0]));
            assert forall|k: int| i <= k < j implies in_class(
                CharClass::Digit,
                #[trigger] s[k],
            ) by {
                assert(s[k] == text[k - i]);
                assert(is_digit(text[k - i]));
            }
            lemma_run_end(s, i, j, CharClass::Digit);
            assert(s.subrange(i, j) == text);
        },
    }
}

/// The field that stands at `i` is the field that is read there.
proof fn lemma_field_at(s: Seq<char>, i: int, field: TypeExprView)
    requires
        is_field(field),
        has_at(s, i, field_text(field)),
    ensures
        field_at(s, i) == Some((field, i + field_text(field).len())),
        field_text(field).len() >= 1,
        !in_class(CharClass::Space, field_text(field)[0]),
{
    let name = field.kind.name_spec();
    let sel = selector_text(field.selector);
    let tail = match field.format {
        Some(format) => seq![','] + format,
        None => Seq::<char>::empty(),
    };
    let close = seq![')'];
    let text = field_text(field);
    assert(text =~= name + (seq!['('] + (sel + (tail + close))));
    lemma_has_at_split(s, i, name, seq!['('] + (sel + (tail + close)));
    let open = i + name.len();
    lemma_has_at_split(s, open, seq!['('], sel + (tail + close));
    lemma_has_at_split(s, open + 1, sel, tail + close);
    let next = open + 1 + sel.len();
    lemma_has_at_split(s, next, tail, close);
    lemma_kind_at(s, i, field.kind);
    assert(text[0] == name[0]);
    lemma_has_at_chars(s, open, seq!['(']);
    assert(s[open] == seq!['('][0]);
    lemma_no_spaces(s, open);
    lemma_has_at_chars(s, next, tail + close);
    assert(s[next] == (tail + close)[0]);
    if sel.len() > 0 {
        lemma_has_at_chars(s, open + 1, sel);
        assert(s[open + 1] == sel[0]);
    }
    match field.selector {
        Selector::Every => {},
        Selector::Index(n) => {
            lemma_decimal_text_reads_back(n as nat);
            assert(is_digit(sel[0]));
        },
    }
    lemma_no_spaces(s, open + 1);
    lemma_selector_at(s, open + 1, field.selector);
    lemma_no_spaces(s, next);
    match field.format {
        Some(format) => {
            lemma_has_at_split(s, next, seq![','], format);
            let from = next + 1;
            let to = from + format.len();
            lemma_has_at_chars(s, from, format);
            lemma_has_at_chars(s, to, close);
            assert(s[to] == close[0]);
            assert(s[from] == format[0]);
            assert(in_class(CharClass::Format, format[0]));
            lemma_no_spaces(s, from);
            assert forall|k: int| from <= k < to implies in_class(
                CharClass::Format,
                #[trigger] s[k],
            ) by {
                assert(s[k] == format[k - from]);
            }
            lemma_run_end(s, from, to, CharClass::Format);
            lemma_no_spaces(s, to);
            assert(s.subrange(from, to) == format);
        },
        None => {
            assert(tail + close =~= close);
        },
    }
}

/// A value begins with a character that is no blank.
proof fn lemma_value_begins(value: Seq<char>)
    requires
        is_value(value),
    ensures
        value.len() >= 1,
        !in_class(CharClass::Space, value[0]),
{
    reveal_strlit("now()");
    if value != "now()"@ {
        assert(in_class(CharClass::Value, value[0]));
    }
}

/// The operator that stands at `i`, before a blank, is the operator that is
/// read there.
proof fn lemma_operator_at(s: Seq<char>, i: int, op: Operator)
    requires
        has_at(s, i, operator_text(op)),
        i + operator_text(op).len() < s.len(),
        s[i + operator_text(op).len()] == ' ',
    ensures
        operator_at(s, i) == Some((op, i + operator_text(op).len())),
        operator_text(op).len() >= 1,
        !in_class(CharClass::Space, operator_text(op)[0]),
{
    reveal_strlit("==");
    reveal_strlit("!=");
    reveal_strlit("<=");
    reveal_strlit(">=");
    reveal_strlit("<");
    reveal_strlit(">");
    reveal_strlit("match");
    let text = operator_text(op);
    lemma_has_at_chars(s, i, text);
    assert(s[i] == text[0]);
    if text.len() > 1 {
        assert(s[i + 1] == text[1]);
    }
    if has_at(s, i, "=="@) {
        lemma_has_at_chars(s, i, "=="@);
        assert(s[i] == "=="@[0]);
    }
    if has_at(s, i, "!="@) {
        lemma_has_at_chars(s, i, "!="@);
        assert(s[i] == "!="@[0]);
    }
    if has_at(s, i, "<="@) {
        lemma_has_at_chars(s, i, "<="@);
        assert(s[i] == "<="@[0] && s[i + 1] == "<="@[1]);
    }
    if has_at(s, i, ">="@) {
        lemma_has_at_chars(s, i, ">="@);
        assert(s[i] == ">="@[0] && s[i + 1] == ">="@[1]);
    }
    if has_at(s, i, "<"@) {
        lemma_has_at_chars(s, i, "<"@);
        assert(s[i] == "<"@[0]);
    }
    if has_at(s, i, ">"@) {
        lemma_has_at_chars(s, i, ">"@);
        assert(s[i] == ">"@[0]);
    }
    if has_at(s, i, "match"@) {
        lemma_has_at_chars(s, i, "match"@);
        assert(s[i] == "match"@[0]);
    }
}

/// The values of a list that stand at `i`, before the closing bracket, are
/// the values that are read there.
proof fn lemma_members_at(s: Seq<char>, i: int, members: Seq<Seq<char>>)
    requires
        members.len() >= 1,
        forall|k: int| 0 <= k < members.len() ==> is_value(#[trigger] members[k]),
        has_at(s, i, members_text(members) + seq![']']),
    ensures
        members_at(s, i) == Some((members, i + members_text(members).len() + 1)),
        members_text(members).len() >= 1,
        !in_class(CharClass::Space, members_text(members)[0]),
    decreases members.len(),
{
    let first = members[0];
    let close = seq![']'];
    lemma_value_begins(first);
    if members.len() == 1 {
        lemma_has_at_split(s, i, first, close);
        let next = i + first.len();
        lemma_has_at_chars(s, next, close);
        assert(s[next] == close[0]);
        lemma_value_at(s, i, first);
        lemma_no_spaces(s, next);
        assert(seq![first] =~= members);
    } else {
        let rest = members.skip(1);
        let rest_text = members_text(rest);
        let comma = seq![',', ' '];
        assert(members_text(members) + close =~= first + (comma + (rest_text + close)));
        lemma_has_at_split(s, i, first, comma + (rest_text + close));
        let next = i + first.len();
        lemma_has_at_split(s, next, comma, rest_text + close);
        lemma_has_at_chars(s, next, comma);
        assert(s[next] == comma[0]);
        assert(s[next + 1] == comma[1]);
        assert forall|k: int| 0 <= k < rest.len() implies is_value(#[trigger] rest[k]) by {
            assert(rest[k] == members[k + 1]);
        }
        lemma_members_at(s, next + 2, rest);
        lemma_has_at_chars(s, next + 2, rest_text + close);
        assert(s[next + 2] == (rest_text + close)[0]);
        assert((rest_text + close)[0] == rest_text[0]);
        lemma_value_at(s, i, first);
        lemma_no_spaces(s, next);
        lemma_one_space(s, next + 1);
        assert(seq![first] + rest =~= members);
        assert(members_text(members)[0] == first[0]);
    }
}

/// A field begins with a letter.
proof fn lemma_field_begins(field: TypeExprView)
    ensures
        field_text(field).len() >= 1,
        !in_class(CharClass::Space, field_text(field)[0]),
        field_text(field)[0] != '(',
{
    reveal_strlit("date");
    reveal_strlit("string");
    reveal_strlit("integer");
    reveal_strlit("number");
    reveal_strlit("email");
    reveal_strlit("ipv4");
    reveal_strlit("ipv6");
    reveal_strlit("semver");
    let name = field.kind.name_spec();
    assert(name.len() >= 4);
    assert(field_text(field)[0] == name[0]);
}

/// The comparison with one value that stands at `i`, and after which a
/// value may end, is the comparison that is read there.
proof fn lemma_simple_at(s: Seq<char>, i: int, field: TypeExprView, op: Operator, value: Seq<char>)
    requires
        is_field(field),
        is_value(value),
        has_at(s, i, written(ExprView::Simple(field, op, value))),
        ends_value(s, i + written(ExprView::Simple(field, op, value)).len()),
    ensures
        leaf_at(s, i) == Some(
            (
                ExprView::Simple(field, op, value),
                i + written(ExprView::Simple(field, op, value)).len(),
            ),
        ),
{
    let leaf = ExprView::Simple(field, op, value);
    let f = field_text(field);
    let o = operator_text(op);
    let space = seq![' '];
    assert(written(leaf) =~= f + (space + (o + (space + value))));
    lemma_has_at_split(s, i, f, space + (o + (space + value)));
    let after_field = i + f.len();
    lemma_has_at_split(s, after_field, space, o + (space + value));
    let at = after_field + 1;
    lemma_has_at_split(s, at, o, space + value);
    let after_op = at + o.len();
    lemma_has_at_split(s, after_op, space, value);
    lemma_field_at(s, i, field);
    lemma_has_at_chars(s, after_field, space);
    assert(s[after_field] == space[0]);
    lemma_has_at_chars(s, after_op, space);
    assert(s[after_op] == space[0]);
    lemma_operator_at(s, at, op);
    lemma_has_at_chars(s, at, o);
    assert(s[at] == o[0]);
    lemma_one_space(s, after_field);
    lemma_value_begins(value);
    lemma_has_at_chars(s, after_op + 1, value);
    assert(s[after_op + 1] == value[0]);
    lemma_one_space(s, after_op);
    lemma_value_at(s, after_op + 1, value);
}

/// Where `in` or `!in` stands, no operator is read, and the two are told
/// apart.
proof fn lemma_word_at(s: Seq<char>, at: int, negated: bool)
    requires
        has_at(
            s,
            at,
            if negated {
                "!in"@
            } else {
                "in"@
            },
        ),
    ensures
        operator_at(s, at) is None,
        has_at(s, at, "!in"@) == negated,
        "in"@.len() == 2,
        "!in"@.len() == 3,
{
    reveal_strlit("==");
    reveal_strlit("!=");
    reveal_strlit("<=");
    reveal_strlit(">=");
    reveal_strlit("<");
    reveal_strlit(">");
    reveal_strlit("match");
    reveal_strlit("in");
    reveal_strlit("!in");
    let word = if negated {
        "!in"@
    } else {
        "in"@
    };
    lemma_has_at_chars(s, at, word);
    assert(s[at] == word[0]);
    assert(s[at + 1] == word[1]);
    if has_at(s, at, "=="@) {
        lemma_has_at_chars(s, at, "=="@);
        assert(s[at] == "=="@[0]);
    }
    if has_at(s, at, "!="@) {
        lemma_has_at_chars(s, at, "!="@);
        assert(s[at + 1] == "!="@[1]);
    }
    if has_at(s, at, "<="@) {
        lemma_has_at_chars(s, at, "<="@);
        assert(s[at] == "<="@[0]);
    }
    if has_at(s, at, ">="@) {
        lemma_has_at_chars(s, at, ">="@);
        assert(s[at] == ">="@[0]);
    }
    if has_at(s, at, "<"@) {
        lemma_has_at_chars(s, at, "<"@);
        assert(s[at] == "<"@[0]);
    }
    if has_at(s, at, ">"@) {
        lemma_has_at_chars(s, at, ">"@);
        assert(s[at] == ">"@[0]);
    }
    if has_at(s, at, "match"@) {
        lemma_has_at_chars(s, at, "match"@);
        assert(s[at] == "match"@[0]);
    }
    if !negated && has_at(s, at, "!in"@) {
        lemma_has_at_chars(s, at, "!in"@);
        assert(s[at] == "!in"@[0]);
    }
}

/// The list in brackets that stands at `i` is the list that is read there.
proof fn lemma_list_at(s: Seq<char>, i: int, members: Seq<Seq<char>>)
    requires
        members.len() >= 1,
        forall|k: int| 0 <= k < members.len() ==> is_value(#[trigger] members[k]),
        has_at(s, i, seq!['['] + (members_text(members) + seq![']'])),
    ensures
        list_at(s, i) == Some((members, i + members_text(members).len() + 2)),
{
    let open = seq!['['];
    let m = members_text(members);
    let close = seq![']'];
    lemma_has_at_split(s, i, open, m + close);
    lemma_has_at_chars(s, i, open);
    assert(s[i] == open[0]);
    lemma_members_at(s, i + 1, members);
    lemma_has_at_chars(s, i + 1, m + close);
    assert(s[i + 1] == (m + close)[0]);
    assert((m + close)[0] == m[0]);
    lemma_no_spaces(s, i + 1);
}

/// The comparison with a list that stands at `i` is the comparison that is
/// read there.
proof fn lemma_contains_at(
    s: Seq<char>,
    i: int,
    field: TypeExprView,
    negated: bool,
    members: Seq<Seq<char>>,
)
    requires
        is_query(ExprView::Contains(field, negated, members)),
        has_at(s, i, written(ExprView::Contains(field, negated, members))),
    ensures
        leaf_at(s, i) == Some(
            (
                ExprView::Contains(field, negated, members),
                i + written(ExprView::Contains(field, negated, members)).len(),
            ),
        ),
{
    reveal_strlit("in");
    reveal_strlit("!in");
    let leaf = ExprView::Contains(field, negated, members);
    let f = field_text(field);
    let word = if negated {
        "!in"@
    } else {
        "in"@
    };
    let space = seq![' '];
    let list = seq!['['] + (members_text(members) + seq![']']);
    assert(word =~= if negated {
        seq!['!', 'i', 'n']
    } else {
        seq!['i', 'n']
    });
    assert(written(leaf) =~= f + (space + (word + (space + list))));
    lemma_has_at_split(s, i, f, space + (word + (space + list)));
    let after_field = i + f.len();
    lemma_has_at_split(s, after_field, space, word + (space + list));
    let at = after_field + 1;
    lemma_has_at_split(s, at, word, space + list);
    let after_word = at + word.len();
    lemma_has_at_split(s, after_word, space, list);
    let bracket = after_word + 1;
    lemma_field_at(s, i, field);
    lemma_has_at_chars(s, after_field, space);
    assert(s[after_field] == space[0]);
    lemma_has_at_chars(s, at, word);
    assert(s[at] == word[0]);
    lemma_one_space(s, after_field);
    lemma_word_at(s, at, negated);
    lemma_has_at_chars(s, after_word, space);
    assert(s[after_word] == space[0]);
    lemma_has_at_chars(s, bracket, list);
    assert(s[bracket] == list[0]);
    lemma_one_space(s, after_word);
    lemma_list_at(s, bracket, members);
}

/// The comparison that stands at `i`, and after which a value may end, is
/// the comparison that is read there.
proof fn lemma_leaf_at(s: Seq<char>, i: int, leaf: ExprView)
    requires
        leaf is Simple || leaf is Contains,
        is_query(leaf),
        has_at(s, i, written(leaf)),
        ends_value(s, i + written(leaf).len()),
    ensures
        leaf_at(s, i) == Some((leaf, i + written(leaf).len())),
        written(leaf).len() >= 1,
        !in_class(CharClass::Space, written(leaf)[0]),
        written(leaf)[0] != '(',
{
    match leaf {
        ExprView::Simple(field, op, value) => {
            lemma_field_begins(field);
            assert(written(leaf)[0] == field_text(field)[0]);
            lemma_simple_at(s, i, field, op, value);
        },
        ExprView::Contains(field, negated, members) => {
            lemma_field_begins(field);
            assert(written(leaf)[0] == field_text(field)[0]);
            lemma_contains_at(s, i, field, negated, members);
        },
        _ => {},
    }
}

/// What may follow a whole query in what is written: the end, or a closing
/// parenthesis.
spec fn stops(s: Seq<char>, j: int) -> bool {
    j == s.len() || (0 <= j < s.len() && s[j] == ')')
}

/// What is written begins with a character that is no blank.
proof fn lemma_written_begins(tree: ExprView)
    requires
        is_query(tree),
    ensures
        written(tree).len() >= 1,
        !in_class(CharClass::Space, written(tree)[0]),
        !is_term(tree) || tree is Group || written(tree)[0] != '(',
    decreases tree,
{
    match tree {
        ExprView::Simple(field, _, _) => {
            lemma_field_begins(field);
            assert(written(tree)[0] == field_text(field)[0]);
        },
        ExprView::Contains(field, _, _) => {
            lemma_field_begins(field);
            assert(written(tree)[0] == field_text(field)[0]);
        },
        ExprView::Group(inner) => {
            assert(written(tree)[0] == '(');
        },
        ExprView::And(left, right) => {
            lemma_written_begins(*left);
            assert(written(tree)[0] == written(*left)[0]);
        },
        ExprView::Or(left, right) => {
            lemma_written_begins(*left);
            assert(written(tree)[0] == written(*left)[0]);
        },
    }
}

/// Where a query is read on from `i`, and `&&` or `||` stands there with a
/// term behind it, the term is joined to what was read.
proof fn lemma_rest_step(
    s: Seq<char>,
    i: int,
    left: ExprView,
    both: bool,
    right: ExprView,
)
    requires
        is_query(right),
        is_term(right),
        has_at(
            s,
            i,
            (if both {
                seq![' ', '&', '&', ' ']
            } else {
                seq![' ', '|', '|', ' ']
            }) + written(right),
        ),
        ends_value(s, i + 4 + written(right).len()),
        term_at(s, i + 4) == Some((right, i + 4 + written(right).len())),
    ensures
        rest_at(s, i, left) == rest_at(
            s,
            i + 4 + written(right).len(),
            if both {
                ExprView::And(Box::new(left), Box::new(right))
            } else {
                ExprView::Or(Box::new(left), Box::new(right))
            },
        ),
{
    reveal_strlit("&&");
    reveal_strlit("||");
    let word = if both {
        seq![' ', '&', '&', ' ']
    } else {
        seq![' ', '|', '|', ' ']
    };
    let r = written(right);
    lemma_written_begins(right);
    lemma_has_at_split(s, i, word, r);
    lemma_has_at_chars(s, i, word);
    assert(s[i] == word[0]);
    assert(s[i + 1] == word[1]);
    assert(s[i + 2] == word[2]);
    assert(s[i + 3] == word[3]);
    lemma_has_at_chars(s, i + 4, r);
    assert(s[i + 4] == r[0]);
    lemma_one_space(s, i);
    lemma_one_space(s, i + 3);
    let at = i + 1;
    assert(s.subrange(at, at + 2) =~= seq![s[at], s[at + 1]]);
    assert("&&"@ =~= seq!['&', '&']);
    assert("||"@ =~= seq!['|', '|']);
    assert(has_at(s, at, "&&"@) == both);
    assert(both || has_at(s, at, "||"@));
}

/// The term that stands at `i`, and after which a value may end, is the
/// term that is read there.
proof fn lemma_term_at(s: Seq<char>, i: int, tree: ExprView)
    requires
        is_query(tree),
        is_term(tree),
        has_at(s, i, written(tree)),
        ends_value(s, i + written(tree).len()),
    ensures
        term_at(s, i) == Some((tree, i + written(tree).len())),
    decreases tree, 0int,
{
    lemma_written_begins(tree);
    lemma_has_at_chars(s, i, written(tree));
    assert(s[i] == written(tree)[0]);
    match tree {
        ExprView::Group(inner) => {
            let open = seq!['('];
            let close = seq![')'];
            let w = written(*inner);
            assert(written(tree) =~= open + (w + close));
            lemma_has_at_split(s, i, open, w + close);
            lemma_has_at_split(s, i + 1, w, close);
            let after = i + 1 + w.len();
            lemma_has_at_chars(s, after, close);
            assert(s[after] == close[0]);
            lemma_written_begins(*inner);
            lemma_has_at_chars(s, i + 1, w);
            assert(s[i + 1] == w[0]);
            lemma_no_spaces(s, i + 1);
            lemma_expr_at(s, i + 1, *inner);
            lemma_no_spaces(s, after);
        },
        _ => {
            lemma_leaf_at(s, i, tree);
        },
    }
}

/// Of the query that stands at `i`, the first term is read there, and
/// reading on from that term comes to the whole query.
proof fn lemma_spine(s: Seq<char>, i: int, tree: ExprView)
    requires
        is_query(tree),
        has_at(s, i, written(tree)),
        ends_value(s, i + written(tree).len()),
    ensures
        term_at(s, i) matches Some((first, after)) && i < after <= i + written(tree).len()
            && rest_at(s, after, first) == rest_at(s, i + written(tree).len(), tree),
    decreases tree, 1int,
{
    lemma_written_begins(tree);
    match tree {
        ExprView::And(left, right) => {
            let word = seq![' ', '&', '&', ' '];
            let l = written(*left);
            let r = written(*right);
            assert(written(tree) =~= l + (word + r));
            lemma_has_at_split(s, i, l, word + r);
            let mid = i + l.len();
            lemma_has_at_split(s, mid, word, r);
            lemma_has_at_chars(s, mid, word);
            assert(s[mid] == word[0]);
            lemma_spine(s, i, *left);
            lemma_term_at(s, mid + 4, *right);
            lemma_rest_step(s, mid, *left, true, *right);
        },
        ExprView::Or(left, right) => {
            let word = seq![' ', '|', '|', ' '];
            let l = written(*left);
            let r = written(*right);
            assert(written(tree) =~= l + (word + r));
            lemma_has_at_split(s, i, l, word + r);
            let mid = i + l.len();
            lemma_has_at_split(s, mid, word, r);
            lemma_has_at_chars(s, mid, word);
            assert(s[mid] == word[0]);
            lemma_spine(s, i, *left);
            lemma_term_at(s, mid + 4, *right);
            lemma_rest_step(s, mid, *left, false, *right);
        },
        _ => {
            lemma_term_at(s, i, tree);
        },
    }
}

/// The query that stands at `i`, before the end or a closing parenthesis,
/// is the query that is read there.
proof fn lemma_expr_at(s: Seq<char>, i: int, tree: ExprView)
    requires
        is_query(tree),
        has_at(s, i, written(tree)),
        stops(s, i + written(tree).len()),
    ensures
        expr_at(s, i) == Some((tree, i + written(tree).len())),
    decreases tree, 2int,
{
    reveal_strlit("&&");
    reveal_strlit("||");
    lemma_spine(s, i, tree);
    let end = i + written(tree).len();
    lemma_no_spaces(s, end);
    if has_at(s, end, "&&"@) {
        lemma_has_at_chars(s, end, "&&"@);
        assert(s[end] == "&&"@[0]);
    }
    if has_at(s, end, "||"@) {
        lemma_has_at_chars(s, end, "||"@);
        assert(s[end] == "||"@[0]);
    }
}

/// What is written of a query reads back as that query.
pub proof fn law_written_reads_back(tree: ExprView)
    requires
        is_query(tree),
    ensures
        query_tree(written(tree)) == Some(tree),
{
    let s = written(tree);
    lemma_written_begins(tree);
    assert(s.subrange(0, s.len() as int) =~= s);
    lemma_no_spaces(s, 0);
    lemma_expr_at(s, 0, tree);
    lemma_no_spaces(s, s.len() as int);
}

/// The characters of a run belong to its class.
proof fn lemma_run_chars(s: Seq<char>, i: int, class: CharClass)
    requires
        0 <= i,
    ensures
        i <= run_end(s, i, class),
        run_end(s, i, class) <= s.len() || run_end(s, i, class) == i,
        forall|k: int| i <= k < run_end(s, i, class) ==> in_class(class, #[trigger] s[k]),
    decreases s.len() - i,
{
    if i < s.len() && in_class(class, s[i]) {
        lemma_run_chars(s, i + 1, class);
    }
}

/// What is read as a value can stand as a value.
proof fn lemma_value_read(s: Seq<char>, i: int)
    requires
        0 <= i,
    ensures
        value_at(s, i) matches Some((value, end)) ==> is_value(value) && i < end <= s.len(),
{
    reveal_strlit("now()");
    lemma_run_chars(s, i, CharClass::Value);
    let end = run_end(s, i, CharClass::Value);
    if !has_at(s, i, "now()"@) && end > i {
        let value = s.subrange(i, end);
        assert forall|k: int| 0 <= k < value.len() implies in_class(
            CharClass::Value,
            #[trigger] value[k],
        ) by {
            assert(value[k] == s[i + k]);
        }
    }
}

/// What is read as a field can stand as a field.
proof fn lemma_field_read(s: Seq<char>, i: int)
    requires
        0 <= i,
    ensures
        field_at(s, i) matches Some((field, end)) ==> is_field(field),
{
    if let Some((kind, after_kind)) = kind_at(s, i) {
        let open = skip_spaces(s, after_kind);
        if char_at(s, open, '(') {
            if let Some((selector, after_selector)) = selector_at(s, skip_spaces(s, open + 1)) {
                let next = skip_spaces(s, after_selector);
                if char_at(s, next, ',') {
                    let from = skip_spaces(s, next + 1);
                    lemma_run_chars(s, next + 1, CharClass::Space);
                    lemma_run_chars(s, from, CharClass::Format);
                    let to = run_end(s, from, CharClass::Format);
                    if to > from {
                        let format = s.subrange(from, to);
                        assert forall|k: int| 0 <= k < format.len() implies in_class(
                            CharClass::Format,
                            #[trigger] format[k],
                        ) by {
                            assert(format[k] == s[from + k]);
                        }
                    }
                }
            }
        }
    }
}

/// What is read as the values of a list can stand as such.
proof fn lemma_members_read(s: Seq<char>, i: int)
    requires
        0 <= i,
    ensures
        members_at(s, i) matches Some((members, end)) ==> members.len() >= 1 && forall|k: int|
            0 <= k < members.len() ==> is_value(#[trigger] members[k]),
    decreases s.len() - i,
{
    lemma_value_read(s, i);
    if let Some((value, after)) = value_at(s, i) {
        let next = skip_spaces(s, after);
        if !char_at(s, next, ']') && char_at(s, next, ',') && i < skip_spaces(s, next + 1)
            <= s.len() {
            lemma_members_read(s, skip_spaces(s, next + 1));
            if let Some((rest, end)) = members_at(s, skip_spaces(s, next + 1)) {
                let members = seq![value] + rest;
                assert forall|k: int| 0 <= k < members.len() implies is_value(
                    #[trigger] members[k],
                ) by {
                    if k > 0 {
                        assert(members[k] == rest[k - 1]);
                    }
                }
            }
        }
    }
}

/// What is read as a comparison is a query and a term.
proof fn lemma_leaf_read(s: Seq<char>, i: int)
    requires
        0 <= i,
    ensures
        leaf_at(s, i) matches Some((leaf, end)) ==> is_query(leaf) && is_term(leaf),
{
    lemma_field_read(s, i);
    if let Some((field, after_field)) = field_at(s, i) {
        let at = skip_spaces(s, after_field);
        lemma_run_chars(s, i, CharClass::Space);
        match operator_at(s, at) {
            Some((op, after_op)) => {
                if skip_spaces(s, after_op) >= 0 {
                    lemma_value_read(s, skip_spaces(s, after_op));
                }
            },
            None => {
                let negated = has_at(s, at, "!in"@);
                let after_word = if negated {
                    at + "!in"@.len()
                } else {
                    at + "in"@.len()
                };
                let bracket = skip_spaces(s, after_word);
                if char_at(s, bracket, '[') {
                    lemma_run_chars(s, bracket + 1, CharClass::Space);
                    lemma_members_read(s, skip_spaces(s, bracket + 1));
                }
            },
        }
    }
}

/// What is read as a term is a query and a term.
proof fn lemma_term_read(s: Seq<char>, i: int)
    requires
        0 <= i,
    ensures
        term_at(s, i) matches Some((tree, end)) ==> is_query(tree) && is_term(tree),
    decreases s.len() - i, 1int,
{
    if char_at(s, i, '(') {
        if i < skip_spaces(s, i + 1) <= s.len() {
            lemma_expr_read(s, skip_spaces(s, i + 1));
        }
    } else {
        lemma_leaf_read(s, i);
    }
}

/// What is read as a query is a query.
proof fn lemma_expr_read(s: Seq<char>, i: int)
    requires
        0 <= i,
    ensures
        expr_at(s, i) matches Some((tree, end)) ==> is_query(tree),
    decreases s.len() - i, 2int,
{
    lemma_term_read(s, i);
    if let Some((first, after)) = term_at(s, i) {
        if i < after <= s.len() {
            lemma_rest_read(s, after, first);
        }
    }
}

/// What is read on from a query is a query.
proof fn lemma_rest_read(s: Seq<char>, i: int, left: ExprView)
    requires
        0 <= i,
        is_query(left),
    ensures
        rest_at(s, i, left) matches Some((tree, end)) ==> is_query(tree),
    decreases s.len() - i, 0int,
{
    let at = skip_spaces(s, i);
    let both = has_at(s, at, "&&"@);
    if both || has_at(s, at, "||"@) {
        let from = skip_spaces(s, at + 2);
        if i < from <= s.len() {
            lemma_term_read(s, from);
            if let Some((right, after)) = term_at(s, from) {
                if i < after <= s.len() {
                    lemma_rest_read(
                        s,
                        after,
                        if both {
                            ExprView::And(Box::new(left), Box::new(right))
                        } else {
                            ExprView::Or(Box::new(left), Box::new(right))
                        },
                    );
                }
            }
        }
    }
}

/// Every tree that the reader gives is a query: its values and formats can
/// stand in a query, no list is empty, and what stands to the right of `&&`
/// or `||` is a term.
pub proof fn law_read_is_query(text: Seq<char>)
    ensures
        query_tree(text) matches Some(tree) ==> is_query(tree),
{
    lemma_run_chars(text, 0, CharClass::Space);
    lemma_expr_read(text, skip_spaces(text, 0));
}

fn operator_word(op: Operator) -> (r: &'static str)
    ensures
        r@ == operator_text(op),
{
    match op {
        Operator::Eq => "==",
        Operator::Neq => "!=",
        Operator::Lte => "<=",
        Operator::Gte => ">=",
        Operator::Lt => "<",
        Operator::Gt => ">",
        Operator::Match => "match",
    }
}

fn push_field(field: &TypeExpr, out: &mut String)
    ensures
        final(out)@ == old(out)@ + field_text(field@),
{
    proof {
        reveal_strlit("(");
        reveal_strlit(")");
        reveal_strlit(",");
        reveal_strlit("*");
    }
    out.append(field.kind.name());
    out.append("(");
    match field.selector {
        Selector::Every => {
            out.append("*");
            assert("*"@ =~= seq!['*']);
        },
        Selector::Index(n) => {
            push_decimal(n, out);
        },
    }
    match &field.format {
        Some(format) => {
            out.append(",");
            out.append(format.as_str());
        },
        None => {},
    }
    out.append(")");
    assert(out@ =~= old(out)@ + field_text(field@));
}

fn push_members(members: &Vec<String>, out: &mut String)
    ensures
        final(out)@ == old(out)@ + members_text(members.deep_view()),
{
    let ghost texts = members.deep_view();
    let ghost before = out@;
    let n = members.len();
    if n == 0 {
        assert(out@ =~= before + members_text(texts));
        return ;
    }
    proof {
        reveal_strlit(", ");
        assert(", "@ =~= seq![',', ' ']);
        assert(texts.skip(0) =~= texts);
    }
    let mut k: usize = 0;
    while k + 1 < n
        invariant
            k < n,
            n == members.len(),
            texts == members.deep_view(),
            ", "@ == seq![',', ' '],
            before + members_text(texts) == out@ + members_text(texts.skip(k as int)),
        decreases n - k,
    {
        proof {
            let rest = texts.skip(k as int);
            assert(rest[0] == members[k as int]@);
            assert(rest.skip(1) =~= texts.skip(k + 1));
            assert(out@ + (rest[0] + seq![',', ' '] + members_text(rest.skip(1))) =~= out@
                + rest[0] + seq![',', ' '] + members_text(rest.skip(1)));
        }
        out.append(members[k].as_str());
        out.append(", ");
        k += 1;
    }
    proof {
        let rest = texts.skip(k as int);
        assert(rest.len() == 1);
        assert(rest[0] == members[k as int]@);
    }
    out.append(members[k].as_str());
}

fn push_query(tree: &Expr, out: &mut String)
    ensures
        final(out)@ == old(out)@ + written(tree@),
    decreases tree,
{
    proof {
        reveal_strlit(" ");
        reveal_strlit(" in [");
        reveal_strlit(" !in [");
        reveal_strlit("]");
        reveal_strlit("(");
        reveal_strlit(")");
        reveal_strlit(" && ");
        reveal_strlit(" || ");
    }
    let ghost before = out@;
    match tree {
        Expr::Simple(field, op, value) => {
            push_field(field, out);
            out.append(" ");
            out.append(operator_word(*op));
            out.append(" ");
            out.append(value.as_str());
            assert(out@ =~= before + written(tree@));
        },
        Expr::Contains(field, negated, members) => {
            push_field(field, out);
            if *negated {
                out.append(" !in [");
                assert(" !in ["@ =~= seq![' ', '!', 'i', 'n', ' ', '[']);
            } else {
                out.append(" in [");
                assert(" in ["@ =~= seq![' ', 'i', 'n', ' ', '[']);
            }
            push_members(members, out);
            out.append("]");
            assert(out@ =~= before + written(tree@));
        },
        Expr::Group(inner) => {
            out.append("(");
            push_query(inner, out);
            out.append(")");
            assert(out@ =~= before + written(tree@));
        },
        Expr::And(left, right) => {
            push_query(left, out);
            out.append(" && ");
            assert(" && "@ =~= seq![' ', '&', '&', ' ']);
            push_query(right, out);
            assert(out@ =~= before + written(tree@));
        },
        Expr::Or(left, right) => {
            push_query(left, out);
            out.append(" || ");
            assert(" || "@ =~= seq![' ', '|', '|', ' ']);
            push_query(right, out);
            assert(out@ =~= before + written(tree@));
        },
    }
}

/// Writes a query out; see `written`.
pub fn write_query(tree: &Expr) -> (r: String)
    ensures
        r@ == written(tree@),
{
    let mut out = String::new();
    push_query(tree, &mut out);
    out
}

} // verus!
