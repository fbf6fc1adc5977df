//! The run over an input: each line is split into tokens, and the lines
//! that the query passes are put out as they came.

use crate::calendar::{today_utc, CalendarDate};
use crate::cli::CommandArgs;
use crate::evaluator::{answers, evaluate_line_on, line_view, verdict};
use crate::grammar::{parse_expression, query_tree};
use crate::pattern::{regex_fields, try_split};
use crate::query::{Expr, ExprView};
use crate::text::{trim, trimmed};
use crate::tokenizer::{full_lines, lines_of};
use vstd::prelude::*;
use vstd::string::StringExecFns;

verus! {

/// How a run ended: what it put out, and the error that stopped it, if one
/// did.
#[derive(Debug)]
pub struct Outcome {
    pub output: String,
    pub error: Option<String>,
}

/// What an `Outcome` holds.
pub struct OutcomeView {
    pub output: Seq<char>,
    pub error: Option<Seq<char>>,
}

impl View for Outcome {
    type V = OutcomeView;

    open spec fn view(&self) -> OutcomeView {
        OutcomeView {
            output: self.output@,
            error: match self.error {
                Some(e) => Some(e@),
                None => None,
            },
        }
    }
}

/// The error for a separator that is no regular expression.
pub open spec fn separator_message(pattern: Seq<char>) -> Seq<char> {
    "Invalid token separator: "@ + pattern
}

/// The error for a text that is no query.
pub open spec fn parse_message(expr: Seq<char>) -> Seq<char> {
    "Error parsing expression: "@ + ("the expression does not follow the grammar: "@ + expr)
}

/// The error for a query that fails on a line.
pub open spec fn expression_message(error: Seq<char>) -> Seq<char> {
    "Error in expression: "@ + error
}

/// Each field without the white space around it.
pub open spec fn trimmed_fields(fields: Seq<Seq<char>>) -> Seq<Seq<char>> {
    Seq::new(fields.len(), |i: int| trimmed(fields[i]))
}

/// The verdict of a query on a line: the line is split where `separator`
/// matches, each part is trimmed, and the parts are the tokens.
pub open spec fn line_verdict(
    tree: ExprView,
    separator: Seq<char>,
    line: Seq<char>,
    today: CalendarDate,
) -> Result<bool, Seq<char>> {
    match regex_fields(separator, line) {
        Some(fields) => verdict(tree, trimmed_fields(fields), today),
        None => Err(separator_message(separator)),
    }
}

/// What a run over `lines` puts out: the lines that the query passes, as
/// they are and in the order they came, up to the first line on which the
/// query fails.
pub open spec fn passed(
    tree: ExprView,
    separator: Seq<char>,
    lines: Seq<Seq<char>>,
    today: CalendarDate,
) -> OutcomeView
    decreases lines.len(),
{
    if lines.len() == 0 {
        OutcomeView { output: Seq::empty(), error: None }
    } else {
        let before = passed(tree, separator, lines.drop_last(), today);
        if before.error is Some {
            before
        } else {
            match line_verdict(tree, separator, lines.last(), today) {
                Ok(pass) => if pass {
                    OutcomeView { output: before.output + lines.last(), error: None }
                } else {
                    before
                },
                Err(e) => OutcomeView {
                    output: before.output,
                    error: Some(expression_message(e)),
                },
            }
        }
    }
}

/// What a run puts out for a query, a separator and an input. A text that
/// is no query ends the run before a line is read.
pub open spec fn run(
    expr: Seq<char>,
    separator: Seq<char>,
    input: Seq<char>,
    today: CalendarDate,
) -> OutcomeView {
    match query_tree(expr) {
        Some(tree) => passed(tree, separator, lines_of(input), today),
        None => OutcomeView { output: Seq::empty(), error: Some(parse_message(expr)) },
    }
}

fn separator_error(pattern: &str) -> (r: String)
    ensures
        r@ == separator_message(pattern@),
{
    let mut out = String::from_str("Invalid token separator: ");
    out.append(pattern);
    out
}

/// The verdict of a query on one line; see `line_verdict`.
pub fn process_line(grammar: &Expr, token_regex: &str, line: &str, today: CalendarDate) -> (r:
    Result<bool, String>)
    ensures
        answers(r, line_verdict(grammar@, token_regex@, line@, today)),
{
    let fields = match try_split(token_regex, line) {
        Some(fields) => fields,
        None => {
            return Err(separator_error(token_regex));
        },
    };
    let mut words: Vec<String> = Vec::new();
    let mut i: usize = 0;
    while i < fields.len()
        invariant
            i <= fields.len(),
            words.len() == i,
            forall|k: int| 0 <= k < i ==> (#[trigger] words[k])@ == trimmed(fields[k]@),
        decreases fields.len() - i,
    {
        words.push(trim(fields[i].as_str()));
        i += 1;
    }
    let mut tokens: Vec<&str> = Vec::new();
    let mut j: usize = 0;
    while j < words.len()
        invariant
            j <= words.len(),
            tokens.len() == j,
            forall|k: int| 0 <= k < j ==> (#[trigger] tokens[k])@ == words[k]@,
        decreases words.len() - j,
    {
        tokens.push(words[j].as_str());
        j += 1;
    }
    assert(line_view(tokens@) =~= trimmed_fields(fields.deep_view()));
    evaluate_line_on(grammar, &tokens, today)
}

/// `passed` of the first lines and one more.
proof fn lemma_passed_step(
    tree: ExprView,
    separator: Seq<char>,
    lines: Seq<Seq<char>>,
    k: int,
    today: CalendarDate,
)
    requires
        0 <= k < lines.len(),
    ensures
        passed(tree, separator, lines.take(k + 1), today) == ({
            let before = passed(tree, separator, lines.take(k), today);
            if before.error is Some {
                before
            } else {
                match line_verdict(tree, separator, lines[k], today) {
                    Ok(pass) => if pass {
                        OutcomeView { output: before.output + lines[k], error: None }
                    } else {
                        before
                    },
                    Err(e) => OutcomeView {
                        output: before.output,
                        error: Some(expression_message(e)),
                    },
                }
            }
        }),
{
    assert(lines.take(k + 1).drop_last() =~= lines.take(k));
    assert(lines.take(k + 1).last() == lines[k]);
}

/// Once a line has stopped the run, later lines change nothing.
proof fn lemma_passed_stops(
    tree: ExprView,
    separator: Seq<char>,
    lines: Seq<Seq<char>>,
    k: int,
    today: CalendarDate,
)
    requires
        0 <= k <= lines.len(),
        passed(tree, separator, lines.take(k), today).error is Some,
    ensures
        passed(tree, separator, lines, today) == passed(tree, separator, lines.take(k), today),
    decreases lines.len() - k,
{
    if k == lines.len() {
        assert(lines.take(k) =~= lines);
    } else {
        lemma_passed_step(tree, separator, lines, k, today);
        lemma_passed_stops(tree, separator, lines, k + 1, today);
    }
}

/// Runs the query of `command_args` over `input`, with `today` for today's
/// date; see `run`.
pub fn process_input_on(command_args: &CommandArgs, input: &str, today: CalendarDate) -> (r:
    Outcome)
    ensures
        r@ == run(command_args.expr@, command_args.token_regex@, input@, today),
{
    let grammar = match parse_expression(command_args.expr.as_str()) {
        Ok(grammar) => grammar,
        Err(e) => {
            let mut message = String::from_str("Error parsing expression: ");
            message.append(e.message().as_str());
            return Outcome { output: String::new(), error: Some(message) };
        },
    };
    let lines = full_lines(input);
    let ghost texts = lines.deep_view();
    let ghost tree = grammar@;
    let ghost separator = command_args.token_regex@;
    let mut output = String::new();
    let mut k: usize = 0;
    assert(texts.take(0) =~= Seq::<Seq<char>>::empty());
    while k < lines.len()
        invariant
            k <= lines.len(),
            texts == lines.deep_view(),
            texts == lines_of(input@),
            tree == grammar@,
            query_tree(command_args.expr@) == Some(tree),
            separator == command_args.token_regex@,
            passed(tree, separator, texts.take(k as int), today) == (OutcomeView {
                output: output@,
                error: None,
            }),
        decreases lines.len() - k,
    {
        proof {
            lemma_passed_step(tree, separator, texts, k as int, today);
            assert(texts[k as int] == lines[k as int]@);
        }
        match process_line(&grammar, command_args.token_regex.as_str(), lines[k].as_str(), today) {
            Ok(pass) => {
                if pass {
                    output.append(lines[k].as_str());
                }
            },
            Err(e) => {
                let mut message = String::from_str("Error in expression: ");
                message.append(e.as_str());
                proof {
                    lemma_passed_stops(tree, separator, texts, k + 1, today);
                }
                return Outcome { output, error: Some(message) };
            },
        }
        k += 1;
    }
    assert(texts.take(lines.len() as int) =~= texts);
    Outcome { output, error: None }
}

/// Runs the query of `command_args` over `input`. Today's date, which
/// `now()` stands for, is read from the clock once.
pub fn process_input(command_args: &CommandArgs, input: &str) -> (r: Outcome)
    ensures
        exists|today: CalendarDate|
            today.in_range() && r@ == run(
                command_args.expr@,
                command_args.token_regex@,
                input@,
                today,
            ),
{
    let today = today_utc();
    let r = process_input_on(command_args, input, today);
    assert(today.in_range() && r@ == run(
        command_args.expr@,
        command_args.token_regex@,
        input@,
        today,
    ));
    r
}

} // verus!
