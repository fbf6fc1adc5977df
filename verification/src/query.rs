//! Queries as trees: comparisons of a field with a value or a list, joined
//! by `&&` and `||`.

use crate::parser::TokenType;
use vstd::prelude::*;

verus! {

/// Which tokens of a line a comparison looks at.
#[derive(Clone, Copy, Debug, PartialEq, Eq, Structural)]
pub enum Selector {
    /// The token at this place, counted from zero.
    Index(u64),
    /// Every token of the line.
    Every,
}

/// How a field is compared with a value.
#[derive(Clone, Copy, Debug, PartialEq, Eq, Structural)]
pub enum Operator {
    Eq,
    Neq,
    Lte,
    Gte,
    Lt,
    Gt,
    Match,
}

/// A field of a line: the kind to read it as, which tokens, and for a date
/// the format to read it under.
#[derive(Debug)]
pub struct TypeExpr {
    pub kind: TokenType,
    pub selector: Selector,
    pub format: Option<String>,
}

/// What a `TypeExpr` holds.
pub struct TypeExprView {
    pub kind: TokenType,
    pub selector: Selector,
    pub format: Option<Seq<char>>,
}

impl View for TypeExpr {
    type V = TypeExprView;

    open spec fn view(&self) -> TypeExprView {
        TypeExprView {
            kind: self.kind,
            selector: self.selector,
            format: match self.format {
                Some(f) => Some(f@),
                None => None,
            },
        }
    }
}

/// A query.
#[derive(Debug)]
pub enum Expr {
    /// A field compared with one value.
    Simple(TypeExpr, Operator, String),
    /// A field sought in a list of values; `true` where the query asks that
    /// it be not in the list.
    Contains(TypeExpr, bool, Vec<String>),
    /// A query in parentheses.
    Group(Box<Expr>),
    /// Two queries that must both hold.
    And(Box<Expr>, Box<Expr>),
    /// Two queries of which one must hold.
    Or(Box<Expr>, Box<Expr>),
}

/// What an `Expr` holds.
pub enum ExprView {
    Simple(TypeExprView, Operator, Seq<char>),
    Contains(TypeExprView, bool, Seq<Seq<char>>),
    Group(Box<ExprView>),
    And(Box<ExprView>, Box<ExprView>),
    Or(Box<ExprView>, Box<ExprView>),
}

impl Expr {
    /// What the query holds.
    pub open spec fn tree(&self) -> ExprView
        decreases self,
    {
        match self {
            Expr::Simple(field, op, value) => ExprView::Simple(field@, *op, value@),
            Expr::Contains(field, negated, members) => ExprView::Contains(
                field@,
                *negated,
                members.deep_view(),
            ),
            Expr::Group(inner) => ExprView::Group(Box::new(inner.tree())),
            Expr::And(left, right) => ExprView::And(
                Box::new(left.tree()),
                Box::new(right.tree()),
            ),
            Expr::Or(left, right) => ExprView::Or(Box::new(left.tree()), Box::new(right.tree())),
        }
    }
}

impl View for Expr {
    type V = ExprView;

    open spec fn view(&self) -> ExprView {
        self.tree()
    }
}

impl Clone for TypeExpr {
    fn clone(&self) -> (r: TypeExpr)
        ensures
            r@ == self@,
    {
        TypeExpr {
            kind: self.kind,
            selector: self.selector,
            format: match &self.format {
                Some(f) => Some(f.clone()),
                None => None,
            },
        }
    }
}

fn clone_texts(texts: &Vec<String>) -> (r: Vec<String>)
    ensures
        r.deep_view() == texts.deep_view(),
{
    let mut out: Vec<String> = Vec::new();
    let mut i: usize = 0;
    while i < texts.len()
        invariant
            i <= texts.len(),
            out.len() == i,
            forall|k: int| 0 <= k < i ==> (#[trigger] out[k])@ == texts[k]@,
        decreases texts.len() - i,
    {
        out.push(texts[i].clone());
        i += 1;
    }
    assert(out.deep_view() =~= texts.deep_view());
    out
}

impl Clone for Expr {
    fn clone(&self) -> (r: Expr)
        ensures
            r@ == self@,
        decreases self,
    {
        match self {
            Expr::Simple(field, op, value) => Expr::Simple(field.clone(), *op, value.clone()),
            Expr::Contains(field, negated, members) => Expr::Contains(
                field.clone(),
                *negated,
                clone_texts(members),
            ),
            Expr::Group(inner) => Expr::Group(Box::new((**inner).clone())),
            Expr::And(left, right) => Expr::And(
                Box::new((**left).clone()),
                Box::new((**right).clone()),
            ),
            Expr::Or(left, right) => Expr::Or(
                Box::new((**left).clone()),
                Box::new((**right).clone()),
            ),
        }
    }
}

} // verus!
