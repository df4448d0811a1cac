use super::tokens::SourceSpan;
use vstd::prelude::*;
use vstd::std_specs::convert::FromSpecImpl;

verus! {

broadcast use vstd::std_specs::vec::axiom_vec_index_decreases;

pub type BoxNode<T> = Node<Box<T>>;

pub type Ident<'a> = &'a str;

#[derive(Debug, PartialEq)]
pub enum Expr<'a> {
    Literal(Literal),
    Ident(Ident<'a>),
    Parenthesized(BoxNode<Expr<'a>>),
    Unary(UnOp, BoxNode<Expr<'a>>),
    Binary(BinOp, BoxNode<Expr<'a>>, BoxNode<Expr<'a>>),
    Lambda(Ident<'a>, BoxNode<Expr<'a>>),
    Call(BoxNode<Expr<'a>>, BoxNode<Expr<'a>>),
    /// An identifier applied to no argument, as opposed to a reference to it.
    EmptyCall(BoxNode<Expr<'a>>),
    Block { instructions: Vec<Node<Statement<'a>>>, returns: bool },
}

#[derive(Debug, PartialEq)]
pub enum Statement<'a> {
    Return(Expr<'a>),
    Continue,
    Break(Expr<'a>),
    StmtExpr(Expr<'a>),
}

#[derive(Debug, PartialEq, Clone, Copy)]
pub enum BinOp {
    Add,
    Sub,
    Mul,
    Div,
    And,
    Or,
    LT,
    LTE,
    GT,
    GTE,
    EqEq,
    NotEq,
}

#[derive(Debug, PartialEq, Clone, Copy)]
pub enum UnOp {
    Pos,
    Neg,
    Not,
}

#[derive(Debug, PartialEq, Clone, Copy)]
pub enum Literal {
    Num(i64),
    Bool(bool),
    Unit,
}

/// A value together with the span of the source text that it was built from.
#[derive(Debug, PartialEq, Clone)]
pub struct Node<T> {
    pub value: T,
    pub span: SourceSpan,
}

impl<T> Node<T> {
    /// The same node with its value behind a `Box`.
    pub open spec fn spec_into_boxed(self) -> Node<Box<T>> {
        Node { value: Box::new(self.value), span: self.span }
    }

    #[verifier::when_used_as_spec(spec_into_boxed)]
    pub fn into_boxed(self) -> (boxed: Node<Box<T>>)
        ensures
            boxed == self.spec_into_boxed(),
    {
        Node { value: Box::new(self.value), span: self.span }
    }
}

impl<T> From<Node<T>> for Node<Box<T>> {
    fn from(node: Node<T>) -> (boxed: Self) {
        Node { value: Box::new(node.value), span: node.span }
    }
}

impl<T> FromSpecImpl<Node<T>> for Node<Box<T>> {
    open spec fn obeys_from_spec() -> bool {
        true
    }

    open spec fn from_spec(node: Node<T>) -> Self {
        node.spec_into_boxed()
    }
}

/// The smallest span that holds every span of `spans`, which is not empty.
pub open spec fn hull_of_all(spans: Seq<SourceSpan>) -> SourceSpan
    decreases spans.len(),
{
    if spans.len() <= 1 {
        spans[0]
    } else {
        hull_of_all(spans.drop_last()).hull(spans.last())
    }
}

/// In the tree of the expression `expr`, which stands at `span`, every node
/// spans exactly what its children span: its span starts where the first of
/// its children's spans starts and ends where the last of them ends. A
/// statement stands where its expression stands.
pub open spec fn spans_nest(expr: Expr, span: SourceSpan) -> bool
    decreases expr,
{
    match expr {
        Expr::Literal(_) | Expr::Ident(_) => true,
        Expr::Parenthesized(child)
        | Expr::Unary(_, child)
        | Expr::Lambda(_, child)
        | Expr::EmptyCall(child) => span == child.span && spans_nest(*child.value, child.span),
        Expr::Binary(_, left, right) | Expr::Call(left, right) => {
            &&& span == left.span.hull(right.span)
            &&& spans_nest(*left.value, left.span)
            &&& spans_nest(*right.value, right.span)
        },
        Expr::Block { instructions, .. } => {
            &&& instructions@.len() > 0 ==> span == hull_of_all(
                Seq::new(instructions@.len(), |i: int| instructions@[i].span),
            )
            &&& forall|i: int|
                0 <= i < instructions@.len() ==> match (#[trigger] instructions[i]).value {
                    Statement::Return(inner)
                    | Statement::Break(inner)
                    | Statement::StmtExpr(inner) => spans_nest(inner, instructions[i].span),
                    Statement::Continue => true,
                }
        },
    }
}

/// Every node of the tree below `node`, and `node` itself, spans exactly
/// what its children span.
pub open spec fn well_spanned(node: Node<Expr>) -> bool {
    spans_nest(node.value, node.span)
}

} // verus!
