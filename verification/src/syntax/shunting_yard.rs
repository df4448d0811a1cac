//! The reducer: atoms and operators, in the order in which they were read,
//! become one tree in which precedence, associativity and fixity are
//! resolved. Two atoms side by side are an application.

use crate::errors::syntax_err::{
    expected_view, Expected, ExpectedView, SyntaxErr, SyntaxErrKind, SyntaxErrView,
};
use crate::syntax::ast::{BinOp, Expr, Node, UnOp};
use crate::syntax::optable::{is_table_operator, row_from, OpTable};
use crate::syntax::parser::{Fixity, Operator};
use crate::syntax::tokens::{SourceSpan, TokenKind};
use vstd::prelude::*;

verus! {

/// What the reducer waits for.
#[derive(Debug, Clone, Copy, PartialEq, Eq, Structural)]
pub enum ShuntingYardState {
    ExpectOperand,
    ExpectOp,
}

/// One item of the reducer's input.
#[derive(Debug)]
pub enum OpOrExpr<'a> {
    Expr(Node<Expr<'a>>),
    Op(Node<Operator<'a>>),
}

/// The application of `function` to `argument`.
pub open spec fn call_node<'a>(function: Node<Expr<'a>>, argument: Node<Expr<'a>>) -> Node<Expr<'a>> {
    Node {
        span: function.span.hull(argument.span),
        value: Expr::Call(function.into_boxed(), argument.into_boxed()),
    }
}

/// The infix operator `op` between `left` and `right`.
pub open spec fn binary_node<'a>(op: Operator<'a>, left: Node<Expr<'a>>, right: Node<Expr<'a>>) -> Node<Expr<'a>> {
    Node {
        span: left.span.hull(right.span),
        value: Expr::Binary(op.binary().unwrap(), left.into_boxed(), right.into_boxed()),
    }
}

/// The prefix operator `op` before `operand`.
pub open spec fn unary_node<'a>(op: Operator<'a>, operand: Node<Expr<'a>>) -> Node<Expr<'a>> {
    Node { span: operand.span, value: Expr::Unary(op.unary().unwrap(), operand.into_boxed()) }
}

/// The operand stack after `op` has taken its operands from the top of
/// `operands` and has left its node there.
pub open spec fn applied<'a>(op: Operator<'a>, operands: Seq<Node<Expr<'a>>>) -> Seq<Node<Expr<'a>>> {
    if op.is_infix() {
        operands.take(operands.len() - 2).push(
            binary_node(op, operands[operands.len() - 2], operands[operands.len() - 1]),
        )
    } else {
        operands.drop_last().push(unary_node(op, operands.last()))
    }
}

/// The two stacks of the reducer, the top of each last.
pub struct Stacks<'a> {
    pub ops: Seq<Node<Operator<'a>>>,
    pub operands: Seq<Node<Expr<'a>>>,
}

impl<'a> Stacks<'a> {
    /// The stacks with these operators and these operands.
    pub open spec fn of(ops: Seq<Node<Operator<'a>>>, operands: Seq<Node<Expr<'a>>>) -> Self {
        Stacks { ops, operands }
    }
}

/// An operator `top` on the stack is applied before `incoming` is pushed:
/// it binds more tightly, or as tightly and groups to the left.
pub open spec fn yields_to(top: Operator, incoming: Operator) -> bool {
    top.prec > incoming.prec || (top.prec >= incoming.prec && top.is_left_assoc())
}

/// The stacks after every operator on top that yields to `incoming` has
/// been applied, down to the first that does not.
pub open spec fn unwound<'a>(stacks: Stacks<'a>, incoming: Operator<'a>) -> Stacks<'a>
    decreases stacks.ops.len(),
{
    if stacks.ops.len() > 0 && yields_to(stacks.ops.last().value, incoming) {
        unwound(
            Stacks {
                ops: stacks.ops.drop_last(),
                operands: applied(stacks.ops.last().value, stacks.operands),
            },
            incoming,
        )
    } else {
        stacks
    }
}

/// The operand stack after every operator on the stack has been applied,
/// the top one first.
pub open spec fn drained<'a>(stacks: Stacks<'a>) -> Seq<Node<Expr<'a>>>
    decreases stacks.ops.len(),
{
    if stacks.ops.len() == 0 {
        stacks.operands
    } else {
        drained(
            Stacks {
                ops: stacks.ops.drop_last(),
                operands: applied(stacks.ops.last().value, stacks.operands),
            },
        )
    }
}

/// The reducer between two items.
pub struct Reduction<'a> {
    pub stacks: Stacks<'a>,
    pub state: ShuntingYardState,
}

impl<'a> Reduction<'a> {
    /// The reducer with these stacks, in this state.
    pub open spec fn of(
        ops: Seq<Node<Operator<'a>>>,
        operands: Seq<Node<Expr<'a>>>,
        state: ShuntingYardState,
    ) -> Self {
        Reduction { stacks: Stacks { ops, operands }, state }
    }
}

/// The reducer after it has taken `item`, which raises no fault.
pub open spec fn fed<'a>(reduction: Reduction<'a>, item: OpOrExpr<'a>) -> Reduction<'a> {
    let stacks = reduction.stacks;
    match item {
        OpOrExpr::Expr(atom) => Reduction {
            stacks: Stacks {
                ops: stacks.ops,
                operands: if reduction.state is ExpectOp {
                    stacks.operands.drop_last().push(call_node(stacks.operands.last(), atom))
                } else {
                    stacks.operands.push(atom)
                },
            },
            state: ShuntingYardState::ExpectOp,
        },
        OpOrExpr::Op(op) => Reduction {
            stacks: if reduction.state is ExpectOperand {
                Stacks {
                    ops: stacks.ops.push(
                        Node { value: op.value.into_prefix().unwrap(), span: op.span },
                    ),
                    operands: stacks.operands,
                }
            } else {
                let rest = unwound(stacks, op.value);
                Stacks { ops: rest.ops.push(op), operands: rest.operands }
            },
            state: ShuntingYardState::ExpectOperand,
        },
    }
}

/// The reducer after it has taken the first `n` of `items`.
pub open spec fn reduction_of<'a>(items: Seq<OpOrExpr<'a>>, n: nat) -> Reduction<'a>
    decreases n,
{
    if n == 0 {
        Reduction {
            stacks: Stacks { ops: Seq::empty(), operands: Seq::empty() },
            state: ShuntingYardState::ExpectOperand,
        }
    } else {
        fed(reduction_of(items, (n - 1) as nat), items[n - 1])
    }
}

/// The tree that the items reduce to, where no item raises a fault.
pub open spec fn reduced_tree<'a>(items: Seq<OpOrExpr<'a>>) -> Node<Expr<'a>> {
    drained(reduction_of(items, items.len()).stacks)[0]
}

/// An operand is due at item `i`: nothing came before it, or an operator did.
pub open spec fn operand_due(items: Seq<OpOrExpr>, i: int) -> bool {
    i == 0 || items[i - 1] is Op
}

/// The fault that item `i` raises, given as what should have stood in its
/// place. An atom raises none. An operator raises one where it is the last
/// item; where an operand is due and it cannot stand before one; and where
/// an operator is due and it cannot stand between two operands.
pub open spec fn fault_at(items: Seq<OpOrExpr>, i: int) -> Option<ExpectedView> {
    match items[i] {
        OpOrExpr::Expr(_) => None,
        OpOrExpr::Op(op) => if i == items.len() - 1 {
            Some(ExpectedView::OneOf(seq![ExpectedView::Operator, ExpectedView::Semicolon]))
        } else if operand_due(items, i) {
            if op.value.can_be_prefix() {
                None
            } else {
                Some(ExpectedView::Expr)
            }
        } else if op.value.is_infix() {
            None
        } else {
            Some(ExpectedView::Operator)
        },
    }
}

/// The first item at or after `from` that raises a fault.
pub open spec fn first_fault<'a>(items: Seq<OpOrExpr<'a>>, from: int) -> Option<int>
    decreases items.len() - from,
{
    if from < 0 || from >= items.len() {
        None
    } else if fault_at(items, from) is Some {
        Some(from)
    } else {
        first_fault(items, from + 1)
    }
}

/// The span of a diagnostic for which no token stands.
pub open spec fn no_span() -> SourceSpan {
    SourceSpan { start: usize::MAX, end: usize::MAX }
}

/// The diagnostic for the operator `op` found where `expected` should stand.
pub open spec fn unexpected_operator<'a>(op: Node<Operator<'a>>, expected: ExpectedView) -> SyntaxErrView<'a> {
    SyntaxErrView {
        span: op.span,
        kind: SyntaxErrKind::UnexpectedToken(TokenKind::Op(op.value.sym)),
        expected,
        note: None,
    }
}

/// What the items reduce to: the tree, or the diagnostic for the first
/// fault. Items without any atom or operator among them reduce to the
/// diagnostic for an end of input where an expression should stand.
pub open spec fn reduced<'a>(items: Seq<OpOrExpr<'a>>) -> Result<Node<Expr<'a>>, SyntaxErrView<'a>> {
    if items.len() == 0 {
        Err(
            SyntaxErrView {
                span: no_span(),
                kind: SyntaxErrKind::UnexpectedEOF,
                expected: ExpectedView::Expr,
                note: None,
            },
        )
    } else {
        match first_fault(items, 0) {
            Some(i) => Err(unexpected_operator(items[i]->Op_0, fault_at(items, i).unwrap())),
            None => Ok(reduced_tree(items)),
        }
    }
}

/// Every operator among the items is one of the table.
pub open spec fn operators_from_table(items: Seq<OpOrExpr>) -> bool {
    forall|i: int|
        0 <= i < items.len() ==> (#[trigger] items[i] matches OpOrExpr::Op(op) ==> is_table_operator(
            op.value,
        ))
}

/// The operator can be applied: it stands for a binary operation where it
/// is an infix operator, and for a unary operation where it is not.
pub open spec fn appliable(op: Operator) -> bool {
    if op.is_infix() {
        op.binary() is Some
    } else {
        op.unary() is Some
    }
}

/// How many operands the operators of `ops` take from the operand stack
/// beyond those that they leave there: one for each infix operator.
pub open spec fn operands_taken(ops: Seq<Node<Operator>>) -> nat
    decreases ops.len(),
{
    if ops.len() == 0 {
        0
    } else {
        operands_taken(ops.drop_last()) + if ops.last().value.is_infix() {
            1nat
        } else {
            0nat
        }
    }
}

/// The stacks fit each other: every operator can be applied, and the
/// operands on the stack are those that the operators wait for, and one
/// more where `complete` says that the last operand has come.
pub open spec fn stacks_fit(stacks: Stacks, complete: bool) -> bool {
    &&& forall|i: int| 0 <= i < stacks.ops.len() ==> appliable((#[trigger] stacks.ops[i]).value)
    &&& stacks.operands.len() == operands_taken(stacks.ops) + if complete {
        1nat
    } else {
        0nat
    }
}

/// An operator of the table can be applied as it is, and so can the prefix
/// operator that it becomes where it stands before an operand.
pub proof fn lemma_table_operators_are_appliable(op: Operator)
    requires
        is_table_operator(op),
    ensures
        appliable(op),
        op.can_be_prefix() ==> !op.into_prefix().unwrap().is_infix() && appliable(
            op.into_prefix().unwrap(),
        ),
{
    reveal_with_fuel(row_from, 14);
}

/// Replaces the two operands on top of `ast` by the node of the infix
/// operator `op` between them.
fn insert_bin_op<'a>(ast: &mut Vec<Node<Expr<'a>>>, op: &Node<Operator<'a>>)
    requires
        old(ast)@.len() >= 2,
        op.value.is_infix(),
        op.value.binary() is Some,
    ensures
        final(ast)@ == applied(op.value, old(ast)@),
{
    let right = ast.pop().unwrap();
    let left = ast.pop().unwrap();
    let binary = BinOp::try_from(op.value).unwrap();
    ast.push(
        Node {
            span: left.span.hull(right.span),
            value: Expr::Binary(binary, left.into_boxed(), right.into_boxed()),
        },
    );
}

/// Replaces the operand on top of `ast` by the node of the prefix operator
/// `op` before it.
fn insert_un_op<'a>(ast: &mut Vec<Node<Expr<'a>>>, op: &Node<Operator<'a>>)
    requires
        old(ast)@.len() >= 1,
        !op.value.is_infix(),
        op.value.unary() is Some,
    ensures
        final(ast)@ == applied(op.value, old(ast)@),
{
    let right = ast.pop().unwrap();
    let unary = UnOp::try_from(op.value).unwrap();
    ast.push(Node { span: right.span, value: Expr::Unary(unary, right.into_boxed()) });
}

/// Applies the operator on top of `op_stack` to the operands on top of `ast`.
fn apply_top<'a>(op_stack: &mut Vec<Node<Operator<'a>>>, ast: &mut Vec<Node<Expr<'a>>>)
    requires
        old(op_stack)@.len() > 0,
        stacks_fit(Stacks::of(old(op_stack)@, old(ast)@), true),
    ensures
        final(op_stack)@ == old(op_stack)@.drop_last(),
        final(ast)@ == applied(old(op_stack)@.last().value, old(ast)@),
        stacks_fit(Stacks::of(final(op_stack)@, final(ast)@), true),
{
    let top = op_stack.pop().unwrap();
    assert(appliable(top.value)) by {
        assert(appliable(old(op_stack)@[old(op_stack)@.len() - 1].value));
    }
    if top.value.is_infix() {
        insert_bin_op(ast, &top);
    } else {
        insert_un_op(ast, &top);
    }
}

/// The diagnostic for the operator `op` at `span`, found where `expected`
/// should stand.
fn unexpected_operator_err<'a>(op: Operator<'a>, span: SourceSpan, expected: Expected) -> (error:
    SyntaxErr<'a>)
    ensures
        error@ == unexpected_operator(Node { value: op, span }, expected@),
{
    SyntaxErr { span, kind: SyntaxErrKind::UnexpectedToken(TokenKind::Op(op.sym)), expected, note: None }
}

/// Whether every operator among `items` is one of `table`.
pub fn come_from_table<'a>(items: &Vec<OpOrExpr<'a>>, table: &OpTable) -> (all: bool)
    ensures
        all == operators_from_table(items@),
{
    let n = items.len();
    let mut i: usize = 0;
    while i < n
        invariant
            i <= n,
            n == items@.len(),
            forall|k: int|
                0 <= k < i ==> (#[trigger] items@[k] matches OpOrExpr::Op(op) ==> is_table_operator(
                    op.value,
                )),
        decreases n - i,
    {
        match &items[i] {
            OpOrExpr::Op(op) => {
                let held = match table.get(op.value.sym) {
                    Some(found) => found.prec == op.value.prec && match (
                        found.fixity,
                        op.value.fixity,
                    ) {
                        (Fixity::Prefix, Fixity::Prefix) => true,
                        (Fixity::Infix(one), Fixity::Infix(other)) => one.is_left() == other.is_left(),
                        _ => false,
                    },
                    None => false,
                };
                if !held {
                    assert(!is_table_operator(items@[i as int]->Op_0.value));
                    return false;
                }
            },
            OpOrExpr::Expr(_) => {},
        }
        i += 1;
    }
    true
}

/// Reduces atoms and operators, in the order in which they were read, to
/// one tree. An atom that follows an atom is its argument. An operator
/// where an operand is due is read as a prefix operator. An infix operator
/// first has every operator before it applied that binds more tightly, or as
/// tightly and groups to the left.
///
/// The result is the diagnostic for the first fault where there is one: an
/// operator that is the last item, an operator that cannot stand where it
/// does, or no item at all.
pub fn shunting_yard<'a>(tokens: Vec<OpOrExpr<'a>>) -> (result: Result<Node<Expr<'a>>, SyntaxErr<'a>>)
    requires
        operators_from_table(tokens@),
    ensures
        match reduced(tokens@) {
            Ok(tree) => result == Ok::<Node<Expr<'a>>, SyntaxErr<'a>>(tree),
            Err(diagnostic) => result matches Err(error) && error@ == diagnostic,
        },
{
    let mut op_stack: Vec<Node<Operator<'a>>> = Vec::new();
    let mut ast: Vec<Node<Expr<'a>>> = Vec::new();
    let tok_len = tokens.len();
    if tok_len == 0 {
        return Err(
            SyntaxErr {
                span: SourceSpan { start: usize::MAX, end: usize::MAX },
                kind: SyntaxErrKind::UnexpectedEOF,
                expected: Expected::Expr,
                note: None,
            },
        );
    }
    let ghost items = tokens@;
    let mut state = ShuntingYardState::ExpectOperand;
    let mut idx: usize = 0;
    for tok in it: tokens
        invariant
            idx == it.index(),
            it.seq() == items,
            tok_len == items.len(),
            operators_from_table(items),
            first_fault(items, idx as int) == first_fault(items, 0),
            Reduction::of(op_stack@, ast@, state) == reduction_of(
                items,
                idx as nat,
            ),
            stacks_fit(Stacks::of(op_stack@, ast@), state is ExpectOp),
            state is ExpectOperand <==> operand_due(items, idx as int),
            idx > 0 ==> fault_at(items, idx - 1) is None,
    {
        assert(tok == items[idx as int]);
        assert(reduction_of(items, (idx + 1) as nat) == fed(
            reduction_of(items, idx as nat),
            items[idx as int],
        ));
        match tok {
            OpOrExpr::Expr(e) => {
                match state {
                    ShuntingYardState::ExpectOp => {
                        let last = ast.pop().unwrap();
                        ast.push(
                            Node {
                                span: last.span.hull(e.span),
                                value: Expr::Call(last.into_boxed(), e.into_boxed()),
                            },
                        );
                    },
                    ShuntingYardState::ExpectOperand => {
                        state = ShuntingYardState::ExpectOp;
                        ast.push(e);
                    },
                }
            },
            OpOrExpr::Op(Node { value: op, span }) => {
                proof {
                    lemma_table_operators_are_appliable(op);
                }
                if idx + 1 == tok_len {
                    let mut choices: Vec<Expected> = Vec::new();
                    choices.push(Expected::Operator);
                    choices.push(Expected::Semicolon);
                    let expected = Expected::OneOf(choices);
                    assert(expected@ == ExpectedView::OneOf(
                        seq![ExpectedView::Operator, ExpectedView::Semicolon],
                    )) by {
                        reveal_with_fuel(expected_view, 2);
                        assert(expected@->OneOf_0 =~= seq![
                            ExpectedView::Operator,
                            ExpectedView::Semicolon,
                        ]);
                    }
                    return Err(unexpected_operator_err(op, span, expected));
                }
                match state {
                    ShuntingYardState::ExpectOperand => {
                        match op.into_prefix() {
                            Some(prefix) => {
                                proof {
                                    lemma_push_operator(op_stack@, prefix, span);
                                }
                                op_stack.push(Node { span, value: prefix });
                            },
                            None => {
                                return Err(unexpected_operator_err(op, span, Expected::Expr));
                            },
                        }
                    },
                    ShuntingYardState::ExpectOp => {
                        if !op.is_infix() {
                            return Err(unexpected_operator_err(op, span, Expected::Operator));
                        }
                        let ghost before = Stacks::of(op_stack@, ast@);
                        loop
                            invariant
                                stacks_fit(Stacks::of(op_stack@, ast@), true),
                                unwound(Stacks::of(op_stack@, ast@), op) == unwound(
                                    before,
                                    op,
                                ),
                            ensures
                                stacks_fit(Stacks::of(op_stack@, ast@), true),
                                Stacks::of(op_stack@, ast@) == unwound(before, op),
                            decreases op_stack.len(),
                        {
                            let n = op_stack.len();
                            if n == 0 {
                                break;
                            }
                            let last_op = op_stack[n - 1].value;
                            if !(last_op.prec > op.prec || (last_op.prec >= op.prec
                                && last_op.is_left_assoc())) {
                                break;
                            }
                            apply_top(&mut op_stack, &mut ast);
                        }
                        proof {
                            lemma_push_operator(op_stack@, op, span);
                        }
                        op_stack.push(Node { span, value: op });
                    },
                }
                state = ShuntingYardState::ExpectOperand;
            },
        }
        idx += 1;
    }
    assert(idx == items.len());
    assert(first_fault(items, 0) is None);
    assert(state is ExpectOp);
    while op_stack.len() > 0
        invariant
            stacks_fit(Stacks::of(op_stack@, ast@), true),
            drained(Stacks::of(op_stack@, ast@)) == drained(
                reduction_of(items, items.len()).stacks,
            ),
        decreases op_stack.len(),
    {
        apply_top(&mut op_stack, &mut ast);
    }
    let tree = ast.pop().unwrap();
    Ok(tree)
}

/// Pushing an operator that can be applied keeps every operator on the
/// stack appliable, and an infix operator waits for one operand more.
proof fn lemma_push_operator<'a>(ops: Seq<Node<Operator<'a>>>, op: Operator<'a>, span: SourceSpan)
    requires
        forall|i: int| 0 <= i < ops.len() ==> appliable((#[trigger] ops[i]).value),
        appliable(op),
    ensures
        forall|i: int|
            0 <= i < ops.len() + 1 ==> appliable(
                (#[trigger] ops.push(Node { value: op, span })[i]).value,
            ),
        operands_taken(ops.push(Node { value: op, span })) == operands_taken(ops) + if op.is_infix() {
            1nat
        } else {
            0nat
        },
{
    assert(ops.push(Node { value: op, span }).drop_last() =~= ops);
}

} // verus!
