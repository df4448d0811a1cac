//! What holds of every tree that the reducer builds.

use crate::syntax::ast::{well_spanned, BinOp, Expr, Node, UnOp};
use crate::syntax::tokens::SourceSpan;
use crate::syntax::optable::{is_table_operator, row_from};
use crate::syntax::parser::{Operator, PREFIX_PRECEDENCE};
use crate::syntax::shunting_yard::{
    appliable, applied, call_node, drained, fault_at, fed, first_fault, lemma_table_operators_are_appliable,
    operand_due, operands_taken, operators_from_table, reduced, reduction_of, stacks_fit, unwound, yields_to, OpOrExpr, Stacks,
};
use vstd::prelude::*;

verus! {

/// Every atom among the items is well spanned.
pub open spec fn atoms_well_spanned(items: Seq<OpOrExpr>) -> bool {
    forall|i: int|
        0 <= i < items.len() ==> (#[trigger] items[i] matches OpOrExpr::Expr(atom) ==> well_spanned(
            atom,
        ))
}

/// Every node of `nodes` is well spanned.
pub open spec fn all_well_spanned(nodes: Seq<Node<Expr>>) -> bool {
    forall|i: int| 0 <= i < nodes.len() ==> well_spanned(#[trigger] nodes[i])
}

/// The stacks fit each other, and the operands are well spanned where
/// `spanned` asks for it.
spec fn sound(stacks: Stacks, complete: bool, spanned: bool) -> bool {
    &&& stacks_fit(stacks, complete)
    &&& spanned ==> all_well_spanned(stacks.operands)
}

proof fn lemma_first_fault_none(items: Seq<OpOrExpr>, from: int)
    requires
        0 <= from,
        first_fault(items, from) is None,
    ensures
        forall|i: int| from <= i < items.len() ==> fault_at(items, i) is None,
    decreases items.len() - from,
{
    if from < items.len() {
        lemma_first_fault_none(items, from + 1);
    }
}

proof fn lemma_apply_top<'a>(stacks: Stacks<'a>, spanned: bool)
    requires
        stacks.ops.len() > 0,
        sound(stacks, true, spanned),
    ensures
        sound(
            Stacks {
                ops: stacks.ops.drop_last(),
                operands: applied(stacks.ops.last().value, stacks.operands),
            },
            true,
            spanned,
        ),
{
    let op = stacks.ops.last().value;
    assert(appliable(stacks.ops[stacks.ops.len() - 1].value));
    let rest = stacks.ops.drop_last();
    assert forall|i: int| 0 <= i < rest.len() implies appliable((#[trigger] rest[i]).value) by {
        assert(rest[i] == stacks.ops[i]);
    }
    let after = applied(op, stacks.operands);
    if spanned {
        assert forall|i: int| 0 <= i < after.len() implies well_spanned(#[trigger] after[i]) by {
            if i < after.len() - 1 {
                assert(after[i] == stacks.operands[i]);
            } else if op.is_infix() {
                assert(well_spanned(stacks.operands[stacks.operands.len() - 2]));
                assert(well_spanned(stacks.operands[stacks.operands.len() - 1]));
            } else {
                assert(well_spanned(stacks.operands[stacks.operands.len() - 1]));
            }
        }
    }
}

proof fn lemma_unwound<'a>(stacks: Stacks<'a>, incoming: Operator<'a>, spanned: bool)
    requires
        sound(stacks, true, spanned),
    ensures
        sound(unwound(stacks, incoming), true, spanned),
    decreases stacks.ops.len(),
{
    if stacks.ops.len() > 0 && yields_to(stacks.ops.last().value, incoming) {
        lemma_apply_top(stacks, spanned);
        lemma_unwound(
            Stacks {
                ops: stacks.ops.drop_last(),
                operands: applied(stacks.ops.last().value, stacks.operands),
            },
            incoming,
            spanned,
        );
    }
}

proof fn lemma_drained<'a>(stacks: Stacks<'a>, spanned: bool)
    requires
        sound(stacks, true, spanned),
    ensures
        drained(stacks).len() == 1,
        spanned ==> well_spanned(drained(stacks)[0]),
    decreases stacks.ops.len(),
{
    if stacks.ops.len() > 0 {
        lemma_apply_top(stacks, spanned);
        lemma_drained(
            Stacks {
                ops: stacks.ops.drop_last(),
                operands: applied(stacks.ops.last().value, stacks.operands),
            },
            spanned,
        );
    }
}

proof fn lemma_push_op<'a>(stacks: Stacks<'a>, op: Node<Operator<'a>>, complete: bool, spanned: bool)
    requires
        sound(stacks, complete, spanned),
        appliable(op.value),
        op.value.is_infix() ==> complete,
        !op.value.is_infix() ==> !complete,
    ensures
        sound(Stacks { ops: stacks.ops.push(op), operands: stacks.operands }, false, spanned),
{
    let ops = stacks.ops.push(op);
    assert(ops.drop_last() =~= stacks.ops);
    assert forall|i: int| 0 <= i < ops.len() implies appliable((#[trigger] ops[i]).value) by {
        if i < stacks.ops.len() {
            assert(ops[i] == stacks.ops[i]);
        }
    }
}

proof fn lemma_reduction<'a>(items: Seq<OpOrExpr<'a>>, n: nat, spanned: bool)
    requires
        n <= items.len(),
        operators_from_table(items),
        forall|i: int| 0 <= i < n ==> fault_at(items, i) is None,
        spanned ==> atoms_well_spanned(items),
    ensures
        sound(reduction_of(items, n).stacks, reduction_of(items, n).state is ExpectOp, spanned),
        reduction_of(items, n).state is ExpectOperand <==> operand_due(items, n as int),
    decreases n,
{
    if n > 0 {
        lemma_reduction(items, (n - 1) as nat, spanned);
        let before = reduction_of(items, (n - 1) as nat);
        let item = items[n - 1];
        assert(fault_at(items, n - 1) is None);
        match item {
            OpOrExpr::Expr(atom) => {
                let operands = fed(before, item).stacks.operands;
                if spanned {
                    assert(well_spanned(atom));
                    assert forall|i: int| 0 <= i < operands.len() implies well_spanned(
                        #[trigger] operands[i],
                    ) by {
                        if i < operands.len() - 1 {
                            assert(operands[i] == before.stacks.operands[i]);
                        } else if before.state is ExpectOp {
                            assert(well_spanned(
                                before.stacks.operands[before.stacks.operands.len() - 1],
                            ));
                        }
                    }
                }
            },
            OpOrExpr::Op(op) => {
                lemma_table_operators_are_appliable(op.value);
                if before.state is ExpectOperand {
                    lemma_push_op(
                        before.stacks,
                        Node { value: op.value.into_prefix().unwrap(), span: op.span },
                        false,
                        spanned,
                    );
                } else {
                    lemma_unwound(before.stacks, op.value, spanned);
                    lemma_push_op(unwound(before.stacks, op.value), op, true, spanned);
                }
            },
        }
    }
}

/// Span containment. Where every atom among the items is well spanned, so
/// is the tree that they reduce to: the span of each node that the reducer
/// builds starts where the first of its children's spans starts and ends
/// where the last of them ends.
pub proof fn law_reduced_tree_is_well_spanned<'a>(items: Seq<OpOrExpr<'a>>)
    requires
        operators_from_table(items),
        atoms_well_spanned(items),
    ensures
        reduced(items) matches Ok(tree) ==> well_spanned(tree),
{
    if reduced(items) is Ok {
        lemma_first_fault_none(items, 0);
        lemma_reduction(items, items.len(), true);
        assert(fault_at(items, items.len() - 1) is None);
        lemma_drained(reduction_of(items, items.len()).stacks, true);
    }
}

/// A node that is no application: neither of an operator nor of a function.
/// The atoms that the parser reads are such nodes.
pub open spec fn is_atomic(node: Node<Expr>) -> bool {
    !(node.value is Binary || node.value is Unary || node.value is Call)
}

/// Every atom among the items is atomic.
pub open spec fn atoms_are_atomic(items: Seq<OpOrExpr>) -> bool {
    forall|i: int|
        0 <= i < items.len() ==> (#[trigger] items[i] matches OpOrExpr::Expr(atom) ==> is_atomic(
            atom,
        ))
}

/// What an expression consists of, read from left to right: its atoms, and
/// the operations that its operators stand for.
pub enum Mark<'a> {
    Atom(Node<Expr<'a>>),
    Infix(BinOp),
    Prefix(UnOp),
}

/// The atoms and operations of the expression `expr`, which stands at
/// `span`, from left to right: an infix operation between those of its
/// operands, a prefix operation before those of its operand, a function
/// before its argument.
pub open spec fn in_order<'a>(expr: Expr<'a>, span: SourceSpan) -> Seq<Mark<'a>>
    decreases expr,
{
    match expr {
        Expr::Binary(op, left, right) => in_order(*left.value, left.span) + seq![Mark::Infix(op)]
            + in_order(*right.value, right.span),
        Expr::Unary(op, operand) => seq![Mark::Prefix(op)] + in_order(*operand.value, operand.span),
        Expr::Call(function, argument) => in_order(*function.value, function.span) + in_order(
            *argument.value,
            argument.span,
        ),
        _ => seq![Mark::Atom(Node { value: expr, span })],
    }
}

/// The operation that the operator `op` stands for where it is applied.
pub open spec fn operation<'a>(op: Operator) -> Mark<'a> {
    if op.is_infix() {
        Mark::Infix(op.binary().unwrap())
    } else {
        Mark::Prefix(op.unary().unwrap())
    }
}

/// What item `i` is read as: an atom as itself, an operator as a prefix
/// operation where an operand is due, and as an infix operation elsewhere.
pub open spec fn mark_at<'a>(items: Seq<OpOrExpr<'a>>, i: int) -> Mark<'a> {
    match items[i] {
        OpOrExpr::Expr(atom) => Mark::Atom(atom),
        OpOrExpr::Op(op) => if operand_due(items, i) {
            operation(op.value.into_prefix().unwrap())
        } else {
            operation(op.value)
        },
    }
}

/// What the items are read as, from left to right.
pub open spec fn marks_of<'a>(items: Seq<OpOrExpr<'a>>) -> Seq<Mark<'a>> {
    Seq::new(items.len(), |i: int| mark_at(items, i))
}

/// What the stacks hold, from left to right: each operator behind what
/// stands to its left. `complete` tells whether the operand on top is the
/// one that the operator on top waits for.
spec fn pending<'a>(
    ops: Seq<Node<Operator<'a>>>,
    operands: Seq<Node<Expr<'a>>>,
    complete: bool,
) -> Seq<Mark<'a>>
    decreases ops.len(), if complete { 1nat } else { 0nat },
{
    if complete {
        pending(ops, operands.drop_last(), false) + in_order(
            operands.last().value,
            operands.last().span,
        )
    } else if ops.len() == 0 {
        Seq::empty()
    } else {
        pending(ops.drop_last(), operands, ops.last().value.is_infix()) + seq![
            operation(ops.last().value),
        ]
    }
}

proof fn lemma_apply_top_keeps_order<'a>(stacks: Stacks<'a>)
    requires
        stacks.ops.len() > 0,
        stacks_fit(stacks, true),
    ensures
        pending(stacks.ops.drop_last(), applied(stacks.ops.last().value, stacks.operands), true)
            == pending(stacks.ops, stacks.operands, true),
{
    let ops = stacks.ops;
    let operands = stacks.operands;
    let top = ops.last().value;
    let below = ops.drop_last();
    let after = applied(top, operands);
    assert(appliable(ops[ops.len() - 1].value));
    if top.is_infix() {
        let rest = operands.take(operands.len() - 2);
        let left = operands[operands.len() - 2];
        let right = operands[operands.len() - 1];
        assert(after.drop_last() =~= rest);
        assert(operands.drop_last().drop_last() =~= rest);
        assert(operands.drop_last().last() == left);
        assert(pending(ops, operands, true) == pending(ops, operands.drop_last(), false)
            + in_order(right.value, right.span));
        assert(pending(ops, operands.drop_last(), false) == pending(
            below,
            operands.drop_last(),
            true,
        ) + seq![operation(top)]);
        assert(pending(below, operands.drop_last(), true) == pending(below, rest, false)
            + in_order(left.value, left.span));
        assert(pending(below, after, true) == pending(below, rest, false) + in_order(
            after.last().value,
            after.last().span,
        ));
        assert(pending(below, after, true) =~= pending(ops, operands, true));
    } else {
        let rest = operands.drop_last();
        let operand = operands.last();
        assert(after.drop_last() =~= rest);
        assert(pending(ops, operands, true) == pending(ops, rest, false) + in_order(
            operand.value,
            operand.span,
        ));
        assert(pending(ops, rest, false) == pending(below, rest, false) + seq![operation(top)]);
        assert(pending(below, after, true) == pending(below, rest, false) + in_order(
            after.last().value,
            after.last().span,
        ));
        assert(pending(below, after, true) =~= pending(ops, operands, true));
    }
}

proof fn lemma_unwound_keeps_order<'a>(stacks: Stacks<'a>, incoming: Operator<'a>)
    requires
        stacks_fit(stacks, true),
    ensures
        pending(unwound(stacks, incoming).ops, unwound(stacks, incoming).operands, true) == pending(
            stacks.ops,
            stacks.operands,
            true,
        ),
    decreases stacks.ops.len(),
{
    if stacks.ops.len() > 0 && yields_to(stacks.ops.last().value, incoming) {
        lemma_apply_top_keeps_order(stacks);
        lemma_apply_top(stacks, false);
        lemma_unwound_keeps_order(
            Stacks {
                ops: stacks.ops.drop_last(),
                operands: applied(stacks.ops.last().value, stacks.operands),
            },
            incoming,
        );
    }
}

proof fn lemma_drained_keeps_order<'a>(stacks: Stacks<'a>)
    requires
        stacks_fit(stacks, true),
    ensures
        in_order(drained(stacks)[0].value, drained(stacks)[0].span) == pending(
            stacks.ops,
            stacks.operands,
            true,
        ),
    decreases stacks.ops.len(),
{
    if stacks.ops.len() > 0 {
        lemma_apply_top_keeps_order(stacks);
        lemma_apply_top(stacks, false);
        lemma_drained_keeps_order(
            Stacks {
                ops: stacks.ops.drop_last(),
                operands: applied(stacks.ops.last().value, stacks.operands),
            },
        );
    } else {
        assert(pending(stacks.ops, stacks.operands.drop_last(), false) =~= Seq::empty());
        assert(stacks.operands.last() == stacks.operands[0]);
    }
}

proof fn lemma_reduction_keeps_order<'a>(items: Seq<OpOrExpr<'a>>, n: nat)
    requires
        n <= items.len(),
        operators_from_table(items),
        atoms_are_atomic(items),
        forall|i: int| 0 <= i < n ==> fault_at(items, i) is None,
    ensures
        pending(
            reduction_of(items, n).stacks.ops,
            reduction_of(items, n).stacks.operands,
            reduction_of(items, n).state is ExpectOp,
        ) == marks_of(items).take(n as int),
    decreases n,
{
    if n == 0 {
        assert(marks_of(items).take(0) =~= Seq::empty());
    } else {
        lemma_reduction_keeps_order(items, (n - 1) as nat);
        lemma_reduction(items, (n - 1) as nat, false);
        let before = reduction_of(items, (n - 1) as nat);
        let after = reduction_of(items, n);
        let item = items[n - 1];
        let ops = before.stacks.ops;
        let operands = before.stacks.operands;
        assert(fault_at(items, n - 1) is None);
        assert(marks_of(items).take(n as int) =~= marks_of(items).take(n - 1).push(
            mark_at(items, n - 1),
        ));
        match item {
            OpOrExpr::Expr(atom) => {
                assert(is_atomic(atom));
                assert(in_order(atom.value, atom.span) =~= seq![Mark::Atom(atom)]);
                if before.state is ExpectOp {
                    let last = operands.last();
                    let called = call_node(last, atom);
                    assert(after.stacks.operands.drop_last() =~= operands.drop_last());
                    assert(pending(ops, after.stacks.operands, true) == pending(
                        ops,
                        operands.drop_last(),
                        false,
                    ) + in_order(called.value, called.span));
                    assert(pending(ops, operands, true) == pending(
                        ops,
                        operands.drop_last(),
                        false,
                    ) + in_order(last.value, last.span));
                    assert(pending(ops, after.stacks.operands, true) =~= pending(
                        ops,
                        operands,
                        true,
                    ) + seq![Mark::Atom(atom)]);
                } else {
                    assert(after.stacks.operands.drop_last() =~= operands);
                    assert(pending(ops, after.stacks.operands, true) =~= pending(
                        ops,
                        operands,
                        false,
                    ) + seq![Mark::Atom(atom)]);
                }
            },
            OpOrExpr::Op(op) => {
                lemma_table_operators_are_appliable(op.value);
                if before.state is ExpectOperand {
                    let prefix = op.value.into_prefix().unwrap();
                    assert(after.stacks.ops.drop_last() =~= ops);
                    assert(pending(after.stacks.ops, operands, false) == pending(
                        ops,
                        operands,
                        false,
                    ) + seq![operation(prefix)]);
                } else {
                    lemma_unwound_keeps_order(before.stacks, op.value);
                    let rest = unwound(before.stacks, op.value);
                    assert(after.stacks.ops.drop_last() =~= rest.ops);
                    assert(pending(after.stacks.ops, rest.operands, false) == pending(
                        rest.ops,
                        rest.operands,
                        true,
                    ) + seq![operation(op.value)]);
                }
            },
        }
    }
}

/// The tree keeps the order of the items. Read from left to right, the
/// tree that the items reduce to holds the atoms of the items and the
/// operations of their operators, each where it stood: an operator where an
/// operand was due as a prefix operation, every other as an infix operation.
pub proof fn law_reduced_tree_keeps_the_order<'a>(items: Seq<OpOrExpr<'a>>)
    requires
        operators_from_table(items),
        atoms_are_atomic(items),
    ensures
        reduced(items) matches Ok(tree) ==> in_order(tree.value, tree.span) == marks_of(items),
{
    if reduced(items) is Ok {
        lemma_first_fault_none(items, 0);
        lemma_reduction(items, items.len(), false);
        lemma_reduction_keeps_order(items, items.len());
        assert(fault_at(items, items.len() - 1) is None);
        lemma_drained_keeps_order(reduction_of(items, items.len()).stacks);
        assert(marks_of(items).take(items.len() as int) =~= marks_of(items));
    }
}

/// The precedence of a binary operation: that which the table gives to
/// its symbols.
pub open spec fn binary_precedence(op: BinOp) -> u8 {
    match op {
        BinOp::Or => 3,
        BinOp::And => 5,
        BinOp::LT | BinOp::LTE | BinOp::GT | BinOp::GTE | BinOp::EqEq | BinOp::NotEq => 8,
        BinOp::Add | BinOp::Sub => 10,
        BinOp::Mul | BinOp::Div => 20,
    }
}

/// The expression is grouped as precedence and associativity ask. What
/// stands to the right of an infix operation binds more tightly than it;
/// what stands to its left binds at least as tightly. The operand of a
/// prefix operation is no infix operation. The function of an application
/// is no operation, and its argument is atomic. What stands between
/// parentheses is grouped in the same way; other atoms are not looked into.
pub open spec fn groups_well(expr: Expr) -> bool
    decreases expr,
{
    match expr {
        Expr::Binary(op, left, right) => {
            &&& groups_well(*left.value)
            &&& groups_well(*right.value)
            &&& *left.value matches Expr::Binary(inner, _, _) ==> binary_precedence(inner)
                >= binary_precedence(op)
            &&& *right.value matches Expr::Binary(inner, _, _) ==> binary_precedence(inner)
                > binary_precedence(op)
        },
        Expr::Unary(_, operand) => groups_well(*operand.value) && !(*operand.value is Binary),
        Expr::Call(function, argument) => {
            &&& groups_well(*function.value)
            &&& groups_well(*argument.value)
            &&& !(*function.value is Binary || *function.value is Unary)
            &&& !(*argument.value is Binary || *argument.value is Unary || *argument.value is Call)
        },
        Expr::Parenthesized(inner) => groups_well(*inner.value),
        _ => true,
    }
}

/// Every atom among the items is grouped well.
pub open spec fn atoms_group_well(items: Seq<OpOrExpr>) -> bool {
    forall|i: int|
        0 <= i < items.len() ==> (#[trigger] items[i] matches OpOrExpr::Expr(atom) ==> groups_well(
            atom.value,
        ))
}

/// What holds of an operator on the operator stack.
spec fn standing(op: Operator) -> bool {
    &&& appliable(op)
    &&& if op.is_infix() {
        &&& op.is_left_assoc()
        &&& op.prec < PREFIX_PRECEDENCE
        &&& binary_precedence(op.binary().unwrap()) == op.prec
    } else {
        op.prec >= PREFIX_PRECEDENCE
    }
}

proof fn lemma_table_operators_stand(op: Operator)
    requires
        is_table_operator(op),
    ensures
        standing(op),
        op.can_be_prefix() ==> !op.into_prefix().unwrap().is_infix() && standing(
            op.into_prefix().unwrap(),
        ),
{
    reveal_with_fuel(row_from, 14);
}

/// The root of `expr`, where it is an infix operation, binds at least as
/// tightly as precedence `prec`.
spec fn at_least(expr: Expr, prec: int) -> bool {
    expr matches Expr::Binary(op, _, _) ==> binary_precedence(op) >= prec
}

/// Operator `i` of the stack, where it is an infix operator, stands on an
/// infix operator of lower precedence.
spec fn rises_at(ops: Seq<Node<Operator>>, i: int) -> bool {
    ops[i].value.is_infix() ==> ops[i - 1].value.is_infix() && ops[i - 1].value.prec
        < ops[i].value.prec
}

/// Operator `i` of the stack, where it is an infix operator, has operand
/// `i` to its left, and that operand binds at least as tightly as it.
spec fn left_fits(ops: Seq<Node<Operator>>, operands: Seq<Node<Expr>>, i: int) -> bool {
    ops[i].value.is_infix() ==> i < operands.len() && at_least(
        operands[i].value,
        ops[i].value.prec as int,
    )
}

/// What holds of the stacks while a well grouped tree is built.
spec fn grouped(stacks: Stacks, complete: bool) -> bool {
    let ops = stacks.ops;
    let operands = stacks.operands;
    &&& stacks_fit(stacks, complete)
    &&& forall|i: int| 0 <= i < ops.len() ==> standing((#[trigger] ops[i]).value)
    &&& forall|i: int| 0 <= i < operands.len() ==> groups_well((#[trigger] operands[i]).value)
    &&& forall|i: int| 1 <= i < ops.len() ==> #[trigger] rises_at(ops, i)
    &&& forall|i: int| 0 <= i < ops.len() ==> #[trigger] left_fits(ops, operands, i)
    &&& complete && ops.len() > 0 && operands.last().value is Binary ==> ops.last().value.is_infix()
        && at_least(operands.last().value, ops.last().value.prec + 1)
}

/// The expression is neither an infix nor a prefix operation.
spec fn tight(expr: Expr) -> bool {
    !(expr is Binary || expr is Unary)
}

/// Where the operator on top is an infix operator, all of them are.
proof fn lemma_all_infix(ops: Seq<Node<Operator>>)
    requires
        ops.len() > 0,
        ops.last().value.is_infix(),
        forall|i: int| 1 <= i < ops.len() ==> #[trigger] rises_at(ops, i),
    ensures
        operands_taken(ops) == ops.len(),
    decreases ops.len(),
{
    if ops.len() > 1 {
        let below = ops.drop_last();
        assert(rises_at(ops, ops.len() - 1));
        assert(below.last() == ops[ops.len() - 2]);
        assert forall|i: int| 1 <= i < below.len() implies #[trigger] rises_at(below, i) by {
            assert(rises_at(ops, i));
            assert(below[i] == ops[i]);
            assert(below[i - 1] == ops[i - 1]);
        }
        lemma_all_infix(below);
    } else {
        assert(operands_taken(ops.drop_last()) == 0);
    }
}

/// The operators of a stack take at least as many operands as those of its
/// lower part.
proof fn lemma_taken_grows(ops: Seq<Node<Operator>>, k: int)
    requires
        0 <= k <= ops.len(),
    ensures
        operands_taken(ops.take(k)) <= operands_taken(ops),
    decreases ops.len() - k,
{
    if k < ops.len() {
        lemma_taken_grows(ops, k + 1);
        assert(ops.take(k + 1).drop_last() =~= ops.take(k));
    } else {
        assert(ops.take(k) =~= ops);
    }
}

/// The lower part of grouped stacks: its operators rise, and each has its
/// left operand.
proof fn lemma_lower_part<'a>(stacks: Stacks<'a>, complete: bool, operands: Seq<Node<Expr<'a>>>)
    requires
        stacks.ops.len() > 0,
        grouped(stacks, complete),
        forall|i: int|
            0 <= i < stacks.ops.len() - 1 ==> #[trigger] left_fits(stacks.ops, operands, i),
    ensures
        forall|i: int|
            0 <= i < stacks.ops.len() - 1 ==> standing((#[trigger] stacks.ops.drop_last()[i]).value),
        forall|i: int|
            1 <= i < stacks.ops.len() - 1 ==> #[trigger] rises_at(stacks.ops.drop_last(), i),
        forall|i: int|
            0 <= i < stacks.ops.len() - 1 ==> #[trigger] left_fits(
                stacks.ops.drop_last(),
                operands,
                i,
            ),
{
    let ops = stacks.ops;
    let below = ops.drop_last();
    assert forall|i: int| 0 <= i < below.len() implies standing((#[trigger] below[i]).value) by {
        assert(below[i] == ops[i]);
    }
    assert forall|i: int| 1 <= i < below.len() implies #[trigger] rises_at(below, i) by {
        assert(rises_at(ops, i));
        assert(below[i] == ops[i]);
        assert(below[i - 1] == ops[i - 1]);
    }
    assert forall|i: int| 0 <= i < below.len() implies #[trigger] left_fits(below, operands, i) by {
        assert(left_fits(ops, operands, i));
        assert(below[i] == ops[i]);
    }
}

/// An infix operator below the top of complete stacks has its left operand
/// below the two operands on top.
proof fn lemma_infix_below_has_operand<'a>(stacks: Stacks<'a>, i: int)
    requires
        grouped(stacks, true),
        0 <= i < stacks.ops.len() - 1,
        stacks.ops[i].value.is_infix(),
    ensures
        stacks.ops.last().value.is_infix() ==> i < stacks.operands.len() - 2,
        i < stacks.operands.len() - 1,
{
    let ops = stacks.ops;
    let upto = ops.take(i + 1);
    assert(upto.last() == ops[i]);
    assert forall|k: int| 1 <= k < upto.len() implies #[trigger] rises_at(upto, k) by {
        assert(rises_at(ops, k));
        assert(upto[k] == ops[k]);
        assert(upto[k - 1] == ops[k - 1]);
    }
    lemma_all_infix(upto);
    let below = ops.drop_last();
    assert(below.take(i + 1) =~= upto);
    lemma_taken_grows(below, i + 1);
}

proof fn lemma_apply_top_groups<'a>(stacks: Stacks<'a>)
    requires
        stacks.ops.len() > 0,
        grouped(stacks, true),
    ensures
        grouped(
            Stacks {
                ops: stacks.ops.drop_last(),
                operands: applied(stacks.ops.last().value, stacks.operands),
            },
            true,
        ),
        at_least(
            applied(stacks.ops.last().value, stacks.operands).last().value,
            stacks.ops.last().value.prec as int,
        ),
{
    let ops = stacks.ops;
    let operands = stacks.operands;
    let top = ops.last().value;
    let below = ops.drop_last();
    let after = applied(top, operands);
    let m = ops.len() - 1;
    lemma_apply_top(stacks, false);
    assert(standing(ops[m].value));
    assert(left_fits(ops, operands, m));
    assert forall|i: int| 0 <= i < m implies #[trigger] left_fits(ops, after, i) by {
        assert(left_fits(ops, operands, i));
        if ops[i].value.is_infix() {
            lemma_infix_below_has_operand(stacks, i);
            assert(after[i] == operands[i]);
        }
    }
    lemma_lower_part(stacks, true, after);
    let fresh = after.last();
    if top.is_infix() {
        lemma_all_infix(ops);
        assert(operands.len() == m + 2);
        let left = operands[m];
        let right = operands[m + 1];
        assert(groups_well(left.value));
        assert(groups_well(right.value));
        assert(operands.last() == right);
        assert(groups_well(fresh.value));
        if m > 0 {
            assert(rises_at(ops, m));
            assert(below.last() == ops[m - 1]);
        }
    } else {
        let operand = operands.last();
        assert(groups_well(operands[operands.len() - 1].value));
        assert(groups_well(fresh.value));
    }
    assert forall|i: int| 0 <= i < after.len() implies groups_well((#[trigger] after[i]).value) by {
        if i < after.len() - 1 {
            assert(after[i] == operands[i]);
        }
    }
}

proof fn lemma_unwound_groups<'a>(stacks: Stacks<'a>, incoming: Operator<'a>)
    requires
        grouped(stacks, true),
        at_least(stacks.operands.last().value, incoming.prec as int),
    ensures
        grouped(unwound(stacks, incoming), true),
        at_least(unwound(stacks, incoming).operands.last().value, incoming.prec as int),
        unwound(stacks, incoming).ops.len() > 0 ==> !yields_to(
            unwound(stacks, incoming).ops.last().value,
            incoming,
        ),
    decreases stacks.ops.len(),
{
    if stacks.ops.len() > 0 && yields_to(stacks.ops.last().value, incoming) {
        lemma_apply_top_groups(stacks);
        lemma_unwound_groups(
            Stacks {
                ops: stacks.ops.drop_last(),
                operands: applied(stacks.ops.last().value, stacks.operands),
            },
            incoming,
        );
    }
}

proof fn lemma_drained_groups<'a>(stacks: Stacks<'a>)
    requires
        grouped(stacks, true),
    ensures
        drained(stacks).len() == 1,
        groups_well(drained(stacks)[0].value),
    decreases stacks.ops.len(),
{
    if stacks.ops.len() > 0 {
        lemma_apply_top_groups(stacks);
        lemma_drained_groups(
            Stacks {
                ops: stacks.ops.drop_last(),
                operands: applied(stacks.ops.last().value, stacks.operands),
            },
        );
    }
}

/// What pushing an operator keeps of grouped stacks.
proof fn lemma_pushed_part<'a>(stacks: Stacks<'a>, complete: bool, op: Node<Operator<'a>>)
    requires
        grouped(stacks, complete),
        standing(op.value),
    ensures
        forall|i: int|
            0 <= i < stacks.ops.len() + 1 ==> standing((#[trigger] stacks.ops.push(op)[i]).value),
        forall|i: int| 1 <= i < stacks.ops.len() ==> #[trigger] rises_at(stacks.ops.push(op), i),
        forall|i: int|
            0 <= i < stacks.ops.len() ==> #[trigger] left_fits(
                stacks.ops.push(op),
                stacks.operands,
                i,
            ),
{
    let ops = stacks.ops;
    let pushed = ops.push(op);
    assert forall|i: int| 0 <= i < pushed.len() implies standing((#[trigger] pushed[i]).value) by {
        if i < ops.len() {
            assert(pushed[i] == ops[i]);
        }
    }
    assert forall|i: int| 1 <= i < ops.len() implies #[trigger] rises_at(pushed, i) by {
        assert(rises_at(ops, i));
        assert(pushed[i] == ops[i]);
        assert(pushed[i - 1] == ops[i - 1]);
    }
    assert forall|i: int| 0 <= i < ops.len() implies #[trigger] left_fits(
        pushed,
        stacks.operands,
        i,
    ) by {
        assert(left_fits(ops, stacks.operands, i));
        assert(pushed[i] == ops[i]);
    }
}

proof fn lemma_push_infix_groups<'a>(stacks: Stacks<'a>, op: Node<Operator<'a>>)
    requires
        grouped(stacks, true),
        standing(op.value),
        op.value.is_infix(),
        at_least(stacks.operands.last().value, op.value.prec as int),
        stacks.ops.len() > 0 ==> !yields_to(stacks.ops.last().value, op.value),
    ensures
        grouped(Stacks { ops: stacks.ops.push(op), operands: stacks.operands }, false),
{
    let ops = stacks.ops;
    let operands = stacks.operands;
    let pushed = ops.push(op);
    let m = ops.len() as int;
    lemma_push_op(stacks, op, true, false);
    lemma_pushed_part(stacks, true, op);
    if m > 0 {
        assert(standing(ops[m - 1].value));
        assert(ops.last().value.is_infix());
        lemma_all_infix(ops);
        assert(pushed[m - 1] == ops[m - 1]);
        assert(rises_at(pushed, m));
    } else {
        assert(operands_taken(ops) == 0);
    }
    assert(operands.len() == m + 1);
    assert(operands[m] == operands.last());
    assert(left_fits(pushed, operands, m));
}

proof fn lemma_push_prefix_groups<'a>(stacks: Stacks<'a>, op: Node<Operator<'a>>)
    requires
        grouped(stacks, false),
        standing(op.value),
        !op.value.is_infix(),
    ensures
        grouped(Stacks { ops: stacks.ops.push(op), operands: stacks.operands }, false),
{
    let ops = stacks.ops;
    let pushed = ops.push(op);
    let m = ops.len() as int;
    lemma_push_op(stacks, op, false, false);
    lemma_pushed_part(stacks, false, op);
    if m > 0 {
        assert(rises_at(pushed, m));
    }
    assert(left_fits(pushed, stacks.operands, m));
}

proof fn lemma_push_atom_groups<'a>(stacks: Stacks<'a>, atom: Node<Expr<'a>>)
    requires
        grouped(stacks, false),
        is_atomic(atom),
        groups_well(atom.value),
    ensures
        grouped(Stacks { ops: stacks.ops, operands: stacks.operands.push(atom) }, true),
{
    let ops = stacks.ops;
    let operands = stacks.operands;
    let pushed = operands.push(atom);
    assert forall|i: int| 0 <= i < pushed.len() implies groups_well((#[trigger] pushed[i]).value) by {
        if i < operands.len() {
            assert(pushed[i] == operands[i]);
        }
    }
    assert forall|i: int| 0 <= i < ops.len() implies #[trigger] left_fits(ops, pushed, i) by {
        assert(left_fits(ops, operands, i));
        if ops[i].value.is_infix() {
            assert(pushed[i] == operands[i]);
        }
    }
}

proof fn lemma_apply_function_groups<'a>(stacks: Stacks<'a>, atom: Node<Expr<'a>>)
    requires
        grouped(stacks, true),
        tight(stacks.operands.last().value),
        is_atomic(atom),
        groups_well(atom.value),
    ensures
        grouped(
            Stacks {
                ops: stacks.ops,
                operands: stacks.operands.drop_last().push(call_node(stacks.operands.last(), atom)),
            },
            true,
        ),
{
    let ops = stacks.ops;
    let operands = stacks.operands;
    let called = operands.drop_last().push(call_node(operands.last(), atom));
    assert(groups_well(operands[operands.len() - 1].value));
    assert forall|i: int| 0 <= i < called.len() implies groups_well((#[trigger] called[i]).value) by {
        if i < called.len() - 1 {
            assert(called[i] == operands[i]);
        }
    }
    assert forall|i: int| 0 <= i < ops.len() implies #[trigger] left_fits(ops, called, i) by {
        assert(left_fits(ops, operands, i));
        if ops[i].value.is_infix() && i < called.len() - 1 {
            assert(called[i] == operands[i]);
        }
    }
}

proof fn lemma_reduction_groups<'a>(items: Seq<OpOrExpr<'a>>, n: nat)
    requires
        n <= items.len(),
        operators_from_table(items),
        atoms_are_atomic(items),
        atoms_group_well(items),
        forall|i: int| 0 <= i < n ==> fault_at(items, i) is None,
    ensures
        grouped(reduction_of(items, n).stacks, reduction_of(items, n).state is ExpectOp),
        reduction_of(items, n).state is ExpectOp ==> tight(
            reduction_of(items, n).stacks.operands.last().value,
        ),
    decreases n,
{
    if n > 0 {
        lemma_reduction_groups(items, (n - 1) as nat);
        let before = reduction_of(items, (n - 1) as nat);
        let item = items[n - 1];
        assert(fault_at(items, n - 1) is None);
        match item {
            OpOrExpr::Expr(atom) => {
                assert(is_atomic(atom));
                assert(groups_well(atom.value));
                if before.state is ExpectOp {
                    lemma_apply_function_groups(before.stacks, atom);
                } else {
                    lemma_push_atom_groups(before.stacks, atom);
                }
            },
            OpOrExpr::Op(op) => {
                lemma_table_operators_stand(op.value);
                lemma_reduction(items, (n - 1) as nat, false);
                if before.state is ExpectOperand {
                    lemma_push_prefix_groups(
                        before.stacks,
                        Node { value: op.value.into_prefix().unwrap(), span: op.span },
                    );
                } else {
                    lemma_unwound_groups(before.stacks, op.value);
                    lemma_push_infix_groups(unwound(before.stacks, op.value), op);
                }
            },
        }
    } else {
        assert(operands_taken(reduction_of(items, 0).stacks.ops) == 0);
    }
}

/// Precedence and associativity. The tree that the items reduce to is
/// grouped as the table asks: an operator of higher precedence binds its
/// operands before one of lower precedence does, operators of one
/// precedence group to the left, a prefix operator binds more tightly than
/// any infix operator, and the application of a function more tightly than
/// any operator, grouping to the left.
///
/// With [`law_reduced_tree_keeps_the_order`] this tells which tree the items
/// reduce to.
pub proof fn law_reduced_tree_groups_by_precedence<'a>(items: Seq<OpOrExpr<'a>>)
    requires
        operators_from_table(items),
        atoms_are_atomic(items),
        atoms_group_well(items),
    ensures
        reduced(items) matches Ok(tree) ==> groups_well(tree.value),
{
    if reduced(items) is Ok {
        lemma_first_fault_none(items, 0);
        lemma_reduction_groups(items, items.len());
        lemma_reduction(items, items.len(), false);
        assert(fault_at(items, items.len() - 1) is None);
        lemma_drained_groups(reduction_of(items, items.len()).stacks);
    }
}

} // verus!
