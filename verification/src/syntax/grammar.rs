//! What the parser reads from a token stream, as mathematical functions of
//! the tokens and of the position at which reading begins.

use crate::errors::syntax_err::{Delimiter, ExpectedView, SyntaxErrKind, SyntaxErrView};
use crate::syntax::ast::{Expr, Literal, Node, Statement};
use crate::syntax::optable::table_entry;
use crate::syntax::parser::Operator;
use crate::syntax::shunting_yard::{call_node, no_span, reduced, OpOrExpr};
use crate::syntax::tokens::{SourceSpan, Token, TokenKind};
use vstd::prelude::*;

verus! {

/// The token at position `pos`, if the stream reaches that far.
pub open spec fn token_at<'a>(tokens: Seq<Token<'a>>, pos: int) -> Option<Token<'a>> {
    if 0 <= pos < tokens.len() {
        Some(tokens[pos])
    } else {
        None
    }
}

/// How many tokens are left at position `pos`.
pub open spec fn tokens_left(tokens: Seq<Token>, pos: int) -> nat {
    if 0 <= pos < tokens.len() {
        (tokens.len() - pos) as nat
    } else {
        0
    }
}

/// The diagnostic for what stands at position `pos` where `expected` should:
/// the token there is unexpected, or the input has ended.
pub open spec fn unexpected_at<'a>(tokens: Seq<Token<'a>>, pos: int, expected: ExpectedView) -> SyntaxErrView<'a> {
    match token_at(tokens, pos) {
        Some(tok) => SyntaxErrView {
            span: tok.span,
            kind: SyntaxErrKind::UnexpectedToken(tok.kind),
            expected,
            note: None,
        },
        None => SyntaxErrView {
            span: no_span(),
            kind: SyntaxErrKind::UnexpectedEOF,
            expected,
            note: None,
        },
    }
}

/// The diagnostic for a `delimiter` that is still open at position `pos`:
/// it stands at the token there, or tells of the end of the input.
pub open spec fn unclosed_at<'a>(tokens: Seq<Token<'a>>, pos: int, delimiter: Delimiter) -> SyntaxErrView<'a> {
    match token_at(tokens, pos) {
        Some(tok) => SyntaxErrView {
            span: tok.span,
            kind: SyntaxErrKind::Unclosed(delimiter),
            expected: ExpectedView::Nothing,
            note: None,
        },
        None => SyntaxErrView {
            span: no_span(),
            kind: SyntaxErrKind::UnexpectedEOF,
            expected: ExpectedView::Nothing,
            note: None,
        },
    }
}

/// The diagnostic for the `(` at `span` that no `)` closes.
pub open spec fn unclosed_paren<'a>(span: SourceSpan) -> SyntaxErrView<'a> {
    SyntaxErrView {
        span,
        kind: SyntaxErrKind::Unclosed(Delimiter::Paren),
        expected: ExpectedView::Nothing,
        note: None,
    }
}

/// The position at which reading goes on after a diagnostic at `pos`: behind
/// the first `;` or `}` at or after `pos`, or at the end of the input where
/// there is none.
pub open spec fn resumed(tokens: Seq<Token>, pos: int) -> int
    decreases tokens_left(tokens, pos),
{
    match token_at(tokens, pos) {
        None => pos,
        Some(tok) => if tok.kind is Semicolon || tok.kind is RBrace {
            pos + 1
        } else {
            resumed(tokens, pos + 1)
        },
    }
}

/// The operator that the token at `pos` stands for.
pub enum OperatorAt<'a> {
    /// The token is no operator, or there is no token.
    Absent,
    /// The token is an operator whose symbol the table does not hold.
    Unknown(Token<'a>),
    /// The token is this operator of the table.
    Known(Node<Operator<'a>>),
}

pub open spec fn operator_at<'a>(tokens: Seq<Token<'a>>, pos: int) -> OperatorAt<'a> {
    match token_at(tokens, pos) {
        Some(tok) => match tok.kind {
            TokenKind::Op(sym) => match table_entry(sym@) {
                Some((fixity, prec)) => OperatorAt::Known(
                    Node { value: Operator { sym, fixity, prec }, span: tok.span },
                ),
                None => OperatorAt::Unknown(tok),
            },
            _ => OperatorAt::Absent,
        },
        None => OperatorAt::Absent,
    }
}

/// The atom that a token of kind `kind` at `span` is by itself, if it is one.
pub open spec fn plain_atom<'a>(kind: TokenKind<'a>, span: SourceSpan) -> Option<Node<Expr<'a>>> {
    match kind {
        TokenKind::Number(n) => Some(Node { value: Expr::Literal(Literal::Num(n)), span }),
        TokenKind::Bool(b) => Some(Node { value: Expr::Literal(Literal::Bool(b)), span }),
        TokenKind::Unit => Some(Node { value: Expr::Literal(Literal::Unit), span }),
        TokenKind::Ident(name) => Some(Node { value: Expr::Ident(name), span }),
        _ => None,
    }
}

/// The node for `inner` between parentheses. It stands where `inner` stands.
pub open spec fn parenthesized_node<'a>(inner: Node<Expr<'a>>) -> Node<Expr<'a>> {
    Node { value: Expr::Parenthesized(inner.into_boxed()), span: inner.span }
}

/// What reading at one position comes to.
pub enum Reading<'a> {
    /// Nothing stands there that could be read. No token was taken.
    Absent,
    /// This node was read, and reading goes on at `next`. Where a `(` was
    /// left open, `recorded` holds the diagnostic for it, and `next` is the
    /// position at which reading resumes after it.
    Read { node: Node<Expr<'a>>, next: int, recorded: Seq<SyntaxErrView<'a>> },
    /// Reading failed with `error` at position `next`. `recorded` is as for
    /// `Read`.
    Failed { error: SyntaxErrView<'a>, next: int, recorded: Seq<SyntaxErrView<'a>> },
}

/// The items of an expression gathered so far.
pub enum Gathering<'a> {
    Gathered { items: Seq<OpOrExpr<'a>>, next: int, recorded: Seq<SyntaxErrView<'a>> },
    Failed { error: SyntaxErrView<'a>, next: int, recorded: Seq<SyntaxErrView<'a>> },
}

/// The atom that begins at position `pos`: a literal, an identifier, or an
/// expression between parentheses.
///
/// Where the expression after a `(` fails, so does the atom. Where it was
/// read but no `)` follows it, the atom is that expression all the same: the
/// diagnostic for the open `(` is recorded, and reading resumes behind the
/// next `;` or `}`. Where a `(` was left open further inside, the atom is
/// the expression read so far, and no `)` is looked for.
pub open spec fn atom_at<'a>(tokens: Seq<Token<'a>>, pos: int) -> Reading<'a>
    decreases tokens_left(tokens, pos), 0nat,
{
    match token_at(tokens, pos) {
        None => Reading::Absent,
        Some(tok) => match plain_atom(tok.kind, tok.span) {
            Some(node) => Reading::Read { node, next: pos + 1, recorded: Seq::empty() },
            None => if tok.kind is LParen {
                match expr_at(tokens, pos + 1) {
                    Reading::Read { node, next, recorded } => if recorded.len() > 0 {
                        Reading::Read { node: parenthesized_node(node), next, recorded }
                    } else if token_at(tokens, next) matches Some(closer) && closer.kind is RParen {
                        Reading::Read {
                            node: parenthesized_node(node),
                            next: next + 1,
                            recorded: Seq::empty(),
                        }
                    } else {
                        Reading::Read {
                            node: parenthesized_node(node),
                            next: resumed(tokens, next),
                            recorded: seq![unclosed_paren(tok.span)],
                        }
                    },
                    Reading::Failed { error, next, recorded } => Reading::Failed {
                        error,
                        next,
                        recorded,
                    },
                    Reading::Absent => Reading::Absent,
                }
            } else {
                Reading::Absent
            },
        },
    }
}

/// The atoms and operators that follow `items` from position `pos` on, up to
/// the first token that is neither, or up to the point at which a `(` was
/// left open. An operator whose symbol the table does not hold makes the
/// gathering fail.
pub open spec fn items_at<'a>(tokens: Seq<Token<'a>>, pos: int, items: Seq<OpOrExpr<'a>>) -> Gathering<'a>
    decreases tokens_left(tokens, pos), 1nat,
{
    match atom_at(tokens, pos) {
        Reading::Read { node, next, recorded } => {
            let gathered = items.push(OpOrExpr::Expr(node));
            if recorded.len() > 0 || tokens_left(tokens, next) >= tokens_left(tokens, pos) {
                Gathering::Gathered { items: gathered, next, recorded }
            } else {
                items_at(tokens, next, gathered)
            }
        },
        Reading::Failed { error, next, recorded } => Gathering::Failed { error, next, recorded },
        Reading::Absent => match operator_at(tokens, pos) {
            OperatorAt::Known(op) => items_at(tokens, pos + 1, items.push(OpOrExpr::Op(op))),
            OperatorAt::Unknown(tok) => Gathering::Failed {
                error: unexpected_at(tokens, pos, ExpectedView::Operator),
                next: pos,
                recorded: Seq::empty(),
            },
            OperatorAt::Absent => Gathering::Gathered { items, next: pos, recorded: Seq::empty() },
        },
    }
}

/// The expression that begins at position `pos`: the atoms and operators
/// from there on, reduced to one tree. It fails where no atom or operator
/// stands at `pos`, where gathering them fails, and where they do not
/// reduce.
pub open spec fn expr_at<'a>(tokens: Seq<Token<'a>>, pos: int) -> Reading<'a>
    decreases tokens_left(tokens, pos), 2nat,
{
    match items_at(tokens, pos, Seq::empty()) {
        Gathering::Gathered { items, next, recorded } => if items.len() == 0 {
            Reading::Failed { error: unexpected_at(tokens, pos, ExpectedView::Expr), next, recorded }
        } else {
            match reduced(items) {
                Ok(node) => Reading::Read { node, next, recorded },
                Err(error) => Reading::Failed { error, next, recorded },
            }
        },
        Gathering::Failed { error, next, recorded } => Reading::Failed { error, next, recorded },
    }
}

/// The instruction that consists of the expression `node`.
pub open spec fn statement_node<'a>(node: Node<Expr<'a>>) -> Node<Statement<'a>> {
    Node { value: Statement::StmtExpr(node.value), span: node.span }
}

/// What reading one instruction comes to: the instruction, if its
/// expression could be read; the diagnostics recorded on the way; and the
/// position at which the next instruction begins.
pub struct Instruction<'a> {
    pub statement: Option<Node<Statement<'a>>>,
    pub recorded: Seq<SyntaxErrView<'a>>,
    pub next: int,
}

/// The instruction that begins at position `pos`: an expression, and the
/// `;` behind it unless the input ends there.
///
/// Where the expression fails, its diagnostic is recorded. Where something
/// else than a `;` follows the expression, that token is recorded as
/// unexpected, and the instruction is its expression all the same. After
/// either, the next instruction begins behind the next `;` or `}`, as it
/// does after an open `(`.
pub open spec fn instruction_at<'a>(tokens: Seq<Token<'a>>, pos: int) -> Instruction<'a> {
    match expr_at(tokens, pos) {
        Reading::Read { node, next, recorded } => if recorded.len() > 0 {
            Instruction { statement: Some(statement_node(node)), recorded, next }
        } else {
            match token_at(tokens, next) {
                None => Instruction { statement: Some(statement_node(node)), recorded, next },
                Some(tok) => if tok.kind is Semicolon {
                    Instruction { statement: Some(statement_node(node)), recorded, next: next + 1 }
                } else {
                    Instruction {
                        statement: Some(statement_node(node)),
                        recorded: seq![unexpected_at(tokens, next, ExpectedView::Semicolon)],
                        next: resumed(tokens, next),
                    }
                },
            }
        },
        Reading::Failed { error, next, recorded } => Instruction {
            statement: None,
            recorded: recorded.push(error),
            next: if recorded.len() > 0 {
                next
            } else {
                resumed(tokens, next)
            },
        },
        Reading::Absent => Instruction { statement: None, recorded: Seq::empty(), next: pos },
    }
}

/// The instructions read, and the diagnostics recorded, up to one position.
pub struct Unit<'a> {
    pub statements: Seq<Node<Statement<'a>>>,
    pub recorded: Seq<SyntaxErrView<'a>>,
}

/// `unit` with what `instruction` adds to it.
pub open spec fn with_instruction<'a>(unit: Unit<'a>, instruction: Instruction<'a>) -> Unit<'a> {
    Unit {
        statements: match instruction.statement {
            Some(statement) => unit.statements.push(statement),
            None => unit.statements,
        },
        recorded: unit.recorded + instruction.recorded,
    }
}

/// `unit` with every instruction from position `pos` to the end of the
/// input added to it.
pub open spec fn unit_at<'a>(tokens: Seq<Token<'a>>, pos: int, unit: Unit<'a>) -> Unit<'a>
    decreases tokens_left(tokens, pos),
{
    if token_at(tokens, pos) is None {
        unit
    } else {
        let instruction = instruction_at(tokens, pos);
        if tokens_left(tokens, instruction.next) >= tokens_left(tokens, pos) {
            with_instruction(unit, instruction)
        } else {
            unit_at(tokens, instruction.next, with_instruction(unit, instruction))
        }
    }
}

/// The instructions of the whole input from position `pos` on, and the
/// diagnostics that reading them records.
pub open spec fn unit_of<'a>(tokens: Seq<Token<'a>>, pos: int) -> Unit<'a> {
    unit_at(tokens, pos, Unit { statements: Seq::empty(), recorded: Seq::empty() })
}

/// What reading an application comes to: the application, if there is one;
/// the position at which reading goes on; and the diagnostics recorded on
/// the way.
pub struct Application<'a> {
    pub call: Option<Node<Expr<'a>>>,
    pub next: int,
    pub recorded: Seq<SyntaxErrView<'a>>,
}

/// `function` applied to the expressions that can be read one after the
/// other from position `pos` on, the first first; `applied` tells whether
/// `function` is an application already. Reading ends with the first
/// expression that fails: what it took stays taken, what it recorded stays
/// recorded, and its own diagnostic is dropped.
pub open spec fn arguments_at<'a>(
    tokens: Seq<Token<'a>>,
    pos: int,
    function: Node<Expr<'a>>,
    applied: bool,
    recorded: Seq<SyntaxErrView<'a>>,
) -> Application<'a>
    decreases tokens_left(tokens, pos),
{
    match expr_at(tokens, pos) {
        Reading::Read { node, next, recorded: more } => if tokens_left(tokens, next) >= tokens_left(
            tokens,
            pos,
        ) {
            Application {
                call: Some(call_node(function, node)),
                next,
                recorded: recorded + more,
            }
        } else {
            arguments_at(tokens, next, call_node(function, node), true, recorded + more)
        },
        Reading::Failed { error, next, recorded: more } => Application {
            call: if applied {
                Some(function)
            } else {
                None
            },
            next,
            recorded: recorded + more,
        },
        Reading::Absent => Application {
            call: if applied {
                Some(function)
            } else {
                None
            },
            next: pos,
            recorded,
        },
    }
}

/// The application that begins at position `pos`: an identifier, applied to
/// the expressions that follow it. There is none where no identifier stands
/// at `pos`, and none where no expression can be read behind it; the
/// identifier is taken all the same.
pub open spec fn call_at<'a>(tokens: Seq<Token<'a>>, pos: int) -> Application<'a> {
    match token_at(tokens, pos) {
        Some(tok) => match tok.kind {
            TokenKind::Ident(name) => arguments_at(
                tokens,
                pos + 1,
                Node { value: Expr::Ident(name), span: tok.span },
                false,
                Seq::empty(),
            ),
            _ => Application { call: None, next: pos, recorded: Seq::empty() },
        },
        None => Application { call: None, next: pos, recorded: Seq::empty() },
    }
}

} // verus!
