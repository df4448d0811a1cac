//! Operators, and the parser that reads expressions from a token stream.

use crate::errors::syntax_err::{
    views_of, Delimiter, Expected, SyntaxErr, SyntaxErrKind, SyntaxErrView,
};
use crate::syntax::ast::{
    hull_of_all, spans_nest, well_spanned, BinOp, Expr, Literal, Node, Statement, UnOp,
};
use crate::syntax::grammar::{
    arguments_at, atom_at, call_at, expr_at, instruction_at, items_at, operator_at,
    plain_atom, resumed, token_at, tokens_left, unclosed_at,
    unclosed_paren, unexpected_at, unit_at, unit_of, with_instruction, Application, Gathering,
    OperatorAt, Reading, Unit,
};
use crate::syntax::optable::{is_table_operator, OpTable};
use crate::syntax::shunting_yard::{operators_from_table, reduced, shunting_yard, OpOrExpr};
use crate::syntax::shunting_yard_laws::{
    atoms_are_atomic, atoms_group_well, atoms_well_spanned, groups_well, is_atomic,
    law_reduced_tree_groups_by_precedence, law_reduced_tree_is_well_spanned,
};
use crate::syntax::tokens::{SourceSpan, Token, TokenKind};
use vstd::prelude::*;
use vstd::std_specs::convert::TryFromSpecImpl;

verus! {

/// The side to which operators of one precedence group.
#[derive(Clone, Copy, Debug, PartialEq, Eq, Structural)]
pub enum Assoc {
    Right,
    Left,
}

impl Assoc {
    pub open spec fn spec_is_left(&self) -> bool {
        *self == Assoc::Left
    }

    #[verifier::when_used_as_spec(spec_is_left)]
    pub fn is_left(&self) -> (left: bool)
        ensures
            left == (*self == Assoc::Left),
    {
        match self {
            Assoc::Left => true,
            Assoc::Right => false,
        }
    }

    pub open spec fn spec_is_right(&self) -> bool {
        *self == Assoc::Right
    }

    #[verifier::when_used_as_spec(spec_is_right)]
    pub fn is_right(&self) -> (right: bool)
        ensures
            right == (*self == Assoc::Right),
    {
        !self.is_left()
    }
}

/// Where an operator stands: before its one operand, or between its two.
#[derive(Clone, Copy, Debug, PartialEq, Eq, Structural)]
pub enum Fixity {
    Prefix,
    Infix(Assoc),
}

/// The precedence that `+` and `-` have where they stand before an operand.
/// It is above that of every operator that stands between two.
pub const PREFIX_PRECEDENCE: u8 = 22;

/// An operator as the parser works with it.
#[derive(Clone, Copy, Debug, PartialEq)]
pub struct Operator<'a> {
    pub sym: &'a str,
    pub fixity: Fixity,
    pub prec: u8,
}

impl<'a> Operator<'a> {
    pub open spec fn spec_is_infix(&self) -> bool {
        !(self.fixity is Prefix)
    }

    /// Whether the operator stands between two operands.
    #[verifier::when_used_as_spec(spec_is_infix)]
    pub fn is_infix(&self) -> (infix: bool)
        ensures
            infix == !(self.fixity is Prefix),
    {
        match self.fixity {
            Fixity::Prefix => false,
            Fixity::Infix(_) => true,
        }
    }

    /// The symbol is one of those that can stand before an operand though
    /// they are written between two: `+` and `-`.
    pub open spec fn has_sign_symbol(&self) -> bool {
        self.sym@ == "+"@ || self.sym@ == "-"@
    }

    pub open spec fn spec_can_be_prefix(&self) -> bool {
        self.fixity is Prefix || self.has_sign_symbol()
    }

    /// Whether the operator can stand before an operand: it is a prefix
    /// operator, or its symbol is `+` or `-`.
    #[verifier::when_used_as_spec(spec_can_be_prefix)]
    pub fn can_be_prefix(&self) -> (can: bool)
        ensures
            can == self.spec_can_be_prefix(),
    {
        match self.fixity {
            Fixity::Prefix => true,
            Fixity::Infix(_) => *self.sym == *"+" || *self.sym == *"-",
        }
    }

    pub open spec fn spec_into_prefix(self) -> Option<Self> {
        match self.fixity {
            Fixity::Prefix => Some(self),
            Fixity::Infix(_) => if self.has_sign_symbol() {
                Some(Operator { sym: self.sym, fixity: Fixity::Prefix, prec: PREFIX_PRECEDENCE })
            } else {
                None
            },
        }
    }

    /// The operator as it is read before an operand. A prefix operator is
    /// itself; `+` and `-` become prefix operators of precedence 22; the
    /// other infix operators have no such reading.
    #[verifier::when_used_as_spec(spec_into_prefix)]
    pub fn into_prefix(self) -> (prefix: Option<Self>)
        ensures
            prefix == self.spec_into_prefix(),
    {
        match self.fixity {
            Fixity::Prefix => Some(self),
            Fixity::Infix(_) => {
                if *self.sym == *"+" || *self.sym == *"-" {
                    Some(Self { sym: self.sym, fixity: Fixity::Prefix, prec: PREFIX_PRECEDENCE })
                } else {
                    None
                }
            },
        }
    }

    pub open spec fn spec_is_left_assoc(&self) -> bool {
        self.fixity == Fixity::Infix(Assoc::Left)
    }

    /// Whether the operator stands between two operands and groups to the left.
    #[verifier::when_used_as_spec(spec_is_left_assoc)]
    pub fn is_left_assoc(&self) -> (left: bool)
        ensures
            left == (self.fixity == Fixity::Infix(Assoc::Left)),
    {
        match self.fixity {
            Fixity::Infix(assoc) => assoc.is_left(),
            _ => false,
        }
    }

    /// The binary operation that the operator stands for: that of its symbol,
    /// where it has one; none for `+` and `-` read as prefix operators.
    pub open spec fn binary(self) -> Option<BinOp> {
        let sym = self.sym@;
        if sym == "+"@ {
            if self.fixity is Prefix {
                None
            } else {
                Some(BinOp::Add)
            }
        } else if sym == "-"@ {
            if self.fixity is Prefix {
                None
            } else {
                Some(BinOp::Sub)
            }
        } else if sym == "*"@ {
            Some(BinOp::Mul)
        } else if sym == "/"@ {
            Some(BinOp::Div)
        } else if sym == "&&"@ {
            Some(BinOp::And)
        } else if sym == "||"@ {
            Some(BinOp::Or)
        } else if sym == ">="@ {
            Some(BinOp::GTE)
        } else if sym == ">"@ {
            Some(BinOp::GT)
        } else if sym == "<"@ {
            Some(BinOp::LT)
        } else if sym == "<="@ {
            Some(BinOp::LTE)
        } else if sym == "=="@ {
            Some(BinOp::EqEq)
        } else if sym == "!="@ {
            Some(BinOp::NotEq)
        } else {
            None
        }
    }

    /// The unary operation that the operator stands for: `Pos` and `Neg` for
    /// `+` and `-` read as prefix operators, `Neg` for `!`, and none for
    /// every other.
    pub open spec fn unary(self) -> Option<UnOp> {
        let sym = self.sym@;
        if sym == "+"@ {
            if self.fixity is Prefix {
                Some(UnOp::Pos)
            } else {
                None
            }
        } else if sym == "-"@ {
            if self.fixity is Prefix {
                Some(UnOp::Neg)
            } else {
                None
            }
        } else if sym == "!"@ {
            Some(UnOp::Neg)
        } else {
            None
        }
    }
}

impl<'a> TryFrom<Operator<'a>> for BinOp {
    type Error = ();

    fn try_from(op: Operator<'a>) -> (binary: Result<BinOp, ()>) {
        let sym = op.sym;
        if *sym == *"+" {
            match op.fixity {
                Fixity::Prefix => Err(()),
                Fixity::Infix(_) => Ok(BinOp::Add),
            }
        } else if *sym == *"-" {
            match op.fixity {
                Fixity::Prefix => Err(()),
                Fixity::Infix(_) => Ok(BinOp::Sub),
            }
        } else if *sym == *"*" {
            Ok(BinOp::Mul)
        } else if *sym == *"/" {
            Ok(BinOp::Div)
        } else if *sym == *"&&" {
            Ok(BinOp::And)
        } else if *sym == *"||" {
            Ok(BinOp::Or)
        } else if *sym == *">=" {
            Ok(BinOp::GTE)
        } else if *sym == *">" {
            Ok(BinOp::GT)
        } else if *sym == *"<" {
            Ok(BinOp::LT)
        } else if *sym == *"<=" {
            Ok(BinOp::LTE)
        } else if *sym == *"==" {
            Ok(BinOp::EqEq)
        } else if *sym == *"!=" {
            Ok(BinOp::NotEq)
        } else {
            Err(())
        }
    }
}

impl<'a> TryFromSpecImpl<Operator<'a>> for BinOp {
    open spec fn obeys_try_from_spec() -> bool {
        true
    }

    open spec fn try_from_spec(op: Operator<'a>) -> Result<Self, ()> {
        match op.binary() {
            Some(binary) => Ok(binary),
            None => Err(()),
        }
    }
}

impl<'a> TryFrom<Operator<'a>> for UnOp {
    type Error = ();

    fn try_from(op: Operator<'a>) -> (unary: Result<UnOp, ()>) {
        let sym = op.sym;
        if *sym == *"+" {
            match op.fixity {
                Fixity::Prefix => Ok(UnOp::Pos),
                Fixity::Infix(_) => Err(()),
            }
        } else if *sym == *"-" {
            match op.fixity {
                Fixity::Prefix => Ok(UnOp::Neg),
                Fixity::Infix(_) => Err(()),
            }
        } else if *sym == *"!" {
            Ok(UnOp::Neg)
        } else {
            Err(())
        }
    }
}

impl<'a> TryFromSpecImpl<Operator<'a>> for UnOp {
    open spec fn obeys_try_from_spec() -> bool {
        true
    }

    open spec fn try_from_spec(op: Operator<'a>) -> Result<Self, ()> {
        match op.unary() {
            Some(unary) => Ok(unary),
            None => Err(()),
        }
    }
}

/// A parser at one position of a token stream.
pub struct Parser<'a> {
    tokens: Vec<Token<'a>>,
    pos: usize,
    table: OpTable,
    /// The diagnostics recorded so far, the first first.
    pub error_monad: Vec<SyntaxErr<'a>>,
}

/// What the parser has read at one position.
pub enum Outcome<'a> {
    /// Nothing stands there that could be read.
    Absent,
    /// This node. The flag tells whether a diagnostic was recorded on the
    /// way, after which reading has resumed behind the next `;` or `}`.
    Node(Node<Expr<'a>>, bool),
    /// Reading failed with this diagnostic. The flag is as for `Node`.
    Failed(SyntaxErr<'a>, bool),
}

/// What the parser has found where an operator may stand.
pub enum OperatorRead<'a> {
    Absent,
    Unknown,
    Known(Node<Operator<'a>>),
}

/// `after` is `before` with, behind it, diagnostics whose values are `recorded`.
pub open spec fn grew_by<'a>(
    before: Seq<SyntaxErr<'a>>,
    after: Seq<SyntaxErr<'a>>,
    recorded: Seq<SyntaxErrView<'a>>,
) -> bool {
    &&& after.len() == before.len() + recorded.len()
    &&& after.take(before.len() as int) == before
    &&& views_of(after.skip(before.len() as int)) == recorded
}

impl<'a> Parser<'a> {
    /// The token stream that the parser reads.
    pub closed spec fn tokens(&self) -> Seq<Token<'a>> {
        self.tokens@
    }

    /// The position of the token that the parser reads next.
    pub closed spec fn position(&self) -> int {
        self.pos as int
    }

    /// The diagnostics that `error_monad` holds.
    pub closed spec fn errors(&self) -> Seq<SyntaxErr<'a>> {
        self.error_monad@
    }

    /// The parser stands at position `pos` of the stream that `before` reads,
    /// and has recorded the diagnostics `recorded` since `before`.
    pub open spec fn follows(&self, before: &Self, pos: int, recorded: Seq<SyntaxErrView<'a>>) -> bool {
        &&& self.tokens() == before.tokens()
        &&& self.position() == pos
        &&& grew_by(before.errors(), self.errors(), recorded)
    }

    /// The parser, which was `before`, has come to `outcome` by reading what
    /// `reading` says.
    pub open spec fn has_read(&self, before: &Self, outcome: Outcome<'a>, reading: Reading<'a>) -> bool {
        match reading {
            Reading::Absent => outcome is Absent && self.follows(
                before,
                before.position(),
                Seq::empty(),
            ),
            Reading::Read { node, next, recorded } => {
                &&& outcome matches Outcome::Node(read, resumed)
                &&& read == node
                &&& resumed == (recorded.len() > 0)
                &&& self.follows(before, next, recorded)
                &&& next > before.position()
                &&& well_spanned(node)
                &&& groups_well(node.value)
            },
            Reading::Failed { error, next, recorded } => {
                &&& outcome matches Outcome::Failed(failure, resumed)
                &&& failure@ == error
                &&& resumed == (recorded.len() > 0)
                &&& self.follows(before, next, recorded)
                &&& next >= before.position()
                &&& recorded.len() > 0 ==> next > before.position()
            },
        }
    }

    /// A parser at the beginning of `tokens`, with nothing recorded.
    pub fn new(tokens: Vec<Token<'a>>) -> (parser: Self)
        ensures
            parser.tokens() == tokens@,
            parser.position() == 0,
            parser.errors().len() == 0,
    {
        Self { tokens, pos: 0, table: OpTable::new(), error_monad: Vec::new() }
    }

    /// The token that is read next, if one is left.
    pub fn peek(&self) -> (tok: Option<&Token<'a>>)
        ensures
            match token_at(self.tokens(), self.position()) {
                Some(next) => tok == Some(&next),
                None => tok is None,
            },
    {
        if self.pos < self.tokens.len() {
            Some(&self.tokens[self.pos])
        } else {
            None
        }
    }

    /// Takes the next token, if one is left.
    pub fn next(&mut self) -> (tok: Option<Token<'a>>)
        ensures
            tok == token_at(old(self).tokens(), old(self).position()),
            final(self).follows(
                old(self),
                if tok is Some {
                    old(self).position() + 1
                } else {
                    old(self).position()
                },
                Seq::empty(),
            ),
            final(self).errors() == old(self).errors(),
    {
        if self.pos < self.tokens.len() {
            let tok = self.tokens[self.pos];
            self.pos = self.pos + 1;
            assert(self.error_monad@.take(self.error_monad@.len() as int) =~= self.error_monad@);
            assert(views_of(self.error_monad@.skip(self.error_monad@.len() as int)) =~= Seq::empty());
            Some(tok)
        } else {
            assert(self.error_monad@.take(self.error_monad@.len() as int) =~= self.error_monad@);
            assert(views_of(self.error_monad@.skip(self.error_monad@.len() as int)) =~= Seq::empty());
            None
        }
    }

    /// The diagnostic for what stands next where `expected` should: the
    /// next token is unexpected, or the input has ended.
    pub fn unexpected_err(&self, expected: Expected) -> (error: SyntaxErr<'a>)
        ensures
            error@ == unexpected_at(self.tokens(), self.position(), expected@),
    {
        let (span, kind) = match self.peek() {
            Some(tok) => (tok.span, SyntaxErrKind::UnexpectedToken(tok.kind)),
            None => (
                SourceSpan { start: usize::MAX, end: usize::MAX },
                SyntaxErrKind::UnexpectedEOF,
            ),
        };
        SyntaxErr { kind, span, expected, note: None }
    }

    /// The diagnostic for a `delimiter` that is still open where the parser
    /// stands: it points at the next token, or tells of the end of the input.
    pub fn unclosed_err(&self, delimiter: Delimiter) -> (error: SyntaxErr<'a>)
        ensures
            error@ == unclosed_at(self.tokens(), self.position(), delimiter),
    {
        let (span, kind) = match self.peek() {
            Some(tok) => (tok.span, SyntaxErrKind::Unclosed(delimiter)),
            None => (
                SourceSpan { start: usize::MAX, end: usize::MAX },
                SyntaxErrKind::UnexpectedEOF,
            ),
        };
        SyntaxErr { kind, span, expected: Expected::Nothing, note: None }
    }

    /// Skips what is left of an instruction that failed: every token up to
    /// and with the next `;` or `}`, or every token where there is none.
    pub fn restore(&mut self)
        ensures
            final(self).follows(
                old(self),
                resumed(old(self).tokens(), old(self).position()),
                Seq::empty(),
            ),
            final(self).errors() == old(self).errors(),
            final(self).position() >= old(self).position(),
            token_at(old(self).tokens(), old(self).position()) is Some ==> final(self).position()
                > old(self).position(),
    {
        loop
            invariant_except_break
                resumed(self.tokens(), self.position()) == resumed(
                    old(self).tokens(),
                    old(self).position(),
                ),
            invariant
                self.tokens() == old(self).tokens(),
                self.errors() == old(self).errors(),
                self.position() >= old(self).position(),
            ensures
                self.tokens() == old(self).tokens(),
                self.errors() == old(self).errors(),
                self.position() == resumed(old(self).tokens(), old(self).position()),
                self.position() >= old(self).position(),
                token_at(old(self).tokens(), old(self).position()) is Some ==> self.position()
                    > old(self).position(),
            decreases tokens_left(self.tokens(), self.position()),
        {
            match self.next() {
                Some(tok) => {
                    match tok.kind {
                        TokenKind::Semicolon | TokenKind::RBrace => {
                            break;
                        },
                        _ => {},
                    }
                },
                None => {
                    break;
                },
            }
        }
        assert(self.error_monad@.take(self.error_monad@.len() as int) =~= self.error_monad@);
        assert(views_of(self.error_monad@.skip(self.error_monad@.len() as int)) =~= Seq::empty());
    }

    /// Takes the operator that stands next, if one does and the table
    /// holds its symbol.
    fn operator(&mut self) -> (op: OperatorRead<'a>)
        ensures
            match operator_at(old(self).tokens(), old(self).position()) {
                OperatorAt::Absent => op is Absent && final(self).follows(
                    old(self),
                    old(self).position(),
                    Seq::empty(),
                ),
                OperatorAt::Unknown(_) => op is Unknown && final(self).follows(
                    old(self),
                    old(self).position(),
                    Seq::empty(),
                ),
                OperatorAt::Known(node) => {
                    &&& op == OperatorRead::Known(node)
                    &&& is_table_operator(node.value)
                    &&& final(self).follows(old(self), old(self).position() + 1, Seq::empty())
                },
            },
            final(self).errors() == old(self).errors(),
    {
        proof {
            lemma_grew_by_nothing(self.errors());
        }
        let tok = match self.peek() {
            Some(tok) => *tok,
            None => {
                return OperatorRead::Absent;
            },
        };
        match tok.kind {
            TokenKind::Op(sym) => {
                match self.table.get(sym) {
                    Some(found) => {
                        self.next();
                        OperatorRead::Known(
                            Node {
                                value: Operator { sym, fixity: found.fixity, prec: found.prec },
                                span: tok.span,
                            },
                        )
                    },
                    None => OperatorRead::Unknown,
                }
            },
            _ => OperatorRead::Absent,
        }
    }

    /// Reads the identifier that stands next, if one does.
    fn expr_ident(&mut self) -> (ident: Option<Node<Expr<'a>>>)
        ensures
            match token_at(old(self).tokens(), old(self).position()) {
                Some(tok) if tok.kind is Ident => {
                    &&& ident == plain_atom(tok.kind, tok.span)
                    &&& final(self).follows(old(self), old(self).position() + 1, Seq::empty())
                },
                _ => ident is None && final(self).follows(
                    old(self),
                    old(self).position(),
                    Seq::empty(),
                ),
            },
            final(self).errors() == old(self).errors(),
    {
        proof {
            lemma_grew_by_nothing(self.errors());
        }
        let tok = match self.peek() {
            Some(tok) => *tok,
            None => {
                return None;
            },
        };
        match tok.kind {
            TokenKind::Ident(name) => {
                self.next();
                Some(Node { value: Expr::Ident(name), span: tok.span })
            },
            _ => None,
        }
    }

    /// Reads the atom that stands next: a literal, an identifier, or an
    /// expression between parentheses.
    fn atom(&mut self) -> (outcome: Outcome<'a>)
        ensures
            final(self).has_read(
                old(self),
                outcome,
                atom_at(old(self).tokens(), old(self).position()),
            ),
            outcome matches Outcome::Node(node, _) ==> is_atomic(node),
        decreases tokens_left(old(self).tokens(), old(self).position()), 1nat,
    {
        proof {
            lemma_grew_by_nothing(self.errors());
        }
        let tok = match self.peek() {
            Some(tok) => *tok,
            None => {
                return Outcome::Absent;
            },
        };
        let span = tok.span;
        let node = match tok.kind {
            TokenKind::Number(n) => Node { value: Expr::Literal(Literal::Num(n)), span },
            TokenKind::Bool(b) => Node { value: Expr::Literal(Literal::Bool(b)), span },
            TokenKind::Unit => Node { value: Expr::Literal(Literal::Unit), span },
            TokenKind::Ident(name) => Node { value: Expr::Ident(name), span },
            TokenKind::LParen => {
                return self.parenthesized_expr();
            },
            _ => {
                return Outcome::Absent;
            },
        };
        self.next();
        Outcome::Node(node, false)
    }

    /// Reads an expression between parentheses, if a `(` stands next. An
    /// expression that no `)` follows is read all the same: the diagnostic
    /// for the open `(` is recorded, and the rest of the instruction is
    /// skipped.
    fn parenthesized_expr(&mut self) -> (outcome: Outcome<'a>)
        ensures
            token_at(old(self).tokens(), old(self).position()) matches Some(tok) && tok.kind
                is LParen ==> final(self).has_read(
                old(self),
                outcome,
                atom_at(old(self).tokens(), old(self).position()),
            ),
            !(token_at(old(self).tokens(), old(self).position()) matches Some(tok) && tok.kind
                is LParen) ==> final(self).has_read(old(self), outcome, Reading::Absent),
            outcome matches Outcome::Node(node, _) ==> is_atomic(node),
        decreases tokens_left(old(self).tokens(), old(self).position()), 0nat,
    {
        proof {
            lemma_grew_by_nothing(self.errors());
        }
        let opening = match self.peek() {
            Some(tok) => *tok,
            None => {
                return Outcome::Absent;
            },
        };
        match opening.kind {
            TokenKind::LParen => {},
            _ => {
                return Outcome::Absent;
            },
        }
        self.next();
        let ghost inside = *self;
        let ghost reading = expr_at(inside.tokens(), inside.position());
        match self.read_expr() {
            Outcome::Node(inner, resumed) => {
                let node = Node {
                    span: inner.span,
                    value: Expr::Parenthesized(inner.into_boxed()),
                };
                if resumed {
                    return Outcome::Node(node, true);
                }
                assert(reading->Read_recorded =~= Seq::empty());
                let closed = match self.peek() {
                    Some(tok) => match tok.kind {
                        TokenKind::RParen => true,
                        _ => false,
                    },
                    None => false,
                };
                if closed {
                    self.next();
                    Outcome::Node(node, false)
                } else {
                    let error = SyntaxErr {
                        span: opening.span,
                        kind: SyntaxErrKind::Unclosed(Delimiter::Paren),
                        expected: Expected::Nothing,
                        note: None,
                    };
                    proof {
                        lemma_grew_by_push(old(self).errors(), self.errors(), Seq::empty(), error);
                        assert(Seq::<SyntaxErrView<'a>>::empty().push(error@) =~= seq![
                            unclosed_paren(opening.span),
                        ]);
                    }
                    self.error_monad.push(error);
                    self.restore();
                    Outcome::Node(node, true)
                }
            },
            Outcome::Failed(error, resumed) => Outcome::Failed(error, resumed),
            Outcome::Absent => Outcome::Absent,
        }
    }

    /// Reads the expression that stands next, and tells whether a
    /// diagnostic was recorded on the way.
    fn read_expr(&mut self) -> (outcome: Outcome<'a>)
        ensures
            final(self).has_read(
                old(self),
                outcome,
                expr_at(old(self).tokens(), old(self).position()),
            ),
        decreases tokens_left(old(self).tokens(), old(self).position()), 2nat,
    {
        let mut op_or_expr_vec: Vec<OpOrExpr<'a>> = Vec::new();
        let mut resumed = false;
        let ghost tokens = self.tokens();
        let ghost start = self.position();
        let ghost mut recorded: Seq<SyntaxErrView<'a>> = Seq::empty();
        proof {
            lemma_grew_by_nothing(self.errors());
        }
        loop
            invariant_except_break
                !resumed,
                recorded.len() == 0,
                items_at(tokens, self.position(), op_or_expr_vec@) == items_at(
                    tokens,
                    start,
                    Seq::empty(),
                ),
            invariant
                self.tokens() == tokens,
                tokens == old(self).tokens(),
                start == old(self).position(),
                self.position() >= start,
                tokens_left(tokens, self.position()) <= tokens_left(tokens, start),
                op_or_expr_vec@.len() > 0 ==> self.position() > start,
                op_or_expr_vec@.len() == 0 ==> self.position() == start,
                operators_from_table(op_or_expr_vec@),
                atoms_well_spanned(op_or_expr_vec@),
                atoms_are_atomic(op_or_expr_vec@),
                atoms_group_well(op_or_expr_vec@),
                grew_by(old(self).errors(), self.errors(), recorded),
            ensures
                resumed == (recorded.len() > 0),
                resumed ==> op_or_expr_vec@.len() > 0,
                items_at(tokens, start, Seq::empty()) == (Gathering::Gathered {
                    items: op_or_expr_vec@,
                    next: self.position(),
                    recorded,
                }),
            decreases tokens_left(tokens, self.position()),
        {
            let ghost here = self.position();
            let ghost errors_here = self.errors();
            assert(recorded =~= Seq::empty());
            match self.atom() {
                Outcome::Node(node, after_diagnostic) => {
                    op_or_expr_vec.push(OpOrExpr::Expr(node));
                    proof {
                        recorded = atom_at(tokens, here)->Read_recorded;
                        lemma_grew_by_then(
                            old(self).errors(),
                            errors_here,
                            self.errors(),
                            recorded,
                        );
                    }
                    if after_diagnostic {
                        resumed = true;
                        break;
                    }
                },
                Outcome::Failed(error, after_diagnostic) => {
                    proof {
                        lemma_grew_by_then(
                            old(self).errors(),
                            errors_here,
                            self.errors(),
                            atom_at(tokens, here)->Failed_recorded,
                        );
                    }
                    return Outcome::Failed(error, after_diagnostic);
                },
                Outcome::Absent => {
                    match self.operator() {
                        OperatorRead::Known(op) => {
                            op_or_expr_vec.push(OpOrExpr::Op(op));
                        },
                        OperatorRead::Unknown => {
                            let error = self.unexpected_err(Expected::Operator);
                            return Outcome::Failed(error, false);
                        },
                        OperatorRead::Absent => {
                            break;
                        },
                    }
                },
            }
        }
        if op_or_expr_vec.len() == 0 {
            let error = self.unexpected_err(Expected::Expr);
            return Outcome::Failed(error, resumed);
        }
        proof {
            law_reduced_tree_is_well_spanned(op_or_expr_vec@);
            law_reduced_tree_groups_by_precedence(op_or_expr_vec@);
        }
        match shunting_yard(op_or_expr_vec) {
            Ok(node) => Outcome::Node(node, resumed),
            Err(error) => Outcome::Failed(error, resumed),
        }
    }

    /// Reads the expression that stands next: its atoms and operators, as
    /// far as they reach, reduced to one tree.
    ///
    /// It fails where no atom or operator stands next, at an operator that
    /// the table does not hold, and where the atoms and operators do not
    /// reduce. A `(` that is left open does not make it fail: its
    /// diagnostic is recorded in `error_monad`, the rest of the instruction
    /// is skipped, and the expression is what was read before.
    ///
    /// In the tree that is read, every node spans exactly what its children
    /// span, and the operators are grouped as their precedence asks.
    pub fn expr(&mut self) -> (result: Result<Node<Expr<'a>>, SyntaxErr<'a>>)
        ensures
            match expr_at(old(self).tokens(), old(self).position()) {
                Reading::Read { node, next, recorded } => {
                    &&& result == Ok::<Node<Expr<'a>>, SyntaxErr<'a>>(node)
                    &&& well_spanned(node)
                    &&& groups_well(node.value)
                    &&& next > old(self).position()
                    &&& final(self).follows(old(self), next, recorded)
                },
                Reading::Failed { error, next, recorded } => {
                    &&& result matches Err(failure)
                    &&& failure@ == error
                    &&& final(self).follows(old(self), next, recorded)
                },
                Reading::Absent => false,
            },
    {
        match self.read_expr() {
            Outcome::Node(node, _) => Ok(node),
            Outcome::Failed(error, _) => Err(error),
            Outcome::Absent => Err(self.unexpected_err(Expected::Expr)),
        }
    }

    /// Reads an identifier and the expressions behind it, as long as they
    /// can be read, as the application of the identifier to them, grouped to
    /// the left. There is no application where no identifier stands next, and
    /// none where no expression can be read behind it.
    ///
    /// The expression that ends the reading is not put back: what it took
    /// stays taken, and its diagnostic is dropped.
    pub fn call(&mut self) -> (call: Option<Node<Expr<'a>>>)
        ensures
            ({
                let application = call_at(old(self).tokens(), old(self).position());
                &&& call == application.call
                &&& final(self).follows(old(self), application.next, application.recorded)
                &&& call matches Some(node) ==> well_spanned(node)
            }),
    {
        let ghost tokens = self.tokens();
        let ghost start = self.position();
        let mut function = match self.expr_ident() {
            Some(function) => function,
            None => {
                return None;
            },
        };
        let mut applied = false;
        let ghost mut recorded: Seq<SyntaxErrView<'a>> = Seq::empty();
        loop
            invariant_except_break
                arguments_at(tokens, self.position(), function, applied, recorded) == call_at(
                    tokens,
                    start,
                ),
            invariant
                self.tokens() == tokens,
                tokens == old(self).tokens(),
                start == old(self).position(),
                grew_by(old(self).errors(), self.errors(), recorded),
                well_spanned(function),
            ensures
                (Application {
                    call: if applied {
                        Some(function)
                    } else {
                        None
                    },
                    next: self.position(),
                    recorded,
                }) == call_at(tokens, start),
            decreases tokens_left(tokens, self.position()),
        {
            let ghost here = self.position();
            let ghost errors_here = self.errors();
            let ghost reading = expr_at(tokens, here);
            match self.read_expr() {
                Outcome::Node(argument, _) => {
                    proof {
                        lemma_grew_by_more(
                            old(self).errors(),
                            errors_here,
                            self.errors(),
                            recorded,
                            reading->Read_recorded,
                        );
                        recorded = recorded + reading->Read_recorded;
                    }
                    function = Node {
                        span: function.span.hull(argument.span),
                        value: Expr::Call(function.into_boxed(), argument.into_boxed()),
                    };
                    applied = true;
                },
                Outcome::Failed(_, _) => {
                    proof {
                        lemma_grew_by_more(
                            old(self).errors(),
                            errors_here,
                            self.errors(),
                            recorded,
                            reading->Failed_recorded,
                        );
                        recorded = recorded + reading->Failed_recorded;
                    }
                    break;
                },
                Outcome::Absent => {
                    break;
                },
            }
        }
        if applied {
            Some(function)
        } else {
            None
        }
    }

    /// Reads one instruction: an expression, and the `;` behind it unless
    /// the input ends there. What goes wrong is recorded in `error_monad`,
    /// and the rest of the instruction is skipped.
    fn instruction(&mut self) -> (statement: Option<Node<Statement<'a>>>)
        requires
            token_at(old(self).tokens(), old(self).position()) is Some,
        ensures
            ({
                let instruction = instruction_at(old(self).tokens(), old(self).position());
                &&& statement == instruction.statement
                &&& final(self).follows(old(self), instruction.next, instruction.recorded)
                &&& instruction.next > old(self).position()
                &&& statement matches Some(read) ==> statement_is_well_spanned(read)
            }),
    {
        let ghost tokens = self.tokens();
        let ghost start = self.position();
        let ghost errors = self.errors();
        match self.read_expr() {
            Outcome::Node(node, resumed) => {
                let statement = Node { value: Statement::StmtExpr(node.value), span: node.span };
                if resumed {
                    return Some(statement);
                }
                let ghost read = self.errors();
                let ghost reading = expr_at(tokens, start);
                assert(reading->Read_recorded =~= Seq::empty());
                let closed = match self.peek() {
                    Some(tok) => match tok.kind {
                        TokenKind::Semicolon => Some(true),
                        _ => Some(false),
                    },
                    None => None,
                };
                match closed {
                    None => {},
                    Some(true) => {
                        self.next();
                    },
                    Some(false) => {
                        let error = self.unexpected_err(Expected::Semicolon);
                        proof {
                            lemma_grew_by_push(errors, self.errors(), Seq::empty(), error);
                            assert(Seq::<SyntaxErrView<'a>>::empty().push(error@) =~= seq![error@]);
                        }
                        self.error_monad.push(error);
                        self.restore();
                    },
                }
                Some(statement)
            },
            Outcome::Failed(error, resumed) => {
                let ghost reading = expr_at(tokens, start);
                proof {
                    lemma_grew_by_push(errors, self.errors(), reading->Failed_recorded, error);
                }
                self.error_monad.push(error);
                if !resumed {
                    self.restore();
                }
                None
            },
            Outcome::Absent => None,
        }
    }

    /// Reads every instruction that is left, each an expression with the
    /// `;` behind it; the last needs none. The result holds the
    /// instructions whose expressions could be read, in their order.
    ///
    /// Reading goes on after a diagnostic: it is recorded in `error_monad`,
    /// the rest of the instruction is skipped, and the next is read.
    pub fn statements(&mut self) -> (statements: Vec<Node<Statement<'a>>>)
        ensures
            ({
                let unit = unit_of(old(self).tokens(), old(self).position());
                &&& statements@ == unit.statements
                &&& final(self).tokens() == old(self).tokens()
                &&& grew_by(old(self).errors(), final(self).errors(), unit.recorded)
                &&& token_at(final(self).tokens(), final(self).position()) is None
                &&& forall|i: int|
                    0 <= i < statements@.len() ==> statement_is_well_spanned(
                        #[trigger] statements@[i],
                    )
            }),
    {
        let mut statements: Vec<Node<Statement<'a>>> = Vec::new();
        let ghost tokens = self.tokens();
        let ghost mut recorded: Seq<SyntaxErrView<'a>> = Seq::empty();
        proof {
            lemma_grew_by_nothing(self.errors());
        }
        loop
            invariant_except_break
                unit_at(tokens, self.position(), Unit { statements: statements@, recorded })
                    == unit_of(tokens, old(self).position()),
            invariant
                self.tokens() == tokens,
                tokens == old(self).tokens(),
                grew_by(old(self).errors(), self.errors(), recorded),
                forall|i: int|
                    0 <= i < statements@.len() ==> statement_is_well_spanned(
                        #[trigger] statements@[i],
                    ),
            ensures
                (Unit { statements: statements@, recorded }) == unit_of(
                    tokens,
                    old(self).position(),
                ),
                token_at(tokens, self.position()) is None,
            decreases tokens_left(tokens, self.position()),
        {
            if self.peek().is_none() {
                break;
            }
            let ghost here = self.position();
            let ghost errors_here = self.errors();
            let ghost instruction = instruction_at(tokens, here);
            let ghost before = Unit { statements: statements@, recorded };
            match self.instruction() {
                Some(statement) => {
                    statements.push(statement);
                },
                None => {},
            }
            proof {
                lemma_grew_by_more(
                    old(self).errors(),
                    errors_here,
                    self.errors(),
                    recorded,
                    instruction.recorded,
                );
                recorded = recorded + instruction.recorded;
                assert((Unit { statements: statements@, recorded }) == with_instruction(
                    before,
                    instruction,
                ));
            }
        }
        statements
    }

    /// Reads the whole input as one unit: a block of the instructions that
    /// [`Parser::statements`] reads. The result is the block where nothing
    /// went wrong, and otherwise every diagnostic that was recorded, the
    /// first first.
    pub fn parse(self) -> (result: Result<Node<Expr<'a>>, Vec<SyntaxErr<'a>>>)
        ensures
            ({
                let unit = unit_of(self.tokens(), self.position());
                if self.errors().len() == 0 && unit.recorded.len() == 0 {
                    &&& result matches Ok(block)
                    &&& block.value matches Expr::Block { instructions, returns }
                    &&& instructions@ == unit.statements
                    &&& !returns
                    &&& well_spanned(block)
                } else {
                    &&& result matches Err(errors)
                    &&& grew_by(self.errors(), errors@, unit.recorded)
                }
            }),
    {
        let mut parser = self;
        let statements = parser.statements();
        if parser.error_monad.len() > 0 {
            return Err(parser.error_monad);
        }
        let n = statements.len();
        let mut span = SourceSpan { start: 0, end: 0 };
        let ghost spans = Seq::new(statements@.len(), |i: int| statements@[i].span);
        let mut i: usize = 0;
        while i < n
            invariant
                i <= n,
                n == statements@.len(),
                spans == Seq::new(statements@.len(), |i: int| statements@[i].span),
                i > 0 ==> span == hull_of_all(spans.take(i as int)),
            decreases n - i,
        {
            proof {
                assert(spans.take(i + 1).drop_last() =~= spans.take(i as int));
            }
            span = if i == 0 {
                statements[i].span
            } else {
                span.hull(statements[i].span)
            };
            i += 1;
        }
        assert(spans.take(n as int) =~= spans);
        Ok(Node { value: Expr::Block { instructions: statements, returns: false }, span })
    }
}

/// A list of diagnostics grows by nothing where it stays as it is.
proof fn lemma_grew_by_nothing<'a>(errors: Seq<SyntaxErr<'a>>)
    ensures
        grew_by(errors, errors, Seq::empty()),
{
    assert(errors.take(errors.len() as int) =~= errors);
    assert(views_of(errors.skip(errors.len() as int)) =~= Seq::empty());
}

/// A list that grew by `recorded` and is pushed `error` has grown by
/// `recorded` and the value of `error`.
proof fn lemma_grew_by_push<'a>(
    before: Seq<SyntaxErr<'a>>,
    after: Seq<SyntaxErr<'a>>,
    recorded: Seq<SyntaxErrView<'a>>,
    error: SyntaxErr<'a>,
)
    requires
        grew_by(before, after, recorded),
    ensures
        grew_by(before, after.push(error), recorded.push(error@)),
{
    let longer = after.push(error);
    assert(longer.take(before.len() as int) =~= after.take(before.len() as int));
    assert(longer.skip(before.len() as int) =~= after.skip(before.len() as int).push(error));
    assert(views_of(longer.skip(before.len() as int)) =~= recorded.push(error@));
}

/// Growth in two steps, the first of them by nothing.
proof fn lemma_grew_by_then<'a>(
    before: Seq<SyntaxErr<'a>>,
    mid: Seq<SyntaxErr<'a>>,
    after: Seq<SyntaxErr<'a>>,
    recorded: Seq<SyntaxErrView<'a>>,
)
    requires
        grew_by(before, mid, Seq::empty()),
        grew_by(mid, after, recorded),
    ensures
        grew_by(before, after, recorded),
{
    assert(mid =~= before) by {
        assert(mid.take(before.len() as int) =~= mid);
    }
}

/// The instruction stands where its expression stands, and that expression
/// is well spanned.
pub open spec fn statement_is_well_spanned(statement: Node<Statement>) -> bool {
    match statement.value {
        Statement::Return(inner) | Statement::Break(inner) | Statement::StmtExpr(inner) => spans_nest(
            inner,
            statement.span,
        ),
        Statement::Continue => true,
    }
}

/// Growth in two steps.
proof fn lemma_grew_by_more<'a>(
    before: Seq<SyntaxErr<'a>>,
    mid: Seq<SyntaxErr<'a>>,
    after: Seq<SyntaxErr<'a>>,
    first: Seq<SyntaxErrView<'a>>,
    second: Seq<SyntaxErrView<'a>>,
)
    requires
        grew_by(before, mid, first),
        grew_by(mid, after, second),
    ensures
        grew_by(before, after, first + second),
{
    assert(after.take(before.len() as int) =~= after.take(mid.len() as int).take(
        before.len() as int,
    ));
    assert(after.skip(before.len() as int) =~= mid.skip(before.len() as int) + after.skip(
        mid.len() as int,
    ));
    assert(views_of(after.skip(before.len() as int)) =~= first + second);
}

} // verus!
