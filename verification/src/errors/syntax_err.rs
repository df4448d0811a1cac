use crate::syntax::ast::Expr;
use crate::syntax::tokens::{SourceSpan, TokenKind};
use vstd::prelude::*;
use vstd::string::*;

verus! {

broadcast use {vstd::std_specs::vec::axiom_vec_index_decreases, vstd::seq::axiom_seq_index_decreases};

/// A pair of delimiters that can be left open.
#[derive(Debug, PartialEq, Eq, Clone, Copy, Structural)]
pub enum Delimiter {
    Paren,
    Brace,
}

pub type HelpNote = &'static str;

/// What the parser was looking for where it found something else.
#[derive(Debug, PartialEq)]
pub enum Expected {
    Item,
    Expr,
    Operator,
    Semicolon,
    /// Nothing in particular.
    Nothing,
    OneOf(Vec<Expected>),
}

/// One diagnostic: where it is, what was found, and what was looked for.
#[derive(Debug, PartialEq)]
pub struct SyntaxErr<'a> {
    pub span: SourceSpan,
    pub kind: SyntaxErrKind<'a>,
    pub expected: Expected,
    pub note: Option<HelpNote>,
}

/// An operator that could end one instruction or begin the next.
#[derive(Debug, PartialEq, Eq, Clone, Copy, Structural)]
pub enum AmbiguousOp {
    Add,
    Sub,
}

#[derive(Debug, PartialEq)]
pub enum SyntaxErrKind<'a> {
    UnexpectedToken(TokenKind<'a>),
    Unclosed(Delimiter),
    UnexpectedExpr(Expr<'a>),
    AmbiguousInstructions(AmbiguousOp),
    UnexpectedEOF,
}

/// [`Expected`] as a mathematical value.
pub enum ExpectedView {
    Item,
    Expr,
    Operator,
    Semicolon,
    Nothing,
    OneOf(Seq<ExpectedView>),
}

/// The mathematical value of `expected`.
pub open spec fn expected_view(expected: Expected) -> ExpectedView
    decreases expected,
{
    match expected {
        Expected::Item => ExpectedView::Item,
        Expected::Expr => ExpectedView::Expr,
        Expected::Operator => ExpectedView::Operator,
        Expected::Semicolon => ExpectedView::Semicolon,
        Expected::Nothing => ExpectedView::Nothing,
        Expected::OneOf(choices) => ExpectedView::OneOf(
            Seq::new(
                choices@.len(),
                |i: int|
                    if 0 <= i < choices@.len() {
                        expected_view(choices[i])
                    } else {
                        ExpectedView::Nothing
                    },
            ),
        ),
    }
}

impl View for Expected {
    type V = ExpectedView;

    open spec fn view(&self) -> ExpectedView {
        expected_view(*self)
    }
}

/// [`SyntaxErr`] as a mathematical value.
pub struct SyntaxErrView<'a> {
    pub span: SourceSpan,
    pub kind: SyntaxErrKind<'a>,
    pub expected: ExpectedView,
    pub note: Option<HelpNote>,
}

impl<'a> View for SyntaxErr<'a> {
    type V = SyntaxErrView<'a>;

    open spec fn view(&self) -> SyntaxErrView<'a> {
        SyntaxErrView {
            span: self.span,
            kind: self.kind,
            expected: self.expected@,
            note: self.note,
        }
    }
}

/// The diagnostics of `errors` as mathematical values, in the same order.
pub open spec fn views_of<'a>(errors: Seq<SyntaxErr<'a>>) -> Seq<SyntaxErrView<'a>> {
    errors.map_values(|error: SyntaxErr<'a>| error@)
}

/// What was looked for, in words. The choices among several stand between
/// brackets, each of them but the last followed by a comma and a blank, and
/// the last behind a blank; where there is no choice, nothing stands
/// between the brackets.
pub open spec fn expected_text(expected: ExpectedView) -> Seq<char>
    decreases expected, 0nat,
{
    match expected {
        ExpectedView::Item => "an item"@,
        ExpectedView::Expr => "an expression"@,
        ExpectedView::Operator => "an operator"@,
        ExpectedView::Semicolon => "a `;`"@,
        ExpectedView::Nothing => Seq::empty(),
        ExpectedView::OneOf(choices) => if choices.len() == 0 {
            "one of []"@
        } else {
            "one of ["@ + listed(choices, (choices.len() - 1) as nat) + " "@ + expected_text(
                choices[choices.len() - 1],
            ) + "]"@
        },
    }
}

/// The first `n` of `choices` in words, each followed by a comma and a blank.
pub open spec fn listed(choices: Seq<ExpectedView>, n: nat) -> Seq<char>
    decreases choices, n,
{
    if n == 0 || n > choices.len() {
        Seq::empty()
    } else {
        listed(choices, (n - 1) as nat) + expected_text(choices[n - 1]) + ", "@
    }
}

impl Expected {
    /// What was looked for, in words.
    pub fn to_string(&self) -> (text: String)
        ensures
            text@ == expected_text(self@),
        decreases self,
    {
        match self {
            Expected::Item => String::from_str("an item"),
            Expected::Expr => String::from_str("an expression"),
            Expected::Operator => String::from_str("an operator"),
            Expected::Semicolon => String::from_str("a `;`"),
            Expected::Nothing => String::new(),
            Expected::OneOf(v) => {
                let ghost choices = self@->OneOf_0;
                let n = v.len();
                if n == 0 {
                    return String::from_str("one of []");
                }
                let mut text = String::from_str("one of [");
                let mut i: usize = 0;
                assert("one of ["@ + listed(choices, 0) =~= "one of ["@);
                while i < n - 1
                    invariant
                        n == v@.len(),
                        n > 0,
                        i <= n - 1,
                        choices == self@->OneOf_0,
                        choices.len() == n,
                        forall|k: int| 0 <= k < n ==> choices[k] == (#[trigger] v@[k])@,
                        forall|k: int| 0 <= k < n ==> decreases_to!(self => #[trigger] v@[k]),
                        text@ == "one of ["@ + listed(choices, i as nat),
                    decreases n - i,
                {
                    let choice = v[i].to_string();
                    text.append(choice.as_str());
                    text.append(", ");
                    i += 1;
                    assert(text@ =~= "one of ["@ + listed(choices, i as nat));
                }
                text.append(" ");
                let last = v[n - 1].to_string();
                text.append(last.as_str());
                text.append("]");
                assert(text@ =~= expected_text(self@));
                text
            },
        }
    }
}

impl AmbiguousOp {
    /// The operator between backticks.
    pub open spec fn text(self) -> Seq<char> {
        match self {
            AmbiguousOp::Add => "`+`"@,
            AmbiguousOp::Sub => "`-`"@,
        }
    }

    /// The operator between backticks.
    pub fn to_string(&self) -> (text: String)
        ensures
            text@ == self.text(),
    {
        match self {
            AmbiguousOp::Add => String::from_str("`+`"),
            AmbiguousOp::Sub => String::from_str("`-`"),
        }
    }
}

} // verus!
