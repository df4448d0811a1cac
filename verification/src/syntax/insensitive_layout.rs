//! The layout pass: block structure that the source text gives by
//! indentation is written out with braces and semicolons.

use crate::errors::syntax_err::SyntaxErr;
use crate::syntax::tokens::{in_source_order, SourceSpan, Token, TokenKind};
use vstd::prelude::*;
use vstd::std_specs::convert::TryFromSpecImpl;

verus! {

/// The token that begins an implicit block.
#[derive(Debug, PartialEq, Eq, Clone, Copy, Structural)]
pub enum ContextOpener {
    Then,
    Else,
    Equal,
}

impl ContextOpener {
    /// The opener that a token of this kind stands for, if it is one.
    pub open spec fn of(tok: TokenKind) -> Option<ContextOpener> {
        match tok {
            TokenKind::Eq => Some(ContextOpener::Equal),
            TokenKind::Else => Some(ContextOpener::Else),
            TokenKind::Then => Some(ContextOpener::Then),
            _ => None,
        }
    }
}

impl<'a, 'b> TryFrom<&'b TokenKind<'a>> for ContextOpener {
    type Error = ();

    fn try_from(tok: &'b TokenKind<'a>) -> (opener: Result<Self, ()>) {
        match tok {
            TokenKind::Eq => Ok(ContextOpener::Equal),
            TokenKind::Else => Ok(ContextOpener::Else),
            TokenKind::Then => Ok(ContextOpener::Then),
            _ => Err(()),
        }
    }
}

impl<'a, 'b> TryFromSpecImpl<&'b TokenKind<'a>> for ContextOpener {
    open spec fn obeys_try_from_spec() -> bool {
        true
    }

    open spec fn try_from_spec(tok: &'b TokenKind<'a>) -> Result<Self, ()> {
        match ContextOpener::of(*tok) {
            Some(opener) => Ok(opener),
            None => Err(()),
        }
    }
}

/// One implicit block that is open, with the column that closes it.
#[derive(Debug, PartialEq, Eq, Clone, Copy, Structural)]
pub struct Context {
    pub opener: ContextOpener,
    /// Offset at which the source line of the opener begins.
    pub line_anchor: usize,
    /// Indentation threshold of the block.
    pub column: usize,
}

impl Context {
    /// Whether a token of kind `tok`, at column `tok_column` of the line that
    /// begins at `tok_anchor`, closes this context. A block opened by `=`
    /// stays open at its own column and closes left of it; one opened by
    /// `then` or `else` closes at its own column too. An `else` on the line
    /// of its `then` closes that `then` wherever it stands.
    pub open spec fn closed_by(self, tok: TokenKind, tok_column: int, tok_anchor: int) -> bool {
        let less_indented = match self.opener {
            ContextOpener::Equal => self.column > tok_column,
            _ => self.column >= tok_column,
        };
        less_indented || (self.opener == ContextOpener::Then && tok is Else && self.line_anchor
            == tok_anchor)
    }

    /// Whether the token `tok`, which starts at offset `tok_start` on the
    /// line that begins at `tok_newline`, closes this context.
    pub fn is_closed_by(&self, tok: &TokenKind, tok_start: usize, tok_newline: usize) -> (closed:
        bool)
        requires
            tok_newline <= tok_start,
        ensures
            closed == self.closed_by(*tok, tok_start - tok_newline, tok_newline as int),
    {
        let tok_column = tok_start - tok_newline;
        let less_indented = match self.opener {
            ContextOpener::Equal => self.column > tok_column,
            _ => self.column >= tok_column,
        };
        let else_of_this_then = match (self.opener, tok) {
            (ContextOpener::Then, TokenKind::Else) => self.line_anchor == tok_newline,
            _ => false,
        };
        less_indented || else_of_this_then
    }
}

/// What the pass remembers between two tokens.
#[derive(Debug, PartialEq, Eq, Clone, Copy, Structural)]
pub struct LayoutState {
    /// A block was closed, or an instruction ended, and nothing came since.
    pub just_closed: bool,
    /// An instruction is under way that a `;` could end.
    pub can_close_instr: bool,
    /// Offset at which the current source line begins.
    pub last_newline: usize,
}

/// The implicit blocks that are open, innermost last.
pub struct Contexts {
    pub stack: Vec<Context>,
}

/// The pass at one point of its run, as a mathematical value: the open
/// contexts (innermost last), the state, and the tokens written so far.
pub struct LayoutRun<'a> {
    pub stack: Seq<Context>,
    pub state: LayoutState,
    pub output: Seq<Token<'a>>,
}

impl<'a> LayoutRun<'a> {
    /// The run with these contexts, this state and this output.
    pub open spec fn of(stack: Seq<Context>, state: LayoutState, output: Seq<Token<'a>>) -> Self {
        LayoutRun { stack, state, output }
    }
}

/// An inserted token of kind `kind`: its span is empty and stands at `at`.
pub open spec fn inserted<'a>(kind: TokenKind<'a>, at: usize) -> Token<'a> {
    Token { kind, span: SourceSpan { start: at, end: at } }
}

/// The tokens that close one block at offset `at`: a `;` that ends the
/// instruction under way if there is one (`pending`), the `}`, and a `;`
/// that ends the block as an instruction of the block around it.
pub open spec fn closing_tokens<'a>(pending: bool, at: usize) -> Seq<Token<'a>> {
    let closer = seq![inserted(TokenKind::RBrace, at), inserted(TokenKind::Semicolon, at)];
    if pending {
        seq![inserted(TokenKind::Semicolon, at)] + closer
    } else {
        closer
    }
}

/// The state right after a block was closed.
pub open spec fn state_after_close(state: LayoutState) -> LayoutState {
    LayoutState { just_closed: true, can_close_instr: false, last_newline: state.last_newline }
}

/// `run` after every context that `tok` closes has been closed, innermost
/// first, up to the first that `tok` does not close.
pub open spec fn close_contexts_of<'a>(run: LayoutRun<'a>, tok: Token<'a>) -> LayoutRun<'a>
    decreases run.stack.len(),
{
    if run.stack.len() > 0 && run.stack.last().closed_by(
        tok.kind,
        tok.span.start - run.state.last_newline,
        run.state.last_newline as int,
    ) {
        close_contexts_of(
            LayoutRun {
                stack: run.stack.drop_last(),
                state: state_after_close(run.state),
                output: run.output + closing_tokens(run.state.can_close_instr, tok.span.end),
            },
            tok,
        )
    } else {
        run
    }
}

/// A token of this kind after a line break begins a new instruction; the
/// others (`then` and the operators) carry the instruction before on.
pub open spec fn begins_instruction(tok: TokenKind) -> bool {
    !(tok is Then || tok is Op)
}

/// A token of this kind can be the last of an instruction.
pub open spec fn ends_instruction(tok: TokenKind) -> bool {
    !(tok is Op || tok is Eq || tok is Else || tok is Then || tok is Semicolon)
}

/// The column that closes the block which the opener `tok` begins: for `=`
/// the column of the token after it (of its own end, where none follows),
/// for `then` and `else` their own column.
pub open spec fn opener_column(tok: Token, next: Option<Token>, last_newline: usize) -> int {
    match tok.kind {
        TokenKind::Eq => match next {
            Some(following) => following.span.start - last_newline,
            None => tok.span.end - last_newline,
        },
        _ => tok.span.start - last_newline,
    }
}

/// `run` after the token `tok` has been read, `next` being the token after
/// it, if there is one.
pub open spec fn step_of<'a>(run: LayoutRun<'a>, tok: Token<'a>, next: Option<Token<'a>>) -> LayoutRun<'a> {
    let closed = close_contexts_of(run, tok);
    match ContextOpener::of(tok.kind) {
        Some(opener) => LayoutRun {
            stack: closed.stack.push(
                Context {
                    opener,
                    line_anchor: closed.state.last_newline,
                    column: opener_column(tok, next, closed.state.last_newline) as usize,
                },
            ),
            state: LayoutState {
                just_closed: false,
                can_close_instr: false,
                last_newline: closed.state.last_newline,
            },
            output: closed.output.push(tok).push(inserted(TokenKind::LBrace, tok.span.end)),
        },
        None => if tok.kind is Newline {
            if next is None || (begins_instruction(next->0.kind) && closed.state.can_close_instr) {
                LayoutRun {
                    stack: closed.stack,
                    state: LayoutState {
                        just_closed: true,
                        can_close_instr: false,
                        last_newline: tok.span.start,
                    },
                    output: closed.output.push(inserted(TokenKind::Semicolon, tok.span.end)),
                }
            } else {
                LayoutRun {
                    stack: closed.stack,
                    state: LayoutState {
                        just_closed: closed.state.just_closed,
                        can_close_instr: closed.state.can_close_instr,
                        last_newline: tok.span.start,
                    },
                    output: closed.output,
                }
            }
        } else {
            LayoutRun {
                stack: closed.stack,
                state: LayoutState {
                    just_closed: false,
                    can_close_instr: ends_instruction(tok.kind),
                    last_newline: closed.state.last_newline,
                },
                output: closed.output.push(tok),
            }
        },
    }
}

/// The pass before it has read anything.
pub open spec fn initial_run<'a>() -> LayoutRun<'a> {
    LayoutRun {
        stack: Seq::empty(),
        state: LayoutState { just_closed: true, can_close_instr: false, last_newline: 0 },
        output: Seq::empty(),
    }
}

/// The pass after it has read the first `n` tokens of `tokens`.
pub open spec fn run_of<'a>(tokens: Seq<Token<'a>>, n: nat) -> LayoutRun<'a>
    decreases n,
{
    if n == 0 {
        initial_run()
    } else {
        step_of(
            run_of(tokens, (n - 1) as nat),
            tokens[n - 1],
            if n < tokens.len() {
                Some(tokens[n as int])
            } else {
                None
            },
        )
    }
}

/// The output once every context still open in `run` has been closed at
/// offset `at`, innermost first. Where the input ends, each block is closed
/// by all three tokens: a `;`, the `}`, and a `;`.
pub open spec fn finish_of<'a>(run: LayoutRun<'a>, at: usize) -> Seq<Token<'a>>
    decreases run.stack.len(),
{
    if run.stack.len() == 0 {
        run.output
    } else {
        finish_of(
            LayoutRun {
                stack: run.stack.drop_last(),
                state: state_after_close(run.state),
                output: run.output + closing_tokens(true, at),
            },
            at,
        )
    }
}

/// The offset at which the token stream ends.
pub open spec fn end_offset(tokens: Seq<Token>) -> usize {
    if tokens.len() == 0 {
        0
    } else {
        tokens.last().span.end
    }
}

/// The layout-insensitive form of `tokens`.
pub open spec fn normalized<'a>(tokens: Seq<Token<'a>>) -> Seq<Token<'a>> {
    finish_of(run_of(tokens, tokens.len()), end_offset(tokens))
}

impl Contexts {
    /// Closes every context that `tok` closes, innermost first, and writes
    /// the closing tokens to `vec`.
    pub fn close_contexts<'a>(
        &mut self,
        vec: &mut Vec<Token<'a>>,
        tok: &Token<'a>,
        layout_state: &mut LayoutState,
    )
        requires
            old(layout_state).last_newline <= tok.span.start,
        ensures
            ({
                let before = LayoutRun::of(old(self).stack@, *old(layout_state), old(vec)@);
                let after = close_contexts_of(before, *tok);
                &&& final(self).stack@ == after.stack
                &&& *final(layout_state) == after.state
                &&& final(vec)@ == after.output
            }),
    {
        let ghost before = LayoutRun::of(self.stack@, *layout_state, vec@);
        loop
            invariant
                layout_state.last_newline <= tok.span.start,
                close_contexts_of(LayoutRun::of(self.stack@, *layout_state, vec@), *tok)
                    == close_contexts_of(before, *tok),
            ensures
                LayoutRun::of(self.stack@, *layout_state, vec@) == close_contexts_of(before, *tok),
            decreases self.stack.len(),
        {
            let n = self.stack.len();
            if n == 0 {
                break;
            }
            let ctx = self.stack[n - 1];
            if !ctx.is_closed_by(&tok.kind, tok.span.start, layout_state.last_newline) {
                break;
            }
            let at = tok.span.end;
            let ghost pending = layout_state.can_close_instr;
            let ghost written = vec@;
            if layout_state.can_close_instr {
                vec.push(Token { kind: TokenKind::Semicolon, span: SourceSpan::empty_at(at) });
            }
            vec.push(Token { kind: TokenKind::RBrace, span: SourceSpan::empty_at(at) });
            vec.push(Token { kind: TokenKind::Semicolon, span: SourceSpan::empty_at(at) });
            layout_state.just_closed = true;
            layout_state.can_close_instr = false;
            self.stack.pop();
            proof {
                assert(vec@ =~= written + closing_tokens(pending, at));
            }
        }
    }

    /// Opens `ctx` inside the contexts that are open.
    pub fn push(&mut self, ctx: Context)
        ensures
            final(self).stack@ == old(self).stack@.push(ctx),
    {
        self.stack.push(ctx);
    }
}

/// A token stream that waits to be made layout-insensitive.
pub struct Layout<'a> {
    tokens: Vec<Token<'a>>,
}

impl<'a> View for Layout<'a> {
    type V = Seq<Token<'a>>;

    /// The tokens, in the order in which they were given.
    closed spec fn view(&self) -> Seq<Token<'a>> {
        self.tokens@
    }
}

impl<'a> Layout<'a> {
    pub fn new(tokens: Vec<Token<'a>>) -> (layout: Self)
        ensures
            layout@ == tokens@,
    {
        Self { tokens }
    }

    /// Makes the layout explicit: every block which the source text gives
    /// by indentation stands between an inserted `{` and an inserted `}`, and
    /// its instructions are parted by `;`. Line breaks leave the stream. A
    /// block that a token closes gets a `;` before its `}` only where an
    /// instruction is under way; a block that is open where the input ends is
    /// closed by a `;`, the `}`, and a `;`.
    ///
    /// The tokens must come in the order of the source text. The result is
    /// then always `Ok`.
    pub fn into_insensitive(self) -> (result: Result<Vec<Token<'a>>, SyntaxErr<'a>>)
        requires
            in_source_order(self@),
        ensures
            result matches Ok(output) && output@ == normalized(self@),
    {
        let tokens = self.tokens;
        let mut result_vec: Vec<Token<'a>> = Vec::new();
        let mut contexts = Contexts { stack: Vec::new() };
        let mut layout_state = LayoutState {
            last_newline: 0,
            can_close_instr: false,
            just_closed: true,
        };
        let n = tokens.len();
        let mut i: usize = 0;
        while i < n
            invariant
                i <= n,
                n == tokens.len(),
                in_source_order(tokens@),
                forall|k: int| i <= k < n ==> layout_state.last_newline <= (#[trigger] tokens@[k]).span.start,
                LayoutRun::of(contexts.stack@, layout_state, result_vec@) == run_of(tokens@, i as nat),
            decreases n - i,
        {
            let tok = tokens[i];
            let ghost next = if i + 1 < n {
                Some(tokens@[i + 1])
            } else {
                None
            };
            let ghost before = LayoutRun::of(contexts.stack@, layout_state, result_vec@);
            assert(run_of(tokens@, (i + 1) as nat) == step_of(before, tok, next));
            contexts.close_contexts(&mut result_vec, &tok, &mut layout_state);
            let ghost closed = close_contexts_of(before, tok);
            assert(closed.state.last_newline == before.state.last_newline) by {
                lemma_close_keeps_anchor(before, tok);
            }
            match tok.kind {
                TokenKind::Newline => {
                    layout_state.last_newline = tok.span.start;
                    let ends_here = if i + 1 < n {
                        Self::can_be_after_semicolon(&tokens[i + 1].kind)
                            && layout_state.can_close_instr
                    } else {
                        true
                    };
                    if ends_here {
                        layout_state.can_close_instr = false;
                        layout_state.just_closed = true;
                        result_vec.push(
                            Token {
                                kind: TokenKind::Semicolon,
                                span: SourceSpan::empty_at(tok.span.end),
                            },
                        );
                    }
                },
                TokenKind::Then | TokenKind::Else | TokenKind::Eq => {
                    let column = match tok.kind {
                        TokenKind::Eq => if i + 1 < n {
                            tokens[i + 1].span.start - layout_state.last_newline
                        } else {
                            tok.span.end - layout_state.last_newline
                        },
                        _ => tok.span.start - layout_state.last_newline,
                    };
                    Self::update_layout(&mut layout_state, tok);
                    let opener = match tok.kind {
                        TokenKind::Eq => ContextOpener::Equal,
                        TokenKind::Else => ContextOpener::Else,
                        _ => ContextOpener::Then,
                    };
                    contexts.push(Context { opener, column, line_anchor: layout_state.last_newline });
                    result_vec.push(tok);
                    result_vec.push(
                        Token { kind: TokenKind::LBrace, span: SourceSpan::empty_at(tok.span.end) },
                    );
                },
                _ => {
                    Self::update_layout(&mut layout_state, tok);
                    result_vec.push(tok);
                },
            }
            i += 1;
        }
        let at = if n == 0 {
            0
        } else {
            tokens[n - 1].span.end
        };
        assert(at == end_offset(tokens@));
        while contexts.stack.len() > 0
            invariant
                finish_of(LayoutRun::of(contexts.stack@, layout_state, result_vec@), at)
                    == normalized(tokens@),
            decreases contexts.stack.len(),
        {
            let ghost written = result_vec@;
            result_vec.push(Token { kind: TokenKind::Semicolon, span: SourceSpan::empty_at(at) });
            result_vec.push(Token { kind: TokenKind::RBrace, span: SourceSpan::empty_at(at) });
            result_vec.push(Token { kind: TokenKind::Semicolon, span: SourceSpan::empty_at(at) });
            layout_state.just_closed = true;
            layout_state.can_close_instr = false;
            contexts.stack.pop();
            proof {
                assert(result_vec@ =~= written + closing_tokens(true, at));
            }
        }
        Ok(result_vec)
    }

    /// Takes note of a token that is written to the output as it stands.
    fn update_layout(layout: &mut LayoutState, tok: Token<'a>)
        ensures
            *final(layout) == (LayoutState {
                just_closed: false,
                can_close_instr: ends_instruction(tok.kind),
                last_newline: old(layout).last_newline,
            }),
    {
        layout.can_close_instr = Self::can_close_instr(&tok.kind);
        layout.just_closed = false;
    }

    /// Whether a `;` may stand before a token of this kind that begins a line.
    fn can_be_after_semicolon(tok: &TokenKind<'a>) -> (can: bool)
        ensures
            can == begins_instruction(*tok),
    {
        match tok {
            TokenKind::Then => false,
            TokenKind::Op(_) => false,
            _ => true,
        }
    }

    /// Whether a token of this kind can be the last of an instruction.
    fn can_close_instr(tok: &TokenKind<'a>) -> (can: bool)
        ensures
            can == ends_instruction(*tok),
    {
        match tok {
            TokenKind::Op(_)
            | TokenKind::Eq
            | TokenKind::Else
            | TokenKind::Then
            | TokenKind::Semicolon => false,
            _ => true,
        }
    }
}

/// Closing contexts leaves the line anchor as it is.
pub proof fn lemma_close_keeps_anchor<'a>(run: LayoutRun<'a>, tok: Token<'a>)
    ensures
        close_contexts_of(run, tok).state.last_newline == run.state.last_newline,
    decreases run.stack.len(),
{
    if run.stack.len() > 0 && run.stack.last().closed_by(
        tok.kind,
        tok.span.start - run.state.last_newline,
        run.state.last_newline as int,
    ) {
        lemma_close_keeps_anchor(
            LayoutRun {
                stack: run.stack.drop_last(),
                state: state_after_close(run.state),
                output: run.output + closing_tokens(run.state.can_close_instr, tok.span.end),
            },
            tok,
        );
    }
}

} // verus!
