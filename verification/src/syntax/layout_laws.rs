//! What holds of every run of the layout pass.

use crate::syntax::insensitive_layout::{
    close_contexts_of, closing_tokens, end_offset, finish_of, inserted, normalized, run_of,
    state_after_close, step_of, ContextOpener, LayoutRun,
};
use crate::syntax::tokens::{Token, TokenKind};
use vstd::prelude::*;

verus! {

/// How many more `{` than `}` the tokens hold.
pub open spec fn brace_depth(tokens: Seq<Token>) -> int
    decreases tokens.len(),
{
    if tokens.len() == 0 {
        0
    } else {
        brace_depth(tokens.drop_last()) + match tokens.last().kind {
            TokenKind::LBrace => 1int,
            TokenKind::RBrace => -1int,
            _ => 0int,
        }
    }
}

/// No prefix of the tokens holds more `}` than `{`.
pub open spec fn braces_never_close_early(tokens: Seq<Token>) -> bool {
    forall|k: int| 0 <= k <= tokens.len() ==> brace_depth(#[trigger] tokens.take(k)) >= 0
}

/// The tokens without the line breaks among them.
pub open spec fn without_newlines<'a>(tokens: Seq<Token<'a>>) -> Seq<Token<'a>> {
    tokens.filter(|tok: Token<'a>| !(tok.kind is Newline))
}

/// A token as the layout pass inserts them: a `{`, a `}` or a `;` with an
/// empty span.
pub open spec fn is_insertion(tok: Token) -> bool {
    &&& tok.kind is LBrace || tok.kind is RBrace || tok.kind is Semicolon
    &&& tok.span.start == tok.span.end
}

/// `output` is `source` with insertions: it holds the tokens of `source`,
/// each as it is and in the same order, and between them only tokens that
/// are insertions.
pub open spec fn with_insertions<'a>(source: Seq<Token<'a>>, output: Seq<Token<'a>>) -> bool
    decreases output.len(),
{
    if output.len() == 0 {
        source.len() == 0
    } else {
        ||| source.len() > 0 && source.last() == output.last() && with_insertions(
            source.drop_last(),
            output.drop_last(),
        )
        ||| is_insertion(output.last()) && with_insertions(source, output.drop_last())
    }
}

/// Every `=`, `then` and `else` among the tokens is followed at once by an
/// inserted `{` that stands at its end.
pub open spec fn openers_are_braced(tokens: Seq<Token>) -> bool {
    forall|i: int|
        0 <= i < tokens.len() && ContextOpener::of((#[trigger] tokens[i]).kind) is Some ==> i + 1
            < tokens.len() && tokens[i + 1] == inserted(TokenKind::LBrace, tokens[i].span.end)
}

/// No token is a line break.
pub open spec fn free_of_newlines(tokens: Seq<Token>) -> bool {
    forall|i: int| 0 <= i < tokens.len() ==> !((#[trigger] tokens[i]).kind is Newline)
}

spec fn never_early(tokens: Seq<Token>) -> bool
    decreases tokens.len(),
{
    tokens.len() == 0 || (never_early(tokens.drop_last()) && brace_depth(tokens) >= 0)
}

proof fn lemma_never_early_is_prefixwise(tokens: Seq<Token>)
    ensures
        never_early(tokens) <==> braces_never_close_early(tokens),
    decreases tokens.len(),
{
    if tokens.len() == 0 {
        assert forall|k: int| 0 <= k <= tokens.len() implies brace_depth(
            #[trigger] tokens.take(k),
        ) >= 0 by {
            assert(tokens.take(k).len() == 0);
        }
    } else {
        let front = tokens.drop_last();
        lemma_never_early_is_prefixwise(front);
        assert(tokens.take(tokens.len() as int) =~= tokens);
        if never_early(tokens) {
            assert forall|k: int| 0 <= k <= tokens.len() implies brace_depth(
                #[trigger] tokens.take(k),
            ) >= 0 by {
                if k < tokens.len() {
                    assert(tokens.take(k) =~= front.take(k));
                }
            }
        }
        if braces_never_close_early(tokens) {
            assert forall|k: int| 0 <= k <= front.len() implies brace_depth(
                #[trigger] front.take(k),
            ) >= 0 by {
                assert(tokens.take(k) =~= front.take(k));
            }
        }
    }
}

/// What the laws need of the pass at one point: it has read `source`, has
/// written `output`, and `open` contexts are open.
spec fn ledger(source: Seq<Token>, open: nat, output: Seq<Token>) -> bool {
    &&& brace_depth(output) == brace_depth(source) + open
    &&& never_early(source) ==> never_early(output)
    &&& with_insertions(without_newlines(source), output)
    &&& openers_are_braced(output)
    &&& free_of_newlines(output)
}

proof fn lemma_never_early_depth(tokens: Seq<Token>)
    requires
        never_early(tokens),
    ensures
        brace_depth(tokens) >= 0,
{
}

proof fn lemma_push_insertion<'a>(
    source: Seq<Token<'a>>,
    open: nat,
    output: Seq<Token<'a>>,
    kind: TokenKind<'a>,
    at: usize,
)
    requires
        ledger(source, open, output),
        kind is Semicolon || kind is RBrace,
        kind is RBrace ==> open > 0,
    ensures
        ledger(
            source,
            if kind is RBrace {
                (open - 1) as nat
            } else {
                open
            },
            output.push(inserted(kind, at)),
        ),
{
    assert(output.push(inserted(kind, at)).drop_last() =~= output);
    if never_early(source) {
        lemma_never_early_depth(source);
    }
}

proof fn lemma_close_one<'a>(
    source: Seq<Token<'a>>,
    open: nat,
    output: Seq<Token<'a>>,
    pending: bool,
    at: usize,
)
    requires
        ledger(source, open, output),
        open > 0,
    ensures
        ledger(source, (open - 1) as nat, output + closing_tokens(pending, at)),
{
    let first = if pending {
        lemma_push_insertion(source, open, output, TokenKind::Semicolon, at);
        output.push(inserted(TokenKind::Semicolon, at))
    } else {
        output
    };
    lemma_push_insertion(source, open, first, TokenKind::RBrace, at);
    let second = first.push(inserted(TokenKind::RBrace, at));
    lemma_push_insertion(source, (open - 1) as nat, second, TokenKind::Semicolon, at);
    assert(second.push(inserted(TokenKind::Semicolon, at)) =~= output + closing_tokens(
        pending,
        at,
    ));
}

proof fn lemma_close_contexts<'a>(source: Seq<Token<'a>>, run: LayoutRun<'a>, tok: Token<'a>)
    requires
        ledger(source, run.stack.len(), run.output),
    ensures
        ledger(
            source,
            close_contexts_of(run, tok).stack.len(),
            close_contexts_of(run, tok).output,
        ),
    decreases run.stack.len(),
{
    if run.stack.len() > 0 && run.stack.last().closed_by(
        tok.kind,
        tok.span.start - run.state.last_newline,
        run.state.last_newline as int,
    ) {
        lemma_close_one(source, run.stack.len(), run.output, run.state.can_close_instr, tok.span.end);
        lemma_close_contexts(
            source,
            LayoutRun {
                stack: run.stack.drop_last(),
                state: state_after_close(run.state),
                output: run.output + closing_tokens(run.state.can_close_instr, tok.span.end),
            },
            tok,
        );
    }
}

proof fn lemma_read_newline<'a>(
    source: Seq<Token<'a>>,
    open: nat,
    output: Seq<Token<'a>>,
    tok: Token<'a>,
)
    requires
        ledger(source, open, output),
        tok.kind is Newline,
    ensures
        ledger(source.push(tok), open, output),
{
    let read = source.push(tok);
    assert(read.drop_last() =~= source);
    reveal(Seq::filter);
    assert(without_newlines(read) =~= without_newlines(source));
}

proof fn lemma_read_token<'a>(
    source: Seq<Token<'a>>,
    open: nat,
    output: Seq<Token<'a>>,
    tok: Token<'a>,
)
    requires
        ledger(source, open, output),
        !(tok.kind is Newline),
        ContextOpener::of(tok.kind) is None,
    ensures
        ledger(source.push(tok), open, output.push(tok)),
{
    let read = source.push(tok);
    let written = output.push(tok);
    assert(read.drop_last() =~= source);
    assert(written.drop_last() =~= output);
    assert(without_newlines(read) =~= without_newlines(source).push(tok)) by {
        reveal(Seq::filter);
    }
    assert(without_newlines(read).drop_last() =~= without_newlines(source));
    if never_early(read) {
        lemma_never_early_depth(read);
    }
}

proof fn lemma_read_opener<'a>(
    source: Seq<Token<'a>>,
    open: nat,
    output: Seq<Token<'a>>,
    tok: Token<'a>,
)
    requires
        ledger(source, open, output),
        ContextOpener::of(tok.kind) is Some,
    ensures
        ledger(
            source.push(tok),
            open + 1,
            output.push(tok).push(inserted(TokenKind::LBrace, tok.span.end)),
        ),
{
    let read = source.push(tok);
    let mid = output.push(tok);
    let written = mid.push(inserted(TokenKind::LBrace, tok.span.end));
    assert(read.drop_last() =~= source);
    assert(mid.drop_last() =~= output);
    assert(written.drop_last() =~= mid);
    assert(without_newlines(read) =~= without_newlines(source).push(tok)) by {
        reveal(Seq::filter);
    }
    assert(without_newlines(read).drop_last() =~= without_newlines(source));
    assert(with_insertions(without_newlines(read), mid));
    assert(brace_depth(mid) == brace_depth(output));
    assert(brace_depth(read) == brace_depth(source));
    if never_early(read) {
        lemma_never_early_depth(read);
        assert(never_early(mid));
    }
}

proof fn lemma_step<'a>(
    source: Seq<Token<'a>>,
    run: LayoutRun<'a>,
    tok: Token<'a>,
    next: Option<Token<'a>>,
)
    requires
        ledger(source, run.stack.len(), run.output),
    ensures
        ledger(
            source.push(tok),
            step_of(run, tok, next).stack.len(),
            step_of(run, tok, next).output,
        ),
{
    lemma_close_contexts(source, run, tok);
    let closed = close_contexts_of(run, tok);
    match ContextOpener::of(tok.kind) {
        Some(opener) => {
            lemma_read_opener(source, closed.stack.len(), closed.output, tok);
        },
        None => {
            if tok.kind is Newline {
                lemma_read_newline(source, closed.stack.len(), closed.output, tok);
                lemma_push_insertion(
                    source.push(tok),
                    closed.stack.len(),
                    closed.output,
                    TokenKind::Semicolon,
                    tok.span.end,
                );
            } else {
                lemma_read_token(source, closed.stack.len(), closed.output, tok);
            }
        },
    }
}

proof fn lemma_run<'a>(tokens: Seq<Token<'a>>, n: nat)
    requires
        n <= tokens.len(),
    ensures
        ledger(tokens.take(n as int), run_of(tokens, n).stack.len(), run_of(tokens, n).output),
    decreases n,
{
    if n == 0 {
        reveal(Seq::filter);
        assert(tokens.take(0).len() == 0);
        assert(without_newlines(tokens.take(0)).len() == 0);
    } else {
        lemma_run(tokens, (n - 1) as nat);
        let next = if n < tokens.len() {
            Some(tokens[n as int])
        } else {
            None
        };
        lemma_step(tokens.take(n - 1), run_of(tokens, (n - 1) as nat), tokens[n - 1], next);
        assert(tokens.take(n - 1).push(tokens[n - 1]) =~= tokens.take(n as int));
    }
}

proof fn lemma_finish<'a>(source: Seq<Token<'a>>, run: LayoutRun<'a>, at: usize)
    requires
        ledger(source, run.stack.len(), run.output),
    ensures
        ledger(source, 0, finish_of(run, at)),
    decreases run.stack.len(),
{
    if run.stack.len() > 0 {
        lemma_close_one(source, run.stack.len(), run.output, true, at);
        lemma_finish(
            source,
            LayoutRun {
                stack: run.stack.drop_last(),
                state: state_after_close(run.state),
                output: run.output + closing_tokens(true, at),
            },
            at,
        );
    }
}

proof fn lemma_normalized<'a>(tokens: Seq<Token<'a>>)
    ensures
        ledger(tokens, 0, normalized(tokens)),
{
    lemma_run(tokens, tokens.len());
    assert(tokens.take(tokens.len() as int) =~= tokens);
    lemma_finish(tokens, run_of(tokens, tokens.len()), end_offset(tokens));
}

/// Brace balance. The layout pass inserts as many `}` as `{`: its output is
/// as deep in braces as its input. And where no prefix of the input holds
/// more `}` than `{`, none of the output does.
pub proof fn law_brace_balance<'a>(tokens: Seq<Token<'a>>)
    ensures
        brace_depth(normalized(tokens)) == brace_depth(tokens),
        braces_never_close_early(tokens) ==> braces_never_close_early(normalized(tokens)),
{
    lemma_normalized(tokens);
    lemma_never_early_is_prefixwise(tokens);
    lemma_never_early_is_prefixwise(normalized(tokens));
}

/// The tokens of the input pass through. The output is the input without
/// its line breaks, each token as it was and in the same order, with
/// nothing between them but inserted `{`, `}` and `;` of empty span.
pub proof fn law_tokens_pass_through<'a>(tokens: Seq<Token<'a>>)
    ensures
        with_insertions(without_newlines(tokens), normalized(tokens)),
{
    lemma_normalized(tokens);
}

/// The output is explicit: it holds no line break, and every `=`, `then`
/// and `else` in it is followed at once by an inserted `{`.
pub proof fn law_output_is_explicit<'a>(tokens: Seq<Token<'a>>)
    ensures
        free_of_newlines(normalized(tokens)),
        openers_are_braced(normalized(tokens)),
{
    lemma_normalized(tokens);
}

/// No token is a line break or begins a block.
pub open spec fn free_of_layout(tokens: Seq<Token>) -> bool {
    forall|i: int|
        0 <= i < tokens.len() ==> !((#[trigger] tokens[i]).kind is Newline) && ContextOpener::of(
            tokens[i].kind,
        ) is None
}

proof fn lemma_run_without_layout<'a>(tokens: Seq<Token<'a>>, n: nat)
    requires
        n <= tokens.len(),
        free_of_layout(tokens),
    ensures
        run_of(tokens, n).stack.len() == 0,
        run_of(tokens, n).output == tokens.take(n as int),
    decreases n,
{
    if n == 0 {
        assert(tokens.take(0) =~= Seq::empty());
    } else {
        lemma_run_without_layout(tokens, (n - 1) as nat);
        let tok = tokens[n - 1];
        assert(!(tok.kind is Newline) && ContextOpener::of(tok.kind) is None);
        assert(tokens.take(n - 1).push(tok) =~= tokens.take(n as int));
    }
}

/// Explicit tokens are kept. Tokens among which there is no line break and
/// no `=`, `then` or `else` are their own layout-insensitive form: the pass
/// inserts nothing and drops nothing.
pub proof fn law_explicit_tokens_are_kept<'a>(tokens: Seq<Token<'a>>)
    requires
        free_of_layout(tokens),
    ensures
        normalized(tokens) == tokens,
{
    lemma_run_without_layout(tokens, tokens.len());
    assert(tokens.take(tokens.len() as int) =~= tokens);
}

} // verus!
