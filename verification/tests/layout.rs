use kamai::syntax::insensitive_layout::{Context, ContextOpener, Contexts, Layout, LayoutState};
use kamai::syntax::lexer::Lexer;
use kamai::syntax::tokens::{SourceSpan, Token, TokenKind};

fn tok<'a>(kind: TokenKind<'a>, start: usize, end: usize) -> Token<'a> {
    Token { kind, span: SourceSpan { start, end } }
}

fn kinds<'a>(tokens: &[Token<'a>]) -> Vec<TokenKind<'a>> {
    tokens.iter().map(|token| token.kind).collect()
}

fn depth_after(tokens: &[Token<'_>], k: usize) -> i64 {
    let mut depth = 0;
    for token in &tokens[..k] {
        match token.kind {
            TokenKind::LBrace => depth += 1,
            TokenKind::RBrace => depth -= 1,
            _ => {}
        }
    }
    depth
}

#[test]
fn complex_case() {
    let tokens = vec![
        TokenKind::Ident("a"),
        TokenKind::Eq,
        TokenKind::LBrace,
        TokenKind::If,
        TokenKind::Number(2),
        TokenKind::Then,
        TokenKind::LBrace,
        TokenKind::If,
        TokenKind::Number(2),
        TokenKind::Then,
        TokenKind::LBrace,
        TokenKind::Number(3),
        TokenKind::Semicolon,
        TokenKind::RBrace,
        TokenKind::Semicolon,
        TokenKind::Else,
        TokenKind::LBrace,
        TokenKind::If,
        TokenKind::Ident("True"),
        TokenKind::Then,
        TokenKind::LBrace,
        TokenKind::Number(4),
        TokenKind::Semicolon,
        TokenKind::RBrace,
        TokenKind::Semicolon,
        TokenKind::Else,
        TokenKind::LBrace,
        TokenKind::Number(4),
        TokenKind::Semicolon,
        TokenKind::RBrace,
        TokenKind::Semicolon,
        TokenKind::RBrace,
        TokenKind::Semicolon,
        TokenKind::RBrace,
        TokenKind::Semicolon,
        TokenKind::Else,
        TokenKind::LBrace,
        TokenKind::Ident("a"),
        TokenKind::Eq,
        TokenKind::LBrace,
        TokenKind::Number(3),
        TokenKind::Semicolon,
        TokenKind::Number(24),
        TokenKind::Semicolon,
        TokenKind::RBrace,
        TokenKind::Semicolon,
        TokenKind::Number(5),
        TokenKind::Semicolon,
        TokenKind::RBrace,
        TokenKind::Semicolon,
        TokenKind::Number(5),
        TokenKind::Semicolon,
        TokenKind::RBrace,
        TokenKind::Semicolon,
    ];
    let code = "a = if 2 
        then
          if 2 then 3 else if True then 4 else 4
        else a = 3
                 24
             5
        5";
    let test_tokens: Vec<Token<'_>> = Lexer::new(code).tokenize();
    let vec: Vec<TokenKind<'_>> = Layout::new(test_tokens)
        .into_insensitive()
        .unwrap()
        .into_iter()
        .map(|Token { kind, .. }| kind)
        .collect();
    assert_eq!(vec.len(), tokens.len());
    for (tok1, tok2) in vec.into_iter().zip(tokens.into_iter()) {
        assert_eq!(tok1, tok2)
    }
}

/// `a = if 2 then 3 else 4` on one line: the `else` closes the block of the `then`
/// right before it, so that the two blocks stand side by side.
#[test]
fn one_line_if_then_else() {
    let input = vec![
        tok(TokenKind::Ident("a"), 0, 1),
        tok(TokenKind::Eq, 2, 3),
        tok(TokenKind::If, 4, 6),
        tok(TokenKind::Number(2), 7, 8),
        tok(TokenKind::Then, 9, 13),
        tok(TokenKind::Number(3), 14, 15),
        tok(TokenKind::Else, 16, 20),
        tok(TokenKind::Number(4), 21, 22),
    ];
    let expected = vec![
        tok(TokenKind::Ident("a"), 0, 1),
        tok(TokenKind::Eq, 2, 3),
        tok(TokenKind::LBrace, 3, 3),
        tok(TokenKind::If, 4, 6),
        tok(TokenKind::Number(2), 7, 8),
        tok(TokenKind::Then, 9, 13),
        tok(TokenKind::LBrace, 13, 13),
        tok(TokenKind::Number(3), 14, 15),
        tok(TokenKind::Semicolon, 20, 20),
        tok(TokenKind::RBrace, 20, 20),
        tok(TokenKind::Semicolon, 20, 20),
        tok(TokenKind::Else, 16, 20),
        tok(TokenKind::LBrace, 20, 20),
        tok(TokenKind::Number(4), 21, 22),
        tok(TokenKind::Semicolon, 22, 22),
        tok(TokenKind::RBrace, 22, 22),
        tok(TokenKind::Semicolon, 22, 22),
        tok(TokenKind::Semicolon, 22, 22),
        tok(TokenKind::RBrace, 22, 22),
        tok(TokenKind::Semicolon, 22, 22),
    ];
    let output = Layout::new(input).into_insensitive().unwrap();
    assert_eq!(output, expected);
}

/// ```text
/// a = 5
///     a = 8 * 2
///       5
///     2
/// ```
/// The `5` of the third line stands left of the `8` with which the inner block
/// began, and closes it; the outer block is closed where the input ends.
#[test]
fn column_closes_inner_block() {
    let input = vec![
        tok(TokenKind::Ident("a"), 0, 1),
        tok(TokenKind::Eq, 2, 3),
        tok(TokenKind::Number(5), 4, 5),
        tok(TokenKind::Newline, 5, 6),
        tok(TokenKind::Ident("a"), 10, 11),
        tok(TokenKind::Eq, 12, 13),
        tok(TokenKind::Number(8), 14, 15),
        tok(TokenKind::Op("*"), 16, 17),
        tok(TokenKind::Number(2), 18, 19),
        tok(TokenKind::Newline, 19, 20),
        tok(TokenKind::Number(5), 26, 27),
        tok(TokenKind::Newline, 27, 28),
        tok(TokenKind::Number(2), 32, 33),
    ];
    let expected = vec![
        tok(TokenKind::Ident("a"), 0, 1),
        tok(TokenKind::Eq, 2, 3),
        tok(TokenKind::LBrace, 3, 3),
        tok(TokenKind::Number(5), 4, 5),
        tok(TokenKind::Semicolon, 6, 6),
        tok(TokenKind::Ident("a"), 10, 11),
        tok(TokenKind::Eq, 12, 13),
        tok(TokenKind::LBrace, 13, 13),
        tok(TokenKind::Number(8), 14, 15),
        tok(TokenKind::Op("*"), 16, 17),
        tok(TokenKind::Number(2), 18, 19),
        tok(TokenKind::Semicolon, 20, 20),
        tok(TokenKind::RBrace, 27, 27),
        tok(TokenKind::Semicolon, 27, 27),
        tok(TokenKind::Number(5), 26, 27),
        tok(TokenKind::Semicolon, 28, 28),
        tok(TokenKind::Number(2), 32, 33),
        tok(TokenKind::Semicolon, 33, 33),
        tok(TokenKind::RBrace, 33, 33),
        tok(TokenKind::Semicolon, 33, 33),
    ];
    let output = Layout::new(input).into_insensitive().unwrap();
    assert_eq!(output, expected);
}

/// ```text
/// a = 5
///     a = 8 * 2
///         5
///     2
/// ```
/// The `5` of the third line stands below the `8`: it belongs to the inner
/// block, which the `2` of the last line closes.
#[test]
fn column_keeps_inner_block_open() {
    let input = vec![
        tok(TokenKind::Ident("a"), 0, 1),
        tok(TokenKind::Eq, 2, 3),
        tok(TokenKind::Number(5), 4, 5),
        tok(TokenKind::Newline, 5, 6),
        tok(TokenKind::Ident("a"), 10, 11),
        tok(TokenKind::Eq, 12, 13),
        tok(TokenKind::Number(8), 14, 15),
        tok(TokenKind::Op("*"), 16, 17),
        tok(TokenKind::Number(2), 18, 19),
        tok(TokenKind::Newline, 19, 20),
        tok(TokenKind::Number(5), 28, 29),
        tok(TokenKind::Newline, 29, 30),
        tok(TokenKind::Number(2), 34, 35),
    ];
    let expected = vec![
        tok(TokenKind::Ident("a"), 0, 1),
        tok(TokenKind::Eq, 2, 3),
        tok(TokenKind::LBrace, 3, 3),
        tok(TokenKind::Number(5), 4, 5),
        tok(TokenKind::Semicolon, 6, 6),
        tok(TokenKind::Ident("a"), 10, 11),
        tok(TokenKind::Eq, 12, 13),
        tok(TokenKind::LBrace, 13, 13),
        tok(TokenKind::Number(8), 14, 15),
        tok(TokenKind::Op("*"), 16, 17),
        tok(TokenKind::Number(2), 18, 19),
        tok(TokenKind::Semicolon, 20, 20),
        tok(TokenKind::Number(5), 28, 29),
        tok(TokenKind::Semicolon, 30, 30),
        tok(TokenKind::RBrace, 35, 35),
        tok(TokenKind::Semicolon, 35, 35),
        tok(TokenKind::Number(2), 34, 35),
        tok(TokenKind::Semicolon, 35, 35),
        tok(TokenKind::RBrace, 35, 35),
        tok(TokenKind::Semicolon, 35, 35),
    ];
    let output = Layout::new(input).into_insensitive().unwrap();
    assert_eq!(output, expected);
}

/// A line that begins with an operator carries the line before it on.
#[test]
fn operator_continues_the_line_before() {
    let input = vec![
        tok(TokenKind::Ident("a"), 0, 1),
        tok(TokenKind::Eq, 2, 3),
        tok(TokenKind::Number(1), 4, 5),
        tok(TokenKind::Op("+"), 6, 7),
        tok(TokenKind::Number(2), 8, 9),
        tok(TokenKind::Newline, 9, 10),
        tok(TokenKind::Op("*"), 16, 17),
        tok(TokenKind::Number(3), 18, 19),
        tok(TokenKind::Newline, 19, 20),
        tok(TokenKind::Ident("b"), 20, 21),
    ];
    let expected = vec![
        tok(TokenKind::Ident("a"), 0, 1),
        tok(TokenKind::Eq, 2, 3),
        tok(TokenKind::LBrace, 3, 3),
        tok(TokenKind::Number(1), 4, 5),
        tok(TokenKind::Op("+"), 6, 7),
        tok(TokenKind::Number(2), 8, 9),
        tok(TokenKind::Op("*"), 16, 17),
        tok(TokenKind::Number(3), 18, 19),
        tok(TokenKind::Semicolon, 20, 20),
        tok(TokenKind::RBrace, 21, 21),
        tok(TokenKind::Semicolon, 21, 21),
        tok(TokenKind::Ident("b"), 20, 21),
    ];
    let output = Layout::new(input).into_insensitive().unwrap();
    assert_eq!(output, expected);
}

/// Braces and semicolons of the input reach the output as they are.
#[test]
fn explicit_braces_pass_through() {
    let input = vec![
        tok(TokenKind::LBrace, 0, 1),
        tok(TokenKind::Number(1), 2, 3),
        tok(TokenKind::Semicolon, 4, 5),
        tok(TokenKind::Number(2), 6, 7),
        tok(TokenKind::RBrace, 8, 9),
        tok(TokenKind::Newline, 9, 10),
        tok(TokenKind::Semicolon, 10, 11),
    ];
    let expected = vec![
        tok(TokenKind::LBrace, 0, 1),
        tok(TokenKind::Number(1), 2, 3),
        tok(TokenKind::Semicolon, 4, 5),
        tok(TokenKind::Number(2), 6, 7),
        tok(TokenKind::RBrace, 8, 9),
        tok(TokenKind::Semicolon, 10, 10),
        tok(TokenKind::Semicolon, 10, 11),
    ];
    let output = Layout::new(input).into_insensitive().unwrap();
    assert_eq!(output, expected);
}

/// Two blocks that are open where the input ends are closed innermost first,
/// each by a `;`, its `}`, and a `;`.
#[test]
fn nested_bindings_close_at_the_end() {
    let input = vec![
        tok(TokenKind::Ident("a"), 0, 1),
        tok(TokenKind::Eq, 2, 3),
        tok(TokenKind::Ident("b"), 4, 5),
        tok(TokenKind::Eq, 6, 7),
        tok(TokenKind::Number(5), 8, 9),
    ];
    let expected = vec![
        tok(TokenKind::Ident("a"), 0, 1),
        tok(TokenKind::Eq, 2, 3),
        tok(TokenKind::LBrace, 3, 3),
        tok(TokenKind::Ident("b"), 4, 5),
        tok(TokenKind::Eq, 6, 7),
        tok(TokenKind::LBrace, 7, 7),
        tok(TokenKind::Number(5), 8, 9),
        tok(TokenKind::Semicolon, 9, 9),
        tok(TokenKind::RBrace, 9, 9),
        tok(TokenKind::Semicolon, 9, 9),
        tok(TokenKind::Semicolon, 9, 9),
        tok(TokenKind::RBrace, 9, 9),
        tok(TokenKind::Semicolon, 9, 9),
    ];
    let output = Layout::new(input).into_insensitive().unwrap();
    assert_eq!(output, expected);
}

/// `then` at the beginning of a line carries the line before it on; the
/// `else` below it closes its block by its column.
#[test]
fn then_and_else_on_their_own_lines() {
    let input = vec![
        tok(TokenKind::If, 0, 2),
        tok(TokenKind::Ident("c"), 3, 4),
        tok(TokenKind::Newline, 4, 5),
        tok(TokenKind::Then, 5, 9),
        tok(TokenKind::Number(1), 10, 11),
        tok(TokenKind::Newline, 11, 12),
        tok(TokenKind::Else, 12, 16),
        tok(TokenKind::Number(2), 17, 18),
    ];
    let expected = vec![
        tok(TokenKind::If, 0, 2),
        tok(TokenKind::Ident("c"), 3, 4),
        tok(TokenKind::Then, 5, 9),
        tok(TokenKind::LBrace, 9, 9),
        tok(TokenKind::Number(1), 10, 11),
        tok(TokenKind::Semicolon, 12, 12),
        tok(TokenKind::RBrace, 16, 16),
        tok(TokenKind::Semicolon, 16, 16),
        tok(TokenKind::Else, 12, 16),
        tok(TokenKind::LBrace, 16, 16),
        tok(TokenKind::Number(2), 17, 18),
        tok(TokenKind::Semicolon, 18, 18),
        tok(TokenKind::RBrace, 18, 18),
        tok(TokenKind::Semicolon, 18, 18),
    ];
    let output = Layout::new(input).into_insensitive().unwrap();
    assert_eq!(output, expected);
}

/// The output holds as many `}` as `{`, and no prefix of it holds more `}`
/// than `{`.
#[test]
fn braces_balance_in_every_prefix() {
    let input = vec![
        tok(TokenKind::Ident("a"), 0, 1),
        tok(TokenKind::Eq, 2, 3),
        tok(TokenKind::If, 4, 6),
        tok(TokenKind::Number(2), 7, 8),
        tok(TokenKind::Then, 9, 13),
        tok(TokenKind::Number(3), 14, 15),
        tok(TokenKind::Else, 16, 20),
        tok(TokenKind::Ident("b"), 21, 22),
        tok(TokenKind::Eq, 23, 24),
        tok(TokenKind::Number(4), 25, 26),
        tok(TokenKind::Newline, 26, 27),
        tok(TokenKind::Ident("c"), 27, 28),
    ];
    let output = Layout::new(input).into_insensitive().unwrap();
    assert_eq!(depth_after(&output, output.len()), 0);
    for k in 0..=output.len() {
        assert!(depth_after(&output, k) >= 0);
    }
    let opened = output.iter().filter(|token| token.kind == TokenKind::LBrace).count();
    assert_eq!(opened, 4);
}

/// Braces of the input count with those that are inserted: an input that is
/// one `{` deep gives an output that is one `{` deep.
#[test]
fn braces_of_the_input_keep_their_depth() {
    let input = vec![
        tok(TokenKind::LBrace, 0, 1),
        tok(TokenKind::Ident("a"), 2, 3),
        tok(TokenKind::Eq, 4, 5),
        tok(TokenKind::Number(1), 6, 7),
    ];
    let output = Layout::new(input).into_insensitive().unwrap();
    assert_eq!(depth_after(&output, output.len()), 1);
    assert_eq!(
        kinds(&output),
        vec![
            TokenKind::LBrace,
            TokenKind::Ident("a"),
            TokenKind::Eq,
            TokenKind::LBrace,
            TokenKind::Number(1),
            TokenKind::Semicolon,
            TokenKind::RBrace,
            TokenKind::Semicolon,
        ]
    );
}

/// Without the tokens of empty span that the pass inserted, the output is
/// the input without its line breaks.
#[test]
fn tokens_of_the_input_pass_through_in_order() {
    let input = vec![
        tok(TokenKind::Ident("f"), 0, 1),
        tok(TokenKind::Ident("x"), 2, 3),
        tok(TokenKind::Eq, 4, 5),
        tok(TokenKind::LBrace, 6, 7),
        tok(TokenKind::Ident("x"), 8, 9),
        tok(TokenKind::Semicolon, 9, 10),
        tok(TokenKind::RBrace, 11, 12),
        tok(TokenKind::Newline, 12, 13),
        tok(TokenKind::Ident("g"), 13, 14),
        tok(TokenKind::Semicolon, 14, 15),
    ];
    let literal: Vec<Token<'_>> = input
        .iter()
        .filter(|token| token.kind != TokenKind::Newline)
        .copied()
        .collect();
    let output = Layout::new(input).into_insensitive().unwrap();
    let kept: Vec<Token<'_>> = output
        .iter()
        .filter(|token| token.span.start != token.span.end)
        .copied()
        .collect();
    assert_eq!(kept, literal);
    for token in output.iter().filter(|token| token.span.start == token.span.end) {
        assert!(matches!(
            token.kind,
            TokenKind::LBrace | TokenKind::RBrace | TokenKind::Semicolon
        ));
    }
}

/// No line break reaches the output, and every opener is followed by a `{`
/// at its end.
#[test]
fn output_is_explicit() {
    let input = vec![
        tok(TokenKind::If, 0, 2),
        tok(TokenKind::Ident("c"), 3, 4),
        tok(TokenKind::Newline, 4, 5),
        tok(TokenKind::Then, 5, 9),
        tok(TokenKind::Number(1), 10, 11),
        tok(TokenKind::Newline, 11, 12),
        tok(TokenKind::Else, 12, 16),
        tok(TokenKind::Number(2), 17, 18),
        tok(TokenKind::Newline, 18, 19),
    ];
    let output = Layout::new(input).into_insensitive().unwrap();
    for (i, token) in output.iter().enumerate() {
        assert_ne!(token.kind, TokenKind::Newline);
        if matches!(token.kind, TokenKind::Eq | TokenKind::Then | TokenKind::Else) {
            assert_eq!(output[i + 1], tok(TokenKind::LBrace, token.span.end, token.span.end));
        }
    }
}

#[test]
fn empty_input_gives_empty_output() {
    let output = Layout::new(Vec::new()).into_insensitive().unwrap();
    assert_eq!(output, Vec::new());
}

/// A line break at the end of the input ends the instruction under way, and
/// one after an instruction that has ended already does so once more.
#[test]
fn line_break_at_the_end_ends_the_instruction() {
    let input = vec![tok(TokenKind::Number(1), 0, 1), tok(TokenKind::Newline, 1, 2)];
    let output = Layout::new(input).into_insensitive().unwrap();
    assert_eq!(output, vec![tok(TokenKind::Number(1), 0, 1), tok(TokenKind::Semicolon, 2, 2)]);

    let input = vec![tok(TokenKind::Semicolon, 0, 1), tok(TokenKind::Newline, 1, 2)];
    let output = Layout::new(input).into_insensitive().unwrap();
    assert_eq!(output, vec![tok(TokenKind::Semicolon, 0, 1), tok(TokenKind::Semicolon, 2, 2)]);
}

/// A line break between two instructions inserts nothing where the first
/// has ended already.
#[test]
fn line_break_after_a_semicolon_inserts_nothing() {
    let input = vec![
        tok(TokenKind::Number(1), 0, 1),
        tok(TokenKind::Semicolon, 1, 2),
        tok(TokenKind::Newline, 2, 3),
        tok(TokenKind::Number(2), 3, 4),
    ];
    let output = Layout::new(input).into_insensitive().unwrap();
    assert_eq!(
        output,
        vec![
            tok(TokenKind::Number(1), 0, 1),
            tok(TokenKind::Semicolon, 1, 2),
            tok(TokenKind::Number(2), 3, 4),
        ]
    );
}

/// A `=` that nothing follows opens a block at the column of its own end;
/// the end of the input closes it by all three tokens.
#[test]
fn binding_without_a_body() {
    let input = vec![tok(TokenKind::Ident("a"), 0, 1), tok(TokenKind::Eq, 2, 3)];
    let output = Layout::new(input).into_insensitive().unwrap();
    assert_eq!(
        output,
        vec![
            tok(TokenKind::Ident("a"), 0, 1),
            tok(TokenKind::Eq, 2, 3),
            tok(TokenKind::LBrace, 3, 3),
            tok(TokenKind::Semicolon, 3, 3),
            tok(TokenKind::RBrace, 3, 3),
            tok(TokenKind::Semicolon, 3, 3),
        ]
    );
}

/// A block of `=` stays open at its column and closes left of it.
#[test]
fn equal_context_closes_left_of_its_column() {
    let context = Context { opener: ContextOpener::Equal, line_anchor: 0, column: 4 };
    assert!(!context.is_closed_by(&TokenKind::Number(1), 4, 0));
    assert!(!context.is_closed_by(&TokenKind::Number(1), 5, 0));
    assert!(context.is_closed_by(&TokenKind::Number(1), 3, 0));
    assert!(context.is_closed_by(&TokenKind::Number(1), 13, 10));
    assert!(!context.is_closed_by(&TokenKind::Else, 9, 0));
}

/// A block of `then` or `else` closes at its column too.
#[test]
fn then_and_else_contexts_close_at_their_column() {
    let then = Context { opener: ContextOpener::Then, line_anchor: 0, column: 4 };
    assert!(then.is_closed_by(&TokenKind::Number(1), 4, 0));
    assert!(then.is_closed_by(&TokenKind::Number(1), 2, 0));
    assert!(!then.is_closed_by(&TokenKind::Number(1), 5, 0));
    let otherwise = Context { opener: ContextOpener::Else, line_anchor: 0, column: 4 };
    assert!(otherwise.is_closed_by(&TokenKind::Number(1), 4, 0));
    assert!(!otherwise.is_closed_by(&TokenKind::Number(1), 5, 0));
    assert!(!otherwise.is_closed_by(&TokenKind::Else, 9, 0));
}

/// An `else` closes the `then` of its own line wherever it stands, and the
/// `then` of another line by its column only.
#[test]
fn else_closes_the_then_of_its_line() {
    let then = Context { opener: ContextOpener::Then, line_anchor: 10, column: 4 };
    assert!(then.is_closed_by(&TokenKind::Else, 30, 10));
    assert!(!then.is_closed_by(&TokenKind::Else, 30, 20));
    assert!(then.is_closed_by(&TokenKind::Else, 24, 20));
    assert!(!then.is_closed_by(&TokenKind::Number(1), 30, 10));
}

#[test]
fn openers_come_from_their_tokens() {
    assert_eq!(ContextOpener::try_from(&TokenKind::Eq), Ok(ContextOpener::Equal));
    assert_eq!(ContextOpener::try_from(&TokenKind::Then), Ok(ContextOpener::Then));
    assert_eq!(ContextOpener::try_from(&TokenKind::Else), Ok(ContextOpener::Else));
    assert_eq!(ContextOpener::try_from(&TokenKind::If), Err(()));
    assert_eq!(ContextOpener::try_from(&TokenKind::Op("=")), Err(()));
}

/// Closing goes from the innermost context outwards and stops at the first
/// context that the token does not close.
#[test]
fn close_contexts_stops_at_the_first_open_one() {
    let mut contexts = Contexts { stack: Vec::new() };
    contexts.push(Context { opener: ContextOpener::Equal, line_anchor: 0, column: 2 });
    contexts.push(Context { opener: ContextOpener::Then, line_anchor: 0, column: 6 });
    contexts.push(Context { opener: ContextOpener::Equal, line_anchor: 0, column: 9 });
    let mut state = LayoutState { just_closed: false, can_close_instr: true, last_newline: 20 };
    let mut written = vec![tok(TokenKind::Number(1), 10, 11)];
    contexts.close_contexts(&mut written, &tok(TokenKind::Number(7), 24, 25), &mut state);
    assert_eq!(
        written,
        vec![
            tok(TokenKind::Number(1), 10, 11),
            tok(TokenKind::Semicolon, 25, 25),
            tok(TokenKind::RBrace, 25, 25),
            tok(TokenKind::Semicolon, 25, 25),
            tok(TokenKind::RBrace, 25, 25),
            tok(TokenKind::Semicolon, 25, 25),
        ]
    );
    assert_eq!(
        contexts.stack,
        vec![Context { opener: ContextOpener::Equal, line_anchor: 0, column: 2 }]
    );
    assert_eq!(state, LayoutState { just_closed: true, can_close_instr: false, last_newline: 20 });
}

/// A token that closes nothing leaves everything as it is.
#[test]
fn close_contexts_without_effect() {
    let mut contexts = Contexts { stack: Vec::new() };
    contexts.push(Context { opener: ContextOpener::Equal, line_anchor: 0, column: 2 });
    let mut state = LayoutState { just_closed: false, can_close_instr: true, last_newline: 0 };
    let mut written = Vec::new();
    contexts.close_contexts(&mut written, &tok(TokenKind::Number(7), 2, 3), &mut state);
    assert_eq!(written, Vec::new());
    assert_eq!(contexts.stack.len(), 1);
    assert_eq!(state, LayoutState { just_closed: false, can_close_instr: true, last_newline: 0 });
}
