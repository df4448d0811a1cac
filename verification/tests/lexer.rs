use kamai::syntax::insensitive_layout::Layout;
use kamai::syntax::lexer::Lexer;
use kamai::syntax::tokens::{SourceSpan, Token, TokenKind};

fn tok<'a>(kind: TokenKind<'a>, start: usize, end: usize) -> Token<'a> {
    Token { kind, span: SourceSpan { start, end } }
}

fn scan(code: &str) -> Vec<Token<'_>> {
    Lexer::new(code).tokenize()
}

#[test]
fn identifier_between_blanks() {
    assert_eq!(scan(" ab_cd_e "), vec![tok(TokenKind::Ident("ab_cd_e"), 1, 8)]);
}

#[test]
fn unit_is_one_token() {
    assert_eq!(scan(" () "), vec![tok(TokenKind::Unit, 1, 3)]);
    assert_eq!(
        scan("( )"),
        vec![tok(TokenKind::LParen, 0, 1), tok(TokenKind::RParen, 2, 3)]
    );
    assert_eq!(
        scan("(()"),
        vec![tok(TokenKind::LParen, 0, 1), tok(TokenKind::Unit, 1, 3)]
    );
}

#[test]
fn number() {
    assert_eq!(scan(" 15 "), vec![tok(TokenKind::Number(15), 1, 3)]);
    assert_eq!(scan("007"), vec![tok(TokenKind::Number(7), 0, 3)]);
    assert_eq!(scan("0"), vec![tok(TokenKind::Number(0), 0, 1)]);
}

#[test]
fn largest_number() {
    assert_eq!(
        scan("9223372036854775807"),
        vec![tok(TokenKind::Number(i64::MAX), 0, 19)]
    );
}

/// A number beyond the largest is one token of kind `Error`, as long as
/// its digits.
#[test]
fn number_too_large() {
    assert_eq!(scan("9223372036854775808"), vec![tok(TokenKind::Error, 0, 19)]);
    assert_eq!(
        scan("99999999999999999999999 1"),
        vec![tok(TokenKind::Error, 0, 23), tok(TokenKind::Number(1), 24, 25)]
    );
}

#[test]
fn equal_sign_and_semicolon() {
    assert_eq!(scan(" = "), vec![tok(TokenKind::Eq, 1, 2)]);
    assert_eq!(scan(" ; "), vec![tok(TokenKind::Semicolon, 1, 2)]);
}

#[test]
fn number_between_parentheses() {
    assert_eq!(
        scan(" (5) "),
        vec![
            tok(TokenKind::LParen, 1, 2),
            tok(TokenKind::Number(5), 2, 3),
            tok(TokenKind::RParen, 3, 4),
        ]
    );
}

#[test]
fn instructions_between_braces() {
    assert_eq!(
        scan(" { 5; 15 } "),
        vec![
            tok(TokenKind::LBrace, 1, 2),
            tok(TokenKind::Number(5), 3, 4),
            tok(TokenKind::Semicolon, 4, 5),
            tok(TokenKind::Number(15), 6, 8),
            tok(TokenKind::RBrace, 9, 10),
        ]
    );
}

#[test]
fn operators_side_by_side() {
    assert_eq!(
        scan(" +/*- "),
        vec![
            tok(TokenKind::Op("+"), 1, 2),
            tok(TokenKind::Op("/"), 2, 3),
            tok(TokenKind::Op("*"), 3, 4),
            tok(TokenKind::Op("-"), 4, 5),
        ]
    );
}

/// An operator takes its second character where it has one.
#[test]
fn operators_of_two_characters() {
    assert_eq!(
        scan("<= >= == != && || < > ! ="),
        vec![
            tok(TokenKind::Op("<="), 0, 2),
            tok(TokenKind::Op(">="), 3, 5),
            tok(TokenKind::Op("=="), 6, 8),
            tok(TokenKind::Op("!="), 9, 11),
            tok(TokenKind::Op("&&"), 12, 14),
            tok(TokenKind::Op("||"), 15, 17),
            tok(TokenKind::Op("<"), 18, 19),
            tok(TokenKind::Op(">"), 20, 21),
            tok(TokenKind::Op("!"), 22, 23),
            tok(TokenKind::Eq, 24, 25),
        ]
    );
    assert_eq!(
        scan("==="),
        vec![tok(TokenKind::Op("=="), 0, 2), tok(TokenKind::Eq, 2, 3)]
    );
    assert_eq!(
        scan("!=="),
        vec![tok(TokenKind::Op("!="), 0, 2), tok(TokenKind::Eq, 2, 3)]
    );
}

/// `&` and `|` are operators only in pairs.
#[test]
fn half_an_operator_is_an_error() {
    assert_eq!(
        scan("a & b"),
        vec![
            tok(TokenKind::Ident("a"), 0, 1),
            tok(TokenKind::Error, 2, 3),
            tok(TokenKind::Ident("b"), 4, 5),
        ]
    );
    assert_eq!(
        scan("&&&"),
        vec![tok(TokenKind::Op("&&"), 0, 2), tok(TokenKind::Error, 2, 3)]
    );
    assert_eq!(
        scan("|&"),
        vec![tok(TokenKind::Error, 0, 1), tok(TokenKind::Error, 1, 2)]
    );
}

#[test]
fn keywords_and_truth_values() {
    assert_eq!(
        scan("fn continue break return if then else while true false"),
        vec![
            tok(TokenKind::Fn, 0, 2),
            tok(TokenKind::Continue, 3, 11),
            tok(TokenKind::Break, 12, 17),
            tok(TokenKind::Return, 18, 24),
            tok(TokenKind::If, 25, 27),
            tok(TokenKind::Then, 28, 32),
            tok(TokenKind::Else, 33, 37),
            tok(TokenKind::While, 38, 43),
            tok(TokenKind::Bool(true), 44, 48),
            tok(TokenKind::Bool(false), 49, 54),
        ]
    );
}

/// A word that goes on beyond a keyword is an identifier.
#[test]
fn words_that_begin_like_keywords() {
    assert_eq!(
        scan("iffy truex True then_ _if"),
        vec![
            tok(TokenKind::Ident("iffy"), 0, 4),
            tok(TokenKind::Ident("truex"), 5, 10),
            tok(TokenKind::Ident("True"), 11, 15),
            tok(TokenKind::Ident("then_"), 16, 21),
            tok(TokenKind::Ident("_if"), 22, 25),
        ]
    );
}

/// A word cannot begin with a digit, but can hold one.
#[test]
fn digits_and_words() {
    assert_eq!(
        scan("x1 1x"),
        vec![
            tok(TokenKind::Ident("x1"), 0, 2),
            tok(TokenKind::Number(1), 3, 4),
            tok(TokenKind::Ident("x"), 4, 5),
        ]
    );
}

/// The characters between `Z` and `a` begin a word as letters do, but do
/// not go one on.
#[test]
fn characters_between_the_letters() {
    assert_eq!(scan("[a"), vec![tok(TokenKind::Ident("[a"), 0, 2)]);
    assert_eq!(
        scan("a[b"),
        vec![tok(TokenKind::Ident("a"), 0, 1), tok(TokenKind::Ident("[b"), 1, 3)]
    );
    assert_eq!(scan("^"), vec![tok(TokenKind::Ident("^"), 0, 1)]);
    assert_eq!(scan("`x_1"), vec![tok(TokenKind::Ident("`x_1"), 0, 4)]);
}

/// Line breaks that follow each other are one token; blanks between them
/// part them.
#[test]
fn line_breaks() {
    assert_eq!(
        scan("a\n\n\nb"),
        vec![
            tok(TokenKind::Ident("a"), 0, 1),
            tok(TokenKind::Newline, 1, 4),
            tok(TokenKind::Ident("b"), 4, 5),
        ]
    );
    assert_eq!(
        scan("\n \n"),
        vec![tok(TokenKind::Newline, 0, 1), tok(TokenKind::Newline, 2, 3)]
    );
}

#[test]
fn blanks_are_dropped() {
    assert_eq!(scan(""), Vec::new());
    assert_eq!(scan(" \t\u{c} "), Vec::new());
}

/// A character that begins no token is an error of its own.
#[test]
fn characters_that_begin_no_token() {
    assert_eq!(
        scan("a\r#~"),
        vec![
            tok(TokenKind::Ident("a"), 0, 1),
            tok(TokenKind::Error, 1, 2),
            tok(TokenKind::Error, 2, 3),
            tok(TokenKind::Error, 3, 4),
        ]
    );
}

/// A character beyond ASCII begins no token: it is an error of its own.
/// Spans count characters.
#[test]
fn characters_beyond_ascii() {
    assert_eq!(
        scan("\u{e9} ab"),
        vec![tok(TokenKind::Error, 0, 1), tok(TokenKind::Ident("ab"), 2, 4)]
    );
    assert_eq!(
        scan("x\u{4e2d}y = \u{e9}\u{e9}<=1"),
        vec![
            tok(TokenKind::Ident("x"), 0, 1),
            tok(TokenKind::Error, 1, 2),
            tok(TokenKind::Ident("y"), 2, 3),
            tok(TokenKind::Eq, 4, 5),
            tok(TokenKind::Error, 6, 7),
            tok(TokenKind::Error, 7, 8),
            tok(TokenKind::Op("<="), 8, 10),
            tok(TokenKind::Number(1), 10, 11),
        ]
    );
    assert_eq!(scan("\u{7f}\u{80}"), vec![tok(TokenKind::Error, 0, 1), tok(TokenKind::Error, 1, 2)]);
}

/// A scanner stands at the first character of any text.
#[test]
fn scanner_of_any_text() {
    for code in ["", "xy", "\u{e9}t\u{e9}", " (5) ", "\u{1f600}"] {
        let lexer = Lexer::new(code);
        assert_eq!(lexer.current(), code.chars().next());
        assert_eq!(lexer.is_empty(), code.is_empty());
    }
}

#[test]
fn scanner_begins_at_the_first_character() {
    let lexer = Lexer::new("xy");
    assert_eq!(lexer.current(), Some('x'));
    assert!(!lexer.is_empty());
    let lexer = Lexer::new("");
    assert_eq!(lexer.current(), None);
    assert!(lexer.is_empty());
}

/// From text to explicit tokens.
#[test]
fn scanned_text_is_laid_out() {
    let code = "a = 1 + 2\n      * 3\n  if 2 then a else b";
    let tokens = scan(code);
    let output = Layout::new(tokens).into_insensitive().unwrap();
    let kinds: Vec<TokenKind<'_>> = output.iter().map(|token| token.kind).collect();
    assert_eq!(
        kinds,
        vec![
            TokenKind::Ident("a"),
            TokenKind::Eq,
            TokenKind::LBrace,
            TokenKind::Number(1),
            TokenKind::Op("+"),
            TokenKind::Number(2),
            TokenKind::Op("*"),
            TokenKind::Number(3),
            TokenKind::Semicolon,
            TokenKind::RBrace,
            TokenKind::Semicolon,
            TokenKind::If,
            TokenKind::Number(2),
            TokenKind::Then,
            TokenKind::LBrace,
            TokenKind::Ident("a"),
            TokenKind::Semicolon,
            TokenKind::RBrace,
            TokenKind::Semicolon,
            TokenKind::Else,
            TokenKind::LBrace,
            TokenKind::Ident("b"),
            TokenKind::Semicolon,
            TokenKind::RBrace,
            TokenKind::Semicolon,
        ]
    );
}

/// A scanner that has moved on scans what is left.
#[test]
fn scanner_that_has_moved_on() {
    let mut lexer = Lexer::new("ab cd");
    lexer.advance(1);
    assert_eq!(lexer.current(), Some('b'));
    lexer.advance(1);
    assert_eq!(lexer.current(), Some(' '));
    assert_eq!(lexer.tokenize(), vec![tok(TokenKind::Ident("cd"), 3, 5)]);
    let mut lexer = Lexer::new("ab");
    lexer.advance(2);
    assert!(lexer.is_empty());
    assert_eq!(lexer.current(), None);
    let mut lexer = Lexer::new("a\u{e9}b");
    lexer.advance(2);
    assert_eq!(lexer.current(), Some('b'));
    lexer.advance(usize::MAX);
    assert!(lexer.is_empty());
    assert_eq!(lexer.current(), None);
    assert_eq!(lexer.tokenize(), Vec::new());
}
