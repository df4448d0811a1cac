use vstd::prelude::*;

verus! {

/// A half-open range `[start, end)` of offsets into the source text.
#[derive(Debug, Clone, Copy, PartialEq, Eq, Structural)]
pub struct SourceSpan {
    pub start: usize,
    pub end: usize,
}

impl SourceSpan {
    /// The zero-width span at offset `at`.
    pub open spec fn spec_empty_at(at: usize) -> SourceSpan {
        SourceSpan { start: at, end: at }
    }

    /// The smallest span that holds both `self` and `other`.
    pub open spec fn spec_hull(self, other: SourceSpan) -> SourceSpan {
        SourceSpan {
            start: if self.start <= other.start { self.start } else { other.start },
            end: if self.end >= other.end { self.end } else { other.end },
        }
    }

    pub fn new(start: usize, end: usize) -> (span: SourceSpan)
        ensures
            span == (SourceSpan { start, end }),
    {
        SourceSpan { start, end }
    }

    /// The zero-width span at offset `at`.
    #[verifier::when_used_as_spec(spec_empty_at)]
    pub fn empty_at(at: usize) -> (span: SourceSpan)
        ensures
            span == Self::spec_empty_at(at),
    {
        SourceSpan { start: at, end: at }
    }

    /// The smallest span that holds both `self` and `other`: it starts at the
    /// smaller of the two starts and ends at the larger of the two ends.
    #[verifier::when_used_as_spec(spec_hull)]
    pub fn hull(self, other: SourceSpan) -> (span: SourceSpan)
        ensures
            span == self.spec_hull(other),
    {
        SourceSpan {
            start: if self.start <= other.start { self.start } else { other.start },
            end: if self.end >= other.end { self.end } else { other.end },
        }
    }
}

/// What a token is. `LBrace`, `RBrace` and `Semicolon` are written by the
/// programmer or inserted by the layout pass; readers of a token stream do
/// not tell the two apart.
#[derive(Debug, Clone, Copy, PartialEq)]
pub enum TokenKind<'a> {
    Number(i64),
    Bool(bool),
    Ident(&'a str),
    Unit,
    LParen,
    RParen,
    LBrace,
    RBrace,
    Semicolon,
    Fn,
    Continue,
    Break,
    Return,
    If,
    Then,
    Else,
    While,
    Newline,
    Eq,
    Op(&'a str),
    Error,
}

/// A token and the place in the source text that it was read from.
#[derive(Debug, Clone, Copy, PartialEq)]
pub struct Token<'a> {
    pub kind: TokenKind<'a>,
    pub span: SourceSpan,
}

impl<'a> Token<'a> {
    pub fn new(kind: TokenKind<'a>, span: SourceSpan) -> (token: Self)
        ensures
            token == (Token { kind, span }),
    {
        Self { kind, span }
    }
}

/// The tokens come in the order of the source text: no span ends before it
/// starts, and no token starts before one that comes earlier.
pub open spec fn in_source_order(tokens: Seq<Token>) -> bool {
    &&& forall|i: int| 0 <= i < tokens.len() ==> (#[trigger] tokens[i]).span.start <= tokens[i].span.end
    &&& forall|i: int, j: int|
        0 <= i <= j < tokens.len() ==> (#[trigger] tokens[i]).span.start <= (#[trigger] tokens[j]).span.start
}

/// Whether the tokens come in the order of the source text.
pub fn comes_in_source_order(tokens: &Vec<Token>) -> (ordered: bool)
    ensures
        ordered == in_source_order(tokens@),
{
    let n = tokens.len();
    let mut i: usize = 0;
    while i < n
        invariant
            i <= n,
            n == tokens@.len(),
            forall|k: int| 0 <= k < i ==> (#[trigger] tokens@[k]).span.start <= tokens@[k].span.end,
            forall|k: int, l: int|
                0 <= k <= l < i ==> (#[trigger] tokens@[k]).span.start <= (
                #[trigger] tokens@[l]).span.start,
        decreases n - i,
    {
        if tokens[i].span.start > tokens[i].span.end {
            return false;
        }
        if i > 0 && tokens[i - 1].span.start > tokens[i].span.start {
            return false;
        }
        i += 1;
    }
    true
}

/// `str`'s `==` (`PartialEq::eq`) holds exactly of two slices with the same
/// characters in the same order.
pub assume_specification[ <str as PartialEq>::eq ](a: &str, b: &str) -> (same: bool)
    ensures
        same == (a@ == b@),
;

/// [`TokenKind`] as a mathematical value: the text of an identifier or of
/// an operator is a sequence of characters.
pub enum TokenKindView {
    Number(i64),
    Bool(bool),
    Ident(Seq<char>),
    Unit,
    LParen,
    RParen,
    LBrace,
    RBrace,
    Semicolon,
    Fn,
    Continue,
    Break,
    Return,
    If,
    Then,
    Else,
    While,
    Newline,
    Eq,
    Op(Seq<char>),
    Error,
}

impl<'a> View for TokenKind<'a> {
    type V = TokenKindView;

    open spec fn view(&self) -> TokenKindView {
        match self {
            TokenKind::Number(n) => TokenKindView::Number(*n),
            TokenKind::Bool(b) => TokenKindView::Bool(*b),
            TokenKind::Ident(name) => TokenKindView::Ident(name@),
            TokenKind::Unit => TokenKindView::Unit,
            TokenKind::LParen => TokenKindView::LParen,
            TokenKind::RParen => TokenKindView::RParen,
            TokenKind::LBrace => TokenKindView::LBrace,
            TokenKind::RBrace => TokenKindView::RBrace,
            TokenKind::Semicolon => TokenKindView::Semicolon,
            TokenKind::Fn => TokenKindView::Fn,
            TokenKind::Continue => TokenKindView::Continue,
            TokenKind::Break => TokenKindView::Break,
            TokenKind::Return => TokenKindView::Return,
            TokenKind::If => TokenKindView::If,
            TokenKind::Then => TokenKindView::Then,
            TokenKind::Else => TokenKindView::Else,
            TokenKind::While => TokenKindView::While,
            TokenKind::Newline => TokenKindView::Newline,
            TokenKind::Eq => TokenKindView::Eq,
            TokenKind::Op(sym) => TokenKindView::Op(sym@),
            TokenKind::Error => TokenKindView::Error,
        }
    }
}

/// [`Token`] as a mathematical value.
pub struct TokenView {
    pub kind: TokenKindView,
    pub span: SourceSpan,
}

impl<'a> View for Token<'a> {
    type V = TokenView;

    open spec fn view(&self) -> TokenView {
        TokenView { kind: self.kind@, span: self.span }
    }
}

/// The tokens of `tokens` as mathematical values, in the same order.
pub open spec fn token_views<'a>(tokens: Seq<Token<'a>>) -> Seq<TokenView> {
    tokens.map_values(|token: Token<'a>| token@)
}

} // verus!
