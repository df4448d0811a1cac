//! The scanner: source text becomes tokens.

use crate::syntax::tokens::{
    in_source_order, token_views, SourceSpan, Token, TokenKind, TokenKindView, TokenView,
};
use vstd::prelude::*;
use vstd::string::*;

verus! {

/// A character that parts tokens and is none itself: a space, a tab or a
/// form feed.
pub open spec fn is_blank(c: char) -> bool {
    c == ' ' || c == '\t' || c == '\u{c}'
}

pub open spec fn is_digit(c: char) -> bool {
    '0' <= c <= '9'
}

/// A character that can begin an identifier: a letter, `_`, or one of the
/// other characters between `Z` and `a`, which are `[`, `\`, `]`, `^` and
/// `` ` ``.
pub open spec fn begins_word(c: char) -> bool {
    'A' <= c <= 'z'
}

/// A character that can go on an identifier: a letter, a digit or `_`.
pub open spec fn continues_word(c: char) -> bool {
    is_digit(c) || 'A' <= c <= 'Z' || 'a' <= c <= 'z' || c == '_'
}

/// How many characters from position `from` on are line breaks, up to the
/// first that is none.
pub open spec fn newlines_from(chars: Seq<char>, from: int) -> nat
    decreases chars.len() - from,
{
    if 0 <= from < chars.len() && chars[from] == '\n' {
        1 + newlines_from(chars, from + 1)
    } else {
        0
    }
}

/// How many characters from position `from` on are digits, up to the first
/// that is none.
pub open spec fn digits_from(chars: Seq<char>, from: int) -> nat
    decreases chars.len() - from,
{
    if 0 <= from < chars.len() && is_digit(chars[from]) {
        1 + digits_from(chars, from + 1)
    } else {
        0
    }
}

/// How many characters from position `from` on go on an identifier, up to
/// the first that does not.
pub open spec fn word_from(chars: Seq<char>, from: int) -> nat
    decreases chars.len() - from,
{
    if 0 <= from < chars.len() && continues_word(chars[from]) {
        1 + word_from(chars, from + 1)
    } else {
        0
    }
}

/// The number that the digits `digits` write in base ten.
pub open spec fn decimal(digits: Seq<char>) -> nat
    decreases digits.len(),
{
    if digits.len() == 0 {
        0
    } else {
        decimal(digits.drop_last()) * 10 + (digits.last() as nat - '0' as nat) as nat
    }
}

/// The token that the digits `digits` are: their number, or an error where
/// the number is too large.
pub open spec fn number_token(digits: Seq<char>) -> TokenKindView {
    if decimal(digits) <= i64::MAX {
        TokenKindView::Number(decimal(digits) as i64)
    } else {
        TokenKindView::Error
    }
}

/// The token that the word `word` is: a truth value, a keyword, or an
/// identifier.
pub open spec fn word_token(word: Seq<char>) -> TokenKindView {
    if word == "true"@ {
        TokenKindView::Bool(true)
    } else if word == "false"@ {
        TokenKindView::Bool(false)
    } else if word == "fn"@ {
        TokenKindView::Fn
    } else if word == "continue"@ {
        TokenKindView::Continue
    } else if word == "break"@ {
        TokenKindView::Break
    } else if word == "return"@ {
        TokenKindView::Return
    } else if word == "if"@ {
        TokenKindView::If
    } else if word == "then"@ {
        TokenKindView::Then
    } else if word == "else"@ {
        TokenKindView::Else
    } else if word == "while"@ {
        TokenKindView::While
    } else {
        TokenKindView::Ident(word)
    }
}

/// Whether `second` follows at position `at`.
pub open spec fn followed_by(chars: Seq<char>, at: int, second: char) -> bool {
    0 <= at < chars.len() && chars[at] == second
}

/// The token that begins at position `from` with a character that is
/// neither a blank, nor a line break, nor a digit, nor the beginning of a
/// word, and how many characters it takes: a parenthesis, a brace, `;`, `=`,
/// an operator, or an error of one character. `()` is one token, and an
/// operator takes its second character where it has one.
pub open spec fn symbol_at(chars: Seq<char>, from: int) -> (TokenKindView, nat) {
    let c = chars[from];
    let pair = chars.subrange(from, from + 2);
    let single = chars.subrange(from, from + 1);
    if c == '(' {
        if followed_by(chars, from + 1, ')') {
            (TokenKindView::Unit, 2)
        } else {
            (TokenKindView::LParen, 1)
        }
    } else if c == ')' {
        (TokenKindView::RParen, 1)
    } else if c == '{' {
        (TokenKindView::LBrace, 1)
    } else if c == '}' {
        (TokenKindView::RBrace, 1)
    } else if c == ';' {
        (TokenKindView::Semicolon, 1)
    } else if c == '=' {
        if followed_by(chars, from + 1, '=') {
            (TokenKindView::Op(pair), 2)
        } else {
            (TokenKindView::Eq, 1)
        }
    } else if c == '+' || c == '-' || c == '*' || c == '/' {
        (TokenKindView::Op(single), 1)
    } else if c == '<' || c == '>' || c == '!' {
        if followed_by(chars, from + 1, '=') {
            (TokenKindView::Op(pair), 2)
        } else {
            (TokenKindView::Op(single), 1)
        }
    } else if c == '&' || c == '|' {
        if followed_by(chars, from + 1, c) {
            (TokenKindView::Op(pair), 2)
        } else {
            (TokenKindView::Error, 1)
        }
    } else {
        (TokenKindView::Error, 1)
    }
}

/// The token that begins at position `from`, where a character stands
/// that is no blank, and how many characters it takes. Line breaks that
/// follow each other are one token, and so are digits; a word reaches as
/// far as letters, digits and `_` go on.
pub open spec fn lexeme_at(chars: Seq<char>, from: int) -> (TokenKindView, nat) {
    let c = chars[from];
    if c == '\n' {
        (TokenKindView::Newline, 1 + newlines_from(chars, from + 1))
    } else if is_digit(c) {
        let length = 1 + digits_from(chars, from + 1);
        (number_token(chars.subrange(from, from + length)), length)
    } else if begins_word(c) {
        let length = 1 + word_from(chars, from + 1);
        (word_token(chars.subrange(from, from + length)), length)
    } else {
        symbol_at(chars, from)
    }
}

/// How many characters are left at position `from`.
pub open spec fn chars_left(chars: Seq<char>, from: int) -> nat {
    if 0 <= from < chars.len() {
        (chars.len() - from) as nat
    } else {
        0
    }
}

/// The tokens of the text `chars` from position `from` on. Blanks part
/// tokens and are dropped.
pub open spec fn scanned(chars: Seq<char>, from: int) -> Seq<TokenView>
    decreases chars_left(chars, from),
{
    if from < 0 || from >= chars.len() {
        Seq::empty()
    } else if is_blank(chars[from]) {
        scanned(chars, from + 1)
    } else {
        let (kind, length) = lexeme_at(chars, from);
        seq![
            TokenView {
                kind,
                span: SourceSpan { start: from as usize, end: (from + length) as usize },
            },
        ] + scanned(chars, from + length)
    }
}

/// A scanner at one offset of a source text. Offsets count characters.
pub struct Lexer<'a> {
    code: &'a str,
    /// The characters of `code`, to be read by offset.
    chars: Vec<char>,
    /// `code` holds no character beyond ASCII, so that a part of it can be
    /// cut out by offsets at once.
    ascii: bool,
    current: usize,
}

impl<'a> Lexer<'a> {
    #[verifier::type_invariant]
    spec fn well_formed(&self) -> bool {
        &&& self.chars@ == self.code@
        &&& self.ascii ==> self.code.is_ascii()
        &&& self.current <= self.chars@.len()
    }

    /// The source text.
    pub closed spec fn source(&self) -> Seq<char> {
        self.code@
    }

    /// The offset of the character that is read next.
    pub closed spec fn offset(&self) -> int {
        self.current as int
    }

    /// A scanner at the beginning of `code`.
    pub fn new(code: &'a str) -> (lexer: Self)
        ensures
            lexer.source() == code@,
            lexer.offset() == 0,
    {
        let mut chars: Vec<char> = Vec::new();
        for c in it: code.chars()
            invariant
                it.seq() == code@,
                chars@ == code@.take(it.index() as int),
        {
            assert(c == code@[it.index() as int]);
            assert(code@.take(it.index() + 1) =~= code@.take(it.index() as int).push(c));
            chars.push(c);
        }
        assert(chars@ =~= code@);
        Lexer { code, chars, ascii: code.is_ascii(), current: 0 }
    }

    /// Moves on by `num` characters, or to the end of the text where fewer
    /// are left.
    pub fn advance(&mut self, num: usize)
        ensures
            final(self).source() == old(self).source(),
            final(self).offset() == if old(self).offset() + num <= old(self).source().len() {
                old(self).offset() + num
            } else {
                old(self).source().len() as int
            },
    {
        proof {
            use_type_invariant(&*self);
        }
        let n = self.chars.len();
        if num > n - self.current {
            self.current = n;
        } else {
            self.current = self.current + num;
        }
    }

    /// Whether the whole text has been read.
    pub fn is_empty(&self) -> (empty: bool)
        ensures
            empty == (self.offset() >= self.source().len()),
    {
        proof {
            use_type_invariant(self);
        }
        self.chars.len() <= self.current
    }

    /// The character that is read next, if one is left.
    pub fn current(&self) -> (c: Option<char>)
        ensures
            c == if self.offset() < self.source().len() {
                Some(self.source()[self.offset()])
            } else {
                None
            },
    {
        proof {
            use_type_invariant(self);
        }
        if self.current < self.chars.len() {
            Some(self.chars[self.current])
        } else {
            None
        }
    }

    /// The length of the source text.
    fn length(&self) -> (length: usize)
        ensures
            length == self.source().len(),
    {
        proof {
            use_type_invariant(self);
        }
        self.chars.len()
    }

    /// The character at offset `at`.
    fn char_at(&self, at: usize) -> (c: char)
        requires
            at < self.source().len(),
        ensures
            c == self.source()[at as int],
    {
        proof {
            use_type_invariant(self);
        }
        self.chars[at]
    }

    /// The text between the offsets `from` and `to`.
    fn slice(&self, from: usize, to: usize) -> (text: &'a str)
        requires
            from <= to <= self.source().len(),
        ensures
            text@ == self.source().subrange(from as int, to as int),
    {
        proof {
            use_type_invariant(self);
        }
        if self.ascii {
            self.code.substring_ascii(from, to)
        } else {
            self.code.substring_char(from, to)
        }
    }

    /// The offset behind the line breaks that begin at `from`.
    fn newlines_end(&self, from: usize) -> (end: usize)
        requires
            from <= self.source().len(),
        ensures
            end == from + newlines_from(self.source(), from as int),
            end <= self.source().len(),
    {
        let n = self.length();
        let mut end = from;
        while end < n && self.char_at(end) == '\n'
            invariant
                from <= end <= n,
                n == self.source().len(),
                end + newlines_from(self.source(), end as int) == from + newlines_from(
                    self.source(),
                    from as int,
                ),
            decreases n - end,
        {
            end += 1;
        }
        end
    }

    /// The offset behind the letters, digits and `_` that begin at `from`.
    fn word_end(&self, from: usize) -> (end: usize)
        requires
            from <= self.source().len(),
        ensures
            end == from + word_from(self.source(), from as int),
            end <= self.source().len(),
    {
        let n = self.length();
        let mut end = from;
        while end < n && Self::goes_on_a_word(self.char_at(end))
            invariant
                from <= end <= n,
                n == self.source().len(),
                end + word_from(self.source(), end as int) == from + word_from(
                    self.source(),
                    from as int,
                ),
            decreases n - end,
        {
            end += 1;
        }
        end
    }

    fn goes_on_a_word(c: char) -> (goes_on: bool)
        ensures
            goes_on == continues_word(c),
    {
        ('0' <= c && c <= '9') || ('A' <= c && c <= 'Z') || ('a' <= c && c <= 'z') || c == '_'
    }

    /// The number that begins at `from`, where a digit stands, and the
    /// offset behind it.
    fn number(&self, from: usize) -> (read: (TokenKind<'a>, usize))
        requires
            from < self.source().len(),
            is_digit(self.source()[from as int]),
        ensures
            read.1 == from + 1 + digits_from(self.source(), from + 1),
            read.1 <= self.source().len(),
            read.0@ == number_token(self.source().subrange(from as int, read.1 as int)),
    {
        let n = self.length();
        let ghost chars = self.source();
        let mut end = from;
        let mut value: Option<i64> = Some(0);
        assert(chars.subrange(from as int, from as int) =~= Seq::empty());
        while end < n && Self::is_a_digit(self.char_at(end))
            invariant
                from <= end <= n,
                n == chars.len(),
                chars == self.source(),
                is_digit(chars[from as int]),
                end + digits_from(chars, end as int) == from + digits_from(chars, from as int),
                match value {
                    Some(v) => 0 <= v && v == decimal(chars.subrange(from as int, end as int)),
                    None => decimal(chars.subrange(from as int, end as int)) > i64::MAX,
                },
            decreases n - end,
        {
            let c = self.char_at(end);
            let digit: i64 = (c as u8 - 48u8) as i64;
            proof {
                let longer = chars.subrange(from as int, end + 1);
                assert(longer.drop_last() =~= chars.subrange(from as int, end as int));
                assert(longer.last() == c);
                assert(digit == (c as nat - '0' as nat) as nat);
            }
            value = match value {
                Some(v) => if v > (i64::MAX - digit) / 10 {
                    None
                } else {
                    Some(v * 10 + digit)
                },
                None => None,
            };
            end += 1;
        }
        let kind = match value {
            Some(v) => TokenKind::Number(v),
            None => TokenKind::Error,
        };
        (kind, end)
    }

    fn is_a_digit(c: char) -> (digit: bool)
        ensures
            digit == is_digit(c),
    {
        '0' <= c && c <= '9'
    }

    /// The truth value, keyword or identifier that begins at `from`, where
    /// a character stands that can begin a word, and the offset behind it.
    fn word(&self, from: usize) -> (read: (TokenKind<'a>, usize))
        requires
            from < self.source().len(),
        ensures
            read.1 == from + 1 + word_from(self.source(), from + 1),
            read.1 <= self.source().len(),
            read.0@ == word_token(self.source().subrange(from as int, read.1 as int)),
    {
        let n = self.length();
        let end = self.word_end(from + 1);
        let word = self.slice(from, end);
        let kind = if *word == *"true" {
            TokenKind::Bool(true)
        } else if *word == *"false" {
            TokenKind::Bool(false)
        } else if *word == *"fn" {
            TokenKind::Fn
        } else if *word == *"continue" {
            TokenKind::Continue
        } else if *word == *"break" {
            TokenKind::Break
        } else if *word == *"return" {
            TokenKind::Return
        } else if *word == *"if" {
            TokenKind::If
        } else if *word == *"then" {
            TokenKind::Then
        } else if *word == *"else" {
            TokenKind::Else
        } else if *word == *"while" {
            TokenKind::While
        } else {
            TokenKind::Ident(word)
        };
        (kind, end)
    }

    /// Whether the character `second` stands at offset `at`.
    fn is_followed_by(&self, at: usize, second: char) -> (followed: bool)
        ensures
            followed == followed_by(self.source(), at as int, second),
    {
        at < self.length() && self.char_at(at) == second
    }

    /// The parenthesis, brace, `;`, `=`, operator or error that begins at
    /// `from`, and the offset behind it.
    fn symbol(&self, from: usize) -> (read: (TokenKind<'a>, usize))
        requires
            from < self.source().len(),
        ensures
            read.1 == from + symbol_at(self.source(), from as int).1,
            read.1 <= self.source().len(),
            read.0@ == symbol_at(self.source(), from as int).0,
    {
        let n = self.length();
        let c = self.char_at(from);
        if c == '(' {
            if self.is_followed_by(from + 1, ')') {
                (TokenKind::Unit, from + 2)
            } else {
                (TokenKind::LParen, from + 1)
            }
        } else if c == ')' {
            (TokenKind::RParen, from + 1)
        } else if c == '{' {
            (TokenKind::LBrace, from + 1)
        } else if c == '}' {
            (TokenKind::RBrace, from + 1)
        } else if c == ';' {
            (TokenKind::Semicolon, from + 1)
        } else if c == '=' {
            if self.is_followed_by(from + 1, '=') {
                (TokenKind::Op(self.slice(from, from + 2)), from + 2)
            } else {
                (TokenKind::Eq, from + 1)
            }
        } else if c == '+' || c == '-' || c == '*' || c == '/' {
            (TokenKind::Op(self.slice(from, from + 1)), from + 1)
        } else if c == '<' || c == '>' || c == '!' {
            if self.is_followed_by(from + 1, '=') {
                (TokenKind::Op(self.slice(from, from + 2)), from + 2)
            } else {
                (TokenKind::Op(self.slice(from, from + 1)), from + 1)
            }
        } else if c == '&' || c == '|' {
            if self.is_followed_by(from + 1, c) {
                (TokenKind::Op(self.slice(from, from + 2)), from + 2)
            } else {
                (TokenKind::Error, from + 1)
            }
        } else {
            (TokenKind::Error, from + 1)
        }
    }

    /// The tokens of what is left of the source text, the first first.
    /// Blanks part tokens and are dropped; line breaks that follow each
    /// other are one token. A number too large for its type and a character
    /// that begins no token are tokens of kind `Error`.
    ///
    /// The span of a token counts characters. The tokens come in the order
    /// of the source text, and no two of them overlap.
    pub fn tokenize(self) -> (tokens: Vec<Token<'a>>)
        ensures
            token_views(tokens@) == scanned(self.source(), self.offset()),
            in_source_order(tokens@),
            forall|i: int, j: int|
                0 <= i < j < tokens@.len() ==> (#[trigger] tokens@[i]).span.end <= (
                #[trigger] tokens@[j]).span.start,
    {
        proof {
            use_type_invariant(&self);
        }
        let n = self.length();
        let ghost chars = self.source();
        let mut tokens: Vec<Token<'a>> = Vec::new();
        let mut at = self.current;
        assert(token_views(tokens@) =~= Seq::empty());
        while at < n
            invariant
                at <= n,
                n == chars.len(),
                chars == self.source(),
                token_views(tokens@) + scanned(chars, at as int) == scanned(
                    chars,
                    self.offset(),
                ),
                forall|i: int|
                    0 <= i < tokens@.len() ==> (#[trigger] tokens@[i]).span.start
                        <= tokens@[i].span.end <= at,
                forall|i: int, j: int|
                    0 <= i < j < tokens@.len() ==> (#[trigger] tokens@[i]).span.end <= (
                    #[trigger] tokens@[j]).span.start,
            decreases n - at,
        {
            let c = self.char_at(at);
            if c == ' ' || c == '\t' || c == '\u{c}' {
                at += 1;
            } else {
                let (kind, end) = if c == '\n' {
                    (TokenKind::Newline, self.newlines_end(at + 1))
                } else if Self::is_a_digit(c) {
                    self.number(at)
                } else if 'A' <= c && c <= 'z' {
                    self.word(at)
                } else {
                    self.symbol(at)
                };
                let token = Token { kind, span: SourceSpan { start: at, end } };
                proof {
                    let rest = scanned(chars, end as int);
                    assert(scanned(chars, at as int) == seq![token@] + rest);
                    assert(token_views(tokens@.push(token)) =~= token_views(tokens@).push(token@));
                    assert(token_views(tokens@).push(token@) + rest =~= token_views(tokens@) + (
                    seq![token@] + rest));
                }
                tokens.push(token);
                at = end;
            }
        }
        assert(token_views(tokens@) + Seq::<TokenView>::empty() =~= token_views(tokens@));
        tokens
    }
}

} // verus!
