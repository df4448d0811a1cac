//! Tokens as text.

use crate::syntax::layout_laws::{brace_depth, braces_never_close_early};
use crate::syntax::tokens::{Token, TokenKind};
use vstd::prelude::*;
use vstd::string::*;

verus! {

/// The character of the digit `digit`, which is below ten.
pub open spec fn digit_char(digit: nat) -> char {
    "0123456789"@[digit as int]
}

/// The digits of `number` in base ten, without zeros before them.
pub open spec fn digits_of(number: nat) -> Seq<char>
    decreases number,
{
    if number < 10 {
        seq![digit_char(number)]
    } else {
        digits_of(number / 10).push(digit_char(number % 10))
    }
}

/// `number` in base ten, with a `-` before it where it is negative.
pub open spec fn decimal_of(number: int) -> Seq<char> {
    if number < 0 {
        "-"@ + digits_of((-number) as nat)
    } else {
        digits_of(number as nat)
    }
}

/// The characters of the digits `digits`, the last first.
spec fn backwards(digits: Seq<u8>) -> Seq<char> {
    Seq::new(digits.len(), |i: int| digit_char(digits[digits.len() - 1 - i] as nat))
}

/// `number` in base ten.
pub fn decimal_string(number: i64) -> (text: String)
    ensures
        text@ == decimal_of(number as int),
{
    let mut digits: Vec<u8> = Vec::new();
    let magnitude: u64 = if number < 0 {
        (-(number as i128)) as u64
    } else {
        number as u64
    };
    let mut rest = magnitude;
    assert(digits_of(rest as nat) + backwards(digits@) =~= digits_of(rest as nat));
    while rest >= 10
        invariant
            forall|i: int| 0 <= i < digits@.len() ==> (#[trigger] digits@[i]) < 10,
            digits_of(magnitude as nat) == digits_of(rest as nat) + backwards(digits@),
        decreases rest,
    {
        let ghost tail = backwards(digits@);
        digits.push((rest % 10) as u8);
        proof {
            assert(backwards(digits@) =~= seq![digit_char((rest % 10) as nat)] + tail);
            assert(digits_of((rest / 10) as nat).push(digit_char((rest % 10) as nat)) + tail
                =~= digits_of((rest / 10) as nat) + backwards(digits@));
        }
        rest = rest / 10;
    }
    let ghost tail = backwards(digits@);
    digits.push(rest as u8);
    let ghost all = backwards(digits@);
    proof {
        assert(all =~= seq![digit_char(rest as nat)] + tail);
        assert(digits_of(rest as nat) + tail =~= all);
    }
    let mut text = String::new();
    if number < 0 {
        text.append("-");
    }
    let ghost sign = text@;
    let n = digits.len();
    let mut written: usize = 0;
    while written < n
        invariant
            written <= n,
            n == digits@.len(),
            forall|i: int| 0 <= i < digits@.len() ==> (#[trigger] digits@[i]) < 10,
            all == backwards(digits@),
            text@ == sign + all.take(written as int),
        decreases n - written,
    {
        let digit = digits[n - 1 - written] as usize;
        proof {
            reveal_strlit("0123456789");
        }
        text.append("0123456789".substring_ascii(digit, digit + 1));
        proof {
            assert("0123456789"@.subrange(digit as int, digit + 1) =~= seq![digit_char(digit as nat)]);
            assert(all.take(written + 1) =~= all.take(written as int).push(all[written as int]));
        }
        written += 1;
    }
    proof {
        assert(all.take(n as int) =~= all);
        reveal_strlit("-");
        if number < 0 {
            assert(sign =~= "-"@);
        } else {
            assert(sign + all =~= all);
        }
    }
    text
}

impl<'a> TokenKind<'a> {
    /// The token as it is written in source text. A line break is written
    /// as nothing, and a token that is an error as `Error`.
    pub open spec fn text(self) -> Seq<char> {
        match self {
            TokenKind::Number(n) => decimal_of(n as int),
            TokenKind::Ident(name) => name@,
            TokenKind::Bool(b) => if b {
                "true"@
            } else {
                "false"@
            },
            TokenKind::Unit => "()"@,
            TokenKind::LParen => "("@,
            TokenKind::RParen => ")"@,
            TokenKind::LBrace => "{"@,
            TokenKind::RBrace => "}"@,
            TokenKind::Fn => "fn"@,
            TokenKind::Continue => "continue"@,
            TokenKind::Break => "break"@,
            TokenKind::Return => "return"@,
            TokenKind::If => "if"@,
            TokenKind::Then => "then"@,
            TokenKind::Else => "else"@,
            TokenKind::While => "while"@,
            TokenKind::Eq => "="@,
            TokenKind::Op(sym) => sym@,
            TokenKind::Error => "Error"@,
            TokenKind::Semicolon => ";"@,
            TokenKind::Newline => Seq::empty(),
        }
    }

    /// The token as it is written in source text.
    pub fn to_string(&self) -> (text: String)
        ensures
            text@ == self.text(),
    {
        match self {
            TokenKind::Number(n) => decimal_string(*n),
            TokenKind::Ident(name) => String::from_str(name),
            TokenKind::Bool(b) => if *b {
                String::from_str("true")
            } else {
                String::from_str("false")
            },
            TokenKind::Unit => String::from_str("()"),
            TokenKind::LParen => String::from_str("("),
            TokenKind::RParen => String::from_str(")"),
            TokenKind::LBrace => String::from_str("{"),
            TokenKind::RBrace => String::from_str("}"),
            TokenKind::Fn => String::from_str("fn"),
            TokenKind::Continue => String::from_str("continue"),
            TokenKind::Break => String::from_str("break"),
            TokenKind::Return => String::from_str("return"),
            TokenKind::If => String::from_str("if"),
            TokenKind::Then => String::from_str("then"),
            TokenKind::Else => String::from_str("else"),
            TokenKind::While => String::from_str("while"),
            TokenKind::Eq => String::from_str("="),
            TokenKind::Op(sym) => String::from_str(sym),
            TokenKind::Error => String::from_str("Error"),
            TokenKind::Semicolon => String::from_str(";"),
            TokenKind::Newline => String::new(),
        }
    }
}

/// Four blanks for each of `level` levels.
pub open spec fn indentation(level: nat) -> Seq<char>
    decreases level,
{
    if level == 0 {
        Seq::empty()
    } else {
        indentation((level - 1) as nat) + "    "@
    }
}

/// The text that the first `n` of `tokens` are printed as. A `{` ends its
/// line, and what follows it stands one level deeper; a `}` stands on a
/// line of its own, one level less deep, and what follows it begins the
/// next line; every other token is followed by a blank.
pub open spec fn printed(tokens: Seq<Token>, n: nat) -> Seq<char>
    decreases n,
{
    if n == 0 {
        Seq::empty()
    } else {
        let before = printed(tokens, (n - 1) as nat);
        let depth = brace_depth(tokens.take(n as int));
        match tokens[n - 1].kind {
            TokenKind::RBrace => before + "\n"@ + indentation(depth as nat) + "}\n"@ + indentation(
                depth as nat,
            ),
            TokenKind::LBrace => before + "{\n"@ + indentation(depth as nat),
            other => before + other.text() + " "@,
        }
    }
}

/// Whether no prefix of `tokens` holds more `}` than `{`.
pub fn braces_close_in_time(tokens: &Vec<Token>) -> (in_time: bool)
    ensures
        in_time == braces_never_close_early(tokens@),
{
    let n = tokens.len();
    let mut depth: usize = 0;
    let mut i: usize = 0;
    assert(tokens@.take(0).len() == 0);
    while i < n
        invariant
            i <= n,
            n == tokens@.len(),
            depth == brace_depth(tokens@.take(i as int)),
            depth <= i,
            forall|k: int| 0 <= k <= i ==> brace_depth(#[trigger] tokens@.take(k)) >= 0,
        decreases n - i,
    {
        proof {
            assert(tokens@.take(i + 1).drop_last() =~= tokens@.take(i as int));
        }
        match tokens[i].kind {
            TokenKind::RBrace => {
                if depth == 0 {
                    assert(brace_depth(tokens@.take(i + 1)) < 0);
                    return false;
                }
                depth = depth - 1;
            },
            TokenKind::LBrace => {
                depth = depth + 1;
            },
            _ => {},
        }
        i += 1;
    }
    true
}

/// `tokens` as text in which the braces show by lines and indentation.
pub fn pretty_tokens(tokens: &Vec<Token>) -> (text: String)
    requires
        braces_never_close_early(tokens@),
    ensures
        text@ == printed(tokens@, tokens@.len()),
{
    let mut text = String::new();
    let mut indent_level: usize = 0;
    let n = tokens.len();
    let mut i: usize = 0;
    assert(tokens@.take(0).len() == 0);
    while i < n
        invariant
            i <= n,
            n == tokens@.len(),
            braces_never_close_early(tokens@),
            indent_level == brace_depth(tokens@.take(i as int)),
            indent_level <= i,
            text@ == printed(tokens@, i as nat),
        decreases n - i,
    {
        let kind = tokens[i].kind;
        proof {
            assert(tokens@.take(i + 1).drop_last() =~= tokens@.take(i as int));
            assert(brace_depth(tokens@.take(i + 1)) >= 0);
        }
        match kind {
            TokenKind::RBrace => {
                indent_level = indent_level - 1;
                text.append("\n");
                append_indentation(&mut text, indent_level);
                text.append("}\n");
                append_indentation(&mut text, indent_level);
            },
            TokenKind::LBrace => {
                indent_level = indent_level + 1;
                text.append("{\n");
                append_indentation(&mut text, indent_level);
            },
            other => {
                let written = other.to_string();
                text.append(written.as_str());
                text.append(" ");
            },
        }
        i += 1;
    }
    text
}

/// Appends four blanks for each of `level` levels.
fn append_indentation(text: &mut String, level: usize)
    ensures
        final(text)@ == old(text)@ + indentation(level as nat),
{
    let mut done: usize = 0;
    assert(text@ + indentation(0) =~= text@);
    while done < level
        invariant
            done <= level,
            text@ == old(text)@ + indentation(done as nat),
        decreases level - done,
    {
        text.append("    ");
        done += 1;
        assert(text@ =~= old(text)@ + indentation(done as nat));
    }
}

/// `text` as `str`'s `Debug` writes it: between double quotes, with a
/// backslash before each double quote and each backslash of the text, and
/// with the characters that cannot be printed written as escapes.
pub uninterp spec fn quoted(text: Seq<char>) -> Seq<char>;

/// `str`'s `Debug` form of `text`, which `format!` with `{:?}` gives. The
/// contract names that form: it is a function of the characters of `text`.
#[verifier::external_body]
fn quoted_string(text: &str) -> (written: String)
    ensures
        written@ == quoted(text@),
{
    format!("{:?}", text)
}

impl<'a> TokenKind<'a> {
    /// The name of the kind.
    pub open spec fn name(self) -> Seq<char> {
        match self {
            TokenKind::Number(_) => "Number"@,
            TokenKind::Bool(_) => "Bool"@,
            TokenKind::Ident(_) => "Ident"@,
            TokenKind::Unit => "Unit"@,
            TokenKind::LParen => "LParen"@,
            TokenKind::RParen => "RParen"@,
            TokenKind::LBrace => "LBrace"@,
            TokenKind::RBrace => "RBrace"@,
            TokenKind::Semicolon => "Semicolon"@,
            TokenKind::Fn => "Fn"@,
            TokenKind::Continue => "Continue"@,
            TokenKind::Break => "Break"@,
            TokenKind::Return => "Return"@,
            TokenKind::If => "If"@,
            TokenKind::Then => "Then"@,
            TokenKind::Else => "Else"@,
            TokenKind::While => "While"@,
            TokenKind::Newline => "Newline"@,
            TokenKind::Eq => "Eq"@,
            TokenKind::Op(_) => "Op"@,
            TokenKind::Error => "Error"@,
        }
    }

    /// What the kind holds, as `Debug` writes it: a number in base ten, a
    /// truth value as `true` or `false`, a text between quotes.
    pub open spec fn held(self) -> Option<Seq<char>> {
        match self {
            TokenKind::Number(n) => Some(decimal_of(n as int)),
            TokenKind::Bool(b) => Some(
                if b {
                    "true"@
                } else {
                    "false"@
                },
            ),
            TokenKind::Ident(name) => Some(quoted(name@)),
            TokenKind::Op(sym) => Some(quoted(sym@)),
            _ => None,
        }
    }

    /// The kind as `Debug` writes it over several lines: its name, and
    /// what it holds on a line of its own between parentheses.
    pub open spec fn debug_text(self) -> Seq<char> {
        match self.held() {
            Some(held) => self.name() + "(\n    "@ + held + ",\n)"@,
            None => self.name(),
        }
    }

    /// The kind as `Debug` writes it over several lines.
    pub fn debug_string(&self) -> (text: String)
        ensures
            text@ == self.debug_text(),
    {
        let (name, held) = match self {
            TokenKind::Number(n) => ("Number", Some(decimal_string(*n))),
            TokenKind::Bool(b) => (
                "Bool",
                Some(
                    if *b {
                        String::from_str("true")
                    } else {
                        String::from_str("false")
                    },
                ),
            ),
            TokenKind::Ident(name) => ("Ident", Some(quoted_string(name))),
            TokenKind::Unit => ("Unit", None),
            TokenKind::LParen => ("LParen", None),
            TokenKind::RParen => ("RParen", None),
            TokenKind::LBrace => ("LBrace", None),
            TokenKind::RBrace => ("RBrace", None),
            TokenKind::Semicolon => ("Semicolon", None),
            TokenKind::Fn => ("Fn", None),
            TokenKind::Continue => ("Continue", None),
            TokenKind::Break => ("Break", None),
            TokenKind::Return => ("Return", None),
            TokenKind::If => ("If", None),
            TokenKind::Then => ("Then", None),
            TokenKind::Else => ("Else", None),
            TokenKind::While => ("While", None),
            TokenKind::Newline => ("Newline", None),
            TokenKind::Eq => ("Eq", None),
            TokenKind::Op(sym) => ("Op", Some(quoted_string(sym))),
            TokenKind::Error => ("Error", None),
        };
        let mut text = String::from_str(name);
        match held {
            Some(held) => {
                text.append("(\n    ");
                text.append(held.as_str());
                text.append(",\n)");
            },
            None => {},
        }
        text
    }
}

} // verus!
