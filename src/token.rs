use vstd::prelude::*;
use vstd::string::StringSliceAdditionalSpecFns;
use vstd::utf8::is_char_boundary;

verus! {

/// A byte range `start..end` of the source text.
#[derive(Clone, Copy, Debug, PartialEq, Eq, Structural)]
pub struct TokenSpan {
    pub start: u32,
    pub end: u32,
}

impl TokenSpan {
    /// The text that this span covers in `source`.
    pub fn string<'a>(&self, source: &'a str) -> (r: &'a str)
        requires
            self.start <= self.end <= source.spec_bytes().len(),
            is_char_boundary(source.spec_bytes(), self.end as int),
            is_char_boundary(source.spec_bytes().subrange(0, self.end as int), self.start as int),
        ensures
            r.spec_bytes() == source.spec_bytes().subrange(self.start as int, self.end as int),
    {
        let (head, _tail) = source.split_at(self.end as usize);
        let (_skipped, text) = head.split_at(self.start as usize);
        proof {
            assert(text.spec_bytes() =~= source.spec_bytes().subrange(
                self.start as int,
                self.end as int,
            ));
        }
        text
    }
}

/// Why a piece of source text does not form a token.
#[derive(Clone, Copy, Debug, PartialEq, Eq, Structural)]
pub enum LexingError {
    /// A numeric literal whose text does not denote a number.
    InvalidNumber,
    /// A character that begins no token, or a string literal without its
    /// closing quote.
    UnexpectedCharacter,
}

/// A lexical token. Numbers carry the bit pattern of their binary64 value;
/// identifiers and strings carry the span of their text (a string's span
/// includes both quotes).
#[derive(Clone, Copy, Debug, PartialEq, Eq, Structural)]
pub enum Token {
    // Single character tokens
    Plus,
    Minus,
    Star,
    Slash,
    LParen,
    RParen,
    LBrace,
    RBrace,
    Semicolon,
    Comma,
    Dot,
    // One or two character tokens
    Bang,
    BangEqual,
    Equal,
    EqualEqual,
    Greater,
    GreaterEqual,
    Less,
    LessEqual,
    // Literals
    Identifier(TokenSpan),
    String(TokenSpan),
    Number(u64),
    // Keywords
    And,
    Class,
    Else,
    False,
    For,
    Fun,
    If,
    Nil,
    Or,
    Print,
    Return,
    Super,
    Var,
    While,
    // Line break; the lexer counts these instead of returning them
    Newline,
    // End of input, which the lexer's caller puts after the last token
    EOF,
}

} // verus!
