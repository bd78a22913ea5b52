use vstd::prelude::*;
use vstd::string::StringSliceAdditionalSpecFns;

use crate::token::{LexingError, Token, TokenSpan};

verus! {

/// The classes of bytes that the lexer consumes in runs.
#[derive(Clone, Copy, Debug, PartialEq, Eq, Structural)]
pub enum ByteClass {
    /// `0-9`
    Digit,
    /// `a-z`, `A-Z`, `_` and `0-9`
    IdentContinue,
    /// Space, tab, form feed and line feed: what separates tokens.
    Separator,
    /// Every byte but `"`.
    NotQuote,
    /// The continuation bytes of a multi-byte UTF-8 character.
    Continuation,
}

pub open spec fn is_digit(b: u8) -> bool {
    '0' as u8 <= b <= '9' as u8
}

pub open spec fn is_ident_start(b: u8) -> bool {
    ('a' as u8 <= b <= 'z' as u8) || ('A' as u8 <= b <= 'Z' as u8) || b == '_' as u8
}

pub open spec fn in_class(b: u8, class: ByteClass) -> bool {
    match class {
        ByteClass::Digit => is_digit(b),
        ByteClass::IdentContinue => is_ident_start(b) || is_digit(b),
        ByteClass::Separator => b == ' ' as u8 || b == '\t' as u8 || b == 12u8 || b == '\n' as u8,
        ByteClass::NotQuote => b != '"' as u8,
        ByteClass::Continuation => 0x80u8 <= b < 0xc0u8,
    }
}

/// The end of the longest run of bytes of `class` that starts at `i`.
pub open spec fn run_end(s: Seq<u8>, i: int, class: ByteClass) -> int
    decreases s.len() - i,
{
    if 0 <= i < s.len() && in_class(s[i], class) {
        run_end(s, i + 1, class)
    } else {
        i
    }
}

/// The number of line feeds in `s[from..to]`.
pub open spec fn newlines(s: Seq<u8>, from: int, to: int) -> nat
    decreases to - from,
{
    if to <= from {
        0
    } else {
        newlines(s, from, to - 1) + if s[to - 1] == '\n' as u8 {
            1nat
        } else {
            0nat
        }
    }
}

/// The end of the numeric literal `\d+(\.\d+)?` that starts at `start`.
pub open spec fn number_end(s: Seq<u8>, start: int) -> int {
    let d = run_end(s, start, ByteClass::Digit);
    if d + 1 < s.len() && s[d] == '.' as u8 && is_digit(s[d + 1]) {
        run_end(s, d + 1, ByteClass::Digit)
    } else {
        d
    }
}

/// The keyword that the word `w` spells, if any.
pub open spec fn keyword_of(w: Seq<u8>) -> Option<Token> {
    if w =~= seq!['a' as u8, 'n' as u8, 'd' as u8] {
        Some(Token::And)
    } else if w =~= seq!['c' as u8, 'l' as u8, 'a' as u8, 's' as u8, 's' as u8] {
        Some(Token::Class)
    } else if w =~= seq!['e' as u8, 'l' as u8, 's' as u8, 'e' as u8] {
        Some(Token::Else)
    } else if w =~= seq!['f' as u8, 'a' as u8, 'l' as u8, 's' as u8, 'e' as u8] {
        Some(Token::False)
    } else if w =~= seq!['f' as u8, 'o' as u8, 'r' as u8] {
        Some(Token::For)
    } else if w =~= seq!['f' as u8, 'u' as u8, 'n' as u8] {
        Some(Token::Fun)
    } else if w =~= seq!['i' as u8, 'f' as u8] {
        Some(Token::If)
    } else if w =~= seq!['n' as u8, 'i' as u8, 'l' as u8] {
        Some(Token::Nil)
    } else if w =~= seq!['o' as u8, 'r' as u8] {
        Some(Token::Or)
    } else if w =~= seq!['p' as u8, 'r' as u8, 'i' as u8, 'n' as u8, 't' as u8] {
        Some(Token::Print)
    } else if w =~= seq!['r' as u8, 'e' as u8, 't' as u8, 'u' as u8, 'r' as u8, 'n' as u8] {
        Some(Token::Return)
    } else if w =~= seq!['s' as u8, 'u' as u8, 'p' as u8, 'e' as u8, 'r' as u8] {
        Some(Token::Super)
    } else if w =~= seq!['v' as u8, 'a' as u8, 'r' as u8] {
        Some(Token::Var)
    } else if w =~= seq!['w' as u8, 'h' as u8, 'i' as u8, 'l' as u8, 'e' as u8] {
        Some(Token::While)
    } else {
        None
    }
}

/// The token that a single byte forms on its own, if any.
pub open spec fn single_byte_token(b: u8) -> Option<Token> {
    if b == '+' as u8 {
        Some(Token::Plus)
    } else if b == '-' as u8 {
        Some(Token::Minus)
    } else if b == '*' as u8 {
        Some(Token::Star)
    } else if b == '/' as u8 {
        Some(Token::Slash)
    } else if b == '(' as u8 {
        Some(Token::LParen)
    } else if b == ')' as u8 {
        Some(Token::RParen)
    } else if b == '{' as u8 {
        Some(Token::LBrace)
    } else if b == '}' as u8 {
        Some(Token::RBrace)
    } else if b == ';' as u8 {
        Some(Token::Semicolon)
    } else if b == ',' as u8 {
        Some(Token::Comma)
    } else if b == '.' as u8 {
        Some(Token::Dot)
    } else {
        None
    }
}

/// The token that `first`, followed by `=` or not, forms: `!`, `=`, `>` and
/// `<` pair with a following `=`.
pub open spec fn pairing_token(first: u8, followed_by_equal: bool) -> Option<Token> {
    if first == '!' as u8 {
        Some(if followed_by_equal { Token::BangEqual } else { Token::Bang })
    } else if first == '=' as u8 {
        Some(if followed_by_equal { Token::EqualEqual } else { Token::Equal })
    } else if first == '>' as u8 {
        Some(if followed_by_equal { Token::GreaterEqual } else { Token::Greater })
    } else if first == '<' as u8 {
        Some(if followed_by_equal { Token::LessEqual } else { Token::Less })
    } else {
        None
    }
}

/// What the text at a token's start forms.
#[derive(Clone, Copy, Debug, PartialEq, Eq, Structural)]
pub enum Scanned {
    /// A token whose value the text alone gives.
    Token(Token),
    /// A numeric literal, whose value the caller's number parser gives.
    Number,
    /// Text that begins no token.
    Unexpected,
}

pub open spec fn span_of(start: int, end: int) -> TokenSpan {
    TokenSpan { start: start as u32, end: end as u32 }
}

/// What the text of `s` that starts at `start` (not a separator) forms, and
/// where it ends: the longest token that matches there, a keyword before an
/// identifier of the same text.
pub open spec fn scan(s: Seq<u8>, start: int) -> (Scanned, int) {
    let b = s[start];
    let followed_by_equal = start + 1 < s.len() && s[start + 1] == '=' as u8;
    if is_digit(b) {
        (Scanned::Number, number_end(s, start))
    } else if is_ident_start(b) {
        let end = run_end(s, start + 1, ByteClass::IdentContinue);
        match keyword_of(s.subrange(start, end)) {
            Some(t) => (Scanned::Token(t), end),
            None => (Scanned::Token(Token::Identifier(span_of(start, end))), end),
        }
    } else if b == '"' as u8 {
        let close = run_end(s, start + 1, ByteClass::NotQuote);
        if close < s.len() {
            (Scanned::Token(Token::String(span_of(start, close + 1))), close + 1)
        } else {
            (Scanned::Unexpected, start + 1)
        }
    } else if pairing_token(b, followed_by_equal) is Some {
        (
            Scanned::Token(pairing_token(b, followed_by_equal)->0),
            if followed_by_equal { start + 2 } else { start + 1 },
        )
    } else if single_byte_token(b) is Some {
        (Scanned::Token(single_byte_token(b)->0), start + 1)
    } else {
        (Scanned::Unexpected, run_end(s, start + 1, ByteClass::Continuation))
    }
}

/// The outcome `r` of lexing a numeric literal whose text is `lexeme`, given
/// what `parse_number` returned for that text.
pub open spec fn number_outcome<F: Fn(&[u8]) -> Option<u64>>(
    parse_number: F,
    lexeme: Seq<u8>,
    r: Result<Token, LexingError>,
) -> bool {
    exists|text: &[u8]|
        #![trigger text@]
        text@ == lexeme && match r {
            Ok(Token::Number(bits)) => parse_number.ensures((text,), Some(bits)),
            Err(LexingError::InvalidNumber) => parse_number.ensures((text,), None),
            _ => false,
        }
}

/// Whether the closure `parse_number` computes the function `number` on
/// the text it is given.
pub open spec fn reads_numbers<F: Fn(&[u8]) -> Option<u64>>(
    parse_number: F,
    number: spec_fn(Seq<u8>) -> Option<u64>,
) -> bool {
    forall|text: &[u8], z: Option<u64>| #[trigger]
        parse_number.ensures((text,), z) ==> z == number(text@)
}

/// The outcome of lexing `s[start..end]`, which forms `k`, when numeric
/// literals get the values `number`.
pub open spec fn lexed(
    s: Seq<u8>,
    start: int,
    end: int,
    k: Scanned,
    number: spec_fn(Seq<u8>) -> Option<u64>,
) -> Result<Token, LexingError> {
    match k {
        Scanned::Token(t) => Ok(t),
        Scanned::Unexpected => Err(LexingError::UnexpectedCharacter),
        Scanned::Number => match number(s.subrange(start, end)) {
            Some(bits) => Ok(Token::Number(bits)),
            None => Err(LexingError::InvalidNumber),
        },
    }
}

/// The outcomes of lexing `s` from `pos` to its end, token by token, when
/// numeric literals get the values `number`.
pub open spec fn lex_from(s: Seq<u8>, pos: int, number: spec_fn(Seq<u8>) -> Option<u64>) -> Seq<
    Result<Token, LexingError>,
>
    decreases s.len() - pos,
{
    let start = run_end(s, pos, ByteClass::Separator);
    if 0 <= pos && pos <= start < s.len() {
        let (k, end) = scan(s, start);
        if start < end <= s.len() {
            seq![lexed(s, start, end, k, number)] + lex_from(s, end, number)
        } else {
            Seq::empty()
        }
    } else {
        Seq::empty()
    }
}

/// No text lexes to the end marker: the lexer's caller adds it.
pub proof fn lemma_scan_not_end(s: Seq<u8>, start: int)
    requires
        0 <= start < s.len(),
    ensures
        scan(s, start).0 != Scanned::Token(Token::EOF),
{
}

/// No outcome in a lexed stream is the end marker.
pub proof fn lemma_lex_from_not_end(s: Seq<u8>, pos: int, number: spec_fn(Seq<u8>) -> Option<u64>)
    ensures
        forall|i: int|
            0 <= i < lex_from(s, pos, number).len() ==> #[trigger] lex_from(s, pos, number)[i]
                != Ok::<Token, LexingError>(Token::EOF),
    decreases s.len() - pos,
{
    let start = run_end(s, pos, ByteClass::Separator);
    if 0 <= pos && pos <= start < s.len() {
        let (k, end) = scan(s, start);
        if start < end <= s.len() {
            lemma_scan_not_end(s, start);
            lemma_lex_from_not_end(s, end, number);
            let ts = lex_from(s, pos, number);
            assert forall|i: int| 0 <= i < ts.len() implies #[trigger] ts[i] != Ok::<
                Token,
                LexingError,
            >(Token::EOF) by {
                if i > 0 {
                    assert(ts[i] == lex_from(s, end, number)[i - 1]);
                }
            }
        }
    }
}

pub proof fn lemma_run_end_bounds(s: Seq<u8>, i: int, class: ByteClass)
    requires
        0 <= i <= s.len(),
    ensures
        i <= run_end(s, i, class) <= s.len(),
        forall|k: int| i <= k < run_end(s, i, class) ==> in_class(#[trigger] s[k], class),
    decreases s.len() - i,
{
    if i < s.len() && in_class(s[i], class) {
        lemma_run_end_bounds(s, i + 1, class);
    }
}

pub proof fn lemma_newlines_bound(s: Seq<u8>, from: int, to: int)
    requires
        from <= to,
    ensures
        newlines(s, from, to) <= to - from,
    decreases to - from,
{
    if from < to {
        lemma_newlines_bound(s, from, to - 1);
    }
}

/// Whether `b` is of `class`.
pub fn byte_in_class(b: u8, class: ByteClass) -> (r: bool)
    ensures
        r == in_class(b, class),
{
    match class {
        ByteClass::Digit => '0' as u8 <= b && b <= '9' as u8,
        ByteClass::IdentContinue => ('a' as u8 <= b && b <= 'z' as u8) || ('A' as u8 <= b && b
            <= 'Z' as u8) || b == '_' as u8 || ('0' as u8 <= b && b <= '9' as u8),
        ByteClass::Separator => b == ' ' as u8 || b == '\t' as u8 || b == 12u8 || b == '\n' as u8,
        ByteClass::NotQuote => b != '"' as u8,
        ByteClass::Continuation => 0x80u8 <= b && b < 0xc0u8,
    }
}

/// The end of the longest run of bytes of `class` in `s` that starts at `i`.
pub fn scan_while(s: &[u8], i: usize, class: ByteClass) -> (j: usize)
    requires
        i <= s@.len(),
    ensures
        j == run_end(s@, i as int, class),
        i <= j <= s@.len(),
{
    let mut j: usize = i;
    while j < s.len() && byte_in_class(s[j], class)
        invariant
            i <= j <= s@.len(),
            run_end(s@, i as int, class) == run_end(s@, j as int, class),
        decreases s@.len() - j,
    {
        j = j + 1;
    }
    j
}

/// The keyword that the word `w` spells, if any.
pub fn keyword(w: &[u8]) -> (r: Option<Token>)
    ensures
        r == keyword_of(w@),
{
    if w.len() == 3 && w[0] == 'a' as u8 && w[1] == 'n' as u8 && w[2] == 'd' as u8 {
        return Some(Token::And);
    }
    if w.len() == 5 && w[0] == 'c' as u8 && w[1] == 'l' as u8 && w[2] == 'a' as u8 && w[3] == 's' as u8 && w[4] == 's' as u8 {
        return Some(Token::Class);
    }
    if w.len() == 4 && w[0] == 'e' as u8 && w[1] == 'l' as u8 && w[2] == 's' as u8 && w[3] == 'e' as u8 {
        return Some(Token::Else);
    }
    if w.len() == 5 && w[0] == 'f' as u8 && w[1] == 'a' as u8 && w[2] == 'l' as u8 && w[3] == 's' as u8 && w[4] == 'e' as u8 {
        return Some(Token::False);
    }
    if w.len() == 3 && w[0] == 'f' as u8 && w[1] == 'o' as u8 && w[2] == 'r' as u8 {
        return Some(Token::For);
    }
    if w.len() == 3 && w[0] == 'f' as u8 && w[1] == 'u' as u8 && w[2] == 'n' as u8 {
        return Some(Token::Fun);
    }
    if w.len() == 2 && w[0] == 'i' as u8 && w[1] == 'f' as u8 {
        return Some(Token::If);
    }
    if w.len() == 3 && w[0] == 'n' as u8 && w[1] == 'i' as u8 && w[2] == 'l' as u8 {
        return Some(Token::Nil);
    }
    if w.len() == 2 && w[0] == 'o' as u8 && w[1] == 'r' as u8 {
        return Some(Token::Or);
    }
    if w.len() == 5 && w[0] == 'p' as u8 && w[1] == 'r' as u8 && w[2] == 'i' as u8 && w[3] == 'n' as u8 && w[4] == 't' as u8 {
        return Some(Token::Print);
    }
    if w.len() == 6 && w[0] == 'r' as u8 && w[1] == 'e' as u8 && w[2] == 't' as u8 && w[3] == 'u' as u8 && w[4] == 'r' as u8 && w[5] == 'n' as u8 {
        return Some(Token::Return);
    }
    if w.len() == 5 && w[0] == 's' as u8 && w[1] == 'u' as u8 && w[2] == 'p' as u8 && w[3] == 'e' as u8 && w[4] == 'r' as u8 {
        return Some(Token::Super);
    }
    if w.len() == 3 && w[0] == 'v' as u8 && w[1] == 'a' as u8 && w[2] == 'r' as u8 {
        return Some(Token::Var);
    }
    if w.len() == 5 && w[0] == 'w' as u8 && w[1] == 'h' as u8 && w[2] == 'i' as u8 && w[3] == 'l' as u8 && w[4] == 'e' as u8 {
        return Some(Token::While);
    }
    None
}

/// The token that a single byte forms on its own, if any.
fn single_byte(b: u8) -> (r: Option<Token>)
    ensures
        r == single_byte_token(b),
{
    if b == '+' as u8 {
        Some(Token::Plus)
    } else if b == '-' as u8 {
        Some(Token::Minus)
    } else if b == '*' as u8 {
        Some(Token::Star)
    } else if b == '/' as u8 {
        Some(Token::Slash)
    } else if b == '(' as u8 {
        Some(Token::LParen)
    } else if b == ')' as u8 {
        Some(Token::RParen)
    } else if b == '{' as u8 {
        Some(Token::LBrace)
    } else if b == '}' as u8 {
        Some(Token::RBrace)
    } else if b == ';' as u8 {
        Some(Token::Semicolon)
    } else if b == ',' as u8 {
        Some(Token::Comma)
    } else if b == '.' as u8 {
        Some(Token::Dot)
    } else {
        None
    }
}

/// The token that `first`, followed by `=` or not, forms, if any.
fn pairing(first: u8, followed_by_equal: bool) -> (r: Option<Token>)
    ensures
        r == pairing_token(first, followed_by_equal),
{
    if first == '!' as u8 {
        Some(if followed_by_equal { Token::BangEqual } else { Token::Bang })
    } else if first == '=' as u8 {
        Some(if followed_by_equal { Token::EqualEqual } else { Token::Equal })
    } else if first == '>' as u8 {
        Some(if followed_by_equal { Token::GreaterEqual } else { Token::Greater })
    } else if first == '<' as u8 {
        Some(if followed_by_equal { Token::LessEqual } else { Token::Less })
    } else {
        None
    }
}

/// What the text of `s` at `start` forms, and where it ends.
pub fn scan_at(s: &[u8], start: usize) -> (r: (Scanned, usize))
    requires
        start < s@.len() < u32::MAX,
    ensures
        r.0 == scan(s@, start as int).0,
        r.1 == scan(s@, start as int).1,
        start < r.1 <= s@.len(),
{
    let b = s[start];
    let followed_by_equal = start + 1 < s.len() && s[start + 1] == '=' as u8;
    if byte_in_class(b, ByteClass::Digit) {
        let d = scan_while(s, start, ByteClass::Digit);
        proof {
            lemma_run_end_bounds(s@, start as int + 1, ByteClass::Digit);
        }
        if d + 1 < s.len() && s[d] == '.' as u8 && byte_in_class(s[d + 1], ByteClass::Digit) {
            let e = scan_while(s, d + 1, ByteClass::Digit);
            (Scanned::Number, e)
        } else {
            (Scanned::Number, d)
        }
    } else if ('a' as u8 <= b && b <= 'z' as u8) || ('A' as u8 <= b && b <= 'Z' as u8) || b == '_'
        as u8 {
        let end = scan_while(s, start + 1, ByteClass::IdentContinue);
        let word = &s[start..end];
        assert(word@ == s@.subrange(start as int, end as int));
        match keyword(word) {
            Some(t) => (Scanned::Token(t), end),
            None => (
                Scanned::Token(
                    Token::Identifier(TokenSpan { start: start as u32, end: end as u32 }),
                ),
                end,
            ),
        }
    } else if b == '"' as u8 {
        let close = scan_while(s, start + 1, ByteClass::NotQuote);
        if close < s.len() {
            (
                Scanned::Token(
                    Token::String(TokenSpan { start: start as u32, end: (close + 1) as u32 }),
                ),
                close + 1,
            )
        } else {
            (Scanned::Unexpected, start + 1)
        }
    } else if let Some(t) = pairing(b, followed_by_equal) {
        (Scanned::Token(t), if followed_by_equal { start + 2 } else { start + 1 })
    } else if let Some(t) = single_byte(b) {
        (Scanned::Token(t), start + 1)
    } else {
        (Scanned::Unexpected, scan_while(s, start + 1, ByteClass::Continuation))
    }
}

/// A lexer over a source text: a finite, restartable sequence of tokens.
///
/// It skips spaces, tabs, form feeds and line feeds, and counts line feeds
/// to give each token the 1-based line it starts on.
pub struct Lexer<'a> {
    source: &'a [u8],
    pos: usize,
    line: usize,
    token_start: usize,
}

impl<'a> Lexer<'a> {
    /// The bytes of the source text.
    pub closed spec fn text(&self) -> Seq<u8> {
        self.source@
    }

    /// Where the next token is looked for.
    pub closed spec fn position(&self) -> int {
        self.pos as int
    }

    /// The line of the last token returned (or, before any, of the start).
    pub closed spec fn current_line(&self) -> int {
        self.line as int
    }

    /// Where the last token returned starts.
    pub closed spec fn token_start(&self) -> int {
        self.token_start as int
    }

    pub closed spec fn wf(&self) -> bool {
        &&& self.source@.len() < u32::MAX
        &&& self.token_start <= self.pos <= self.source@.len()
        &&& self.line == 1 + newlines(self.source@, 0, self.token_start as int)
    }

    /// The line of the last token is the 1-based line it starts on, and its
    /// text lies within the source.
    pub proof fn lemma_line(&self)
        requires
            self.wf(),
        ensures
            self.current_line() == 1 + newlines(self.text(), 0, self.token_start()),
            0 <= self.token_start() <= self.position() <= self.text().len() < u32::MAX,
    {
    }

    /// A lexer at the start of `source`, on line 1.
    pub fn new(source: &'a str) -> (r: Lexer<'a>)
        requires
            source.spec_bytes().len() < u32::MAX,
        ensures
            r.wf(),
            r.text() == source.spec_bytes(),
            r.position() == 0,
            r.token_start() == 0,
            r.current_line() == 1,
    {
        Lexer { source: source.as_bytes(), pos: 0, line: 1, token_start: 0 }
    }

    /// Skips separators.
    fn skip_separators(&mut self)
        requires
            old(self).wf(),
        ensures
            final(self).wf(),
            final(self).source == old(self).source,
            final(self).token_start == old(self).token_start,
            final(self).line == old(self).line,
            old(self).pos <= final(self).pos,
            final(self).pos == run_end(old(self).source@, old(self).pos as int, ByteClass::Separator),
    {
        let ghost s = self.source@;
        let ghost start = self.pos;
        while self.pos < self.source.len() && byte_in_class(self.source[self.pos], ByteClass::Separator)
            invariant
                self.wf(),
                self.source@ == s,
                self.token_start == old(self).token_start,
                self.line == old(self).line,
                start <= self.pos,
                run_end(s, start as int, ByteClass::Separator) == run_end(
                    s,
                    self.pos as int,
                    ByteClass::Separator,
                ),
            decreases s.len() - self.pos,
        {
            self.pos = self.pos + 1;
        }
    }

    /// Moves the token start to the current position, counting the line
    /// feeds passed over, those inside the last token included.
    fn start_token(&mut self)
        requires
            old(self).wf(),
        ensures
            final(self).wf(),
            final(self).source == old(self).source,
            final(self).pos == old(self).pos,
            final(self).token_start == old(self).pos,
    {
        let ghost s = self.source@;
        while self.token_start < self.pos
            invariant
                self.wf(),
                self.source@ == s,
                self.pos == old(self).pos,
            decreases self.pos - self.token_start,
        {
            proof {
                lemma_newlines_bound(s, 0, self.token_start as int);
            }
            if self.source[self.token_start] == '\n' as u8 {
                self.line = self.line + 1;
            }
            self.token_start = self.token_start + 1;
        }
    }

    /// The next token, `None` once the text is exhausted. A numeric literal's
    /// value is what `parse_number` gives for its text; where that is `None`
    /// the result is `InvalidNumber`. After an error, lexing goes on after
    /// the offending text.
    pub fn next_token<F: Fn(&[u8]) -> Option<u64>>(&mut self, parse_number: &F) -> (r: Option<
        Result<Token, LexingError>,
    >)
        requires
            old(self).wf(),
            forall|text: &[u8]| parse_number.requires((text,)),
        ensures
            final(self).wf(),
            final(self).text() == old(self).text(),
            final(self).position() <= final(self).text().len(),
            old(self).position() <= final(self).position(),
            forall|number: spec_fn(Seq<u8>) -> Option<u64>|
                #![trigger lex_from(old(self).text(), old(self).position(), number)]
                reads_numbers(*parse_number, number) ==> match r {
                    None => lex_from(old(self).text(), old(self).position(), number) == Seq::<
                        Result<Token, LexingError>,
                    >::empty(),
                    Some(t) => lex_from(old(self).text(), old(self).position(), number) == seq![t]
                        + lex_from(old(self).text(), final(self).position(), number),
                },
            r is Some ==> old(self).position() < final(self).position(),
            r is Some ==> final(self).token_start() < final(self).position(),
            ({
                let s = old(self).text();
                let start = run_end(s, old(self).position(), ByteClass::Separator);
                &&& final(self).current_line() == 1 + newlines(s, 0, start)
                &&& final(self).token_start() == start
                &&& if start == s.len() {
                    &&& r is None
                    &&& final(self).position() == start
                } else {
                    let (k, end) = scan(s, start);
                    &&& final(self).position() == end
                    &&& r is Some
                    &&& match k {
                        Scanned::Token(t) => r == Some(Ok::<Token, LexingError>(t)),
                        Scanned::Unexpected => r == Some(
                            Err::<Token, LexingError>(LexingError::UnexpectedCharacter),
                        ),
                        Scanned::Number => number_outcome(
                            *parse_number,
                            s.subrange(start, end),
                            r->0,
                        ),
                    }
                }
            }),
    {
        self.skip_separators();
        proof {
            lemma_run_end_bounds(self.source@, old(self).pos as int, ByteClass::Separator);
        }
        self.start_token();
        if self.pos == self.source.len() {
            return None;
        }
        let (k, end) = scan_at(self.source, self.pos);
        let start = self.pos;
        self.pos = end;
        match k {
            Scanned::Token(t) => Some(Ok(t)),
            Scanned::Unexpected => Some(Err(LexingError::UnexpectedCharacter)),
            Scanned::Number => {
                let text = &self.source[start..end];
                let parsed = parse_number(text);
                assert(text@ == self.source@.subrange(start as int, end as int));
                match parsed {
                    Some(bits) => Some(Ok(Token::Number(bits))),
                    None => Some(Err(LexingError::InvalidNumber)),
                }
            },
        }
    }

    /// The line of the last token returned.
    pub fn line(&self) -> (r: usize)
        ensures
            r == self.current_line(),
    {
        self.line
    }

    /// The span of the last token returned.
    pub fn span(&self) -> (r: TokenSpan)
        requires
            self.wf(),
        ensures
            r.start == self.token_start(),
            r.end == self.position(),
    {
        TokenSpan { start: self.token_start as u32, end: self.pos as u32 }
    }
}

} // verus!
