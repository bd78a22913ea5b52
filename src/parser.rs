use vstd::prelude::*;

use crate::ast::{
    binding, binop_of, inorder, rank, token_of, token_precedence, well_grouped,
    Ast, BinOpKind, Expr, ExprKind, Lit, Precedence,
};
use crate::lexer::{
    lemma_lex_from_not_end, lemma_scan_not_end, lex_from, newlines, reads_numbers, scan, Lexer,
    Scanned,
};
use crate::token::{LexingError, Token, TokenSpan};

verus! {

/// Why a unit did not compile.
#[derive(Clone, Copy, Debug, PartialEq, Eq, Structural)]
pub enum CompileErrorKind {
    /// The lexer could not form the next token.
    Lexing(LexingError),
    /// A token other than a number where an operand must stand.
    ExpectExpression,
    /// A token other than an operator or the end after a complete operand.
    ExpectEndOfExpression,
    /// The unit needs more than 256 constants.
    TooManyConstants,
}

/// A compile error, with the place it was found: the line, and the text of
/// the offending token, or the end of the input.
#[derive(Clone, Copy, Debug, PartialEq, Eq, Structural)]
pub struct CompileError {
    pub kind: CompileErrorKind,
    pub line: usize,
    pub at_end: bool,
    pub span: TokenSpan,
}

/// Whether `e` is placed in `text` as an error report needs: its line is
/// the 1-based line on which its span starts; an error at the end of the
/// input has an empty span there; any other error spans the text of the
/// offending token, which for a lexing error is text that forms no token.
pub open spec fn placed(e: CompileError, text: Seq<u8>) -> bool {
    &&& e.span.start <= e.span.end <= text.len()
    &&& e.line == 1 + newlines(text, 0, e.span.start as int)
    &&& if e.at_end {
        &&& e.span.start == text.len()
        &&& e.span.end == text.len()
        &&& !(e.kind is Lexing)
    } else {
        let (k, end) = scan(text, e.span.start as int);
        &&& e.span.start < e.span.end
        &&& end == e.span.end
        &&& e.kind == CompileErrorKind::Lexing(LexingError::UnexpectedCharacter) ==> k
            is Unexpected
        &&& e.kind == CompileErrorKind::Lexing(LexingError::InvalidNumber) ==> k is Number
    }
}

/// Whether `line` and `span` give the place of one token of `text`: the
/// span is the token's text, and the line the 1-based line it starts on.
pub open spec fn at_token(line: usize, span: TokenSpan, text: Seq<u8>) -> bool {
    &&& span.start < span.end <= text.len()
    &&& line == 1 + newlines(text, 0, span.start as int)
    &&& scan(text, span.start as int).1 == span.end
}

/// Whether every node of `e` is placed at a token of `text`.
pub open spec fn nodes_at_tokens(e: Expr, text: Seq<u8>) -> bool
    decreases e,
{
    &&& at_token(e.line, e.span, text)
    &&& match e.kind {
        ExprKind::Lit(_) => true,
        ExprKind::Binary(_, l, r) => nodes_at_tokens(*l, text) && nodes_at_tokens(*r, text),
    }
}

/// A node of a tree whose nodes are all at tokens is at a token.
pub proof fn lemma_node_at_token(e: Expr, line: usize, span: TokenSpan, text: Seq<u8>)
    requires
        nodes_at_tokens(e, text),
        crate::bytecode_compiler::has_node(e, line, span),
    ensures
        at_token(line, span, text),
    decreases e,
{
    if !(e.line == line && e.span == span) {
        match e.kind {
            ExprKind::Lit(_) => {},
            ExprKind::Binary(_, l, r) => {
                if crate::bytecode_compiler::has_node(*l, line, span) {
                    lemma_node_at_token(*l, line, span, text);
                } else {
                    lemma_node_at_token(*r, line, span, text);
                }
            },
        }
    }
}

/// Whether `t` may stand at position `i` of a token sequence: operands at
/// even positions, binary operators at odd ones.
pub open spec fn fits_at(t: Token, i: int) -> bool {
    if i % 2 == 0 {
        t is Number
    } else {
        binop_of(t) is Some
    }
}

/// Whether `ts` alternates operands and binary operators, from an operand.
pub open spec fn fits(ts: Seq<Token>) -> bool {
    forall|i: int| 0 <= i < ts.len() ==> fits_at(#[trigger] ts[i], i)
}

/// Whether `ts` is a complete unit: an operand, then pairs of a binary
/// operator and an operand, then the end.
pub open spec fn is_sentence(ts: Seq<Token>) -> bool {
    &&& ts.len() >= 2
    &&& ts.len() % 2 == 0
    &&& fits(ts.drop_last())
    &&& ts.last() == Token::EOF
}

/// Whether the last token of `ts` shows that no unit starts with `ts`: all
/// before it alternate, and it can neither continue them nor end them.
pub open spec fn is_misfit(ts: Seq<Token>) -> bool {
    &&& ts.len() >= 1
    &&& fits(ts.drop_last())
    &&& !fits_at(ts.last(), ts.len() - 1)
    &&& !(ts.last() == Token::EOF && ts.len() % 2 == 0)
}

/// `ts` as outcomes of lexing.
pub open spec fn oks(ts: Seq<Token>) -> Seq<Result<Token, LexingError>> {
    ts.map_values(|t: Token| Ok::<Token, LexingError>(t))
}

/// The first `n` tokens a parser pulls from `stream`: its outcomes, then
/// end markers once it is exhausted.
pub open spec fn padded(stream: Seq<Result<Token, LexingError>>, n: nat) -> Seq<
    Result<Token, LexingError>,
> {
    Seq::new(
        n,
        |i: int|
            if i < stream.len() {
                stream[i]
            } else {
                Ok(Token::EOF)
            },
    )
}

/// The tokens of a lexed stream, with an end marker for any failure.
pub open spec fn stream_tokens(stream: Seq<Result<Token, LexingError>>) -> Seq<Token> {
    stream.map_values(
        |o: Result<Token, LexingError>|
            match o {
                Ok(t) => t,
                Err(_) => Token::EOF,
            },
    )
}

/// Whether the lexed `stream` is one complete unit: every token lexes, and
/// they alternate operands and binary operators, from an operand to an
/// operand.
pub open spec fn is_unit(stream: Seq<Result<Token, LexingError>>) -> bool {
    &&& forall|i: int| 0 <= i < stream.len() ==> #[trigger] stream[i] is Ok
    &&& is_sentence(stream_tokens(stream).push(Token::EOF))
}

/// What the tokens pulled from a stream show of it: a complete unit that
/// they spell, or a unit that no stream starting with them is.
pub proof fn lemma_pulled_decides(pulled: Seq<Token>, stream: Seq<Result<Token, LexingError>>)
    requires
        oks(pulled) == padded(stream, pulled.len()),
        forall|i: int|
            0 <= i < stream.len() ==> #[trigger] stream[i] != Ok::<Token, LexingError>(Token::EOF),
    ensures
        is_sentence(pulled) ==> is_unit(stream) && oks(pulled.drop_last()) == stream,
        is_misfit(pulled) ==> !is_unit(stream),
{
    let n = pulled.len() as int;
    assert forall|i: int| 0 <= i < n implies #[trigger] oks(pulled)[i] == padded(
        stream,
        pulled.len(),
    )[i] by {}
    if is_sentence(pulled) {
        assert forall|i: int| 0 <= i < n - 1 implies i < stream.len() && #[trigger] pulled[i]
            != Token::EOF by {
            assert(oks(pulled)[i] == Ok::<Token, LexingError>(pulled[i]));
            assert(fits_at(pulled.drop_last()[i], i));
        }
        assert(pulled[n - 2] != Token::EOF);
        if n - 1 < stream.len() {
            assert(oks(pulled)[n - 1] == Ok::<Token, LexingError>(pulled[n - 1]));
            assert(stream[n - 1] == Ok::<Token, LexingError>(Token::EOF));
        }
        assert(stream.len() == n - 1);
        assert(oks(pulled.drop_last()) =~= stream) by {
            assert forall|i: int| 0 <= i < n - 1 implies oks(pulled.drop_last())[i] == stream[i] by {
                assert(oks(pulled)[i] == Ok::<Token, LexingError>(pulled[i]));
            }
        }
        assert(stream_tokens(stream).push(Token::EOF) =~= pulled) by {
            assert forall|i: int| 0 <= i < n - 1 implies stream_tokens(stream)[i] == pulled[i] by {
                assert(oks(pulled)[i] == Ok::<Token, LexingError>(pulled[i]));
            }
        }
    }
    if is_misfit(pulled) && is_unit(stream) {
        let sentence = stream_tokens(stream).push(Token::EOF);
        let l = stream.len() as int;
        if n <= l {
            assert(oks(pulled)[n - 1] == Ok::<Token, LexingError>(pulled[n - 1]));
            assert(stream[n - 1] is Ok);
            assert(sentence.drop_last()[n - 1] == pulled[n - 1]);
            assert(fits_at(sentence.drop_last()[n - 1], n - 1));
        } else {
            assert(oks(pulled)[l] == Ok::<Token, LexingError>(pulled[l]));
            assert(pulled[l] == Token::EOF);
            assert(l % 2 == 1);
            if l < n - 1 {
                assert(fits_at(pulled.drop_last()[l], l));
            }
        }
    }
}

/// The tokens of `e` followed by its tokens after `prefix` still alternate.
pub proof fn lemma_inorder_fits(prefix: Seq<Token>, e: Expr)
    requires
        fits(prefix),
        prefix.len() % 2 == 0,
    ensures
        fits(prefix + inorder(e)),
        inorder(e).len() % 2 == 1,
    decreases e,
{
    match e.kind {
        ExprKind::Lit(_) => {},
        ExprKind::Binary(op, l, r) => {
            lemma_inorder_fits(prefix, *l);
            let mid = prefix + inorder(*l) + seq![token_of(op)];
            assert(fits(mid)) by {
                assert forall|i: int| 0 <= i < mid.len() implies fits_at(#[trigger] mid[i], i) by {
                    if i < mid.len() - 1 {
                        assert(mid[i] == (prefix + inorder(*l))[i]);
                    }
                }
            }
            lemma_inorder_fits(mid, *r);
            assert(prefix + inorder(e) =~= mid + inorder(*r));
        },
    }
}

/// A precedence-climbing parser over the tokens of a lexer. It looks one
/// token ahead: `token` is the next token not yet consumed.
pub struct Parser<'a, F: Fn(&[u8]) -> Option<u64>> {
    token: Token,
    lexer: Lexer<'a>,
    parse_number: &'a F,
    pulled: Ghost<Seq<Token>>,
    origin: Ghost<int>,
}

impl<'a, F: Fn(&[u8]) -> Option<u64>> Parser<'a, F> {
    /// The tokens pulled from the lexer so far, in order; the last is the
    /// token being looked at.
    pub closed spec fn pulled(&self) -> Seq<Token> {
        self.pulled@
    }

    /// The token being looked at.
    pub closed spec fn current(&self) -> Token {
        self.token
    }

    /// What is left of the input: shrinks with every token consumed.
    pub closed spec fn remaining(&self) -> int {
        self.lexer.text().len() - self.lexer.position() + if self.token == Token::EOF {
            0int
        } else {
            1int
        }
    }

    /// The outcomes of lexing the input from where parsing started, when
    /// numeric literals get the values `number`.
    pub closed spec fn stream(&self, number: spec_fn(Seq<u8>) -> Option<u64>) -> Seq<
        Result<Token, LexingError>,
    > {
        lex_from(self.lexer.text(), self.origin@, number)
    }

    /// Whether the number parser computes `number`.
    pub closed spec fn reads(&self, number: spec_fn(Seq<u8>) -> Option<u64>) -> bool {
        reads_numbers(*self.parse_number, number)
    }

    /// Whether the tokens pulled are those of `stream(number)`, and the
    /// lexer stands after them.
    pub closed spec fn follows(&self, number: spec_fn(Seq<u8>) -> Option<u64>) -> bool {
        let st = self.stream(number);
        let n = self.pulled@.len();
        &&& oks(self.pulled@) == padded(st, n)
        &&& lex_from(self.lexer.text(), self.lexer.position(), number) == st.subrange(
            if n <= st.len() {
                n as int
            } else {
                st.len() as int
            },
            st.len() as int,
        )
    }

    /// The source text being parsed.
    pub closed spec fn text(&self) -> Seq<u8> {
        self.lexer.text()
    }

    /// Whether the lexer stands at the token being looked at: the end of the
    /// input for `EOF`, else the token's own text.
    pub closed spec fn located(&self) -> bool {
        let start = self.lexer.token_start();
        let end = self.lexer.position();
        &&& self.token == Token::EOF ==> start == end == self.lexer.text().len()
        &&& self.token != Token::EOF ==> start < end && scan(self.lexer.text(), start).1 == end
    }

    /// Whether `self` reads the same input as `other`, with the same number
    /// parser.
    pub closed spec fn same_source(&self, other: &Self) -> bool {
        &&& self.lexer.text() == other.lexer.text()
        &&& self.origin == other.origin
        &&& self.parse_number == other.parse_number
    }

    /// Whether the tokens pulled follow the stream for every function that
    /// the number parser computes.
    pub closed spec fn tracks(&self) -> bool {
        forall|number: spec_fn(Seq<u8>) -> Option<u64>| #[trigger]
            self.reads(number) ==> self.follows(number)
    }

    /// Whether lexing failed with `error` on the token after those pulled.
    pub closed spec fn failed_at(&self, error: LexingError) -> bool {
        forall|number: spec_fn(Seq<u8>) -> Option<u64>| #[trigger]
            self.reads(number) ==> self.pulled@.len() < self.stream(number).len()
                && self.stream(number)[self.pulled@.len() as int] == Err::<Token, LexingError>(
                error,
            )
    }

    /// Whether the lexer is in order and the number parser may be called.
    pub closed spec fn can_pull(&self) -> bool {
        &&& self.lexer.wf()
        &&& forall|text: &[u8]| self.parse_number.requires((text,))
    }

    pub closed spec fn wf(&self) -> bool {
        &&& self.can_pull()
        &&& self.tracks()
        &&& self.located()
        &&& self.pulled@.len() >= 1
        &&& self.pulled@.last() == self.token
        &&& self.remaining() >= 0
    }

    /// Whether the lexer has been set up with `parse_number`, so that
    /// parsing may start.
    pub closed spec fn ready(&self) -> bool {
        &&& self.can_pull()
        &&& self.tracks()
        &&& self.pulled@.len() == 0
    }

    /// A parser that reads the tokens of `lexer`, giving each numeric
    /// literal the value that `parse_number` gives its text.
    pub fn new(lexer: Lexer<'a>, parse_number: &'a F) -> (r: Self)
        requires
            lexer.wf(),
            forall|text: &[u8]| parse_number.requires((text,)),
        ensures
            r.ready(),
            r.can_pull(),
            r.text() == lexer.text(),
            forall|number: spec_fn(Seq<u8>) -> Option<u64>|
                #![trigger r.reads(number)]
                r.reads(number) == reads_numbers(*parse_number, number) && r.stream(number)
                    == lex_from(lexer.text(), lexer.position(), number),
    {
        let ghost origin = lexer.position();
        let r = Parser {
            token: Token::EOF,
            lexer: lexer,
            parse_number: parse_number,
            pulled: Ghost(Seq::empty()),
            origin: Ghost(origin),
        };
        proof {
            assert forall|number: spec_fn(Seq<u8>) -> Option<u64>| #[trigger]
                r.reads(number) implies r.follows(number) by {
                let st = r.stream(number);
                assert(oks(r.pulled@) =~= padded(st, 0));
                assert(st.subrange(0, st.len() as int) =~= st);
            }
        }
        r
    }

    /// Whether the token being looked at is `token`.
    pub fn check(&self, token: Token) -> (r: bool)
        ensures
            r == (self.current() == token),
    {
        self.token == token
    }

    /// Consumes the token being looked at if it is `token`, and says whether
    /// it did.
    pub fn eat(&mut self, token: Token) -> (r: Result<bool, CompileError>)
        requires
            old(self).can_pull(),
            old(self).tracks(),
            old(self).pulled().len() >= 1 ==> old(self).pulled().last() == old(self).current(),
        ensures
            final(self).can_pull(),
            final(self).same_source(old(self)),
            r is Ok ==> final(self).tracks(),
            r matches Err(e) ==> (e.kind matches CompileErrorKind::Lexing(le)
                ==> final(self).failed_at(le)),
            r == Ok::<bool, CompileError>(false) ==> final(self).pulled() == old(self).pulled()
                && final(self).current() == old(self).current(),
            r matches Ok(true) ==> old(self).current() == token && final(self).pulled() == old(
                self,
            ).pulled().push(final(self).current()),
            r is Ok <==> (old(self).current() != token || final(self).pulled() == old(
                self,
            ).pulled().push(final(self).current())),
            r matches Err(e) ==> e.kind is Lexing && old(self).current() == token,
    {
        let is_present = self.check(token);
        if is_present {
            self.advance()?;
        }
        Ok(is_present)
    }

    /// A parse error of `kind` at the token being looked at.
    fn error_at_current(&self, kind: CompileErrorKind) -> (r: CompileError)
        requires
            self.lexer.wf(),
            self.located(),
            !(kind is Lexing),
        ensures
            r.kind == kind,
            r.at_end == (self.current() == Token::EOF),
            placed(r, self.text()),
    {
        proof {
            self.lexer.lemma_line();
        }
        CompileError {
            kind: kind,
            line: self.lexer.line(),
            at_end: self.token == Token::EOF,
            span: self.lexer.span(),
        }
    }

    /// Consumes the token being looked at and pulls the next one; past the
    /// end of the input that is `EOF`. A lexing error is returned as a
    /// compile error at the offending text.
    pub fn advance(&mut self) -> (r: Result<(), CompileError>)
        requires
            old(self).can_pull(),
            old(self).tracks(),
            old(self).pulled().len() >= 1 ==> old(self).pulled().last() == old(self).current(),
        ensures
            final(self).can_pull(),
            final(self).same_source(old(self)),
            r is Ok ==> final(self).tracks(),
            r is Ok ==> final(self).located(),
            r matches Err(e) ==> (e.kind matches CompileErrorKind::Lexing(le)
                ==> final(self).failed_at(le)),
            r matches Err(e) ==> placed(e, final(self).text()),
            r is Ok ==> final(self).pulled() == old(self).pulled().push(final(self).current()),
            r is Ok ==> final(self).pulled().len() >= 1 ==> final(self).remaining() >= 0,
            r is Ok ==> old(self).current() != Token::EOF ==> final(self).remaining()
                < old(self).remaining(),
            r is Ok ==> old(self).current() == Token::EOF ==> final(self).remaining()
                <= old(self).remaining(),
            r matches Err(e) ==> e.kind is Lexing && final(self).pulled() == old(self).pulled(),
    {
        let ghost before = *self;
        match self.lexer.next_token(self.parse_number) {
            Some(Ok(token)) => {
                self.token = token;
                proof {
                    self.lexer.lemma_line();
                    lemma_scan_not_end(self.lexer.text(), self.lexer.token_start());
                    assert(self.lexer.token_start() < self.lexer.position());
                    assert(scan(self.lexer.text(), self.lexer.token_start()).1
                        == self.lexer.position());
                    assert(token != Token::EOF);
                }
            },
            Some(Err(e)) => {
                proof {
                    self.lexer.lemma_line();
                }
                let err = CompileError {
                    kind: CompileErrorKind::Lexing(e),
                    line: self.lexer.line(),
                    at_end: false,
                    span: self.lexer.span(),
                };
                proof {
                    assert forall|number: spec_fn(Seq<u8>) -> Option<u64>| #[trigger]
                        self.reads(number) implies self.pulled@.len() < self.stream(number).len()
                        && self.stream(number)[self.pulled@.len() as int] == Err::<
                        Token,
                        LexingError,
                    >(e) by {
                        assert(before.reads(number));
                        assert(before.follows(number));
                        let st = before.stream(number);
                        let n = before.pulled@.len();
                        let rest = lex_from(before.lexer.text(), before.lexer.position(), number);
                        assert(rest.len() >= 1);
                        assert(rest[0] == Err::<Token, LexingError>(e));
                        let m = if n <= st.len() {
                            n as int
                        } else {
                            st.len() as int
                        };
                        assert(rest == st.subrange(m, st.len() as int));
                        assert(st.subrange(m, st.len() as int)[0] == st[m]);
                    }
                }
                return Err(err);
            },
            None => {
                self.token = Token::EOF;
                assert(self.lexer.token_start() == self.lexer.position());
                assert(self.lexer.position() == self.lexer.text().len());
            },
        }
        self.pulled = Ghost(self.pulled@.push(self.token));
        proof {
            assert forall|number: spec_fn(Seq<u8>) -> Option<u64>| #[trigger]
                self.reads(number) implies self.follows(number) by {
                assert(before.reads(number));
                assert(before.follows(number));
                let st = before.stream(number);
                let n = before.pulled@.len();
                let rest = lex_from(before.lexer.text(), before.lexer.position(), number);
                let m = if n <= st.len() {
                    n as int
                } else {
                    st.len() as int
                };
                assert(rest == st.subrange(m, st.len() as int));
                if rest.len() > 0 {
                    assert(n < st.len());
                    assert(st.subrange(m, st.len() as int)[0] == st[m]);
                    assert(st[n as int] == rest[0]);
                    let after = lex_from(self.lexer.text(), self.lexer.position(), number);
                    assert(rest == seq![rest[0]] + after);
                    assert(after =~= rest.subrange(1, rest.len() as int));
                    assert forall|i: int| 0 <= i < n + 1 implies #[trigger] oks(self.pulled@)[i]
                        == padded(st, n + 1 as nat)[i] by {
                        if i < n {
                            assert(oks(before.pulled@)[i] == padded(st, n)[i]);
                        }
                    }
                    assert(oks(self.pulled@) =~= padded(st, n + 1 as nat));
                    assert(lex_from(self.lexer.text(), self.lexer.position(), number) =~= st.subrange(
                        n + 1 as int,
                        st.len() as int,
                    ));
                } else {
                    assert forall|i: int| 0 <= i < n + 1 implies #[trigger] oks(self.pulled@)[i]
                        == padded(st, n + 1 as nat)[i] by {
                        if i < n {
                            assert(oks(before.pulled@)[i] == padded(st, n)[i]);
                        }
                    }
                    assert(oks(self.pulled@) =~= padded(st, n + 1 as nat));
                    assert(lex_from(self.lexer.text(), self.lexer.position(), number) =~= st.subrange(
                        st.len() as int,
                        st.len() as int,
                    ));
                }
            }
        }
        Ok(())
    }

    /// Parses the whole unit: one expression, then the end of the input.
    /// It succeeds exactly when the tokens pulled form a complete unit, and
    /// the tree then groups them by precedence, equal operators from the
    /// left. On an error the tokens pulled show that no unit starts with
    /// them, or the lexer failed on the next one.
    pub fn parse_root(&mut self) -> (r: Result<Ast, CompileError>)
        requires
            old(self).ready(),
        ensures
            forall|number: spec_fn(Seq<u8>) -> Option<u64>|
                #![trigger old(self).reads(number)]
                old(self).reads(number) ==> {
                    &&& (r is Ok <==> is_unit(old(self).stream(number)))
                    &&& (r matches Ok(ast) ==> oks(inorder(ast.root)) == old(self).stream(number))
                },
            r matches Err(e) ==> e.kind != CompileErrorKind::TooManyConstants,
            r matches Err(e) ==> placed(e, old(self).text()),
            r matches Ok(ast) ==> nodes_at_tokens(ast.root, old(self).text()),
            r matches Ok(ast) ==> {
                &&& is_sentence(final(self).pulled())
                &&& final(self).pulled() == inorder(ast.root).push(Token::EOF)
                &&& well_grouped(ast.root)
            },
            r matches Err(e) ==> if e.kind is Lexing {
                fits(final(self).pulled())
            } else {
                is_misfit(final(self).pulled())
            },
            r matches Err(e) ==> (e.kind matches CompileErrorKind::Lexing(le)
                ==> final(self).failed_at(le)),
            r matches Err(e) ==> (!(e.kind is Lexing) ==> final(self).tracks()),
            r matches Err(e) ==> e.kind != CompileErrorKind::TooManyConstants,
            r matches Err(e) ==> placed(e, final(self).text()),
            final(self).same_source(old(self)),
    {
        let ghost start = *self;
        match self.advance() {
            Ok(()) => {},
            Err(e) => {
                proof {
                    self.lemma_failure_decides(&start, e);
                }
                return Err(e);
            },
        }
        let expr = match self.parse_expression(Precedence::Lowest) {
            Ok(expr) => expr,
            Err(e) => {
                proof {
                    self.lemma_failure_decides(&start, e);
                }
                return Err(e);
            },
        };
        proof {
            lemma_inorder_fits(Seq::empty(), expr);
            assert(Seq::<Token>::empty() + inorder(expr) =~= inorder(expr));
        }
        if self.token != Token::EOF {
            let ghost ts = self.pulled@;
            let e = self.error_at_current(CompileErrorKind::ExpectEndOfExpression);
            proof {
                assert(ts.drop_last() =~= inorder(expr));
                self.lemma_failure_decides(&start, e);
            }
            return Err(e);
        }
        proof {
            assert(self.pulled@.drop_last() =~= inorder(expr));
            assert forall|number: spec_fn(Seq<u8>) -> Option<u64>| #[trigger]
                start.reads(number) implies is_unit(start.stream(number)) && oks(inorder(expr))
                == start.stream(number) by {
                assert(self.reads(number));
                assert(self.follows(number));
                lemma_lex_from_not_end(self.lexer.text(), self.origin@, number);
                lemma_pulled_decides(self.pulled@, self.stream(number));
            }
        }
        Ok(Ast { root: expr })
    }

    /// A failure of the parse functions shows that the stream is
    /// no unit.
    proof fn lemma_failure_decides(&self, start: &Self, e: CompileError)
        requires
            self.same_source(start),
            e.kind is Lexing ==> fits(self.pulled()),
            !(e.kind is Lexing) ==> is_misfit(self.pulled()) && self.tracks(),
            e.kind matches CompileErrorKind::Lexing(le) ==> self.failed_at(le),
        ensures
            forall|number: spec_fn(Seq<u8>) -> Option<u64>| #[trigger]
                start.reads(number) ==> !is_unit(start.stream(number)),
    {
        assert forall|number: spec_fn(Seq<u8>) -> Option<u64>| #[trigger]
            start.reads(number) implies !is_unit(start.stream(number)) by {
            assert(self.reads(number));
            match e.kind {
                CompileErrorKind::Lexing(le) => {
                    let n = self.pulled@.len() as int;
                    assert(!(self.stream(number)[n] is Ok));
                },
                _ => {
                    assert(self.follows(number));
                    lemma_lex_from_not_end(self.lexer.text(), self.origin@, number);
                    lemma_pulled_decides(self.pulled@, self.stream(number));
                },
            }
        }
    }

    /// Parses an expression whose operators all bind more tightly than
    /// `precedence`, starting at the token being looked at.
    fn parse_expression(&mut self, precedence: Precedence) -> (r: Result<Expr, CompileError>)
        requires
            old(self).wf(),
            fits(old(self).pulled().drop_last()),
            (old(self).pulled().len() - 1) % 2 == 0,
        ensures
            r matches Ok(e) ==> {
                &&& final(self).wf()
                &&& final(self).remaining() < old(self).remaining()
                &&& final(self).pulled() == old(self).pulled().drop_last() + inorder(e).push(
                    final(self).current(),
                )
                &&& well_grouped(e)
                &&& nodes_at_tokens(e, old(self).text())
                &&& binding(e) > rank(precedence)
                &&& rank(token_precedence(final(self).current())) <= rank(precedence)
            },
            r matches Err(e) ==> if e.kind is Lexing {
                fits(final(self).pulled())
            } else {
                is_misfit(final(self).pulled())
            },
            r matches Err(e) ==> (e.kind matches CompileErrorKind::Lexing(le)
                ==> final(self).failed_at(le)),
            r matches Err(e) ==> (!(e.kind is Lexing) ==> final(self).tracks()),
            r matches Err(e) ==> e.kind != CompileErrorKind::TooManyConstants,
            r matches Err(e) ==> placed(e, final(self).text()),
            final(self).same_source(old(self)),
        decreases old(self).remaining(), 1int,
    {
        let ghost base = self.pulled@.drop_last();
        let mut left = self.parse_num_literal()?;
        proof {
            lemma_inorder_fits(base, left);
        }
        while precedence.rank() < Precedence::from_token(&self.token).rank()
            invariant
                self.wf(),
                self.same_source(old(self)),
                self.remaining() < old(self).remaining(),
                fits(base),
                base.len() % 2 == 0,
                fits(base + inorder(left)),
                inorder(left).len() % 2 == 1,
                self.pulled() == base + inorder(left).push(self.token),
                well_grouped(left),
                nodes_at_tokens(left, old(self).text()),
                binding(left) > rank(precedence),
                rank(token_precedence(self.token)) <= binding(left),
            decreases self.remaining(),
        {
            proof {
                assert(self.pulled@.drop_last() =~= base + inorder(left));
            }
            left = self.parse_binop(left)?;
            proof {
                lemma_inorder_fits(base, left);
            }
        }
        Ok(left)
    }

    /// Given the operand `left` before it, consumes the binary operator
    /// being looked at and parses its right operand, which binds more
    /// tightly than the operator.
    fn parse_binop(&mut self, left: Expr) -> (r: Result<Expr, CompileError>)
        requires
            old(self).wf(),
            binop_of(old(self).current()) is Some,
            fits(old(self).pulled().drop_last()),
            (old(self).pulled().len() - 1) % 2 == 1,
            nodes_at_tokens(left, old(self).text()),
        ensures
            r matches Ok(e) ==> {
                &&& final(self).wf()
                &&& final(self).remaining() < old(self).remaining()
                &&& e.kind == ExprKind::Binary(
                    binop_of(old(self).current())->0,
                    Box::new(left),
                    Box::new(right_of(e)),
                )
                &&& final(self).pulled() == old(self).pulled() + inorder(right_of(e)).push(
                    final(self).current(),
                )
                &&& nodes_at_tokens(e, old(self).text())
                &&& well_grouped(right_of(e))
                &&& binding(right_of(e)) > rank(token_precedence(old(self).current()))
                &&& rank(token_precedence(final(self).current())) <= rank(
                    token_precedence(old(self).current()),
                )
            },
            r matches Err(e) ==> if e.kind is Lexing {
                fits(final(self).pulled())
            } else {
                is_misfit(final(self).pulled())
            },
            r matches Err(e) ==> (e.kind matches CompileErrorKind::Lexing(le)
                ==> final(self).failed_at(le)),
            r matches Err(e) ==> (!(e.kind is Lexing) ==> final(self).tracks()),
            r matches Err(e) ==> e.kind != CompileErrorKind::TooManyConstants,
            r matches Err(e) ==> placed(e, final(self).text()),
            final(self).same_source(old(self)),
        decreases old(self).remaining(), 0int,
    {
        let op = match BinOpKind::from_token(&self.token) {
            Some(op) => op,
            None => {
                return Err(self.error_at_current(CompileErrorKind::ExpectEndOfExpression));
            },
        };
        proof {
            assert(self.pulled@ =~= self.pulled@.drop_last().push(self.token));
        }
        let ghost before = self.pulled@;
        proof {
            self.lexer.lemma_line();
        }
        let line = self.lexer.line();
        let span = self.lexer.span();
        self.advance()?;
        proof {
            assert(self.pulled@.drop_last() =~= before);
        }
        let rhs = self.parse_expression(op.precedence())?;
        Ok(Expr { kind: ExprKind::Binary(op, Box::new(left), Box::new(rhs)), line, span })
    }

    /// Parses the numeric literal being looked at.
    pub fn parse_num_literal(&mut self) -> (r: Result<Expr, CompileError>)
        requires
            old(self).wf(),
            fits(old(self).pulled().drop_last()),
            (old(self).pulled().len() - 1) % 2 == 0,
        ensures
            old(self).current() is Number ==> (r is Ok || (r matches Err(e) && e.kind is Lexing)),
            r matches Ok(e) ==> {
                &&& final(self).wf()
                &&& final(self).remaining() < old(self).remaining()
                &&& old(self).current() matches Token::Number(bits)
                &&& e.kind == ExprKind::Lit(Lit { kind: crate::ast::LitKind::Number, symbol: bits })
                &&& final(self).pulled() == old(self).pulled().push(final(self).current())
                &&& nodes_at_tokens(e, old(self).text())
            },
            r matches Err(e) ==> if e.kind is Lexing {
                fits(final(self).pulled())
            } else {
                is_misfit(final(self).pulled())
            },
            r matches Err(e) ==> (e.kind matches CompileErrorKind::Lexing(le)
                ==> final(self).failed_at(le)),
            r matches Err(e) ==> (!(e.kind is Lexing) ==> final(self).tracks()),
            r matches Err(e) ==> e.kind != CompileErrorKind::TooManyConstants,
            r matches Err(e) ==> placed(e, final(self).text()),
            final(self).same_source(old(self)),
    {
        let bits = match self.token {
            Token::Number(bits) => bits,
            _ => {
                return Err(self.error_at_current(CompileErrorKind::ExpectExpression));
            },
        };
        proof {
            assert(self.pulled@ =~= self.pulled@.drop_last().push(self.token));
        }
        proof {
            self.lexer.lemma_line();
        }
        let line = self.lexer.line();
        let span = self.lexer.span();
        self.advance()?;
        Ok(Expr { kind: ExprKind::Lit(Lit::number(bits)), line, span })
    }
}

/// The right operand of a binary expression.
pub open spec fn right_of(e: Expr) -> Expr {
    match e.kind {
        ExprKind::Binary(_, _, r) => *r,
        ExprKind::Lit(_) => e,
    }
}

} // verus!
