use vstd::prelude::*;

use crate::token::{Token, TokenSpan};

verus! {

/// A literal of the source text.
#[derive(Clone, Copy, Debug, PartialEq, Eq, Structural)]
pub struct Lit {
    pub kind: LitKind,
    /// The binary64 bit pattern of the number.
    pub symbol: u64,
}

#[derive(Clone, Copy, Debug, PartialEq, Eq, Structural)]
pub enum LitKind {
    Number,
}

impl Lit {
    /// The numeric literal with the given binary64 bit pattern.
    pub fn number(bits: u64) -> (r: Lit)
        ensures
            r == (Lit { kind: LitKind::Number, symbol: bits }),
    {
        Lit { kind: LitKind::Number, symbol: bits }
    }
}

/// One parsed expression, with the line and text of the token it was
/// formed at. Each node owns its subtrees.
#[derive(Debug)]
pub struct Expr {
    pub kind: ExprKind,
    pub line: usize,
    pub span: TokenSpan,
}

#[derive(Debug)]
pub enum ExprKind {
    Binary(BinOp, Box<Expr>, Box<Expr>),
    Lit(Lit),
}

/// How tightly an operator binds: `Lowest` binds nothing, and each level binds
/// tighter than the one before it.
#[derive(Clone, Copy, Debug, PartialEq, Eq, Structural)]
pub enum Precedence {
    Lowest,
    Summation,
    Multiplication,
    Division,
}

#[derive(Clone, Copy, Debug, PartialEq, Eq, Structural)]
pub enum BinOpKind {
    Add,
    Sub,
    Mul,
    Div,
}

pub type BinOp = BinOpKind;

/// A parsed unit: one top-level expression.
#[derive(Debug)]
pub struct Ast {
    pub root: Expr,
}

/// The rank of a precedence level, from 0 for `Lowest` up.
pub open spec fn rank(p: Precedence) -> nat {
    match p {
        Precedence::Lowest => 0,
        Precedence::Summation => 1,
        Precedence::Multiplication => 2,
        Precedence::Division => 3,
    }
}

/// The binary operator that `t` denotes, if any.
pub open spec fn binop_of(t: Token) -> Option<BinOpKind> {
    match t {
        Token::Plus => Some(BinOpKind::Add),
        Token::Minus => Some(BinOpKind::Sub),
        Token::Star => Some(BinOpKind::Mul),
        Token::Slash => Some(BinOpKind::Div),
        _ => None,
    }
}

/// The token that denotes `op`.
pub open spec fn token_of(op: BinOpKind) -> Token {
    match op {
        BinOpKind::Add => Token::Plus,
        BinOpKind::Sub => Token::Minus,
        BinOpKind::Mul => Token::Star,
        BinOpKind::Div => Token::Slash,
    }
}

/// The precedence of `op`.
pub open spec fn precedence_of(op: BinOpKind) -> Precedence {
    match op {
        BinOpKind::Add | BinOpKind::Sub => Precedence::Summation,
        BinOpKind::Mul => Precedence::Multiplication,
        BinOpKind::Div => Precedence::Division,
    }
}

/// The precedence that `t` has between two operands: that of the operator
/// it denotes, `Lowest` for any other token.
pub open spec fn token_precedence(t: Token) -> Precedence {
    match binop_of(t) {
        Some(op) => precedence_of(op),
        None => Precedence::Lowest,
    }
}

/// How tightly the top of `e` binds: its operator's rank, or above every
/// rank for a literal.
pub open spec fn binding(e: Expr) -> nat {
    match e.kind {
        ExprKind::Lit(_) => 4,
        ExprKind::Binary(op, _, _) => rank(precedence_of(op)),
    }
}

/// Whether every operator in `e` groups as precedence and left
/// associativity demand: a left operand binds at least as tightly as its
/// operator, and a right operand binds strictly more tightly.
pub open spec fn well_grouped(e: Expr) -> bool
    decreases e,
{
    match e.kind {
        ExprKind::Lit(_) => true,
        ExprKind::Binary(op, l, r) => {
            &&& well_grouped(*l)
            &&& well_grouped(*r)
            &&& binding(*l) >= rank(precedence_of(op))
            &&& binding(*r) > rank(precedence_of(op))
        },
    }
}

/// The tokens of `e` in source order.
pub open spec fn inorder(e: Expr) -> Seq<Token>
    decreases e,
{
    match e.kind {
        ExprKind::Lit(lit) => seq![Token::Number(lit.symbol)],
        ExprKind::Binary(op, l, r) => inorder(*l) + seq![token_of(op)] + inorder(*r),
    }
}

impl Precedence {
    /// The precedence that `token` has between two operands; `Lowest` for a
    /// token that is no binary operator, which ends an expression.
    #[must_use]
    pub fn from_token(token: &Token) -> (r: Precedence)
        ensures
            r == token_precedence(*token),
    {
        match token {
            Token::Plus | Token::Minus => Precedence::Summation,
            Token::Star => Precedence::Multiplication,
            Token::Slash => Precedence::Division,
            _ => Precedence::Lowest,
        }
    }

    /// The rank of this level.
    pub fn rank(self) -> (r: u8)
        ensures
            r == rank(self),
    {
        match self {
            Precedence::Lowest => 0,
            Precedence::Summation => 1,
            Precedence::Multiplication => 2,
            Precedence::Division => 3,
        }
    }
}

impl BinOpKind {
    /// The binary operator that `token` denotes, if any.
    pub fn from_token(token: &Token) -> (r: Option<BinOpKind>)
        ensures
            r == binop_of(*token),
    {
        match token {
            Token::Plus => Some(BinOpKind::Add),
            Token::Minus => Some(BinOpKind::Sub),
            Token::Star => Some(BinOpKind::Mul),
            Token::Slash => Some(BinOpKind::Div),
            _ => None,
        }
    }

    /// The precedence of this operator.
    pub fn precedence(self) -> (r: Precedence)
        ensures
            r == precedence_of(self),
    {
        match self {
            BinOpKind::Add | BinOpKind::Sub => Precedence::Summation,
            BinOpKind::Mul => Precedence::Multiplication,
            BinOpKind::Div => Precedence::Division,
        }
    }
}

} // verus!
