use vstd::prelude::*;

use crate::ast::{inorder, well_grouped, Ast, BinOpKind, Expr, ExprKind};
use crate::bytecode::{Bytecode, MAX_CONSTANTS};
use crate::lox_value::LoxValue;
use crate::opcodes::{spec_op_byte, Op};
use crate::parser::{CompileError, CompileErrorKind};
use crate::token::TokenSpan;

verus! {

/// The opcode that computes `op`.
pub open spec fn opcode_of(op: BinOpKind) -> Op {
    match op {
        BinOpKind::Add => Op::Add,
        BinOpKind::Sub => Op::Subtract,
        BinOpKind::Mul => Op::Multiply,
        BinOpKind::Div => Op::Divide,
    }
}

/// The number of literals in `e`.
pub open spec fn literal_count(e: Expr) -> nat
    decreases e,
{
    match e.kind {
        ExprKind::Lit(_) => 1,
        ExprKind::Binary(_, l, r) => literal_count(*l) + literal_count(*r),
    }
}

/// The constants that `e` adds to the pool: its literals, left to right.
pub open spec fn constants_of(e: Expr) -> Seq<LoxValue>
    decreases e,
{
    match e.kind {
        ExprKind::Lit(lit) => seq![LoxValue::Number(lit.symbol)],
        ExprKind::Binary(_, l, r) => constants_of(*l) + constants_of(*r),
    }
}

/// The code of `e` in postfix order, when its first literal goes to pool
/// index `base`: a literal loads its constant, and a binary expression runs
/// its left operand, then its right one, then its operator.
pub open spec fn code_of(e: Expr, base: nat) -> Seq<u8>
    decreases e,
{
    match e.kind {
        ExprKind::Lit(_) => seq![spec_op_byte(Op::ConstantSmall), base as u8],
        ExprKind::Binary(op, l, r) => code_of(*l, base) + code_of(*r, base + literal_count(*l))
            + seq![spec_op_byte(opcode_of(op))],
    }
}

/// The code of a whole unit whose expression is `e`: its code, then a return.
pub open spec fn unit_code(e: Expr) -> Seq<u8> {
    code_of(e, 0) + seq![spec_op_byte(Op::Ret)]
}

/// Whether some node of `e` was formed at `line` and `span`.
pub open spec fn has_node(e: Expr, line: usize, span: TokenSpan) -> bool
    decreases e,
{
    (e.line == line && e.span == span) || match e.kind {
        ExprKind::Lit(_) => false,
        ExprKind::Binary(_, l, r) => has_node(*l, line, span) || has_node(*r, line, span),
    }
}

/// Whether `code` and `constants` are what the compiler makes of some
/// well-grouped expression.
pub open spec fn is_compiled_unit(code: Seq<u8>, constants: Seq<LoxValue>) -> bool {
    exists|e: Expr|
        #![trigger unit_code(e)]
        well_grouped(e) && literal_count(e) <= MAX_CONSTANTS && code == unit_code(e) && constants
            == constants_of(e)
}

/// An expression's tokens are its literals with an operator between each
/// two.
pub proof fn lemma_inorder_len(e: Expr)
    ensures
        inorder(e).len() + 1 == 2 * literal_count(e),
    decreases e,
{
    match e.kind {
        ExprKind::Lit(_) => {},
        ExprKind::Binary(_, l, r) => {
            lemma_inorder_len(*l);
            lemma_inorder_len(*r);
        },
    }
}

pub proof fn lemma_constants_len(e: Expr)
    ensures
        constants_of(e).len() == literal_count(e),
        literal_count(e) >= 1,
    decreases e,
{
    match e.kind {
        ExprKind::Lit(_) => {},
        ExprKind::Binary(_, l, r) => {
            lemma_constants_len(*l);
            lemma_constants_len(*r);
        },
    }
}

/// Lowers one parsed unit to bytecode.
pub struct BytecodeCompiler<'ast> {
    ast: &'ast Ast,
    bytecode_block: Bytecode,
}

impl<'ast> BytecodeCompiler<'ast> {
    /// The tree being compiled.
    pub closed spec fn tree(&self) -> &'ast Ast {
        self.ast
    }

    /// Whether the compiler is ready to run: its unit is still empty.
    pub closed spec fn fresh(&self) -> bool {
        &&& self.bytecode_block.wf()
        &&& !self.bytecode_block.finished()
        &&& self.bytecode_block.code().len() == 0
        &&& self.bytecode_block.constants().len() == 0
    }

    pub fn new(ast: &'ast Ast) -> (r: Self)
        ensures
            r.tree() == ast,
            r.fresh(),
    {
        Self { ast: ast, bytecode_block: Bytecode::new() }
    }

    /// Compiles the tree into a finalized unit: the code of the expression,
    /// then a return, with one constant per literal. It fails exactly when
    /// the tree has more literals than the pool can hold.
    pub fn compile(self) -> (r: Result<Bytecode, CompileError>)
        requires
            self.fresh(),
        ensures
            r is Ok <==> literal_count(self.tree().root) <= MAX_CONSTANTS,
            r matches Ok(bc) ==> {
                &&& bc.wf()
                &&& bc.finished()
                &&& bc.lines().len() == bc.code().len()
                &&& bc.code() == unit_code(self.tree().root)
                &&& bc.constants() == constants_of(self.tree().root)
            },
            r matches Err(e) ==> e.kind == CompileErrorKind::TooManyConstants,
            r matches Err(e) ==> !e.at_end && has_node(self.tree().root, e.line, e.span),
    {
        let mut compiler = self;
        let ast = compiler.ast;
        compiler.visit_expr(&ast.root)?;
        proof {
            assert(Seq::<u8>::empty() + code_of(ast.root, 0) =~= code_of(ast.root, 0));
            assert(Seq::<LoxValue>::empty() + constants_of(ast.root) =~= constants_of(ast.root));
        }
        // The return ends the unit, at the line of its expression.
        compiler.bytecode_block.write_u8(Op::Ret.to_u8(), ast.root.line);
        compiler.bytecode_block.finish();
        Ok(compiler.bytecode_block)
    }

    /// Appends the code and constants of `expr`.
    fn visit_expr(&mut self, expr: &Expr) -> (r: Result<(), CompileError>)
        requires
            old(self).bytecode_block.wf(),
            !old(self).bytecode_block.finished(),
        ensures
            final(self).ast == old(self).ast,
            final(self).bytecode_block.wf(),
            !final(self).bytecode_block.finished(),
            r is Ok <==> old(self).bytecode_block.constants().len() + literal_count(*expr)
                <= MAX_CONSTANTS,
            r is Ok ==> final(self).bytecode_block.code() == old(self).bytecode_block.code()
                + code_of(*expr, old(self).bytecode_block.constants().len()),
            r is Ok ==> final(self).bytecode_block.constants() == old(
                self,
            ).bytecode_block.constants() + constants_of(*expr),
            r matches Err(e) ==> e.kind == CompileErrorKind::TooManyConstants,
            r matches Err(e) ==> !e.at_end && has_node(*expr, e.line, e.span),
        decreases expr,
    {
        proof {
            lemma_constants_len(*expr);
        }
        match &expr.kind {
            ExprKind::Binary(op, lhs, rhs) => {
                let ghost base = self.bytecode_block.constants().len();
                let ghost code0 = self.bytecode_block.code();
                let ghost consts0 = self.bytecode_block.constants();
                self.visit_expr(lhs)?;
                proof {
                    lemma_constants_len(**lhs);
                    lemma_constants_len(**rhs);
                }
                self.visit_expr(rhs)?;
                let opcode = match op {
                    BinOpKind::Add => Op::Add,
                    BinOpKind::Sub => Op::Subtract,
                    BinOpKind::Mul => Op::Multiply,
                    BinOpKind::Div => Op::Divide,
                };
                self.bytecode_block.write_u8(opcode.to_u8(), expr.line);
                proof {
                    assert(self.bytecode_block.code() =~= code0 + code_of(*expr, base));
                    assert(self.bytecode_block.constants() =~= consts0 + constants_of(*expr));
                }
                Ok(())
            },
            ExprKind::Lit(lit) => {
                if self.bytecode_block.get_constants_len() >= MAX_CONSTANTS {
                    return Err(
                        CompileError {
                            kind: CompileErrorKind::TooManyConstants,
                            line: expr.line,
                            at_end: false,
                            span: expr.span,
                        },
                    );
                }
                let constant = self.bytecode_block.add_constant(LoxValue::Number(lit.symbol));
                self.bytecode_block.write_u8(Op::ConstantSmall.to_u8(), expr.line);
                self.bytecode_block.write_u8(constant as u8, expr.line);
                proof {
                    assert(self.bytecode_block.code() =~= old(self).bytecode_block.code() + code_of(
                        *expr,
                        old(self).bytecode_block.constants().len(),
                    ));
                }
                Ok(())
            },
        }
    }
}

} // verus!
