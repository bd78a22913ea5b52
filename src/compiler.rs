use vstd::prelude::*;
use vstd::string::StringSliceAdditionalSpecFns;

use crate::ast::{inorder, well_grouped, Expr};
use crate::bytecode::{Bytecode, MAX_CONSTANTS};
use crate::bytecode_compiler::{
    constants_of, is_compiled_unit, lemma_inorder_len, unit_code, BytecodeCompiler,
};
use crate::lexer::{lex_from, reads_numbers, Lexer};
use crate::parser::{
    is_unit, lemma_node_at_token, oks, placed, CompileError, CompileErrorKind, Parser,
};

verus! {

/// The front of the pipeline: source text to a finalized bytecode unit.
#[derive(Debug)]
pub struct Compiler {}

impl Compiler {
    pub fn new() -> (r: Compiler)
        ensures
            r == (Compiler {}),
    {
        Compiler {}
    }

    /// Lexes, parses and compiles `code`, giving each numeric literal the
    /// value that `parse_number` gives its text. A unit that compiles is
    /// finalized and is the code of a well-grouped expression; any lexing,
    /// parse or constant-pool error aborts the whole unit.
    ///
    /// Where `parse_number` computes a function `number`, the unit compiles
    /// exactly when the text lexes to one complete expression of at most
    /// `MAX_CONSTANTS` literals, and its code is that of the expression the
    /// tokens spell; a unit that lexes and parses fails only for too many
    /// constants. Every error is placed at the offending token, or at the
    /// end of the input (see `placed`); an overflowing pool is reported at
    /// a token of the expression.
    pub fn compile<F: Fn(&[u8]) -> Option<u64>>(&self, code: &str, parse_number: &F) -> (r: Result<
        Bytecode,
        CompileError,
    >)
        requires
            code.spec_bytes().len() < u32::MAX,
            forall|text: &[u8]| parse_number.requires((text,)),
        ensures
            r matches Ok(bc) ==> {
                &&& bc.wf()
                &&& bc.finished()
                &&& bc.lines().len() == bc.code().len()
                &&& is_compiled_unit(bc.code(), bc.constants())
            },
            r matches Err(e) ==> placed(e, code.spec_bytes()),
            forall|number: spec_fn(Seq<u8>) -> Option<u64>|
                #![trigger lex_from(code.spec_bytes(), 0, number)]
                reads_numbers(*parse_number, number) ==> {
                    let stream = lex_from(code.spec_bytes(), 0, number);
                    &&& (r is Ok <==> is_unit(stream) && stream.len() + 1 <= 2 * MAX_CONSTANTS)
                    &&& (r matches Ok(bc) ==> exists|e: Expr|
                        #![trigger unit_code(e)]
                        {
                            &&& well_grouped(e)
                            &&& oks(inorder(e)) == stream
                            &&& bc.code() == unit_code(e)
                            &&& bc.constants() == constants_of(e)
                        })
                    &&& (r matches Err(err) ==> (err.kind == CompileErrorKind::TooManyConstants
                        <==> is_unit(stream)))
                },
    {
        let lexer = Lexer::new(code);
        let parser0 = Parser::new(lexer, parse_number);
        let mut parser = parser0;
        let parsed = parser.parse_root();
        proof {
            assert forall|number: spec_fn(Seq<u8>) -> Option<u64>|
                #![trigger lex_from(code.spec_bytes(), 0, number)]
                reads_numbers(*parse_number, number) implies parser0.reads(number)
                && parser0.stream(number) == lex_from(code.spec_bytes(), 0, number) by {
                assert(parser0.reads(number) == reads_numbers(*parse_number, number));
            }
        }
        let ast = match parsed {
            Ok(ast) => ast,
            Err(e) => {
                return Err(e);
            },
        };
        proof {
            lemma_inorder_len(ast.root);
            assert forall|number: spec_fn(Seq<u8>) -> Option<u64>|
                #![trigger lex_from(code.spec_bytes(), 0, number)]
                reads_numbers(*parse_number, number) implies lex_from(code.spec_bytes(), 0, number)
                == oks(inorder(ast.root)) by {
                assert(parser0.reads(number));
            }
        }
        let bytecode_compiler = BytecodeCompiler::new(&ast);
        let bytecode = match bytecode_compiler.compile() {
            Ok(bytecode) => bytecode,
            Err(e) => {
                proof {
                    lemma_node_at_token(ast.root, e.line, e.span, code.spec_bytes());
                }
                return Err(e);
            },
        };
        assert(unit_code(ast.root) == bytecode.code());
        Ok(bytecode)
    }
}

impl Default for Compiler {
    fn default() -> (r: Self)
        ensures
            r == (Compiler {}),
    {
        Compiler {}
    }
}

} // verus!
