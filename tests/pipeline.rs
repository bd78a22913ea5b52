use loxidize::ast::BinOpKind;
use loxidize::bytecode::Bytecode;
use loxidize::compiler::Compiler;
use loxidize::lox_value::LoxValue;
use loxidize::opcodes::Op;
use loxidize::parser::{CompileError, CompileErrorKind};
use loxidize::token::LexingError;
use loxidize::vm::{execute, Error, Step, VM};

fn parse_number(text: &[u8]) -> Option<u64> {
    let text = std::str::from_utf8(text).ok()?;
    let value: f64 = text.parse().ok()?;
    if value.is_finite() {
        Some(value.to_bits())
    } else {
        None
    }
}

fn binary(op: BinOpKind, left: u64, right: u64) -> u64 {
    let (a, b) = (f64::from_bits(left), f64::from_bits(right));
    let r = match op {
        BinOpKind::Add => a + b,
        BinOpKind::Sub => a - b,
        BinOpKind::Mul => a * b,
        BinOpKind::Div => a / b,
    };
    r.to_bits()
}

fn negate(operand: u64) -> u64 {
    (-f64::from_bits(operand)).to_bits()
}

fn compile(source: &str) -> Result<Bytecode, CompileError> {
    Compiler::new().compile(source, &parse_number)
}

fn run(source: &str) -> f64 {
    let bytecode = compile(source).expect("the source compiles");
    match execute(bytecode, &binary, &negate) {
        Ok(LoxValue::Number(bits)) => f64::from_bits(bits),
        Err(e) => panic!("runtime failure {:?}", e),
    }
}

fn number(n: f64) -> LoxValue {
    LoxValue::Number(n.to_bits())
}

#[test]
fn compile_one_plus_one() {
    let bc = compile("1 + 1").unwrap();
    let expected = vec![
        Op::ConstantSmall.to_u8(),
        0,
        Op::ConstantSmall.to_u8(),
        1,
        Op::Add.to_u8(),
        Op::Ret.to_u8(),
    ];
    assert_eq!(bc.code_bytes(), &expected);
    assert_eq!(bc.constants_vec(), &vec![number(1.0), number(1.0)]);
    assert!(bc.is_finished());
}

#[test]
fn execute_one_plus_three() {
    assert_eq!(run("1 + 3"), 4.0);
}

#[test]
fn subtraction_associates_left() {
    assert_eq!(run("2 - 1 - 1"), 0.0);
}

#[test]
fn negate_constant() {
    let mut bc = Bytecode::new();
    let constant = bc.add_constant(number(1.2));
    bc.write_u8(Op::ConstantSmall.to_u8(), 123);
    bc.write_u8(constant as u8, 123);
    bc.write_u8(Op::Negate.to_u8(), 123);
    bc.write_u8(Op::Ret.to_u8(), 123);
    bc.finish();
    assert_eq!(execute(bc, &binary, &negate), Ok(number(-1.2)));
}

#[test]
fn too_many_constants() {
    let source = vec!["1"; 257].join(" + ");
    let err = compile(&source).unwrap_err();
    assert_eq!(err.kind, CompileErrorKind::TooManyConstants);
}

#[test]
fn exactly_max_constants() {
    let source = vec!["1"; 256].join(" + ");
    let bc = compile(&source).unwrap();
    assert_eq!(bc.get_constants_len(), 256);
    assert_eq!(run(&source), 256.0);
}

#[test]
fn multiplication_binds_tighter() {
    assert_eq!(run("1 + 2 * 3"), 7.0);
    assert_eq!(run("2 * 3 + 4"), 10.0);
    assert_eq!(run("10 - 4 * 2"), 2.0);
}

#[test]
fn division_associates_left() {
    assert_eq!(run("8 / 4 / 2"), 1.0);
    assert_eq!(run("7 - 2 - 3 - 1"), 1.0);
}

#[test]
fn decimal_literals() {
    assert_eq!(run("0.5 + 0.25"), 0.75);
    assert_eq!(run("42"), 42.0);
}

#[test]
fn compiled_programs_run_to_the_end() {
    for source in ["1", "1 + 2", "1 * 2 / 3 - 4 + 5", "9 / 3 * 2 - 1 - 1 + 8 / 2 / 2", "1 + 2 * 3 / 4"] {
        let bc = compile(source).unwrap();
        assert!(execute(bc, &binary, &negate).is_ok(), "{source}");
    }
}

#[test]
fn missing_operand_at_end() {
    let err = compile("1 +").unwrap_err();
    assert_eq!(err.kind, CompileErrorKind::ExpectExpression);
    assert!(err.at_end);
    assert_eq!(err.line, 1);
}

#[test]
fn empty_source() {
    let err = compile("").unwrap_err();
    assert_eq!(err.kind, CompileErrorKind::ExpectExpression);
}

#[test]
fn trailing_operand() {
    let err = compile("1 2").unwrap_err();
    assert_eq!(err.kind, CompileErrorKind::ExpectEndOfExpression);
    assert_eq!((err.span.start, err.span.end), (2, 3));
}

#[test]
fn operator_where_operand_belongs() {
    let err = compile("1 + * 2").unwrap_err();
    assert_eq!(err.kind, CompileErrorKind::ExpectExpression);
    assert_eq!((err.span.start, err.span.end), (4, 5));
}

#[test]
fn unexpected_character() {
    let err = compile("1 + @").unwrap_err();
    assert_eq!(err.kind, CompileErrorKind::Lexing(LexingError::UnexpectedCharacter));
}

#[test]
fn invalid_number_in_unit() {
    let source = format!("1 +\n{}", "9".repeat(400));
    let err = compile(&source).unwrap_err();
    assert_eq!(err.kind, CompileErrorKind::Lexing(LexingError::InvalidNumber));
    assert_eq!(err.line, 2);
}

#[test]
fn unfinished_unit_is_refused() {
    let mut bc = Bytecode::new();
    bc.write_u8(Op::Ret.to_u8(), 1);
    assert_eq!(execute(bc, &binary, &negate), Err(Error::Compile));
}

#[test]
fn code_without_return_faults() {
    let mut bc = Bytecode::new();
    let c = bc.add_constant(number(2.0));
    bc.write_u8(Op::ConstantSmall.to_u8(), 1);
    bc.write_u8(c as u8, 1);
    bc.finish();
    assert_eq!(execute(bc, &binary, &negate), Err(Error::Runtime));
}

#[test]
fn stack_underflow_faults() {
    let mut bc = Bytecode::new();
    bc.write_u8(Op::Add.to_u8(), 1);
    bc.write_u8(Op::Ret.to_u8(), 1);
    bc.finish();
    assert_eq!(execute(bc, &binary, &negate), Err(Error::Runtime));
}

#[test]
fn stack_overflow_faults() {
    let mut bc = Bytecode::new();
    let c = bc.add_constant(number(1.0));
    for _ in 0..11 {
        bc.write_u8(Op::ConstantSmall.to_u8(), 1);
        bc.write_u8(c as u8, 1);
    }
    bc.write_u8(Op::Ret.to_u8(), 1);
    bc.finish();
    assert_eq!(execute(bc, &binary, &negate), Err(Error::Runtime));
}

#[test]
fn illegal_opcode_faults() {
    let mut bc = Bytecode::new();
    bc.write_u8(200, 1);
    bc.finish();
    assert_eq!(execute(bc, &binary, &negate), Err(Error::Runtime));
}

#[test]
fn machine_hands_out_operands_in_order() {
    let bc = compile("5 - 3").unwrap();
    let mut vm = VM::new().init(bc).unwrap();
    assert_eq!(vm.run(), Ok(Step::Binary(BinOpKind::Sub, 5.0f64.to_bits(), 3.0f64.to_bits())));
    assert!(vm.stack_values().is_empty());
    vm.resume(2.0f64.to_bits()).unwrap();
    assert_eq!(vm.stack_values(), vec![number(2.0)]);
    assert_eq!(vm.run(), Ok(Step::Return(number(2.0))));
    let vm = vm.unbind();
    let mut again = vm.init(compile("1").unwrap()).unwrap();
    assert_eq!(again.run(), Ok(Step::Return(number(1.0))));
}

#[test]
fn negate_step_hands_out_operand() {
    let mut bc = Bytecode::new();
    let c = bc.add_constant(number(3.0));
    bc.write_u8(Op::ConstantSmall.to_u8(), 1);
    bc.write_u8(c as u8, 1);
    bc.write_u8(Op::Negate.to_u8(), 1);
    bc.write_u8(Op::Ret.to_u8(), 1);
    bc.finish();
    let mut vm = VM::default().init(bc).unwrap();
    assert_eq!(vm.run(), Ok(Step::Negate(3.0f64.to_bits())));
}

#[test]
fn errors_carry_line_and_lexeme() {
    let source = "1 +\n\n  @";
    let err = compile(source).unwrap_err();
    assert_eq!(err.kind, CompileErrorKind::Lexing(LexingError::UnexpectedCharacter));
    assert_eq!(err.line, 3);
    assert!(!err.at_end);
    assert_eq!(&source[err.span.start as usize..err.span.end as usize], "@");

    let source = "1 -\n2 3";
    let err = compile(source).unwrap_err();
    assert_eq!(err.kind, CompileErrorKind::ExpectEndOfExpression);
    assert_eq!(err.line, 2);
    assert_eq!(&source[err.span.start as usize..err.span.end as usize], "3");

    let err = compile("1 *\n").unwrap_err();
    assert!(err.at_end);
    assert_eq!(err.line, 2);
    assert_eq!((err.span.start, err.span.end), (4, 4));
}

#[test]
fn overflow_reported_at_first_literal_that_does_not_fit() {
    let source = vec!["1"; 300].join(" +\n");
    let err = compile(&source).unwrap_err();
    assert_eq!(err.kind, CompileErrorKind::TooManyConstants);
    assert_eq!(err.line, 257);
    assert!(!err.at_end);
    assert_eq!(&source[err.span.start as usize..err.span.end as usize], "1");
}
