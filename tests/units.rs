use loxidize::ast::{BinOpKind, Precedence};
use loxidize::bytecode::{Bytecode, Ip};
use loxidize::lexer::Lexer;
use loxidize::lox_value::LoxValue;
use loxidize::opcodes::Op;
use loxidize::stack::{Stack, STACK_SIZE};
use loxidize::token::{LexingError, Token, TokenSpan};

fn parse_finite(text: &[u8]) -> Option<u64> {
    let text = std::str::from_utf8(text).ok()?;
    let value: f64 = text.parse().ok()?;
    if value.is_finite() {
        Some(value.to_bits())
    } else {
        None
    }
}

fn tokens(source: &str) -> Vec<(Result<Token, LexingError>, usize)> {
    let mut lexer = Lexer::new(source);
    let mut out = Vec::new();
    while let Some(t) = lexer.next_token(&parse_finite) {
        out.push((t, lexer.line()));
    }
    out
}

fn bits(n: f64) -> u64 {
    n.to_bits()
}

fn texts(bc: &Bytecode) -> Vec<String> {
    bc.constants_vec()
        .iter()
        .map(|LoxValue::Number(b)| format!("{}", f64::from_bits(*b)))
        .collect()
}

#[test]
fn malformed_number_then_lexing_resumes() {
    let source = format!("1 +\n{} + 2", "9".repeat(400));
    let got = tokens(&source);
    assert_eq!(
        got,
        vec![
            (Ok(Token::Number(bits(1.0))), 1),
            (Ok(Token::Plus), 1),
            (Err(LexingError::InvalidNumber), 2),
            (Ok(Token::Plus), 2),
            (Ok(Token::Number(bits(2.0))), 2),
        ]
    );
}

#[test]
fn lexer_reports_span_of_failed_number() {
    let mut lexer = Lexer::new("\n\n  1e");
    assert_eq!(lexer.next_token(&|_: &[u8]| None), Some(Err(LexingError::InvalidNumber)));
    assert_eq!(lexer.line(), 3);
    assert_eq!(lexer.span(), TokenSpan { start: 4, end: 5 });
    assert_eq!(lexer.next_token(&parse_finite), Some(Ok(Token::Identifier(TokenSpan { start: 5, end: 6 }))));
    assert_eq!(lexer.next_token(&parse_finite), None);
    assert_eq!(lexer.next_token(&parse_finite), None);
}

#[test]
fn lexes_operators_and_punctuation() {
    let got: Vec<_> = tokens("+-*/(){};,. ! != = == > >= < <=").into_iter().map(|(t, _)| t.unwrap()).collect();
    assert_eq!(
        got,
        vec![
            Token::Plus,
            Token::Minus,
            Token::Star,
            Token::Slash,
            Token::LParen,
            Token::RParen,
            Token::LBrace,
            Token::RBrace,
            Token::Semicolon,
            Token::Comma,
            Token::Dot,
            Token::Bang,
            Token::BangEqual,
            Token::Equal,
            Token::EqualEqual,
            Token::Greater,
            Token::GreaterEqual,
            Token::Less,
            Token::LessEqual,
        ]
    );
}

#[test]
fn lexes_keywords_and_identifiers() {
    let source = "and class else false for fun if nil or print return super var while andy _x1";
    let got: Vec<_> = tokens(source).into_iter().map(|(t, _)| t.unwrap()).collect();
    assert_eq!(
        got,
        vec![
            Token::And,
            Token::Class,
            Token::Else,
            Token::False,
            Token::For,
            Token::Fun,
            Token::If,
            Token::Nil,
            Token::Or,
            Token::Print,
            Token::Return,
            Token::Super,
            Token::Var,
            Token::While,
            Token::Identifier(TokenSpan { start: 68, end: 72 }),
            Token::Identifier(TokenSpan { start: 73, end: 76 }),
        ]
    );
}

#[test]
fn lexes_strings_and_numbers() {
    let source = "\"hi there\" 3.25 7. 12";
    let got: Vec<_> = tokens(source).into_iter().map(|(t, _)| t.unwrap()).collect();
    assert_eq!(
        got,
        vec![
            Token::String(TokenSpan { start: 0, end: 10 }),
            Token::Number(bits(3.25)),
            Token::Number(bits(7.0)),
            Token::Dot,
            Token::Number(bits(12.0)),
        ]
    );
    assert_eq!(TokenSpan { start: 0, end: 10 }.string(source), "\"hi there\"");
}

#[test]
fn unterminated_string_and_stray_bytes() {
    let got = tokens("\"abc\n@ é 1");
    assert_eq!(
        got,
        vec![
            (Err(LexingError::UnexpectedCharacter), 1),
            (Ok(Token::Identifier(TokenSpan { start: 1, end: 4 })), 1),
            (Err(LexingError::UnexpectedCharacter), 2),
            (Err(LexingError::UnexpectedCharacter), 2),
            (Ok(Token::Number(bits(1.0))), 2),
        ]
    );
}

#[test]
fn lines_count_from_one() {
    let got = tokens("1\n\n2\t\x0c3");
    assert_eq!(
        got,
        vec![
            (Ok(Token::Number(bits(1.0))), 1),
            (Ok(Token::Number(bits(2.0))), 3),
            (Ok(Token::Number(bits(3.0))), 3),
        ]
    );
}

#[test]
fn token_span_string() {
    let source = "var answer";
    assert_eq!(TokenSpan { start: 4, end: 10 }.string(source), "answer");
    assert_eq!(TokenSpan { start: 0, end: 0 }.string(source), "");
}

#[test]
fn precedence_of_tokens() {
    assert_eq!(Precedence::from_token(&Token::Plus), Precedence::Summation);
    assert_eq!(Precedence::from_token(&Token::Minus), Precedence::Summation);
    assert_eq!(Precedence::from_token(&Token::Star), Precedence::Multiplication);
    assert_eq!(Precedence::from_token(&Token::Slash), Precedence::Division);
    assert_eq!(Precedence::from_token(&Token::EOF), Precedence::Lowest);
    assert_eq!(Precedence::from_token(&Token::Number(0)), Precedence::Lowest);
    assert!(Precedence::Summation.rank() < Precedence::Multiplication.rank());
    assert!(Precedence::Multiplication.rank() < Precedence::Division.rank());
    assert_eq!(BinOpKind::from_token(&Token::Minus), Some(BinOpKind::Sub));
    assert_eq!(BinOpKind::from_token(&Token::Bang), None);
}

#[test]
fn opcode_bytes_round_trip() {
    for op in [Op::ConstantSmall, Op::Add, Op::Subtract, Op::Multiply, Op::Divide, Op::Negate, Op::Ret] {
        assert_eq!(Op::from_u8(op.to_u8()), Some(op));
    }
    assert_eq!(Op::from_u8(7), None);
    assert_eq!(Op::ConstantSmall.operand_count(), 1);
    assert_eq!(Op::Add.operand_count(), 0);
    assert_eq!(Op::Ret.operand_count(), 0);
    assert_eq!(Op::Ret.mnemonic(), "OP_RETURN");
    assert_eq!(Op::ConstantSmall.mnemonic(), "OP_CONSTANT_SMALL");
}

#[test]
fn disassemble_compiled_unit() {
    let bc = loxidize::compiler::Compiler::new().compile("1 + 1", &parse_finite).unwrap();
    let listing = bc.disassemble("test", &texts(&bc));
    assert_eq!(
        listing,
        "== test ==\n\
         0000    1 OP_CONSTANT_SMALL 0000 1\n\
         0002    | OP_CONSTANT_SMALL 0001 1\n\
         0004    | OP_ADD\n\
         0005    | OP_RETURN\n"
    );
}

#[test]
fn disassemble_illegal_first_byte() {
    let mut bc = Bytecode::new();
    bc.write_u8(200, 123);
    bc.write_u8(Op::Ret.to_u8(), 123);
    let listing = bc.disassemble("bad", &Vec::new());
    assert_eq!(listing, "== bad ==\n0000  123 Illegal Instruction\n");
}

#[test]
fn disassemble_truncated_constant_load() {
    let mut bc = Bytecode::new();
    let c = bc.add_constant(LoxValue::Number(bits(1.2)));
    bc.write_u8(Op::ConstantSmall.to_u8(), 7);
    bc.write_u8(c as u8, 7);
    bc.write_u8(Op::Negate.to_u8(), 8);
    bc.write_u8(Op::ConstantSmall.to_u8(), 12345);
    let listing = bc.disassemble("chunk", &texts(&bc));
    assert_eq!(
        listing,
        "== chunk ==\n\
         0000    7 OP_CONSTANT_SMALL 0000 1.2\n\
         0002    8 OP_NEGATE\n\
         0003 12345 Illegal Instruction\n"
    );
}

#[test]
fn disassemble_empty_unit() {
    assert_eq!(Bytecode::new().disassemble("empty", &Vec::new()), "== empty ==\n");
}

#[test]
fn cursor_reads_finalized_code_only() {
    let mut bc = Bytecode::new();
    bc.write_u8(Op::Negate.to_u8(), 1);
    assert!(Ip::create(&bc).is_none());
    assert!(bc.get_base_ip().is_none());
    bc.finish();
    let mut ip = Ip::create(&bc).unwrap();
    assert_eq!(ip.get_op(&bc), Some(Op::Negate));
    assert_eq!(ip.get_u8(&bc), Some(Op::Negate.to_u8()));
    ip.inc(1);
    assert_eq!(ip.get_op(&bc), None);
    assert_eq!(ip.get_u8(&bc), None);
    assert_eq!(bc.get_code_len(), 1);
    assert_eq!(bc.line_numbers(), &vec![1]);
}

#[test]
fn stack_is_bounded() {
    let mut stack = Stack::new();
    assert_eq!(stack.pop(), None);
    for k in 0..STACK_SIZE {
        assert!(stack.push(LoxValue::Number(k as u64)));
    }
    assert!(!stack.push(LoxValue::Number(99)));
    assert_eq!(stack.len(), STACK_SIZE);
    assert_eq!(stack.pop(), Some(LoxValue::Number(9)));
    assert_eq!(stack.values().len(), STACK_SIZE - 1);
    let mut iter = stack.get_stack_iterator(stack.get_base_sp());
    assert_eq!(iter.next(), None);
}

#[test]
fn stack_iterator_walks_bottom_up() {
    let mut stack = Stack::new();
    stack.push(LoxValue::Number(1));
    stack.push(LoxValue::Number(2));
    let mut top = stack.get_base_sp();
    top.inc(2);
    let mut iter = stack.get_stack_iterator(top);
    assert_eq!(iter.next(), Some(LoxValue::Number(1)));
    assert_eq!(iter.next(), Some(LoxValue::Number(2)));
    assert_eq!(iter.next(), None);
    top.dec(1);
    assert_eq!(top.get_value(&stack), LoxValue::Number(2));
}

#[test]
fn values_from_bits() {
    assert_eq!(LoxValue::from_bits(5), LoxValue::Number(5));
    assert_eq!(LoxValue::zero(), LoxValue::Number(0));
}

#[test]
fn line_column_compares_previous_instruction() {
    let mut bc = Bytecode::new();
    let c = bc.add_constant(LoxValue::Number(bits(1.0)));
    bc.write_u8(Op::ConstantSmall.to_u8(), 1);
    bc.write_u8(c as u8, 2);
    bc.write_u8(Op::Negate.to_u8(), 2);
    bc.write_u8(Op::Ret.to_u8(), 2);
    bc.finish();
    let listing = bc.disassemble("lines", &texts(&bc));
    assert_eq!(
        listing,
        "== lines ==\n\
         0000    1 OP_CONSTANT_SMALL 0000 1\n\
         0002    2 OP_NEGATE\n\
         0003    | OP_RETURN\n"
    );
}

#[test]
fn lines_count_feeds_inside_strings() {
    let got = tokens("\"a\nb\" 1");
    assert_eq!(
        got,
        vec![
            (Ok(Token::String(TokenSpan { start: 0, end: 5 })), 1),
            (Ok(Token::Number(bits(1.0))), 2),
        ]
    );
}
