use vstd::prelude::*;

use crate::ast::{binding, well_grouped, BinOpKind, Expr, ExprKind};
use crate::bytecode::{Bytecode, Ip, MAX_CONSTANTS};
use crate::bytecode_compiler::{
    code_of, constants_of, is_compiled_unit, literal_count, opcode_of, unit_code,
};
use crate::lox_value::LoxValue;
use crate::opcodes::{spec_decode_op, spec_op_byte, Op};
use crate::stack::{Stack, STACK_SIZE};

verus! {

/// How a run of the machine failed.
#[derive(Clone, Copy, Debug, PartialEq, Eq, Structural)]
pub enum Error {
    /// The unit handed to the machine was not finalized.
    Compile,
    /// The code broke the machine's rules: an illegal opcode, a missing
    /// operand or constant, a stack that overflowed or ran dry, or code
    /// that ended without a return.
    Runtime,
}

/// Where the machine stopped and what it asks of its caller.
#[derive(Clone, Copy, Debug, PartialEq, Eq, Structural)]
pub enum Step {
    /// Compute `left op right` and resume with the result.
    Binary(BinOpKind, u64, u64),
    /// Compute the negation of the number and resume with the result.
    Negate(u64),
    /// The unit returned this value.
    Return(LoxValue),
}

/// Where the machine, started at `pc` with `stack`, stops: at an
/// arithmetic instruction, whose operands it has popped; at a return, whose
/// value it has popped; or at a fault.
pub ghost enum Pause {
    Binary { op: BinOpKind, left: u64, right: u64, pc: int, stack: Seq<LoxValue> },
    Negate { operand: u64, pc: int, stack: Seq<LoxValue> },
    Return { value: LoxValue, pc: int, stack: Seq<LoxValue> },
    Fault,
}

pub open spec fn number_of(v: LoxValue) -> u64 {
    match v {
        LoxValue::Number(bits) => bits,
    }
}

/// The operator that the opcode `op` computes, for the four binary ones.
pub open spec fn binop_of_opcode(op: Op) -> Option<BinOpKind> {
    match op {
        Op::Add => Some(BinOpKind::Add),
        Op::Subtract => Some(BinOpKind::Sub),
        Op::Multiply => Some(BinOpKind::Mul),
        Op::Divide => Some(BinOpKind::Div),
        _ => None,
    }
}

/// The dispatch loop: runs `code` from `pc` on `stack` until it needs
/// arithmetic done or returns. A constant load pushes the constant that its
/// operand names; a binary opcode pops the right operand, then the left; a
/// negation and a return pop one value. An illegal opcode, a missing
/// operand or constant, an overflowing or empty stack, or running off the
/// end of the code is a fault.
pub open spec fn advance(code: Seq<u8>, constants: Seq<LoxValue>, pc: int, stack: Seq<LoxValue>) -> Pause
    decreases code.len() - pc,
{
    if pc < 0 || pc >= code.len() {
        Pause::Fault
    } else {
        match spec_decode_op(code[pc]) {
            None => Pause::Fault,
            Some(Op::ConstantSmall) => {
                if pc + 1 < code.len() && (code[pc + 1] as int) < constants.len() && stack.len()
                    < STACK_SIZE {
                    advance(code, constants, pc + 2, stack.push(constants[code[pc + 1] as int]))
                } else {
                    Pause::Fault
                }
            },
            Some(Op::Negate) => {
                if stack.len() >= 1 {
                    Pause::Negate {
                        operand: number_of(stack.last()),
                        pc: pc + 1,
                        stack: stack.drop_last(),
                    }
                } else {
                    Pause::Fault
                }
            },
            Some(Op::Ret) => {
                if stack.len() >= 1 {
                    Pause::Return { value: stack.last(), pc: pc + 1, stack: stack.drop_last() }
                } else {
                    Pause::Fault
                }
            },
            Some(op) => {
                if stack.len() >= 2 {
                    Pause::Binary {
                        op: binop_of_opcode(op)->0,
                        left: number_of(stack[stack.len() - 2]),
                        right: number_of(stack.last()),
                        pc: pc + 1,
                        stack: stack.drop_last().drop_last(),
                    }
                } else {
                    Pause::Fault
                }
            },
        }
    }
}

/// The value that running `code` from `pc` on `stack` returns when each
/// binary operation yields `binary` of its operator and operands, and each
/// negation yields `negate` of its operand; `None` on a fault.
pub open spec fn evaluate(
    code: Seq<u8>,
    constants: Seq<LoxValue>,
    pc: int,
    stack: Seq<LoxValue>,
    binary: spec_fn(BinOpKind, u64, u64) -> u64,
    negate: spec_fn(u64) -> u64,
) -> Option<LoxValue>
    decreases code.len() - pc,
{
    match advance(code, constants, pc, stack) {
        Pause::Binary { op, left, right, pc: next, stack: rest } => if pc < next <= code.len() {
            evaluate(
                code,
                constants,
                next,
                rest.push(LoxValue::Number(binary(op, left, right))),
                binary,
                negate,
            )
        } else {
            None
        },
        Pause::Negate { operand, pc: next, stack: rest } => if pc < next <= code.len() {
            evaluate(code, constants, next, rest.push(LoxValue::Number(negate(operand))), binary, negate)
        } else {
            None
        },
        Pause::Return { value, .. } => Some(value),
        Pause::Fault => None,
    }
}

/// The value of `e` when each binary operation yields `binary` of its
/// operator and operands.
pub open spec fn eval(e: Expr, binary: spec_fn(BinOpKind, u64, u64) -> u64) -> u64
    decreases e,
{
    match e.kind {
        ExprKind::Lit(lit) => lit.symbol,
        ExprKind::Binary(op, l, r) => binary(op, eval(*l, binary), eval(*r, binary)),
    }
}

/// The stack slots that the code of `e` needs.
pub open spec fn stack_need(e: Expr) -> nat
    decreases e,
{
    match e.kind {
        ExprKind::Lit(_) => 1,
        ExprKind::Binary(_, l, r) => {
            let a = stack_need(*l);
            let b = stack_need(*r) + 1;
            if a >= b {
                a
            } else {
                b
            }
        },
    }
}

/// The machine stops past where it started.
pub proof fn lemma_advance_moves_on(
    code: Seq<u8>,
    constants: Seq<LoxValue>,
    pc: int,
    stack: Seq<LoxValue>,
)
    ensures
        match advance(code, constants, pc, stack) {
            Pause::Binary { pc: next, .. } => pc < next <= code.len(),
            Pause::Negate { pc: next, .. } => pc < next <= code.len(),
            Pause::Return { pc: next, .. } => pc < next <= code.len(),
            Pause::Fault => true,
        },
        stack.len() <= STACK_SIZE ==> match advance(code, constants, pc, stack) {
            Pause::Binary { stack: rest, .. } => rest.len() + 2 <= STACK_SIZE,
            Pause::Negate { stack: rest, .. } => rest.len() + 1 <= STACK_SIZE,
            _ => true,
        },
    decreases code.len() - pc,
{
    if 0 <= pc < code.len() {
        if spec_decode_op(code[pc]) == Some(Op::ConstantSmall) {
            if pc + 1 < code.len() && (code[pc + 1] as int) < constants.len() && stack.len()
                < STACK_SIZE {
                lemma_advance_moves_on(
                    code,
                    constants,
                    pc + 2,
                    stack.push(constants[code[pc + 1] as int]),
                );
            }
        }
    }
}

/// A well-grouped expression needs at most four stack slots: a right
/// operand binds more tightly than its operator, and there are three
/// levels of operators.
pub proof fn lemma_stack_need(e: Expr)
    requires
        well_grouped(e),
    ensures
        stack_need(e) + binding(e) <= 5,
        1 <= binding(e),
    decreases e,
{
    match e.kind {
        ExprKind::Lit(_) => {},
        ExprKind::Binary(op, l, r) => {
            lemma_stack_need(*l);
            lemma_stack_need(*r);
        },
    }
}

/// Running the code of `e`, placed at `pc`, leaves the value of `e` on top
/// of the stack and goes on after it.
proof fn lemma_segment(
    e: Expr,
    code: Seq<u8>,
    constants: Seq<LoxValue>,
    base: nat,
    pc: int,
    stack: Seq<LoxValue>,
    binary: spec_fn(BinOpKind, u64, u64) -> u64,
    negate: spec_fn(u64) -> u64,
)
    requires
        0 <= pc,
        pc + code_of(e, base).len() <= code.len(),
        code.subrange(pc, pc + code_of(e, base).len()) == code_of(e, base),
        base + literal_count(e) <= MAX_CONSTANTS,
        base + literal_count(e) <= constants.len(),
        constants.subrange(base as int, (base + literal_count(e)) as int) == constants_of(e),
        stack.len() + stack_need(e) <= STACK_SIZE,
    ensures
        evaluate(code, constants, pc, stack, binary, negate) == evaluate(
            code,
            constants,
            pc + code_of(e, base).len(),
            stack.push(LoxValue::Number(eval(e, binary))),
            binary,
            negate,
        ),
    decreases e,
{
    let n = code_of(e, base).len() as int;
    match e.kind {
        ExprKind::Lit(lit) => {
            assert(code[pc] == code_of(e, base)[0]);
            assert(code[pc + 1] == code_of(e, base)[1]);
            assert(constants[base as int] == constants_of(e)[0]);
            let next = stack.push(LoxValue::Number(lit.symbol));
            assert(advance(code, constants, pc, stack) == advance(code, constants, pc + 2, next));
            lemma_advance_moves_on(code, constants, pc + 2, next);
        },
        ExprKind::Binary(op, l, r) => {
            let cl = code_of(*l, base);
            let nl = cl.len() as int;
            let base_r = base + literal_count(*l);
            let cr = code_of(*r, base_r);
            let nr = cr.len() as int;
            assert(code_of(e, base) == cl + cr + seq![spec_op_byte(opcode_of(op))]);
            crate::bytecode_compiler::lemma_constants_len(*l);
            crate::bytecode_compiler::lemma_constants_len(*r);
            assert(code.subrange(pc, pc + cl.len()) =~= cl) by {
                assert forall|k: int| 0 <= k < cl.len() implies code.subrange(pc, pc + cl.len())[k]
                    == cl[k] by {
                    assert(code.subrange(pc, pc + n)[k] == code_of(e, base)[k]);
                }
            }
            assert(constants.subrange(base as int, (base + literal_count(*l)) as int) =~= constants_of(*l))
                by {
                assert forall|k: int| 0 <= k < literal_count(*l) implies constants.subrange(
                    base as int,
                    (base + literal_count(*l)) as int,
                )[k] == constants_of(*l)[k] by {
                    assert(constants.subrange(base as int, (base + literal_count(e)) as int)[k]
                        == constants_of(e)[k]);
                }
            }
            lemma_segment(*l, code, constants, base, pc, stack, binary, negate);
            let vl = LoxValue::Number(eval(*l, binary));
            let s1 = stack.push(vl);
            let pc1 = pc + nl;
            assert(code.subrange(pc1, pc1 + cr.len()) =~= cr) by {
                assert forall|k: int| 0 <= k < cr.len() implies code.subrange(pc1, pc1 + cr.len())[k]
                    == cr[k] by {
                    assert(code.subrange(pc, pc + n)[nl + k] == code_of(e, base)[nl + k]);
                }
            }
            assert(constants.subrange(base_r as int, (base_r + literal_count(*r)) as int) =~= constants_of(*r))
                by {
                assert forall|k: int| 0 <= k < literal_count(*r) implies constants.subrange(
                    base_r as int,
                    (base_r + literal_count(*r)) as int,
                )[k] == constants_of(*r)[k] by {
                    assert(constants.subrange(base as int, (base + literal_count(e)) as int)[literal_count(*l) as int + k]
                        == constants_of(e)[literal_count(*l) as int + k]);
                }
            }
            lemma_segment(*r, code, constants, base_r, pc1, s1, binary, negate);
            let vr = LoxValue::Number(eval(*r, binary));
            let s2 = s1.push(vr);
            let pc2 = pc1 + nr;
            assert(code[pc2] == code_of(e, base)[nl + nr]) by {
                assert(code.subrange(pc, pc + n)[nl + nr] == code_of(e, base)[nl + nr]);
            }
            assert(s2[s2.len() - 2] == vl);
            assert(s2.drop_last().drop_last() =~= stack);
        },
    }
}

/// The law of the whole pipeline: the unit that the compiler makes of a
/// well-grouped expression runs without fault to a return of the
/// expression's value, for every way of doing the arithmetic. So every unit
/// compiled from source terminates.
pub proof fn lemma_compiled_unit_evaluates(
    e: Expr,
    binary: spec_fn(BinOpKind, u64, u64) -> u64,
    negate: spec_fn(u64) -> u64,
)
    requires
        well_grouped(e),
        literal_count(e) <= MAX_CONSTANTS,
    ensures
        evaluate(unit_code(e), constants_of(e), 0, Seq::empty(), binary, negate) == Some(
            LoxValue::Number(eval(e, binary)),
        ),
{
    let code = unit_code(e);
    let n = code_of(e, 0).len() as int;
    crate::bytecode_compiler::lemma_constants_len(e);
    lemma_stack_need(e);
    assert(code.subrange(0, n) =~= code_of(e, 0));
    assert(constants_of(e).subrange(0, literal_count(e) as int) =~= constants_of(e));
    lemma_segment(e, code, constants_of(e), 0, 0, Seq::empty(), binary, negate);
    assert(code[n] == spec_op_byte(Op::Ret));
}

/// Whether `p` and `q` stop in the same way at the same place with stacks
/// of the same height, whatever the values.
pub open spec fn same_shape(p: Pause, q: Pause) -> bool {
    match (p, q) {
        (
            Pause::Binary { op: o1, pc: c1, stack: s1, .. },
            Pause::Binary { op: o2, pc: c2, stack: s2, .. },
        ) => o1 == o2 && c1 == c2 && s1.len() == s2.len(),
        (Pause::Negate { pc: c1, stack: s1, .. }, Pause::Negate { pc: c2, stack: s2, .. }) => c1
            == c2 && s1.len() == s2.len(),
        (Pause::Return { pc: c1, stack: s1, .. }, Pause::Return { pc: c2, stack: s2, .. }) => c1
            == c2 && s1.len() == s2.len(),
        (Pause::Fault, Pause::Fault) => true,
        _ => false,
    }
}

/// Whether the unit runs from its start to a return without a fault,
/// whatever the arithmetic yields.
pub open spec fn completes(code: Seq<u8>, constants: Seq<LoxValue>) -> bool {
    forall|binary: spec_fn(BinOpKind, u64, u64) -> u64, negate: spec_fn(u64) -> u64|
        #[trigger] evaluate(code, constants, 0, Seq::empty(), binary, negate) is Some
}

/// Whether the closures `binary` and `negate` compute the functions `b`
/// and `n`.
pub open spec fn computes<B: Fn(BinOpKind, u64, u64) -> u64, N: Fn(u64) -> u64>(
    binary: B,
    negate: N,
    b: spec_fn(BinOpKind, u64, u64) -> u64,
    n: spec_fn(u64) -> u64,
) -> bool {
    &&& forall|o: BinOpKind, x: u64, y: u64, z: u64| #[trigger]
        binary.ensures((o, x, y), z) ==> z == b(o, x, y)
    &&& forall|x: u64, z: u64| #[trigger] negate.ensures((x,), z) ==> z == n(x)
}

/// Where the machine stops depends on the height of the stack, not on the
/// values in it.
pub proof fn lemma_advance_shape(
    code: Seq<u8>,
    constants: Seq<LoxValue>,
    pc: int,
    s1: Seq<LoxValue>,
    s2: Seq<LoxValue>,
)
    requires
        s1.len() == s2.len(),
    ensures
        same_shape(advance(code, constants, pc, s1), advance(code, constants, pc, s2)),
    decreases code.len() - pc,
{
    if 0 <= pc < code.len() && spec_decode_op(code[pc]) == Some(Op::ConstantSmall) {
        if pc + 1 < code.len() && (code[pc + 1] as int) < constants.len() && s1.len() < STACK_SIZE {
            let c = constants[code[pc + 1] as int];
            lemma_advance_shape(code, constants, pc + 2, s1.push(c), s2.push(c));
        }
    }
}

/// Whether a run faults depends neither on the values on the stack nor on
/// what the arithmetic yields.
pub proof fn lemma_evaluate_shape(
    code: Seq<u8>,
    constants: Seq<LoxValue>,
    pc: int,
    s1: Seq<LoxValue>,
    s2: Seq<LoxValue>,
    b1: spec_fn(BinOpKind, u64, u64) -> u64,
    n1: spec_fn(u64) -> u64,
    b2: spec_fn(BinOpKind, u64, u64) -> u64,
    n2: spec_fn(u64) -> u64,
)
    requires
        s1.len() == s2.len(),
    ensures
        evaluate(code, constants, pc, s1, b1, n1) is Some <==> evaluate(
            code,
            constants,
            pc,
            s2,
            b2,
            n2,
        ) is Some,
    decreases code.len() - pc,
{
    lemma_advance_shape(code, constants, pc, s1, s2);
    match (advance(code, constants, pc, s1), advance(code, constants, pc, s2)) {
        (
            Pause::Binary { op: o1, left: l1, right: r1, pc: next, stack: rest1 },
            Pause::Binary { op: o2, left: l2, right: r2, stack: rest2, .. },
        ) => {
            if pc < next <= code.len() {
                lemma_evaluate_shape(
                    code,
                    constants,
                    next,
                    rest1.push(LoxValue::Number(b1(o1, l1, r1))),
                    rest2.push(LoxValue::Number(b2(o2, l2, r2))),
                    b1,
                    n1,
                    b2,
                    n2,
                );
            }
        },
        (
            Pause::Negate { operand: v1, pc: next, stack: rest1 },
            Pause::Negate { operand: v2, stack: rest2, .. },
        ) => {
            if pc < next <= code.len() {
                lemma_evaluate_shape(
                    code,
                    constants,
                    next,
                    rest1.push(LoxValue::Number(n1(v1))),
                    rest2.push(LoxValue::Number(n2(v2))),
                    b1,
                    n1,
                    b2,
                    n2,
                );
            }
        },
        _ => {},
    }
}

/// Every compiled unit runs to a return without a fault: no program of
/// the language fails to terminate or breaks the machine's rules.
pub proof fn lemma_compiled_units_complete(code: Seq<u8>, constants: Seq<LoxValue>)
    requires
        is_compiled_unit(code, constants),
    ensures
        completes(code, constants),
{
    let e = choose|e: Expr|
        #![trigger unit_code(e)]
        well_grouped(e) && literal_count(e) <= MAX_CONSTANTS && code == unit_code(e) && constants
            == constants_of(e);
    assert forall|binary: spec_fn(BinOpKind, u64, u64) -> u64, negate: spec_fn(u64) -> u64|
        #[trigger] evaluate(code, constants, 0, Seq::empty(), binary, negate) is Some by {
        lemma_compiled_unit_evaluates(e, binary, negate);
    }
}

/// A machine with no unit bound to it: only its stack exists.
#[derive(Debug)]
pub struct VM {
    stack: Stack,
}

/// A machine bound to one finalized unit, with its instruction cursor and
/// its stack. It runs until it needs arithmetic done, which its caller does
/// and hands back through `resume`.
#[derive(Debug)]
pub struct BoundVm {
    ip: Ip,
    stack: Stack,
    bytecode: Bytecode,
}

impl VM {
    pub closed spec fn wf(&self) -> bool {
        self.stack.wf()
    }

    /// The values on the machine's stack, bottom to top.
    pub closed spec fn values(&self) -> Seq<LoxValue> {
        self.stack.contents()
    }

    /// An unbound machine with an empty stack.
    pub fn new() -> (r: VM)
        ensures
            r.wf(),
            r.values() == Seq::<LoxValue>::empty(),
    {
        VM { stack: Stack::new() }
    }

    /// Binds the machine to `bytecode`, which must be finalized; the cursor
    /// starts at the first instruction and the stack is empty.
    pub fn init(self, bytecode: Bytecode) -> (r: Result<BoundVm, Error>)
        requires
            bytecode.wf(),
        ensures
            r is Ok <==> bytecode.finished(),
            r matches Err(e) ==> e == Error::Compile,
            r matches Ok(m) ==> {
                &&& m.wf()
                &&& m.code() == bytecode.code()
                &&& m.constants() == bytecode.constants()
                &&& m.pc() == 0
                &&& m.values() == Seq::<LoxValue>::empty()
            },
    {
        let ip = match bytecode.get_base_ip() {
            Some(ip) => ip,
            None => {
                return Err(Error::Compile);
            },
        };
        Ok(BoundVm { ip, stack: Stack::new(), bytecode })
    }
}

impl Default for VM {
    fn default() -> (r: Self)
        ensures
            r.wf(),
            r.values() == Seq::<LoxValue>::empty(),
    {
        VM::new()
    }
}

impl BoundVm {
    /// The code being run.
    pub closed spec fn code(&self) -> Seq<u8> {
        self.bytecode.code()
    }

    /// The constant pool of the unit being run.
    pub closed spec fn constants(&self) -> Seq<LoxValue> {
        self.bytecode.constants()
    }

    /// The position of the instruction cursor.
    pub closed spec fn pc(&self) -> int {
        self.ip.position() as int
    }

    /// The values on the stack, bottom to top.
    pub closed spec fn values(&self) -> Seq<LoxValue> {
        self.stack.contents()
    }

    pub closed spec fn wf(&self) -> bool {
        &&& self.stack.wf()
        &&& self.stack.contents().len() <= STACK_SIZE
        &&& self.bytecode.wf()
        &&& self.bytecode.finished()
    }

    /// Runs the unit from the cursor until it needs arithmetic done, returns,
    /// or faults, as `advance` describes. A fault is a runtime error.
    pub fn run(&mut self) -> (r: Result<Step, Error>)
        requires
            old(self).wf(),
        ensures
            final(self).wf(),
            final(self).code() == old(self).code(),
            final(self).constants() == old(self).constants(),
            final(self).values().len() <= STACK_SIZE,
            match advance(old(self).code(), old(self).constants(), old(self).pc(), old(self).values()) {
                Pause::Binary { op, left, right, pc, stack } => {
                    &&& r == Ok::<Step, Error>(Step::Binary(op, left, right))
                    &&& final(self).pc() == pc
                    &&& final(self).values() == stack
                },
                Pause::Negate { operand, pc, stack } => {
                    &&& r == Ok::<Step, Error>(Step::Negate(operand))
                    &&& final(self).pc() == pc
                    &&& final(self).values() == stack
                },
                Pause::Return { value, pc, stack } => {
                    &&& r == Ok::<Step, Error>(Step::Return(value))
                    &&& final(self).pc() == pc
                    &&& final(self).values() == stack
                },
                Pause::Fault => r == Err::<Step, Error>(Error::Runtime),
            },
    {
        let ghost code = self.code();
        let ghost constants = self.constants();
        let code_len = self.bytecode.get_code_len();
        loop
            invariant
                self.wf(),
                code_len == code.len(),
                self.code() == code,
                self.constants() == constants,
                code == old(self).code(),
                constants == old(self).constants(),
                0 <= self.pc(),
                advance(code, constants, self.pc(), self.values()) == advance(
                    code,
                    constants,
                    old(self).pc(),
                    old(self).values(),
                ),
            decreases code.len() - self.pc(),
        {
            let op = match self.ip.get_op(&self.bytecode) {
                Some(op) => op,
                None => {
                    return Err(Error::Runtime);
                },
            };
            match op {
                Op::ConstantSmall => {
                    self.ip.inc(1);
                    let index = match self.ip.get_u8(&self.bytecode) {
                        Some(byte) => byte as usize,
                        None => {
                            return Err(Error::Runtime);
                        },
                    };
                    if index >= self.bytecode.get_constants_len() {
                        return Err(Error::Runtime);
                    }
                    let value = self.bytecode.get_constant(index);
                    if !self.stack.push(value) {
                        return Err(Error::Runtime);
                    }
                    self.ip.inc(1);
                },
                Op::Negate => {
                    let value = match self.stack.pop() {
                        Some(LoxValue::Number(bits)) => bits,
                        None => {
                            return Err(Error::Runtime);
                        },
                    };
                    self.ip.inc(1);
                    return Ok(Step::Negate(value));
                },
                Op::Ret => {
                    let value = match self.stack.pop() {
                        Some(value) => value,
                        None => {
                            return Err(Error::Runtime);
                        },
                    };
                    self.ip.inc(1);
                    return Ok(Step::Return(value));
                },
                Op::Add | Op::Subtract | Op::Multiply | Op::Divide => {
                    if self.stack.len() < 2 {
                        return Err(Error::Runtime);
                    }
                    let right = match self.stack.pop() {
                        Some(LoxValue::Number(bits)) => bits,
                        None => {
                            return Err(Error::Runtime);
                        },
                    };
                    let left = match self.stack.pop() {
                        Some(LoxValue::Number(bits)) => bits,
                        None => {
                            return Err(Error::Runtime);
                        },
                    };
                    let kind = match op {
                        Op::Add => BinOpKind::Add,
                        Op::Subtract => BinOpKind::Sub,
                        Op::Multiply => BinOpKind::Mul,
                        _ => BinOpKind::Div,
                    };
                    self.ip.inc(1);
                    return Ok(Step::Binary(kind, left, right));
                },
            }
        }
    }

    /// Pushes the result of the arithmetic that `run` asked for. Fails,
    /// changing nothing, when the stack is full.
    pub fn resume(&mut self, result: u64) -> (r: Result<(), Error>)
        requires
            old(self).wf(),
        ensures
            final(self).wf(),
            final(self).code() == old(self).code(),
            final(self).constants() == old(self).constants(),
            final(self).pc() == old(self).pc(),
            final(self).values().len() <= STACK_SIZE,
            r is Ok <==> old(self).values().len() < STACK_SIZE,
            r is Ok ==> final(self).values() == old(self).values().push(LoxValue::Number(result)),
            r is Err ==> r == Err::<(), Error>(Error::Runtime) && final(self).values() == old(
                self,
            ).values(),
    {
        if self.stack.push(LoxValue::Number(result)) {
            Ok(())
        } else {
            Err(Error::Runtime)
        }
    }

    /// The values on the stack, bottom to top, for tracing.
    pub fn stack_values(&self) -> (r: Vec<LoxValue>)
        requires
            self.wf(),
        ensures
            r@ == self.values(),
    {
        self.stack.values()
    }

    /// Ends the binding: the unit and the cursor are dropped and the stack
    /// starts over empty.
    pub fn unbind(self) -> (r: VM)
        ensures
            r.wf(),
            r.values() == Seq::<LoxValue>::empty(),
    {
        VM::new()
    }
}

/// Runs a finalized unit to its end, doing its arithmetic with `binary`
/// and `negate`. It succeeds exactly when the unit completes, as every
/// compiled unit does; where the closures compute the functions `b` and
/// `n`, the value returned is what `evaluate` gives with them.
pub fn execute<B: Fn(BinOpKind, u64, u64) -> u64, N: Fn(u64) -> u64>(
    bytecode: Bytecode,
    binary: &B,
    negate: &N,
) -> (r: Result<LoxValue, Error>)
    requires
        bytecode.wf(),
        forall|o: BinOpKind, x: u64, y: u64| binary.requires((o, x, y)),
        forall|x: u64| negate.requires((x,)),
    ensures
        !bytecode.finished() ==> r == Err::<LoxValue, Error>(Error::Compile),
        bytecode.finished() ==> (r is Ok <==> completes(bytecode.code(), bytecode.constants())),
        bytecode.finished() ==> r is Err ==> r == Err::<LoxValue, Error>(Error::Runtime),
        is_compiled_unit(bytecode.code(), bytecode.constants()) && bytecode.finished() ==> r is Ok,
        forall|b: spec_fn(BinOpKind, u64, u64) -> u64, n: spec_fn(u64) -> u64|
            #![trigger evaluate(bytecode.code(), bytecode.constants(), 0, Seq::empty(), b, n)]
            computes(*binary, *negate, b, n) ==> (r matches Ok(v) ==> evaluate(
                bytecode.code(),
                bytecode.constants(),
                0,
                Seq::empty(),
                b,
                n,
            ) == Some(v)),
{
    let ghost code = bytecode.code();
    let ghost constants = bytecode.constants();
    let ghost finished = bytecode.finished();
    proof {
        if is_compiled_unit(code, constants) {
            lemma_compiled_units_complete(code, constants);
        }
    }
    let mut vm = match VM::new().init(bytecode) {
        Ok(vm) => vm,
        Err(e) => {
            return Err(e);
        },
    };
    loop
        invariant
            vm.wf(),
            finished,
            code == bytecode.code(),
            constants == bytecode.constants(),
            finished == bytecode.finished(),
            is_compiled_unit(code, constants) ==> completes(code, constants),
            forall|o: BinOpKind, x: u64, y: u64| binary.requires((o, x, y)),
            forall|x: u64| negate.requires((x,)),
            vm.code() == code,
            vm.constants() == constants,
            0 <= vm.pc() <= code.len(),
            vm.values().len() <= STACK_SIZE,
            forall|b: spec_fn(BinOpKind, u64, u64) -> u64, n: spec_fn(u64) -> u64|
                #![trigger evaluate(code, constants, 0, Seq::empty(), b, n)]
                (evaluate(code, constants, vm.pc(), vm.values(), b, n) is Some <==> evaluate(
                    code,
                    constants,
                    0,
                    Seq::empty(),
                    b,
                    n,
                ) is Some),
            forall|b: spec_fn(BinOpKind, u64, u64) -> u64, n: spec_fn(u64) -> u64|
                #![trigger evaluate(code, constants, 0, Seq::empty(), b, n)]
                computes(*binary, *negate, b, n) ==> evaluate(
                    code,
                    constants,
                    vm.pc(),
                    vm.values(),
                    b,
                    n,
                ) == evaluate(code, constants, 0, Seq::empty(), b, n),
        decreases code.len() - vm.pc(),
    {
        let ghost pc = vm.pc();
        let ghost stack = vm.values();
        proof {
            lemma_advance_moves_on(code, constants, pc, stack);
        }
        let step = vm.run();
        match step {
            Ok(Step::Binary(op, left, right)) => {
                let result = binary(op, left, right);
                let ghost rest = vm.values();
                let ghost next = vm.pc();
                proof {
                    assert forall|b: spec_fn(BinOpKind, u64, u64) -> u64, n: spec_fn(u64) -> u64|
                        #![trigger evaluate(code, constants, 0, Seq::empty(), b, n)]
                        (evaluate(
                            code,
                            constants,
                            next,
                            rest.push(LoxValue::Number(result)),
                            b,
                            n,
                        ) is Some <==> evaluate(code, constants, 0, Seq::empty(), b, n) is Some) by {
                        lemma_evaluate_shape(
                            code,
                            constants,
                            next,
                            rest.push(LoxValue::Number(result)),
                            rest.push(LoxValue::Number(b(op, left, right))),
                            b,
                            n,
                            b,
                            n,
                        );
                    }
                }
                if vm.resume(result).is_err() {
                    return Err(Error::Runtime);
                }
            },
            Ok(Step::Negate(operand)) => {
                let result = negate(operand);
                let ghost rest = vm.values();
                let ghost next = vm.pc();
                proof {
                    assert forall|b: spec_fn(BinOpKind, u64, u64) -> u64, n: spec_fn(u64) -> u64|
                        #![trigger evaluate(code, constants, 0, Seq::empty(), b, n)]
                        (evaluate(
                            code,
                            constants,
                            next,
                            rest.push(LoxValue::Number(result)),
                            b,
                            n,
                        ) is Some <==> evaluate(code, constants, 0, Seq::empty(), b, n) is Some) by {
                        lemma_evaluate_shape(
                            code,
                            constants,
                            next,
                            rest.push(LoxValue::Number(result)),
                            rest.push(LoxValue::Number(n(operand))),
                            b,
                            n,
                            b,
                            n,
                        );
                    }
                }
                if vm.resume(result).is_err() {
                    return Err(Error::Runtime);
                }
            },
            Ok(Step::Return(value)) => {
                return Ok(value);
            },
            Err(e) => {
                proof {
                    let b = |o: BinOpKind, x: u64, y: u64| 0u64;
                    let n = |x: u64| 0u64;
                    assert(evaluate(code, constants, 0, Seq::empty(), b, n) is None);
                }
                return Err(e);
            },
        }
    }
}

} // verus!
