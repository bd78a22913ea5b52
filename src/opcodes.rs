use vstd::prelude::*;

verus! {

/// The instruction set of the machine. Each opcode is one byte in a code
/// stream; its byte value is its position in this list.
#[derive(Clone, Copy, Debug, PartialEq, Eq, Structural)]
pub enum Op {
    // Constant operations
    ConstantSmall,
    // Arithmetic operations
    Add,
    Subtract,
    Multiply,
    Divide,
    Negate,
    // Control flow operations
    Ret,
}

/// The byte that encodes `op`.
pub open spec fn spec_op_byte(op: Op) -> u8 {
    match op {
        Op::ConstantSmall => 0,
        Op::Add => 1,
        Op::Subtract => 2,
        Op::Multiply => 3,
        Op::Divide => 4,
        Op::Negate => 5,
        Op::Ret => 6,
    }
}

/// The opcode that `byte` encodes, if any.
pub open spec fn spec_decode_op(byte: u8) -> Option<Op> {
    if byte == 0 {
        Some(Op::ConstantSmall)
    } else if byte == 1 {
        Some(Op::Add)
    } else if byte == 2 {
        Some(Op::Subtract)
    } else if byte == 3 {
        Some(Op::Multiply)
    } else if byte == 4 {
        Some(Op::Divide)
    } else if byte == 5 {
        Some(Op::Negate)
    } else if byte == 6 {
        Some(Op::Ret)
    } else {
        None
    }
}

/// The number of operand bytes that follow `op` in a code stream.
pub open spec fn spec_operand_count(op: Op) -> nat {
    match op {
        Op::ConstantSmall => 1,
        _ => 0,
    }
}

/// The name under which `op` is listed.
pub open spec fn spec_mnemonic(op: Op) -> Seq<char> {
    match op {
        Op::Ret => "OP_RETURN"@,
        Op::Add => "OP_ADD"@,
        Op::Subtract => "OP_SUBTRACT"@,
        Op::Multiply => "OP_MULTIPLY"@,
        Op::Divide => "OP_DIVIDE"@,
        Op::Negate => "OP_NEGATE"@,
        Op::ConstantSmall => "OP_CONSTANT_SMALL"@,
    }
}

impl Op {
    /// Provides the count of u8 operands of a given instruction.
    pub fn operand_count(self) -> (r: usize)
        ensures
            r == spec_operand_count(self),
    {
        match self {
            Op::Ret => 0,
            Op::Add | Op::Subtract | Op::Multiply | Op::Divide | Op::Negate => 0,
            Op::ConstantSmall => 1,
        }
    }

    /// The byte that encodes this opcode.
    pub fn to_u8(self) -> (r: u8)
        ensures
            r == spec_op_byte(self),
    {
        match self {
            Op::ConstantSmall => 0,
            Op::Add => 1,
            Op::Subtract => 2,
            Op::Multiply => 3,
            Op::Divide => 4,
            Op::Negate => 5,
            Op::Ret => 6,
        }
    }

    /// The opcode that `byte` encodes, or `None` for a byte that encodes none.
    pub fn from_u8(byte: u8) -> (r: Option<Op>)
        ensures
            r == spec_decode_op(byte),
            r matches Some(op) ==> spec_op_byte(op) == byte,
    {
        match byte {
            0 => Some(Op::ConstantSmall),
            1 => Some(Op::Add),
            2 => Some(Op::Subtract),
            3 => Some(Op::Multiply),
            4 => Some(Op::Divide),
            5 => Some(Op::Negate),
            6 => Some(Op::Ret),
            _ => None,
        }
    }

    /// The name under which this opcode is listed in a disassembly.
    pub fn mnemonic(self) -> (r: &'static str)
        ensures
            r@ == spec_mnemonic(self),
    {
        proof {
            reveal_strlit("OP_RETURN");
            reveal_strlit("OP_ADD");
            reveal_strlit("OP_SUBTRACT");
            reveal_strlit("OP_MULTIPLY");
            reveal_strlit("OP_DIVIDE");
            reveal_strlit("OP_NEGATE");
            reveal_strlit("OP_CONSTANT_SMALL");
        }
        match self {
            Op::Ret => "OP_RETURN",
            Op::Add => "OP_ADD",
            Op::Subtract => "OP_SUBTRACT",
            Op::Multiply => "OP_MULTIPLY",
            Op::Divide => "OP_DIVIDE",
            Op::Negate => "OP_NEGATE",
            Op::ConstantSmall => "OP_CONSTANT_SMALL",
        }
    }
}

} // verus!
