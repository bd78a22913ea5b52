use vstd::prelude::*;
use vstd::string::StringExecFns;

use crate::lox_value::LoxValue;
use crate::opcodes::{spec_decode_op, spec_mnemonic, Op};

verus! {

/// The most constants one unit can hold: an instruction names a constant by
/// a one-byte index.
pub const MAX_CONSTANTS: usize = 256;

/// An instruction cursor: a position in the code of a finalized unit.
#[derive(Clone, Copy, Debug, PartialEq, Eq, Structural)]
pub struct Ip {
    pub offset: usize,
}

/// A bytecode unit: a code stream of opcodes and operand bytes, the source
/// line of each byte, and a constant pool. It is built by appending, then
/// finalized once, after which it no longer changes.
#[derive(Debug)]
pub struct Bytecode {
    code: Vec<u8>,
    constants: Vec<LoxValue>,
    lines: Vec<usize>,
    finished_compilation: bool,
}

/// The decimal digits of `n`.
pub open spec fn decimal(n: nat) -> Seq<char>
    decreases n,
{
    if n < 10 {
        seq![digit_char(n)]
    } else {
        decimal(n / 10) + seq![digit_char(n % 10)]
    }
}

pub open spec fn digit_char(d: nat) -> char {
    ((d + '0' as nat) as u32) as char
}

/// `s` with copies of `pad` before it up to `width` characters.
pub open spec fn pad_left(s: Seq<char>, width: nat, pad: char) -> Seq<char> {
    if s.len() >= width {
        s
    } else {
        Seq::new((width - s.len()) as nat, |_i: int| pad) + s
    }
}

/// The column that gives the offset of an instruction.
pub open spec fn offset_text(offset: nat) -> Seq<char> {
    pad_left(decimal(offset), 4, '0') + seq![' ']
}

/// The column that gives the line of the instruction at `i`, whose previous
/// instruction (if `i > 0`) starts at `prev`: a bar where the two lines are
/// the same.
pub open spec fn line_text(lines: Seq<usize>, prev: int, i: int) -> Seq<char> {
    if i > 0 && lines[i] == lines[prev] {
        "   | "@
    } else {
        pad_left(decimal(lines[i] as nat), 4, ' ') + seq![' ']
    }
}

/// The opcode at `i`, and where the next instruction starts, if the bytes at
/// `i` form a whole instruction whose constant index names one of `n_constants`
/// constants.
pub open spec fn instruction_at(code: Seq<u8>, n_constants: nat, i: int) -> Option<(Op, int)> {
    match spec_decode_op(code[i]) {
        Some(Op::ConstantSmall) => if i + 1 < code.len() && (code[i + 1] as nat) < n_constants {
            Some((Op::ConstantSmall, i + 2))
        } else {
            None
        },
        Some(op) => Some((op, i + 1)),
        None => None,
    }
}

/// The text of the whole instruction `op` at `i`: its name and, for a
/// constant load, the index and the text of the constant.
pub open spec fn instruction_text(op: Op, code: Seq<u8>, texts: Seq<Seq<char>>, i: int) -> Seq<
    char,
> {
    match op {
        Op::ConstantSmall => spec_mnemonic(op) + seq![' '] + pad_left(
            decimal(code[i + 1] as nat),
            4,
            '0',
        ) + seq![' '] + texts[code[i + 1] as int],
        _ => spec_mnemonic(op),
    }
}

/// The listing of the instructions from `i` on, one line each, where the
/// instruction before `i` (if `i > 0`) starts at `prev`; decoding stops at
/// the first bytes that form no whole instruction, which are listed as an
/// illegal instruction.
pub open spec fn listing_from(
    code: Seq<u8>,
    lines: Seq<usize>,
    texts: Seq<Seq<char>>,
    prev: int,
    i: int,
) -> Seq<char>
    decreases code.len() - i,
{
    if i < 0 || i >= code.len() {
        Seq::empty()
    } else {
        let head = offset_text(i as nat) + line_text(lines, prev, i);
        match instruction_at(code, texts.len(), i) {
            Some((op, next)) => if next > i {
                head + instruction_text(op, code, texts, i) + seq!['\n'] + listing_from(
                    code,
                    lines,
                    texts,
                    i,
                    next,
                )
            } else {
                Seq::empty()
            },
            None => head + "Illegal Instruction"@ + seq!['\n'],
        }
    }
}

/// The whole disassembly of a unit named `name`.
pub open spec fn listing(
    name: Seq<char>,
    code: Seq<u8>,
    lines: Seq<usize>,
    texts: Seq<Seq<char>>,
) -> Seq<char> {
    "== "@ + name + " ==\n"@ + listing_from(code, lines, texts, 0, 0)
}

/// The one-character text of a decimal digit.
fn digit_str(d: usize) -> (r: &'static str)
    requires
        d < 10,
    ensures
        r@ == seq![digit_char(d as nat)],
{
    proof {
        reveal_strlit("0");
        reveal_strlit("1");
        reveal_strlit("2");
        reveal_strlit("3");
        reveal_strlit("4");
        reveal_strlit("5");
        reveal_strlit("6");
        reveal_strlit("7");
        reveal_strlit("8");
        reveal_strlit("9");
    }
    let r = if d == 0 {
        "0"
    } else if d == 1 {
        "1"
    } else if d == 2 {
        "2"
    } else if d == 3 {
        "3"
    } else if d == 4 {
        "4"
    } else if d == 5 {
        "5"
    } else if d == 6 {
        "6"
    } else if d == 7 {
        "7"
    } else if d == 8 {
        "8"
    } else {
        "9"
    };
    assert(r@ =~= seq![digit_char(d as nat)]);
    r
}

/// The number of decimal digits of `n`.
fn digit_count(n: usize) -> (r: usize)
    ensures
        r == decimal(n as nat).len(),
        1 <= r <= n + 1,
    decreases n,
{
    if n < 10 {
        1
    } else {
        let r = digit_count(n / 10);
        r + 1
    }
}

/// Appends the decimal digits of `n` to `out`.
fn push_decimal(out: &mut String, n: usize)
    ensures
        final(out)@ == old(out)@ + decimal(n as nat),
    decreases n,
{
    if n >= 10 {
        push_decimal(out, n / 10);
    }
    out.append(digit_str(n % 10));
    proof {
        if n >= 10 {
            assert(final(out)@ =~= old(out)@ + decimal(n as nat));
        } else {
            assert(final(out)@ =~= old(out)@ + decimal(n as nat));
        }
    }
}

/// Appends the decimal digits of `n` to `out`, after copies of `pad` up to
/// `width` characters.
fn push_padded(out: &mut String, n: usize, width: usize, pad: &str)
    requires
        pad@.len() == 1,
    ensures
        final(out)@ == old(out)@ + pad_left(decimal(n as nat), width as nat, pad@[0]),
{
    let digits = digit_count(n);
    let mut k: usize = digits;
    let ghost start = out@;
    while k < width
        invariant
            digits == decimal(n as nat).len(),
            digits <= k,
            k <= width || k == digits,
            pad@.len() == 1,
            out@ == start + Seq::new((k - digits) as nat, |_i: int| pad@[0]),
        decreases width - k,
    {
        out.append(pad);
        k = k + 1;
        proof {
            assert(out@ =~= start + Seq::new((k - digits) as nat, |_i: int| pad@[0]));
        }
    }
    push_decimal(out, n);
    proof {
        assert(out@ =~= start + pad_left(decimal(n as nat), width as nat, pad@[0]));
    }
}

impl Ip {
    /// The position of this cursor in the code.
    pub closed spec fn position(&self) -> nat {
        self.offset as nat
    }

    /// A cursor at the start of `bytecode`, which must be finalized.
    pub fn create(bytecode: &Bytecode) -> (r: Option<Ip>)
        ensures
            r is Some <==> bytecode.finished(),
            r matches Some(ip) ==> ip.position() == 0,
    {
        bytecode.get_base_ip()
    }

    /// The opcode under the cursor; `None` past the end of the code or on a
    /// byte that encodes no opcode.
    pub fn get_op(&self, bytecode: &Bytecode) -> (r: Option<Op>)
        ensures
            r == (if self.position() < bytecode.code().len() {
                spec_decode_op(bytecode.code()[self.position() as int])
            } else {
                None
            }),
    {
        match self.get_u8(bytecode) {
            Some(byte) => Op::from_u8(byte),
            None => None,
        }
    }

    /// The byte under the cursor; `None` past the end of the code.
    pub fn get_u8(&self, bytecode: &Bytecode) -> (r: Option<u8>)
        ensures
            r == (if self.position() < bytecode.code().len() {
                Some(bytecode.code()[self.position() as int])
            } else {
                None
            }),
    {
        if self.offset < bytecode.code.len() {
            Some(bytecode.code[self.offset])
        } else {
            None
        }
    }

    /// Moves the cursor `offset` bytes on.
    pub fn inc(&mut self, offset: usize)
        requires
            old(self).position() + offset <= usize::MAX,
        ensures
            final(self).position() == old(self).position() + offset,
    {
        self.offset = self.offset + offset;
    }
}

impl Bytecode {
    /// The code stream.
    pub closed spec fn code(&self) -> Seq<u8> {
        self.code@
    }

    /// The constant pool.
    pub closed spec fn constants(&self) -> Seq<LoxValue> {
        self.constants@
    }

    /// The source line of each byte of the code.
    pub closed spec fn lines(&self) -> Seq<usize> {
        self.lines@
    }

    /// Whether the unit is finalized.
    pub closed spec fn finished(&self) -> bool {
        self.finished_compilation
    }

    /// The line table is as long as the code, and the pool holds at most
    /// `MAX_CONSTANTS` constants.
    pub closed spec fn wf(&self) -> bool {
        &&& self.code@.len() == self.lines@.len()
        &&& self.constants@.len() <= MAX_CONSTANTS
    }

    /// An empty unit, open for appending.
    pub fn new() -> (r: Bytecode)
        ensures
            r.wf(),
            !r.finished(),
            r.code() == Seq::<u8>::empty(),
            r.lines() == Seq::<usize>::empty(),
            r.constants() == Seq::<LoxValue>::empty(),
    {
        Bytecode {
            code: Vec::new(),
            constants: Vec::new(),
            lines: Vec::new(),
            finished_compilation: false,
        }
    }

    /// A cursor at the start of the code, once the unit is finalized.
    pub fn get_base_ip(&self) -> (r: Option<Ip>)
        ensures
            r is Some <==> self.finished(),
            r matches Some(ip) ==> ip.position() == 0,
    {
        if !self.finished_compilation {
            None
        } else {
            Some(Ip { offset: 0 })
        }
    }

    pub fn get_code_len(&self) -> (r: usize)
        ensures
            r == self.code().len(),
    {
        self.code.len()
    }

    pub fn get_constants_len(&self) -> (r: usize)
        ensures
            r == self.constants().len(),
    {
        self.constants.len()
    }

    pub fn is_finished(&self) -> (r: bool)
        ensures
            r == self.finished(),
    {
        self.finished_compilation
    }

    /// Appends one byte of code, from source line `line`.
    pub fn write_u8(&mut self, byte: u8, line: usize)
        requires
            old(self).wf(),
            !old(self).finished(),
        ensures
            final(self).wf(),
            !final(self).finished(),
            final(self).code() == old(self).code().push(byte),
            final(self).lines() == old(self).lines().push(line),
            final(self).constants() == old(self).constants(),
    {
        self.code.push(byte);
        self.lines.push(line);
    }

    /// Appends `value` to the constant pool and returns its index.
    pub fn add_constant(&mut self, value: LoxValue) -> (r: usize)
        requires
            old(self).wf(),
            !old(self).finished(),
            old(self).constants().len() < MAX_CONSTANTS,
        ensures
            final(self).wf(),
            !final(self).finished(),
            r == old(self).constants().len(),
            final(self).constants() == old(self).constants().push(value),
            final(self).code() == old(self).code(),
            final(self).lines() == old(self).lines(),
    {
        self.constants.push(value);
        self.constants.len() - 1
    }

    /// The constant at `index`.
    pub fn get_constant(&self, index: usize) -> (r: LoxValue)
        requires
            index < self.constants().len(),
        ensures
            r == self.constants()[index as int],
    {
        self.constants[index]
    }

    /// The code stream.
    pub fn code_bytes(&self) -> (r: &Vec<u8>)
        ensures
            r@ == self.code(),
    {
        &self.code
    }

    /// The source line of each byte of the code.
    pub fn line_numbers(&self) -> (r: &Vec<usize>)
        ensures
            r@ == self.lines(),
    {
        &self.lines
    }

    /// The constant pool.
    pub fn constants_vec(&self) -> (r: &Vec<LoxValue>)
        ensures
            r@ == self.constants(),
    {
        &self.constants
    }

    /// Finalizes the unit: from now on nothing can be appended.
    pub fn finish(&mut self)
        requires
            old(self).wf(),
        ensures
            final(self).wf(),
            final(self).finished(),
            final(self).lines().len() == final(self).code().len(),
            final(self).code() == old(self).code(),
            final(self).lines() == old(self).lines(),
            final(self).constants() == old(self).constants(),
    {
        self.finished_compilation = true;
    }

    /// Appends the offset and line columns of the instruction at `i`.
    fn list_head(&self, out: &mut String, prev: usize, i: usize)
        requires
            self.wf(),
            prev <= i < self.code().len(),
        ensures
            final(out)@ == old(out)@ + offset_text(i as nat) + line_text(
                self.lines(),
                prev as int,
                i as int,
            ),
    {
        proof {
            reveal_strlit(" ");
            reveal_strlit("0");
        }
        let ghost before = out@;
        push_padded(out, i, 4, "0");
        out.append(" ");
        if i > 0 && self.lines[i] == self.lines[prev] {
            out.append("   | ");
        } else {
            push_padded(out, self.lines[i], 4, " ");
            out.append(" ");
        }
        assert(out@ =~= before + offset_text(i as nat) + line_text(
            self.lines(),
            prev as int,
            i as int,
        ));
    }

    /// Appends the listing line of the instruction at `i`, and returns where
    /// listing goes on: after the instruction, or at the end of the code
    /// after an illegal one.
    fn list_instruction(
        &self,
        out: &mut String,
        prev: usize,
        i: usize,
        constant_texts: &Vec<String>,
    ) -> (next: usize)
        requires
            self.wf(),
            prev <= i < self.code().len(),
            constant_texts@.len() == self.constants().len(),
        ensures
            i < next <= self.code().len(),
            final(out)@ + listing_from(
                self.code(),
                self.lines(),
                constant_texts@.map_values(|t: String| t@),
                i as int,
                next as int,
            ) == old(out)@ + listing_from(
                self.code(),
                self.lines(),
                constant_texts@.map_values(|t: String| t@),
                prev as int,
                i as int,
            ),
    {
        let ghost texts = constant_texts@.map_values(|t: String| t@);
        let ghost code = self.code@;
        proof {
            reveal_strlit(" ");
            reveal_strlit("0");
            reveal_strlit("\n");
        }
        let len = self.code.len();
        self.list_head(out, prev, i);
        let ghost before = out@;
        let next = match Op::from_u8(self.code[i]) {
            Some(Op::ConstantSmall) => {
                if i + 1 < len && (self.code[i + 1] as usize) < constant_texts.len() {
                    let index = self.code[i + 1] as usize;
                    out.append(Op::ConstantSmall.mnemonic());
                    out.append(" ");
                    push_padded(out, index, 4, "0");
                    out.append(" ");
                    out.append(constant_texts[index].as_str());
                    out.append("\n");
                    assert(out@ =~= before + instruction_text(
                        Op::ConstantSmall,
                        code,
                        texts,
                        i as int,
                    ) + seq!['\n']);
                    i + 2
                } else {
                    out.append("Illegal Instruction");
                    out.append("\n");
                    len
                }
            },
            Some(op) => {
                out.append(op.mnemonic());
                out.append("\n");
                assert(out@ =~= before + instruction_text(op, code, texts, i as int) + seq!['\n']);
                i + 1
            },
            None => {
                out.append("Illegal Instruction");
                out.append("\n");
                len
            },
        };
        assert(out@ + listing_from(code, self.lines(), texts, i as int, next as int) =~= old(out)@
            + listing_from(code, self.lines(), texts, prev as int, i as int));
        next
    }

    /// A listing of the unit under the heading `name`: per instruction its
    /// offset, its source line (a bar where it repeats the line of the
    /// instruction before), its
    /// name and, for a constant load, the index and `constant_texts` at that
    /// index. Decoding stops with an illegal-instruction line at the first
    /// bytes that form no whole instruction; it never reads past the code.
    pub fn disassemble(&self, name: &str, constant_texts: &Vec<String>) -> (r: String)
        requires
            self.wf(),
            constant_texts@.len() == self.constants().len(),
        ensures
            r@ == listing(
                name@,
                self.code(),
                self.lines(),
                constant_texts@.map_values(|t: String| t@),
            ),
    {
        let ghost texts = constant_texts@.map_values(|t: String| t@);
        let ghost code = self.code@;
        let ghost lines = self.lines@;
        let mut out = String::new();
        out.append("== ");
        out.append(name);
        out.append(" ==\n");
        let mut i: usize = 0;
        let mut prev: usize = 0;
        let len = self.code.len();
        while i < len
            invariant
                self.wf(),
                len == self.code().len(),
                texts.len() == self.constants().len() == constant_texts@.len(),
                texts == constant_texts@.map_values(|t: String| t@),
                prev <= i <= len,
                out@ + listing_from(self.code(), self.lines(), texts, prev as int, i as int)
                    == listing(
                    name@,
                    self.code(),
                    self.lines(),
                    texts,
                ),
            decreases len - i,
        {
            let ghost before = out@;
            let next = self.list_instruction(&mut out, prev, i, constant_texts);
            assert(out@ + listing_from(self.code(), self.lines(), texts, i as int, next as int)
                =~= before + listing_from(self.code(), self.lines(), texts, prev as int, i as int));
            prev = i;
            i = next;
        }
        out
    }
}

} // verus!
