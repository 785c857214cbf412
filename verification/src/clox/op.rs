//! The instructions of the bytecode, and their encoding as bytes.
use vstd::prelude::*;
use vstd::std_specs::convert::FromSpecImpl;

verus! {

/// One instruction; `Unknown` carries a byte that names no instruction.
#[derive(Debug)]
pub enum OpCode {
    Return,
    Constant,
    Negate,
    Add,
    Subtract,
    Multiply,
    Divide,
    Nil,
    True,
    False,
    Bang,
    Equal,
    Greater,
    Less,
    Print,
    Pop,
    DefineGlobal,
    GetGlobal,
    SetGlobal,
    GetLocal,
    SetLocal,
    JumpIfFalse,
    Jump,
    Unknown(u8),
}

/// The instruction that the byte `byte` encodes.
pub open spec fn decode(byte: u8) -> OpCode {
    if byte == 0 {
        OpCode::Return
    } else if byte == 1 {
        OpCode::Constant
    } else if byte == 2 {
        OpCode::Negate
    } else if byte == 3 {
        OpCode::Add
    } else if byte == 4 {
        OpCode::Subtract
    } else if byte == 5 {
        OpCode::Multiply
    } else if byte == 6 {
        OpCode::Divide
    } else if byte == 7 {
        OpCode::Nil
    } else if byte == 8 {
        OpCode::True
    } else if byte == 9 {
        OpCode::False
    } else if byte == 10 {
        OpCode::Bang
    } else if byte == 11 {
        OpCode::Equal
    } else if byte == 12 {
        OpCode::Greater
    } else if byte == 13 {
        OpCode::Less
    } else if byte == 14 {
        OpCode::Print
    } else if byte == 15 {
        OpCode::Pop
    } else if byte == 16 {
        OpCode::DefineGlobal
    } else if byte == 17 {
        OpCode::GetGlobal
    } else if byte == 18 {
        OpCode::SetGlobal
    } else if byte == 19 {
        OpCode::GetLocal
    } else if byte == 20 {
        OpCode::SetLocal
    } else if byte == 21 {
        OpCode::JumpIfFalse
    } else if byte == 22 {
        OpCode::Jump
    } else {
        OpCode::Unknown(byte)
    }
}

/// The byte that encodes the instruction `op`.
pub open spec fn encode(op: OpCode) -> u8 {
    match op {
        OpCode::Return => 0,
        OpCode::Constant => 1,
        OpCode::Negate => 2,
        OpCode::Add => 3,
        OpCode::Subtract => 4,
        OpCode::Multiply => 5,
        OpCode::Divide => 6,
        OpCode::Nil => 7,
        OpCode::True => 8,
        OpCode::False => 9,
        OpCode::Bang => 10,
        OpCode::Equal => 11,
        OpCode::Greater => 12,
        OpCode::Less => 13,
        OpCode::Print => 14,
        OpCode::Pop => 15,
        OpCode::DefineGlobal => 16,
        OpCode::GetGlobal => 17,
        OpCode::SetGlobal => 18,
        OpCode::GetLocal => 19,
        OpCode::SetLocal => 20,
        OpCode::JumpIfFalse => 21,
        OpCode::Jump => 22,
        OpCode::Unknown(a) => a,
    }
}

impl From<u8> for OpCode {
    fn from(byte: u8) -> (op: Self) {
        match byte {
            0 => Self::Return,
            1 => Self::Constant,
            2 => Self::Negate,
            3 => Self::Add,
            4 => Self::Subtract,
            5 => Self::Multiply,
            6 => Self::Divide,
            7 => Self::Nil,
            8 => Self::True,
            9 => Self::False,
            10 => Self::Bang,
            11 => Self::Equal,
            12 => Self::Greater,
            13 => Self::Less,
            14 => Self::Print,
            15 => Self::Pop,
            16 => Self::DefineGlobal,
            17 => Self::GetGlobal,
            18 => Self::SetGlobal,
            19 => Self::GetLocal,
            20 => Self::SetLocal,
            21 => Self::JumpIfFalse,
            22 => Self::Jump,
            _ => Self::Unknown(byte),
        }
    }
}

impl FromSpecImpl<u8> for OpCode {
    open spec fn obeys_from_spec() -> bool {
        true
    }

    open spec fn from_spec(v: u8) -> OpCode {
        decode(v)
    }
}

impl From<OpCode> for u8 {
    fn from(op: OpCode) -> (byte: Self) {
        match op {
            OpCode::Return => 0,
            OpCode::Constant => 1,
            OpCode::Negate => 2,
            OpCode::Add => 3,
            OpCode::Subtract => 4,
            OpCode::Multiply => 5,
            OpCode::Divide => 6,
            OpCode::Nil => 7,
            OpCode::True => 8,
            OpCode::False => 9,
            OpCode::Bang => 10,
            OpCode::Equal => 11,
            OpCode::Greater => 12,
            OpCode::Less => 13,
            OpCode::Print => 14,
            OpCode::Pop => 15,
            OpCode::DefineGlobal => 16,
            OpCode::GetGlobal => 17,
            OpCode::SetGlobal => 18,
            OpCode::GetLocal => 19,
            OpCode::SetLocal => 20,
            OpCode::JumpIfFalse => 21,
            OpCode::Jump => 22,
            OpCode::Unknown(a) => a,
        }
    }
}

impl FromSpecImpl<OpCode> for u8 {
    open spec fn obeys_from_spec() -> bool {
        true
    }

    open spec fn from_spec(v: OpCode) -> u8 {
        encode(v)
    }
}

/// Decoding a byte and encoding the instruction gives the byte back.
pub proof fn law_decode_encode(byte: u8)
    ensures
        encode(decode(byte)) == byte,
{
}

/// Encoding an instruction and decoding the byte gives the instruction back,
/// unless it is an `Unknown` whose byte names an instruction.
pub proof fn law_encode_decode(op: OpCode)
    requires
        op matches OpCode::Unknown(b) ==> b > 22,
    ensures
        decode(encode(op)) == op,
{
}

/// How many bytes the instruction `op` takes with its operands: one operand
/// byte for constants, globals and locals, two for jumps, none otherwise.
pub open spec fn width(op: OpCode) -> int {
    match op {
        OpCode::Constant | OpCode::DefineGlobal | OpCode::GetGlobal | OpCode::SetGlobal
        | OpCode::GetLocal | OpCode::SetLocal => 2,
        OpCode::JumpIfFalse | OpCode::Jump => 3,
        _ => 1,
    }
}

/// The offset of the instruction that follows the one at `offset` in `code`.
pub fn instruction_width(code: &[u8], offset: usize) -> (next: usize)
    requires
        offset < code@.len(),
        code@.len() + 3 <= usize::MAX,
    ensures
        next == offset + width(decode(code@[offset as int])),
{
    let op = OpCode::from(code[offset]);
    match op {
        OpCode::Constant | OpCode::DefineGlobal | OpCode::GetGlobal | OpCode::SetGlobal
        | OpCode::GetLocal | OpCode::SetLocal => offset + 2,
        OpCode::JumpIfFalse | OpCode::Jump => offset + 3,
        _ => offset + 1,
    }
}

/// Where disassembling `code` goes after the instruction at `offset`: 0 for
/// an empty chunk, else the offset of the next instruction.
pub fn next_offset(code: &[u8], offset: usize) -> (next: usize)
    requires
        code@.len() == 0 || offset < code@.len(),
        code@.len() + 3 <= usize::MAX,
    ensures
        next == if code@.len() == 0 {
            0
        } else {
            offset + width(decode(code@[offset as int]))
        },
{
    if code.len() == 0 {
        return 0;
    }
    instruction_width(code, offset)
}

/// The offsets of the instructions of `code` from `offset` on: each
/// instruction starts where the one before it ends, up to the end of the
/// chunk.
pub open spec fn offsets_from(code: Seq<u8>, offset: int) -> Seq<int>
    decreases code.len() + 3 - offset,
{
    if offset < 0 || offset >= code.len() {
        Seq::empty()
    } else {
        proof {
            lemma_width_bounds(decode(code[offset]));
        }
        seq![offset] + offsets_from(code, offset + width(decode(code[offset])))
    }
}

/// Every instruction takes one to three bytes.
pub proof fn lemma_width_bounds(op: OpCode)
    ensures
        1 <= width(op) <= 3,
{
}

/// The offsets as integers.
pub open spec fn as_ints(v: Seq<usize>) -> Seq<int> {
    v.map_values(|o: usize| o as int)
}

/// The offsets at which a disassembly of `code` finds its instructions,
/// in order: from 0, each after the instruction before it.
pub fn instruction_offsets(code: &[u8]) -> (offs: Vec<usize>)
    requires
        code@.len() + 3 <= usize::MAX,
    ensures
        as_ints(offs@) == offsets_from(code@, 0),
{
    let mut offs: Vec<usize> = Vec::new();
    let mut offset: usize = 0;
    while offset < code.len()
        invariant
            code@.len() + 3 <= usize::MAX,
            offset <= code@.len() + 3,
            offsets_from(code@, 0) == as_ints(offs@) + offsets_from(code@, offset as int),
        decreases code@.len() + 3 - offset,
    {
        let next = next_offset(code, offset);
        proof {
            lemma_width_bounds(decode(code@[offset as int]));
            assert(as_ints(offs@.push(offset)) =~= as_ints(offs@).push(offset as int));
            assert(offsets_from(code@, offset as int) == seq![offset as int] + offsets_from(
                code@,
                next as int,
            ));
            assert(as_ints(offs@) + offsets_from(code@, offset as int) =~= as_ints(
                offs@.push(offset),
            ) + offsets_from(code@, next as int));
        }
        offs.push(offset);
        offset = next;
    }
    assert(offsets_from(code@, offset as int) =~= Seq::<int>::empty());
    assert(as_ints(offs@) + Seq::<int>::empty() =~= as_ints(offs@));
    offs
}

/// How many bytes an instruction takes, by the byte that starts it: the
/// instructions with a one-byte operand (a constant's index, a global's name
/// or a local's slot: bytes 1 and 16 to 20) take two, the jumps (bytes 21
/// and 22) take three with their two-byte offset, and every other byte is
/// an instruction of its own.
pub proof fn law_width_by_byte(b: u8)
    ensures
        width(decode(b)) == if b == 1 || (16 <= b <= 20) {
            2int
        } else if b == 21 || b == 22 {
            3int
        } else {
            1int
        },
{
}

} // verus!
