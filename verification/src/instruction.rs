//! Script instructions: data pushes and plain opcodes.

use vstd::prelude::*;

verus! {

/// The opcode that marks a hole in a script (`OP_RESERVED`).
pub const OP_PLACEHOLDER: u8 = 0x50;

/// The highest opcode that starts a data push (`OP_PUSHDATA4`).
pub const OP_PUSHDATA4: u8 = 0x4e;

/// One instruction of a script.
#[derive(Debug, Clone, PartialEq, Eq)]
pub enum Instruction {
    /// Push these bytes onto the stack.
    DataPush(Vec<u8>),
    /// Any opcode that is not a data push, by its byte.
    Operation(u8),
}

/// The mathematical value of an [`Instruction`].
pub ghost enum InstructionView {
    /// A push of these bytes.
    DataPush(Seq<u8>),
    /// The opcode with this byte.
    Operation(u8),
}

impl View for Instruction {
    type V = InstructionView;

    open spec fn view(&self) -> InstructionView {
        match self {
            Instruction::DataPush(data) => InstructionView::DataPush(data@),
            Instruction::Operation(opcode) => InstructionView::Operation(*opcode),
        }
    }
}

impl DeepView for Instruction {
    type V = InstructionView;

    open spec fn deep_view(&self) -> InstructionView {
        self@
    }
}

impl InstructionView {
    /// Whether this is the opcode that marks a hole.
    pub open spec fn is_placeholder(self) -> bool {
        self == InstructionView::Operation(OP_PLACEHOLDER)
    }

    /// Whether a script can hold this instruction and give it back when read:
    /// a push is shorter than 2^32 bytes, and an operation's byte is not one
    /// of the opcodes that start a push.
    pub open spec fn well_formed(self) -> bool {
        match self {
            InstructionView::DataPush(data) => data.len() <= 0xffff_ffff,
            InstructionView::Operation(opcode) => opcode > OP_PUSHDATA4,
        }
    }
}

/// Whether every instruction of a stream is well formed.
pub open spec fn all_well_formed(instructions: Seq<InstructionView>) -> bool {
    forall|i: int| 0 <= i < instructions.len() ==> (#[trigger] instructions[i]).well_formed()
}

} // verus!
