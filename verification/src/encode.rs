//! Serializing instructions with minimal pushes.

use crate::instruction::{Instruction, InstructionView};
use crate::push::{append_push_prefix, push_prefix};
use vstd::prelude::*;

verus! {

/// The bytes of a push of `data`: the narrowest prefix, then the payload.
pub open spec fn encode_push(data: Seq<u8>) -> Seq<u8> {
    push_prefix(data.len()) + data
}

/// The bytes of one instruction.
pub open spec fn encode_instruction(instruction: InstructionView) -> Seq<u8> {
    match instruction {
        InstructionView::DataPush(data) => encode_push(data),
        InstructionView::Operation(opcode) => seq![opcode],
    }
}

/// The bytes of a run of instructions: their encodings, one after the other.
pub open spec fn encode_run(run: Seq<InstructionView>) -> Seq<u8>
    decreases run.len(),
{
    if run.len() == 0 {
        Seq::empty()
    } else {
        encode_run(run.drop_last()) + encode_instruction(run.last())
    }
}

/// Appends to `out` a minimal push of `data`.
pub fn append_push(out: &mut Vec<u8>, data: &[u8])
    ensures
        final(out)@ == old(out)@ + encode_push(data@),
{
    append_push_prefix(out, data.len());
    out.extend_from_slice(data);
    assert(out@ =~= old(out)@ + encode_push(data@));
}

/// Appends to `out` the bytes of `instruction`.
pub fn append_instruction(out: &mut Vec<u8>, instruction: &Instruction)
    ensures
        final(out)@ == old(out)@ + encode_instruction(instruction@),
{
    match instruction {
        Instruction::DataPush(data) => {
            append_push(out, data.as_slice());
        },
        Instruction::Operation(opcode) => {
            out.push(*opcode);
        },
    }
}

/// The bytes of a run are the bytes of its parts, one after the other.
pub proof fn lemma_encode_run_concat(first: Seq<InstructionView>, second: Seq<InstructionView>)
    ensures
        encode_run(first + second) == encode_run(first) + encode_run(second),
    decreases second.len(),
{
    if second.len() == 0 {
        assert(first + second == first);
        assert(encode_run(first) + encode_run(second) == encode_run(first));
    } else {
        lemma_encode_run_concat(first, second.drop_last());
        assert((first + second).drop_last() == first + second.drop_last());
        assert(encode_run(first + second) == encode_run(first) + encode_run(second));
    }
}

/// Every instruction takes at least one byte.
pub proof fn lemma_encode_instruction_len(instruction: InstructionView)
    ensures
        encode_instruction(instruction).len() >= 1,
{
}

/// A run has no bytes exactly if it has no instructions.
pub proof fn lemma_encode_run_empty(run: Seq<InstructionView>)
    ensures
        encode_run(run).len() == 0 <==> run.len() == 0,
    decreases run.len(),
{
    if run.len() > 0 {
        lemma_encode_instruction_len(run.last());
    }
}

} // verus!
