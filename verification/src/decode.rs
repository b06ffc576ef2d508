//! Reading a script's bytes into instructions, and cutting what was read.

use crate::instruction::{all_well_formed, Instruction, InstructionView};
use crate::segment::{segments, FillableScript};
use vstd::prelude::*;

verus! {

/// The error type of `bitcoin`'s script reader. Nothing is known of a value
/// of it here; it is handed on to the caller as it came.
#[verifier::external_type_specification]
#[verifier::external_body]
pub struct ExScriptError(bitcoin::script::Error);

/// What `bitcoin::Script::instructions` reads from a script's bytes: the
/// instructions in their order, or `None` where the reader reports an error.
pub uninterp spec fn decoded(script: Seq<u8>) -> Option<Seq<InstructionView>>;

/// A script that could not be read to its end.
#[derive(Debug)]
pub struct DecodeError {
    /// What the reader reported.
    pub cause: bitcoin::script::Error,
}

/// Runs `bitcoin::Script::instructions` over `script` up to its end or to the
/// first error. Believed, not proved: the result is the reader's, which
/// depends on the bytes alone; every push it yields is shorter than 2^32
/// bytes, since its length was read from at most four bytes; and it yields the
/// opcodes up to `OP_PUSHDATA4` as pushes, never as operations.
#[verifier::external_body]
fn read_instructions(script: &[u8]) -> (read: Result<Vec<Instruction>, bitcoin::script::Error>)
    ensures
        match read {
            Ok(instructions) => decoded(script@) == Some(instructions.deep_view())
                && all_well_formed(instructions.deep_view()),
            Err(_) => decoded(script@) is None,
        },
{
    bitcoin::Script::from_bytes(script)
        .instructions()
        .map(|item| item.map(|instruction| match instruction {
            bitcoin::script::Instruction::PushBytes(data) =>
                Instruction::DataPush(data.as_bytes().to_vec()),
            bitcoin::script::Instruction::Op(opcode) => Instruction::Operation(opcode.to_u8()),
        }))
        .collect()
}

impl FillableScript {
    /// Reads `script` and cuts it at its placeholders. Fails where the script
    /// cannot be read to its end, with nothing cut.
    pub fn from(script: &[u8]) -> (cut: Result<FillableScript, DecodeError>)
        ensures
            match cut {
                Ok(fillable) => decoded(script@) matches Some(instructions) && all_well_formed(
                    instructions,
                ) && fillable@ == segments(instructions),
                Err(_) => decoded(script@) is None,
            },
    {
        match read_instructions(script) {
            Ok(instructions) => Ok(FillableScript::encode_and_segment(instructions.as_slice())),
            Err(cause) => Err(DecodeError { cause }),
        }
    }
}

} // verus!
