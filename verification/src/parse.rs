//! What a reader of the script format finds in serialized bytes.
//!
//! Nothing here runs: these functions say how bytes are read, so that what
//! the crate writes can be held against it.

use crate::encode::{encode_instruction, encode_run, lemma_encode_run_concat};
use crate::instruction::{all_well_formed, InstructionView, OP_PUSHDATA4};
use crate::push::{lemma_read_prefix_of_form, read_prefix, PushForm};
use vstd::prelude::*;

verus! {

/// The instruction at the start of `bytes` and the number of bytes it takes,
/// if `bytes` start with a whole instruction. A push may come in any form
/// that holds its length.
pub open spec fn read_instruction(bytes: Seq<u8>) -> Option<(InstructionView, nat)> {
    if bytes.len() == 0 {
        None
    } else if bytes[0] > OP_PUSHDATA4 {
        Some((InstructionView::Operation(bytes[0]), 1))
    } else {
        match read_prefix(bytes) {
            Some((form, len)) => {
                let end: nat = form.width() + len;
                if end <= bytes.len() {
                    let data = bytes.subrange(form.width() as int, end as int);
                    Some((InstructionView::DataPush(data), end))
                } else {
                    None
                }
            },
            None => None,
        }
    }
}

/// The instructions that `bytes` hold, if they are whole instructions from
/// start to end.
pub open spec fn read_run(bytes: Seq<u8>) -> Option<Seq<InstructionView>>
    decreases bytes.len(),
{
    if bytes.len() == 0 {
        Some(Seq::empty())
    } else {
        match read_instruction(bytes) {
            Some((instruction, taken)) => {
                if 0 < taken <= bytes.len() {
                    match read_run(bytes.skip(taken as int)) {
                        Some(rest) => Some(seq![instruction] + rest),
                        None => None,
                    }
                } else {
                    None
                }
            },
            None => None,
        }
    }
}

/// A written instruction reads back as itself, whatever follows it.
pub proof fn lemma_read_encoded_instruction(instruction: InstructionView, rest: Seq<u8>)
    requires
        instruction.well_formed(),
    ensures
        read_instruction(encode_instruction(instruction) + rest) == Some(
            (instruction, encode_instruction(instruction).len()),
        ),
{
    let bytes = encode_instruction(instruction) + rest;
    match instruction {
        InstructionView::DataPush(data) => {
            let form = PushForm::narrowest(data.len());
            lemma_read_prefix_of_form(form, data.len(), data + rest);
            assert(bytes == form.prefix(data.len()) + (data + rest));
            assert(bytes[0] == form.prefix(data.len())[0]);
            assert(bytes.subrange(form.width() as int, (form.width() + data.len()) as int) == data);
        },
        InstructionView::Operation(opcode) => {
            assert(bytes[0] == opcode);
        },
    }
}

/// A written run reads back as itself.
pub proof fn lemma_read_encoded_run(run: Seq<InstructionView>)
    requires
        all_well_formed(run),
    ensures
        read_run(encode_run(run)) == Some(run),
    decreases run.len(),
{
    if run.len() > 0 {
        let head = run[0];
        let tail = run.skip(1);
        assert(run == seq![head] + tail);
        lemma_encode_run_concat(seq![head], tail);
        assert(encode_run(seq![head]) == encode_instruction(head)) by {
            assert(seq![head].drop_last() == Seq::<InstructionView>::empty());
            assert(encode_run(Seq::<InstructionView>::empty()) == Seq::<u8>::empty());
            assert(Seq::<u8>::empty() + encode_instruction(head) == encode_instruction(head));
        }
        let bytes = encode_instruction(head) + encode_run(tail);
        lemma_read_encoded_instruction(head, encode_run(tail));
        assert(bytes.skip(encode_instruction(head).len() as int) == encode_run(tail));
        assert(all_well_formed(tail)) by {
            assert forall|i: int| 0 <= i < tail.len() implies (#[trigger] tail[i]).well_formed()
            by {
                assert(tail[i] == run[i + 1]);
            }
        }
        lemma_read_encoded_run(tail);
    }
}

} // verus!
