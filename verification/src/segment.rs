//! Cutting an instruction stream at its placeholders.

use crate::encode::{
    append_instruction, encode_instruction, encode_run, lemma_encode_instruction_len,
    lemma_encode_run_concat, lemma_encode_run_empty,
};
use crate::instruction::{all_well_formed, Instruction, InstructionView, OP_PLACEHOLDER};
use crate::parse::{lemma_read_encoded_run, read_run};
use crate::runs::{
    join_runs, lemma_run_of_instruction, lemma_runs_len, lemma_runs_members, lemma_runs_rejoin,
    placeholder_count, runs,
};
use vstd::prelude::*;

verus! {

/// Each run in its bytes.
pub open spec fn encode_runs(runs: Seq<Seq<InstructionView>>) -> Seq<Seq<u8>> {
    Seq::new(runs.len(), |i: int| encode_run(runs[i]))
}

/// The segments of a stream: the bytes of each of its runs, but for the last
/// run where that one is empty.
pub open spec fn segments(instructions: Seq<InstructionView>) -> Seq<Seq<u8>> {
    let all = encode_runs(runs(instructions));
    if all.last().len() == 0 {
        all.drop_last()
    } else {
        all
    }
}

/// The bytes that these buffers hold, buffer by buffer.
pub open spec fn segment_bytes(buffers: Seq<Vec<u8>>) -> Seq<Seq<u8>> {
    Seq::new(buffers.len(), |i: int| buffers[i]@)
}

/// A script cut at its placeholders.
#[derive(Debug, Clone, PartialEq, Eq)]
pub struct FillableScript {
    /// The segments, in the order of the script. Between each two of them
    /// stood one placeholder.
    pub scripts: Vec<Vec<u8>>,
}

impl View for FillableScript {
    type V = Seq<Seq<u8>>;

    open spec fn view(&self) -> Seq<Seq<u8>> {
        segment_bytes(self.scripts@)
    }
}

impl FillableScript {
    /// Serializes `instructions` with minimal pushes and cuts the result at
    /// every placeholder. A placeholder closes the segment before it, empty or
    /// not, and is not written itself; what follows the last placeholder is a
    /// segment only if it is not empty.
    pub fn encode_and_segment(instructions: &[Instruction]) -> (script: FillableScript)
        ensures
            script@ == segments(instructions.deep_view()),
    {
        let ghost stream = instructions.deep_view();
        let mut scripts: Vec<Vec<u8>> = Vec::new();
        let mut cur_script: Vec<u8> = Vec::new();

        for i in 0..instructions.len()
            invariant
                stream == instructions.deep_view(),
                segment_bytes(scripts@) == encode_runs(
                    runs(stream.take(i as int)).drop_last(),
                ),
                cur_script@ == encode_run(runs(stream.take(i as int)).last()),
        {
            let ghost before = runs(stream.take(i as int));
            let ghost closed = segment_bytes(scripts@);
            proof {
                lemma_runs_len(stream.take(i as int));
                assert(stream.take(i + 1).drop_last() == stream.take(i as int));
                assert(stream.take(i + 1).last() == instructions[i as int]@);
            }
            match &instructions[i] {
                Instruction::Operation(opcode) if *opcode == OP_PLACEHOLDER => {
                    scripts.push(cur_script.clone());
                    cur_script.clear();
                    proof {
                        let after = runs(stream.take(i + 1));
                        assert(after == before.push(Seq::empty()));
                        assert(after.drop_last() == before);
                        assert(segment_bytes(scripts@) =~= closed.push(
                            encode_run(before.last()),
                        ));
                        assert(closed.push(encode_run(before.last())) =~= encode_runs(before));
                    }
                },
                instruction => {
                    append_instruction(&mut cur_script, instruction);
                    proof {
                        let after = runs(stream.take(i + 1));
                        let grown = before.last().push(instruction@);
                        assert(after == before.drop_last().push(grown));
                        assert(after.drop_last() == before.drop_last());
                        assert(grown.drop_last() == before.last());
                    }
                },
            }
        }

        let ghost all = encode_runs(runs(stream));
        let ghost closed = segment_bytes(scripts@);
        let ghost trailing = cur_script@;
        proof {
            assert(stream.take(instructions.len() as int) == stream);
            lemma_runs_len(stream);
            assert(all.drop_last() =~= closed);
            assert(all.last() == trailing);
            assert(all =~= closed.push(trailing));
        }
        if !cur_script.is_empty() {
            scripts.push(cur_script);
        }
        let script = FillableScript { scripts };
        assert(script@ =~= segments(stream));
        script
    }
}

/// A stream with `k` placeholders has `k + 1` segments if anything follows
/// its last placeholder, and `k` segments if it is empty or ends in a
/// placeholder.
pub proof fn lemma_segment_count(instructions: Seq<InstructionView>)
    ensures
        segments(instructions).len() == placeholder_count(instructions) + (if instructions.len() > 0
            && !instructions.last().is_placeholder() {
            1nat
        } else {
            0nat
        }),
{
    lemma_runs_len(instructions);
    lemma_encode_run_empty(runs(instructions).last());
    if instructions.len() > 0 {
        lemma_runs_len(instructions.drop_last());
    }
}

/// Every segment reads back as the run it was written from, and so holds no
/// placeholder: each of its operations is one that the stream had between two
/// placeholders, unchanged and in its place.
pub proof fn lemma_segments_read_back(instructions: Seq<InstructionView>, i: int)
    requires
        all_well_formed(instructions),
        0 <= i < segments(instructions).len(),
    ensures
        i < runs(instructions).len(),
        read_run(segments(instructions)[i]) == Some(runs(instructions)[i]),
        forall|j: int|
            0 <= j < runs(instructions)[i].len() ==> !(#[trigger] runs(
                instructions,
            )[i][j]).is_placeholder(),
{
    let run = runs(instructions)[i];
    lemma_runs_members(instructions);
    assert(all_well_formed(run)) by {
        assert forall|j: int| 0 <= j < run.len() implies (#[trigger] run[j]).well_formed() by {
            assert(run[j] == runs(instructions)[i][j]);
            assert(instructions.contains(run[j]));
        }
    }
    lemma_read_encoded_run(run);
}

/// An instruction that is no placeholder stands in the segment of its run,
/// right after the bytes of what the stream holds between the placeholder
/// before it and itself. An operation's byte so arrives unchanged.
pub proof fn lemma_instruction_in_segment(instructions: Seq<InstructionView>, j: int)
    requires
        0 <= j < instructions.len(),
        !instructions[j].is_placeholder(),
    ensures
        ({
            let index = placeholder_count(instructions.take(j)) as int;
            let lead = encode_run(runs(instructions.take(j)).last());
            &&& index < segments(instructions).len()
            &&& (lead + encode_instruction(instructions[j])).is_prefix_of(
                segments(instructions)[index],
            )
            &&& instructions[j] matches InstructionView::Operation(opcode) ==> {
                &&& lead.len() < segments(instructions)[index].len()
                &&& segments(instructions)[index][lead.len() as int] == opcode
            }
        }),
{
    let index = placeholder_count(instructions.take(j)) as int;
    let start = runs(instructions.take(j)).last().push(instructions[j]);
    let run = runs(instructions)[index];
    lemma_run_of_instruction(instructions, j);
    lemma_runs_len(instructions);
    let rest = run.skip(start.len() as int);
    assert(run == start + rest);
    lemma_encode_run_concat(start, rest);
    assert(start.drop_last() == runs(instructions.take(j)).last());
    lemma_encode_run_empty(run);
    lemma_encode_instruction_len(instructions[j]);
    let head = encode_run(start);
    assert(head.is_prefix_of(encode_run(run))) by {
        assert((head + encode_run(rest)).subrange(0, head.len() as int) =~= head);
    }
    assert(segments(instructions)[index] == encode_run(run));
    if instructions[j] is Operation {
        assert(encode_run(run)[head.len() - 1] == head[head.len() - 1]);
    }
}

/// Of two instructions with no placeholder between them, the earlier one
/// ends in their segment before the later one starts.
pub proof fn lemma_segment_keeps_order(instructions: Seq<InstructionView>, j: int, k: int)
    requires
        0 <= j < k < instructions.len(),
        !instructions[j].is_placeholder(),
        placeholder_count(instructions.take(j)) == placeholder_count(instructions.take(k)),
    ensures
        encode_run(runs(instructions.take(j)).last()).len() + encode_instruction(
            instructions[j],
        ).len() <= encode_run(runs(instructions.take(k)).last()).len(),
{
    let upto = instructions.take(k);
    let start = runs(instructions.take(j)).last().push(instructions[j]);
    let run = runs(upto).last();
    assert(upto.take(j) == instructions.take(j));
    lemma_run_of_instruction(upto, j);
    lemma_runs_len(upto);
    assert(start.is_prefix_of(run));
    let rest = run.skip(start.len() as int);
    assert(run == start + rest);
    lemma_encode_run_concat(start, rest);
    assert(start.drop_last() == runs(instructions.take(j)).last());
}

/// The bytes of these segments, with the placeholder's byte between each two
/// of them.
pub open spec fn join_segments(parts: Seq<Seq<u8>>) -> Seq<u8>
    decreases parts.len(),
{
    if parts.len() == 0 {
        Seq::empty()
    } else if parts.len() == 1 {
        parts[0]
    } else {
        join_segments(parts.drop_last()).push(OP_PLACEHOLDER) + parts.last()
    }
}

/// Joining runs and then writing them gives what writing each run and then
/// joining the bytes gives.
pub proof fn lemma_encode_joined_runs(runs: Seq<Seq<InstructionView>>)
    ensures
        encode_run(join_runs(runs)) == join_segments(encode_runs(runs)),
    decreases runs.len(),
{
    if runs.len() >= 2 {
        let joined = join_runs(runs.drop_last()).push(InstructionView::Operation(OP_PLACEHOLDER));
        lemma_encode_joined_runs(runs.drop_last());
        lemma_encode_run_concat(joined, runs.last());
        assert(joined.drop_last() == join_runs(runs.drop_last()));
        assert(encode_runs(runs).drop_last() =~= encode_runs(runs.drop_last()));
        assert(encode_run(joined) =~= join_segments(encode_runs(runs.drop_last())).push(
            OP_PLACEHOLDER,
        ));
    }
}

/// Putting the placeholder's byte back between the segments gives the whole
/// stream with minimal pushes. Only a placeholder at the very end is not
/// found again between two segments, as no segment follows it.
pub proof fn lemma_segments_rejoin(instructions: Seq<InstructionView>)
    ensures
        encode_run(instructions) == if instructions.len() > 0
            && instructions.last().is_placeholder() {
            join_segments(segments(instructions)).push(OP_PLACEHOLDER)
        } else {
            join_segments(segments(instructions))
        },
{
    let all = encode_runs(runs(instructions));
    lemma_runs_rejoin(instructions);
    lemma_encode_joined_runs(runs(instructions));
    lemma_runs_len(instructions);
    lemma_encode_run_empty(runs(instructions).last());
    if instructions.len() > 0 {
        lemma_runs_len(instructions.drop_last());
        if instructions.last().is_placeholder() {
            assert(join_segments(all) =~= join_segments(all.drop_last()).push(OP_PLACEHOLDER));
        }
    }
}

} // verus!
