//! The runs of instructions between the placeholders of a stream.

use crate::instruction::{InstructionView, OP_PLACEHOLDER};
use vstd::prelude::*;

verus! {

/// The number of placeholders in a stream.
pub open spec fn placeholder_count(instructions: Seq<InstructionView>) -> nat
    decreases instructions.len(),
{
    if instructions.len() == 0 {
        0
    } else {
        let before: nat = placeholder_count(instructions.drop_last());
        if instructions.last().is_placeholder() {
            before + 1
        } else {
            before
        }
    }
}

/// The runs of instructions that the placeholders of a stream separate, in
/// order: what stands before the first placeholder, between each two that
/// follow one another, and after the last. A stream without a placeholder is
/// one run.
pub open spec fn runs(instructions: Seq<InstructionView>) -> Seq<Seq<InstructionView>>
    decreases instructions.len(),
{
    if instructions.len() == 0 {
        seq![Seq::empty()]
    } else {
        let before = runs(instructions.drop_last());
        if instructions.last().is_placeholder() {
            before.push(Seq::empty())
        } else {
            before.drop_last().push(before.last().push(instructions.last()))
        }
    }
}

/// The stream that has these runs: the runs in order, with one placeholder
/// between each two of them.
pub open spec fn join_runs(runs: Seq<Seq<InstructionView>>) -> Seq<InstructionView>
    decreases runs.len(),
{
    if runs.len() == 0 {
        Seq::empty()
    } else if runs.len() == 1 {
        runs[0]
    } else {
        join_runs(runs.drop_last()).push(InstructionView::Operation(OP_PLACEHOLDER)) + runs.last()
    }
}

/// There is one more run than there are placeholders.
pub proof fn lemma_runs_len(instructions: Seq<InstructionView>)
    ensures
        runs(instructions).len() == placeholder_count(instructions) + 1,
    decreases instructions.len(),
{
    if instructions.len() > 0 {
        lemma_runs_len(instructions.drop_last());
    }
}

/// No run holds a placeholder, and every instruction of a run is one of the
/// stream.
pub proof fn lemma_runs_members(instructions: Seq<InstructionView>)
    ensures
        forall|r: int, j: int|
            0 <= r < runs(instructions).len() && 0 <= j < runs(instructions)[r].len() ==> {
                &&& !(#[trigger] runs(instructions)[r][j]).is_placeholder()
                &&& instructions.contains(runs(instructions)[r][j])
            },
    decreases instructions.len(),
{
    if instructions.len() > 0 {
        let earlier = instructions.drop_last();
        let before = runs(earlier);
        lemma_runs_members(earlier);
        lemma_runs_len(earlier);
        assert forall|r: int, j: int|
            0 <= r < runs(instructions).len() && 0 <= j < runs(instructions)[r].len() implies {
            &&& !(#[trigger] runs(instructions)[r][j]).is_placeholder()
            &&& instructions.contains(runs(instructions)[r][j])
        } by {
            let member = runs(instructions)[r][j];
            if r == before.len() - 1 && j == before.last().len() {
                assert(member == instructions.last());
                assert(instructions[instructions.len() - 1] == member);
            } else {
                assert(member == before[r][j]);
                let k = choose|k: int| 0 <= k < earlier.len() && earlier[k] == member;
                assert(instructions[k] == member);
            }
        }
    }
}

/// The runs of a stream, joined by placeholders, are the stream.
pub proof fn lemma_runs_rejoin(instructions: Seq<InstructionView>)
    ensures
        join_runs(runs(instructions)) == instructions,
    decreases instructions.len(),
{
    if instructions.len() == 0 {
        assert(join_runs(runs(instructions)) =~= instructions);
    } else {
        let earlier = instructions.drop_last();
        let before = runs(earlier);
        lemma_runs_rejoin(earlier);
        lemma_runs_len(earlier);
        let after = runs(instructions);
        if instructions.last().is_placeholder() {
            assert(after.drop_last() == before);
            assert(join_runs(after) =~= instructions);
        } else {
            let grown = before.last().push(instructions.last());
            assert(after.last() == grown);
            if before.len() == 1 {
                assert(join_runs(after) =~= instructions);
            } else {
                assert(after.drop_last() == before.drop_last());
                assert(join_runs(after) =~= join_runs(before).push(instructions.last()));
                assert(join_runs(after) =~= instructions);
            }
        }
    }
}

/// The run of an instruction that is no placeholder is the one after as many
/// placeholders as stand before the instruction, and it starts with what the
/// stream holds between the last of them and the instruction, then the
/// instruction itself.
pub proof fn lemma_run_of_instruction(instructions: Seq<InstructionView>, j: int)
    requires
        0 <= j < instructions.len(),
        !instructions[j].is_placeholder(),
    ensures
        placeholder_count(instructions.take(j)) < runs(instructions).len(),
        runs(instructions.take(j)).last().push(instructions[j]).is_prefix_of(
            runs(instructions)[placeholder_count(instructions.take(j)) as int],
        ),
    decreases instructions.len(),
{
    let earlier = instructions.drop_last();
    let before = runs(earlier);
    let r = placeholder_count(instructions.take(j)) as int;
    let start = runs(instructions.take(j)).last().push(instructions[j]);
    lemma_runs_len(earlier);
    if j == instructions.len() - 1 {
        assert(instructions.take(j) == earlier);
        assert(runs(instructions)[r] == start);
    } else {
        assert(earlier.take(j) == instructions.take(j));
        lemma_run_of_instruction(earlier, j);
        assert(start.is_prefix_of(before[r]));
        if !instructions.last().is_placeholder() && r == before.len() - 1 {
            let grown = before.last().push(instructions.last());
            assert(runs(instructions)[r] == grown);
            assert(grown.subrange(0, start.len() as int) =~= before[r].subrange(
                0,
                start.len() as int,
            ));
        } else {
            assert(runs(instructions)[r] == before[r]);
        }
    }
}

} // verus!
