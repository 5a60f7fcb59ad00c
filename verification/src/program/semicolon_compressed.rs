//! The compressed dialect: runs of cell changes and of pointer moves become one
//! instruction each, and every loop bracket carries the position of its partner.

use crate::brackets::{
    depth, is_balanced, is_enter_of, is_exit_of, is_paired, is_unmatched, jump_table,
    lemma_enter_unique, lemma_exit_matches_back, lemma_exit_unique, lemma_paired_iff_balanced,
    matching_enter, matching_exit, partner,
};
use crate::program::{Program, Unbalanced};
use std::collections::HashMap;
use vstd::prelude::*;

verus! {

/// An instruction of a finished compressed program.
#[derive(Copy, Clone, Eq, PartialEq, Debug)]
pub enum CompressedInstruction {
    Change(i32),
    Move(i32),
    Input,
    Output,
    LoopEnter(usize),
    LoopExit(usize),
}

/// An instruction as the first two passes see it: brackets are not resolved yet.
#[derive(Copy, Clone, Eq, PartialEq, Debug)]
pub enum CompressedInstructionStage1 {
    Change(i32),
    Move(i32),
    Input,
    Output,
    LoopEnter,
    LoopExit,
}

impl CompressedInstructionStage1 {
    /// What the instruction does to the nesting depth.
    pub open spec fn nesting(self) -> int {
        match self {
            CompressedInstructionStage1::LoopEnter => 1,
            CompressedInstructionStage1::LoopExit => -1,
            _ => 0,
        }
    }

    /// Whether `next`, standing right behind `self`, is folded into it: both
    /// change the cell, or both move the pointer.
    pub open spec fn absorbs(self, next: Self) -> bool {
        ||| self is Change && next is Change
        ||| self is Move && next is Move
    }

    /// The one instruction that stands for `self` followed by `next`, where
    /// `self` absorbs `next`: the deltas are summed, wrapping.
    pub open spec fn joined(self, next: Self) -> Self {
        match (self, next) {
            (
                CompressedInstructionStage1::Change(base),
                CompressedInstructionStage1::Change(addend),
            ) => CompressedInstructionStage1::Change(base.wrapping_add(addend)),
            (
                CompressedInstructionStage1::Move(base),
                CompressedInstructionStage1::Move(addend),
            ) => CompressedInstructionStage1::Move(base.wrapping_add(addend)),
            _ => next,
        }
    }

    /// The finished instruction: a bracket is given `target` as the position
    /// of its partner, anything else is carried over.
    pub open spec fn resolved(self, target: usize) -> CompressedInstruction {
        match self {
            CompressedInstructionStage1::Change(delta) => CompressedInstruction::Change(delta),
            CompressedInstructionStage1::Move(delta) => CompressedInstruction::Move(delta),
            CompressedInstructionStage1::Input => CompressedInstruction::Input,
            CompressedInstructionStage1::Output => CompressedInstruction::Output,
            CompressedInstructionStage1::LoopEnter => CompressedInstruction::LoopEnter(target),
            CompressedInstructionStage1::LoopExit => CompressedInstruction::LoopExit(target),
        }
    }
}

impl CompressedInstruction {
    /// What the instruction does to the nesting depth.
    pub open spec fn nesting(self) -> int {
        match self {
            CompressedInstruction::LoopEnter(_) => 1,
            CompressedInstruction::LoopExit(_) => -1,
            _ => 0,
        }
    }

    /// The instruction without what its bracket was resolved to.
    pub open spec fn unresolved(self) -> CompressedInstructionStage1 {
        match self {
            CompressedInstruction::Change(delta) => CompressedInstructionStage1::Change(delta),
            CompressedInstruction::Move(delta) => CompressedInstructionStage1::Move(delta),
            CompressedInstruction::Input => CompressedInstructionStage1::Input,
            CompressedInstruction::Output => CompressedInstructionStage1::Output,
            CompressedInstruction::LoopEnter(_) => CompressedInstructionStage1::LoopEnter,
            CompressedInstruction::LoopExit(_) => CompressedInstructionStage1::LoopExit,
        }
    }
}

/// The shape of an unresolved stream.
pub open spec fn shape_of(stream: Seq<CompressedInstructionStage1>) -> Seq<int> {
    Seq::new(stream.len(), |i: int| stream[i].nesting())
}

/// The shape of a finished stream.
pub open spec fn program_shape(instructions: Seq<CompressedInstruction>) -> Seq<int> {
    Seq::new(instructions.len(), |i: int| instructions[i].nesting())
}

/// The stream with each bracket resolved to what `jumps` holds for its
/// position.
pub open spec fn annotated(
    stream: Seq<CompressedInstructionStage1>,
    jumps: Map<usize, usize>,
) -> Seq<CompressedInstruction> {
    Seq::new(stream.len(), |i: int| stream[i].resolved(jumps[i as usize]))
}

/// The finished stream with the resolutions taken off again.
pub open spec fn unresolved(instructions: Seq<CompressedInstruction>) -> Seq<
    CompressedInstructionStage1,
> {
    Seq::new(instructions.len(), |i: int| instructions[i].unresolved())
}

/// The program that a source text stands for, where its brackets pair up:
/// tokenized, merged, and each bracket resolved to its partner.
pub open spec fn compiled(source: Seq<char>) -> Seq<CompressedInstruction> {
    let stream = merged(tokenized(source));
    annotated(stream, jump_table(shape_of(stream)))
}

/// The instruction that a source character stands for; `None` for a comment.
pub open spec fn token_of(c: char) -> Option<CompressedInstructionStage1> {
    if c == '+' {
        Some(CompressedInstructionStage1::Change(1))
    } else if c == '-' {
        Some(CompressedInstructionStage1::Change(-1i32))
    } else if c == '<' {
        Some(CompressedInstructionStage1::Move(-1i32))
    } else if c == '>' {
        Some(CompressedInstructionStage1::Move(1))
    } else if c == ',' {
        Some(CompressedInstructionStage1::Input)
    } else if c == '.' {
        Some(CompressedInstructionStage1::Output)
    } else if c == '[' {
        Some(CompressedInstructionStage1::LoopEnter)
    } else if c == ']' {
        Some(CompressedInstructionStage1::LoopExit)
    } else {
        None
    }
}

/// The instructions of a source text, one for each character that stands for
/// one, in the order of the text.
pub open spec fn tokenized(source: Seq<char>) -> Seq<CompressedInstructionStage1>
    decreases source.len(),
{
    if source.len() == 0 {
        Seq::empty()
    } else {
        match token_of(source.last()) {
            Some(token) => tokenized(source.drop_last()).push(token),
            None => tokenized(source.drop_last()),
        }
    }
}

/// The stream with every run of cell changes, and every run of pointer moves,
/// folded into a single instruction.
pub open spec fn merged(tokens: Seq<CompressedInstructionStage1>) -> Seq<
    CompressedInstructionStage1,
>
    decreases tokens.len(),
{
    if tokens.len() == 0 {
        Seq::empty()
    } else {
        let before = merged(tokens.drop_last());
        let next = tokens.last();
        if before.len() > 0 && before.last().absorbs(next) {
            before.drop_last().push(before.last().joined(next))
        } else {
            before.push(next)
        }
    }
}

/// No instruction of the stream absorbs the one behind it.
pub open spec fn is_compact(stream: Seq<CompressedInstructionStage1>) -> bool {
    forall|i: int, j: int|
        0 <= i && j == i + 1 && j < stream.len() ==> !(#[trigger] stream[i]).absorbs(
            #[trigger] stream[j],
        )
}

/// One merge pass leaves no two neighbours that could still be merged.
pub proof fn lemma_merged_is_compact(tokens: Seq<CompressedInstructionStage1>)
    ensures
        is_compact(merged(tokens)),
    decreases tokens.len(),
{
    if tokens.len() > 0 {
        lemma_merged_is_compact(tokens.drop_last());
        let before = merged(tokens.drop_last());
        let after = merged(tokens);
        assert forall|i: int, j: int| 0 <= i && j == i + 1 && j < after.len() implies !(
        #[trigger] after[i]).absorbs(#[trigger] after[j]) by {
            if j < after.len() - 1 {
                assert(after[i] == before[i]);
                assert(after[j] == before[j]);
            } else if before.len() > 0 && before.last().absorbs(tokens.last()) {
                assert(after[i] == before[i]);
                assert(!before[i].absorbs(before[j]));
            } else {
                assert(after[i] == before.last());
            }
        }
    }
}

/// A stream in which nothing can be merged is left as it is.
pub proof fn lemma_compact_is_fixed(stream: Seq<CompressedInstructionStage1>)
    requires
        is_compact(stream),
    ensures
        merged(stream) == stream,
    decreases stream.len(),
{
    if stream.len() > 0 {
        let front = stream.drop_last();
        assert forall|i: int, j: int| 0 <= i && j == i + 1 && j < front.len() implies !(
        #[trigger] front[i]).absorbs(#[trigger] front[j]) by {
            assert(front[i] == stream[i]);
            assert(front[j] == stream[j]);
        }
        lemma_compact_is_fixed(front);
        if front.len() > 0 {
            assert(front.last() == stream[stream.len() - 2]);
            assert(!stream[stream.len() - 2].absorbs(stream[stream.len() - 1]));
        }
        assert(front.push(stream.last()) =~= stream);
    }
}

/// Merging is idempotent: a second pass over a merged stream changes nothing.
pub proof fn lemma_merge_idempotent(tokens: Seq<CompressedInstructionStage1>)
    ensures
        merged(merged(tokens)) == merged(tokens),
{
    lemma_merged_is_compact(tokens);
    lemma_compact_is_fixed(merged(tokens));
}

/// A compressed program: the finished stream, and the jump table it was
/// resolved with.
pub struct CompressedProgram {
    instructions: Vec<CompressedInstruction>,
    jumps: HashMap<usize, usize>,
}

impl CompressedProgram {
    /// The jump table: each bracket's position, mapped to its partner's.
    pub closed spec fn jumps(&self) -> Map<usize, usize> {
        self.jumps@
    }

    /// What holds of every compressed program: nothing in it could still be
    /// merged, every bracket has its partner, each bracket carries the position
    /// of that partner, and the jump table holds the same positions.
    pub closed spec fn well_formed(&self) -> bool {
        let stream = unresolved(self.instructions@);
        &&& stream.len() <= usize::MAX
        &&& is_compact(stream)
        &&& is_paired(shape_of(stream))
        &&& self.instructions@ == annotated(stream, jump_table(shape_of(stream)))
        &&& self.jumps@ == jump_table(shape_of(stream))
    }

    #[verifier::type_invariant]
    spec fn holds(&self) -> bool {
        self.well_formed()
    }

    /// Builds the program that `code` stands for. Characters that stand for no
    /// instruction are comments. A bracket without a partner makes the text no
    /// program: the first such bracket, by its position in the merged stream,
    /// is reported, and nothing is built.
    pub fn new(code: &str) -> (built: Result<Self, Unbalanced>)
        ensures
            built is Ok <==> is_balanced(
                shape_of(merged(tokenized(code@))),
                0,
                merged(tokenized(code@)).len() as int,
            ),
            match built {
                Ok(program) => {
                    &&& is_paired(shape_of(merged(tokenized(code@))))
                    &&& program.instructions() == compiled(code@)
                    &&& program.jumps() == jump_table(shape_of(merged(tokenized(code@))))
                    &&& program.well_formed()
                },
                Err(fault) => {
                    &&& is_unmatched(shape_of(merged(tokenized(code@))), fault.index as int)
                    &&& forall|k: int|
                        k < fault.index ==> !is_unmatched(shape_of(merged(tokenized(code@))), k)
                },
            },
    {
        let mut first_pass: Vec<CompressedInstructionStage1> = Vec::new();
        for c in it: code.chars()
            invariant
                it.seq() == code@,
                first_pass@ == tokenized(code@.take(it.index() as int)),
        {
            proof {
                assert(code@.take(it.index() + 1).drop_last() =~= code@.take(it.index() as int));
            }
            match Self::first_pass(c) {
                Some(token) => {
                    first_pass.push(token);
                },
                None => {},
            }
        }
        proof {
            assert(code@.take(code@.len() as int) =~= code@);
        }
        let second_pass = Self::second_pass(first_pass);
        proof {
            lemma_paired_iff_balanced(shape_of(second_pass@));
        }
        match Self::calculate_jumps(second_pass.as_slice()) {
            Ok(jumps) => {
                let ghost stream = second_pass@;
                proof {
                    assert(stream.len() == second_pass.len());
                    assert forall|i: int|
                        0 <= i < stream.len() && (#[trigger] stream[i]).nesting()
                            != 0 implies jumps@.contains_key(i as usize) by {
                        assert(shape_of(stream)[i] == stream[i].nesting());
                        assert(!is_unmatched(shape_of(stream), i));
                        assert(partner(shape_of(stream), i as usize as int) is Some);
                    }
                }
                let third_pass = Self::third_pass(second_pass, &jumps);
                proof {
                    lemma_unresolved_annotated(stream, jumps@);
                    assert(third_pass@.len() == third_pass.len());
                }
                Ok(Self { instructions: third_pass, jumps })
            },
            Err(fault) => Err(fault),
        }
    }

    /// First pass: the instruction that one source character stands for.
    pub fn first_pass(c: char) -> (token: Option<CompressedInstructionStage1>)
        ensures
            token == token_of(c),
    {
        match c {
            '+' => Some(CompressedInstructionStage1::Change(1)),
            '-' => Some(CompressedInstructionStage1::Change(-1)),
            '<' => Some(CompressedInstructionStage1::Move(-1)),
            '>' => Some(CompressedInstructionStage1::Move(1)),
            ',' => Some(CompressedInstructionStage1::Input),
            '.' => Some(CompressedInstructionStage1::Output),
            '[' => Some(CompressedInstructionStage1::LoopEnter),
            ']' => Some(CompressedInstructionStage1::LoopExit),
            _ => None,
        }
    }

    /// Second pass: folds each run of cell changes and each run of pointer
    /// moves into one instruction. Whatever else meets is kept apart, a change
    /// before an input too.
    pub fn second_pass(first_pass: Vec<CompressedInstructionStage1>) -> (output: Vec<
        CompressedInstructionStage1,
    >)
        ensures
            output@ == merged(first_pass@),
            is_compact(output@),
    {
        let mut output: Vec<CompressedInstructionStage1> = Vec::new();
        let mut active_instruction: Option<CompressedInstructionStage1> = None;
        let mut at: usize = 0;
        while at < first_pass.len()
            invariant
                at <= first_pass.len(),
                match active_instruction {
                    Some(active) => at > 0 && merged(first_pass@.take(at as int)) == output@.push(
                        active,
                    ),
                    None => at == 0 && output@.len() == 0,
                },
            decreases first_pass.len() - at,
        {
            let instruction = first_pass[at];
            proof {
                let seen = first_pass@.take(at + 1);
                assert(seen.drop_last() =~= first_pass@.take(at as int));
                assert(seen.last() == instruction);
                match active_instruction {
                    Some(active) => {
                        assert(output@.push(active).drop_last() =~= output@);
                        assert(output@.push(active).last() == active);
                    },
                    None => {
                        assert(merged(seen.drop_last()).len() == 0);
                    },
                }
            }
            match (active_instruction, instruction) {
                (
                    Some(CompressedInstructionStage1::Change(base)),
                    CompressedInstructionStage1::Change(addend),
                ) => {
                    active_instruction = Some(
                        CompressedInstructionStage1::Change(base.wrapping_add(addend)),
                    );
                },
                (
                    Some(CompressedInstructionStage1::Move(base)),
                    CompressedInstructionStage1::Move(addend),
                ) => {
                    active_instruction = Some(
                        CompressedInstructionStage1::Move(base.wrapping_add(addend)),
                    );
                },
                (Some(pending), _) => {
                    output.push(pending);
                    active_instruction = Some(instruction);
                },
                (None, _) => {
                    active_instruction = Some(instruction);
                },
            }
            at += 1;
        }
        proof {
            assert(first_pass@.take(at as int) =~= first_pass@);
            lemma_merged_is_compact(first_pass@);
        }
        match active_instruction {
            Some(active) => {
                output.push(active);
            },
            None => {},
        }
        output
    }

    /// The jump table of a merged stream: for each bracket, where its partner
    /// stands. The first bracket without a partner is reported instead.
    pub fn calculate_jumps(second_pass: &[CompressedInstructionStage1]) -> (table: Result<
        HashMap<usize, usize>,
        Unbalanced,
    >)
        ensures
            match table {
                Ok(jumps) => is_paired(shape_of(second_pass@)) && jumps@ == jump_table(
                    shape_of(second_pass@),
                ),
                Err(fault) => {
                    &&& is_unmatched(shape_of(second_pass@), fault.index as int)
                    &&& forall|k: int| k < fault.index ==> !is_unmatched(shape_of(second_pass@), k)
                },
            },
    {
        let ghost shape = shape_of(second_pass@);
        let mut output: HashMap<usize, usize> = HashMap::new();
        let mut index: usize = 0;
        while index < second_pass.len()
            invariant
                index <= second_pass.len(),
                shape == shape_of(second_pass@),
                forall|k: int| k < index ==> !is_unmatched(shape, k),
                output@ =~= Map::new(
                    |i: usize| i < index && partner(shape, i as int) is Some,
                    |i: usize| partner(shape, i as int)->0 as usize,
                ),
            decreases second_pass.len() - index,
        {
            match second_pass[index] {
                CompressedInstructionStage1::LoopEnter => {
                    match Self::find_matching_exit(second_pass, index) {
                        Some(value) => {
                            output.insert(index, value);
                        },
                        None => {
                            return Err(Unbalanced { index });
                        },
                    }
                },
                CompressedInstructionStage1::LoopExit => {
                    match Self::find_matching_enter(second_pass, index) {
                        Some(value) => {
                            output.insert(index, value);
                        },
                        None => {
                            return Err(Unbalanced { index });
                        },
                    }
                },
                _ => {},
            }
            index += 1;
        }
        proof {
            assert(output@ =~= jump_table(shape));
        }
        Ok(output)
    }

    /// Scans forward from behind `index` with one loop open, and returns where
    /// all are closed: the exit of the loop entered at `index`. `None` where the
    /// stream ends first.
    pub fn find_matching_exit(program: &[CompressedInstructionStage1], index: usize) -> (exit:
        Option<usize>)
        ensures
            match exit {
                Some(exit) => matching_exit(shape_of(program@), index as int) == Some(exit as int),
                None => matching_exit(shape_of(program@), index as int) is None,
            },
    {
        let ghost shape = shape_of(program@);
        let length = program.len();
        if index >= length {
            return None;
        }
        let mut at: usize = index;
        let mut open: usize = 1;
        while open > 0
            invariant
                shape == shape_of(program@),
                length == program@.len(),
                index <= at < length,
                open == depth(shape, at + 1) - depth(shape, index + 1) + 1,
                open <= at - index + 1,
                open > 0 ==> forall|k: int|
                    index < k <= at + 1 ==> #[trigger] depth(shape, k) >= depth(shape, index + 1),
                open == 0 ==> index < at && forall|k: int|
                    index < k <= at ==> #[trigger] depth(shape, k) >= depth(shape, index + 1),
            decreases length - at,
        {
            if at + 1 >= length {
                proof {
                    assert forall|j: int| !is_exit_of(shape, index as int, j) by {
                        if is_exit_of(shape, index as int, j) {
                            assert(depth(shape, j + 1) >= depth(shape, index + 1));
                        }
                    }
                }
                return None;
            }
            at += 1;
            proof {
                assert(depth(shape, at + 1) == depth(shape, at as int) + shape[at as int]);
            }
            match program[at] {
                CompressedInstructionStage1::LoopEnter => {
                    open += 1;
                },
                CompressedInstructionStage1::LoopExit => {
                    open -= 1;
                },
                _ => {},
            }
        }
        proof {
            assert(is_exit_of(shape, index as int, at as int));
            lemma_exit_unique(shape, index as int, at as int);
        }
        Some(at)
    }

    /// Scans back from before `index` with one loop open, and returns where
    /// all are closed: the entry of the loop left at `index`. `None` where the
    /// stream begins first.
    pub fn find_matching_enter(program: &[CompressedInstructionStage1], index: usize) -> (enter:
        Option<usize>)
        ensures
            match enter {
                Some(enter) => matching_enter(shape_of(program@), index as int) == Some(
                    enter as int,
                ),
                None => matching_enter(shape_of(program@), index as int) is None,
            },
    {
        let ghost shape = shape_of(program@);
        if index >= program.len() {
            return None;
        }
        let mut at: usize = index;
        let mut open: usize = 1;
        while open > 0
            invariant
                shape == shape_of(program@),
                at <= index < program@.len(),
                open == depth(shape, at as int) - depth(shape, index as int) + 1,
                open <= index - at + 1,
                open > 0 ==> forall|k: int|
                    at <= k <= index ==> #[trigger] depth(shape, k) >= depth(shape, index as int),
                open == 0 ==> at < index && forall|k: int|
                    at < k <= index ==> #[trigger] depth(shape, k) >= depth(shape, index as int),
            decreases at,
        {
            if at == 0 {
                proof {
                    assert forall|i: int| !is_enter_of(shape, index as int, i) by {
                        if is_enter_of(shape, index as int, i) {
                            assert(depth(shape, i) >= depth(shape, index as int));
                        }
                    }
                }
                return None;
            }
            at -= 1;
            proof {
                assert(depth(shape, at + 1) == depth(shape, at as int) + shape[at as int]);
            }
            match program[at] {
                CompressedInstructionStage1::LoopEnter => {
                    open -= 1;
                },
                CompressedInstructionStage1::LoopExit => {
                    open += 1;
                },
                _ => {},
            }
        }
        proof {
            assert(is_enter_of(shape, index as int, at as int));
            lemma_enter_unique(shape, index as int, at as int);
        }
        Some(at)
    }

    /// The partner of the bracket at `index`; `None` where no bracket stands.
    pub fn get_jump_location(&self, index: usize) -> (target: Option<usize>)
        ensures
            target == match partner(program_shape(self.instructions()), index as int) {
                Some(target) => Some(target as usize),
                None => None,
            },
            target == if self.jumps().contains_key(index) {
                Some(self.jumps()[index])
            } else {
                None
            },
    {
        proof {
            use_type_invariant(self);
            assert(program_shape(self.instructions@) =~= shape_of(unresolved(self.instructions@)));
        }
        match self.jumps.get(&index) {
            Some(target) => Some(*target),
            None => None,
        }
    }

    /// Third pass: gives each bracket the position that `jumps` holds for it.
    pub fn third_pass(
        second_pass: Vec<CompressedInstructionStage1>,
        jumps: &HashMap<usize, usize>,
    ) -> (output: Vec<CompressedInstruction>)
        requires
            forall|i: int|
                0 <= i < second_pass@.len() && (#[trigger] second_pass@[i]).nesting() != 0
                    ==> jumps@.contains_key(i as usize),
        ensures
            output@ == annotated(second_pass@, jumps@),
    {
        let mut output: Vec<CompressedInstruction> = Vec::new();
        let mut index: usize = 0;
        while index < second_pass.len()
            invariant
                index <= second_pass.len(),
                output@ == annotated(second_pass@.take(index as int), jumps@),
                forall|i: int|
                    0 <= i < second_pass@.len() && (#[trigger] second_pass@[i]).nesting() != 0
                        ==> jumps@.contains_key(i as usize),
            decreases second_pass.len() - index,
        {
            let instruction = match second_pass[index] {
                CompressedInstructionStage1::Change(v) => CompressedInstruction::Change(v),
                CompressedInstructionStage1::Move(v) => CompressedInstruction::Move(v),
                CompressedInstructionStage1::Input => CompressedInstruction::Input,
                CompressedInstructionStage1::Output => CompressedInstruction::Output,
                CompressedInstructionStage1::LoopEnter => {
                    match jumps.get(&index) {
                        Some(target) => CompressedInstruction::LoopEnter(*target),
                        None => CompressedInstruction::LoopEnter(index),
                    }
                },
                CompressedInstructionStage1::LoopExit => {
                    match jumps.get(&index) {
                        Some(target) => CompressedInstruction::LoopExit(*target),
                        None => CompressedInstruction::LoopExit(index),
                    }
                },
            };
            output.push(instruction);
            proof {
                assert(second_pass@[index as int].nesting() != 0 ==> jumps@.contains_key(index));
                assert(output@ =~= annotated(second_pass@.take(index + 1), jumps@));
            }
            index += 1;
        }
        proof {
            assert(second_pass@.take(index as int) =~= second_pass@);
        }
        output
    }
}

impl Program<CompressedInstruction> for CompressedProgram {
    closed spec fn instructions(&self) -> Seq<CompressedInstruction> {
        self.instructions@
    }

    fn get(&self, index: usize) -> (instruction: Option<CompressedInstruction>)
        ensures
            self.well_formed(),
    {
        proof {
            use_type_invariant(self);
        }
        if index >= self.instructions.len() {
            return None;
        }
        Some(self.instructions[index])
    }

    fn len(&self) -> (length: usize) {
        self.instructions.len()
    }

    fn is_empty(&self) -> (empty: bool) {
        self.instructions.is_empty()
    }
}

/// In a compressed program each bracket carries the position of its partner,
/// the jump table holds that position too, and the partner stands inside the
/// program.
pub proof fn lemma_targets_are_partners(program: &CompressedProgram, at: int)
    requires
        program.well_formed(),
        0 <= at < program.instructions().len(),
    ensures
        program.instructions().len() <= usize::MAX,
        match program.instructions()[at] {
            CompressedInstruction::LoopEnter(target) | CompressedInstruction::LoopExit(target) => {
                &&& partner(program_shape(program.instructions()), at) == Some(target as int)
                &&& 0 <= target < program.instructions().len()
                &&& program.jumps().contains_key(at as usize)
                &&& program.jumps()[at as usize] == target
            },
            _ => partner(program_shape(program.instructions()), at) is None,
        },
{
    let instructions = program.instructions@;
    let stream = unresolved(instructions);
    let shape = shape_of(stream);
    assert(program_shape(instructions) =~= shape);
    assert(shape[at] == stream[at].nesting());
    assert(instructions[at] == stream[at].resolved(jump_table(shape)[at as usize]));
    if shape[at] != 0 {
        assert(!is_unmatched(shape, at));
        let other = partner(shape, at)->0;
        if shape[at] > 0 {
            assert(is_exit_of(shape, at, other));
        } else {
            assert(is_enter_of(shape, at, other));
        }
    }
}

/// The merge pass has left nothing to merge: no two neighbours in a compressed
/// program both change the cell, and no two both move the head.
pub proof fn lemma_program_is_compact(program: &CompressedProgram)
    requires
        program.well_formed(),
    ensures
        is_compact(unresolved(program.instructions())),
{
}

/// The jump table is right. In a compressed program the target of a loop
/// entry is a loop exit behind it whose own target is that entry, the jump
/// table resolves each of the two to the other, and what stands strictly
/// between them is balanced.
pub proof fn lemma_jumps_are_symmetric(program: &CompressedProgram, at: int)
    requires
        program.well_formed(),
        0 <= at < program.instructions().len(),
        program.instructions()[at] is LoopEnter,
    ensures
        ({
            let target = program.instructions()[at]->LoopEnter_0;
            &&& at < target < program.instructions().len()
            &&& program.instructions()[target as int] == CompressedInstruction::LoopExit(
                at as usize,
            )
            &&& program.jumps()[at as usize] == target
            &&& program.jumps()[target] == at
            &&& is_balanced(program_shape(program.instructions()), at + 1, target as int)
        }),
{
    let shape = program_shape(program.instructions());
    let target = program.instructions()[at]->LoopEnter_0;
    lemma_targets_are_partners(program, at);
    assert(shape[at] == 1);
    lemma_exit_matches_back(shape, at, target as int);
    lemma_targets_are_partners(program, target as int);
    assert(shape[target as int] == -1);
}

/// Taking the resolutions off a resolved stream gives the stream back.
pub proof fn lemma_unresolved_annotated(
    stream: Seq<CompressedInstructionStage1>,
    jumps: Map<usize, usize>,
)
    ensures
        unresolved(annotated(stream, jumps)) == stream,
        program_shape(annotated(stream, jumps)) == shape_of(stream),
{
    assert(unresolved(annotated(stream, jumps)) =~= stream);
    assert(program_shape(annotated(stream, jumps)) =~= shape_of(stream));
}

} // verus!
