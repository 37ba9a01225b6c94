//! The instructions that procedures are made of.

use super::LifecycleFunc;
use vstd::prelude::*;

verus! {

/// A value of a procedure: the index, in the stream of the procedure, of
/// the instruction that makes it.
pub type ValueRef = usize;

/// A basic block of a procedure: the index, in the stream of the
/// procedure, of the instruction that appends it.
pub type BlockRef = usize;

/// A function of a module: its index among the functions of the module.
pub type FunctionRef = usize;

/// One request to the builder. A procedure is the stream of these in the
/// order in which they are made.
#[derive(Debug, PartialEq, Eq, Clone, Copy, Structural)]
pub enum Instruction {
    /// The parameter of that index of the procedure.
    Param { index: u32 },
    /// An integer constant of the width of a bitmap.
    ConstInt { value: u32 },
    /// A place on the stack for one integer, made on entry to the procedure.
    Alloca,
    /// The address of a field of the struct that `pointer` points to.
    StructGep { pointer: ValueRef, field: u32 },
    /// The address of the element whose index is `element`, counted from
    /// `pointer`.
    InBoundsGep { pointer: ValueRef, element: ValueRef },
    /// What is stored at `pointer`.
    Load { pointer: ValueRef },
    /// Stores `word` at `pointer`.
    Store { pointer: ValueRef, word: ValueRef },
    IntAdd { lhs: ValueRef, rhs: ValueRef },
    Or { lhs: ValueRef, rhs: ValueRef },
    And { lhs: ValueRef, rhs: ValueRef },
    LeftShift { lhs: ValueRef, rhs: ValueRef },
    /// The logical shift to the right.
    RightShift { lhs: ValueRef, rhs: ValueRef },
    /// Whether `lhs` is below `rhs`, both taken as unsigned.
    CompareBelow { lhs: ValueRef, rhs: ValueRef },
    /// The lowest bit of `word`.
    CastToBool { word: ValueRef },
    /// The bitmap of the array at `array`: which of its slots hold live data.
    GetBitmap { array: ValueRef },
    /// Makes `bitmap` the bitmap of the array at `array`.
    SetBitmap { array: ValueRef, bitmap: ValueRef },
    /// Calls a procedure of a surface with its two blocks of memory.
    Call { function: FunctionRef, scratch: ValueRef, pointers: ValueRef },
    /// Has the block compiler call the procedure of the block with the
    /// identity `id`.
    CallBlock { id: u64, lifecycle: LifecycleFunc, data: ValueRef, pointers: ValueRef },
    /// The same for a block that gets a pointer to its part of the user
    /// interface.
    CallBlockWithUi {
        id: u64,
        lifecycle: LifecycleFunc,
        data: ValueRef,
        pointers: ValueRef,
        ui: ValueRef,
    },
    /// Appends a basic block to the procedure.
    AppendBasicBlock,
    /// What follows goes to the end of `block`.
    PositionAtEnd { block: BlockRef },
    Branch { block: BlockRef },
    ConditionalBranch { condition: ValueRef, then_block: BlockRef, else_block: BlockRef },
    Return,
}

impl Instruction {
    /// Whether the instruction makes a value.
    pub open spec fn makes_value(self) -> bool {
        match self {
            Instruction::Param { .. }
            | Instruction::ConstInt { .. }
            | Instruction::Alloca
            | Instruction::StructGep { .. }
            | Instruction::InBoundsGep { .. }
            | Instruction::Load { .. }
            | Instruction::IntAdd { .. }
            | Instruction::Or { .. }
            | Instruction::And { .. }
            | Instruction::LeftShift { .. }
            | Instruction::RightShift { .. }
            | Instruction::CompareBelow { .. }
            | Instruction::CastToBool { .. }
            | Instruction::GetBitmap { .. } => true,
            _ => false,
        }
    }

    /// The values that the instruction uses.
    pub open spec fn operands(self) -> Seq<ValueRef> {
        match self {
            Instruction::StructGep { pointer, .. } => seq![pointer],
            Instruction::InBoundsGep { pointer, element: index } => seq![pointer, index],
            Instruction::Load { pointer } => seq![pointer],
            Instruction::Store { pointer, word: value } => seq![pointer, value],
            Instruction::IntAdd { lhs, rhs }
            | Instruction::Or { lhs, rhs }
            | Instruction::And { lhs, rhs }
            | Instruction::LeftShift { lhs, rhs }
            | Instruction::RightShift { lhs, rhs }
            | Instruction::CompareBelow { lhs, rhs } => seq![lhs, rhs],
            Instruction::CastToBool { word: value } => seq![value],
            Instruction::GetBitmap { array } => seq![array],
            Instruction::SetBitmap { array, bitmap } => seq![array, bitmap],
            Instruction::Call { scratch, pointers, .. } => seq![scratch, pointers],
            Instruction::CallBlock { data, pointers, .. } => seq![data, pointers],
            Instruction::CallBlockWithUi { data, pointers, ui, .. } => seq![data, pointers, ui],
            Instruction::ConditionalBranch { condition, .. } => seq![condition],
            _ => Seq::empty(),
        }
    }

    /// The basic blocks that the instruction names.
    pub open spec fn targets(self) -> Seq<BlockRef> {
        match self {
            Instruction::PositionAtEnd { block } => seq![block],
            Instruction::Branch { block } => seq![block],
            Instruction::ConditionalBranch { then_block, else_block, .. } => seq![
                then_block,
                else_block,
            ],
            _ => Seq::empty(),
        }
    }

    /// The instruction can stand after `earlier`: the values it uses are
    /// made there, and the blocks it names are appended there.
    pub open spec fn in_scope(self, earlier: Seq<Instruction>) -> bool {
        &&& forall|i: int|
            0 <= i < self.operands().len() ==> (#[trigger] self.operands()[i]) < earlier.len()
                && earlier[self.operands()[i] as int].makes_value()
        &&& forall|i: int|
            0 <= i < self.targets().len() ==> (#[trigger] self.targets()[i]) < earlier.len()
                && earlier[self.targets()[i] as int] == Instruction::AppendBasicBlock
    }
}

/// Every instruction of the stream uses values made earlier in the stream
/// and names blocks appended earlier in the stream.
pub open spec fn well_scoped(stream: Seq<Instruction>) -> bool {
    forall|i: int| 0 <= i < stream.len() ==> (#[trigger] stream[i]).in_scope(stream.take(i))
}

/// A well scoped stream stays so when an instruction that can stand after
/// it goes to its end.
pub proof fn lemma_scoped_push(stream: Seq<Instruction>, next: Instruction)
    requires
        well_scoped(stream),
        next.in_scope(stream),
    ensures
        well_scoped(stream.push(next)),
{
    let longer = stream.push(next);
    assert forall|i: int| 0 <= i < longer.len() implies (#[trigger] longer[i]).in_scope(
        longer.take(i),
    ) by {
        if i < stream.len() {
            assert(longer.take(i) =~= stream.take(i));
        } else {
            assert(longer.take(i) =~= stream);
        }
    }
}

} // verus!
