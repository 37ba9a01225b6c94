//! The builder that procedures are written with.

use super::instruction::{
    lemma_scoped_push, well_scoped, BlockRef, FunctionRef, Instruction, ValueRef,
};
use super::LifecycleFunc;
use vstd::prelude::*;

verus! {

/// The call of the procedure of a block, with or without a pointer to its
/// part of the user interface.
pub open spec fn block_call(
    block: u64,
    lifecycle: LifecycleFunc,
    data: ValueRef,
    pointers: ValueRef,
    ui: Option<ValueRef>,
) -> Instruction {
    match ui {
        Some(ui_pointer) => Instruction::CallBlockWithUi {
            id: block,
            lifecycle,
            data,
            pointers,
            ui: ui_pointer,
        },
        None => Instruction::CallBlock { id: block, lifecycle, data, pointers },
    }
}

/// Takes down the instructions of one procedure in the order in which they
/// are asked for. What it has taken down is well scoped: every instruction
/// uses values that instructions before it make, and names blocks that
/// instructions before it append.
#[derive(Debug, PartialEq, Eq)]
pub struct BuilderContext {
    instructions: Vec<Instruction>,
}

impl View for BuilderContext {
    type V = Seq<Instruction>;

    closed spec fn view(&self) -> Seq<Instruction> {
        self.instructions@
    }
}

impl BuilderContext {
    #[verifier::type_invariant]
    spec fn is_well_scoped(&self) -> bool {
        well_scoped(self@)
    }

    /// A builder at the start of a procedure.
    pub fn new() -> (r: Self)
        ensures
            r@ == Seq::<Instruction>::empty(),
    {
        BuilderContext { instructions: Vec::new() }
    }

    /// The instructions taken down so far.
    pub fn instructions(&self) -> (r: &Vec<Instruction>)
        ensures
            r@ == self@,
            well_scoped(r@),
    {
        proof {
            use_type_invariant(self);
        }
        &self.instructions
    }

    /// The instructions taken down, for good.
    pub fn into_instructions(self) -> (r: Vec<Instruction>)
        ensures
            r@ == self@,
            well_scoped(r@),
    {
        proof {
            use_type_invariant(&self);
        }
        self.instructions
    }

    /// Takes down one instruction and hands back its index.
    pub fn emit(&mut self, instruction: Instruction) -> (r: usize)
        requires
            instruction.in_scope(old(self)@),
        ensures
            final(self)@ == old(self)@.push(instruction),
            r == old(self)@.len(),
            final(self).keeps(*old(self)),
    {
        proof {
            use_type_invariant(&*self);
            lemma_scoped_push(self@, instruction);
        }
        // The list leaves the builder while it grows, so that the builder
        // is in order at every moment.
        let mut instructions: Vec<Instruction> = Vec::new();
        std::mem::swap(&mut self.instructions, &mut instructions);
        let index = instructions.len();
        instructions.push(instruction);
        std::mem::swap(&mut self.instructions, &mut instructions);
        index
    }

    /// What was a value or a basic block of the procedure at the time of
    /// `before` still is.
    pub open spec fn keeps(&self, before: BuilderContext) -> bool {
        &&& before@.len() <= self@.len()
        &&& forall|value: ValueRef| #[trigger]
            before.has_value(value) ==> self.has_value(value)
        &&& forall|block: BlockRef| #[trigger]
            before.has_block(block) ==> self.has_block(block)
    }

    /// Whether `value` is a value of the procedure so far.
    pub open spec fn has_value(&self, value: ValueRef) -> bool {
        value < self@.len() && self@[value as int].makes_value()
    }

    /// Whether `block` is a basic block of the procedure so far.
    pub open spec fn has_block(&self, block: BlockRef) -> bool {
        block < self@.len() && self@[block as int] == Instruction::AppendBasicBlock
    }

    pub fn get_nth_param(&mut self, index: u32) -> (r: ValueRef)
        ensures
            final(self)@ == old(self)@.push(Instruction::Param { index }),
            r == old(self)@.len(),
            final(self).keeps(*old(self)),
    {
        self.emit(Instruction::Param { index })
    }

    pub fn const_int(&mut self, value: u32) -> (r: ValueRef)
        ensures
            final(self)@ == old(self)@.push(Instruction::ConstInt { value }),
            r == old(self)@.len(),
            final(self).keeps(*old(self)),
    {
        self.emit(Instruction::ConstInt { value })
    }

    pub fn build_alloca(&mut self) -> (r: ValueRef)
        ensures
            final(self)@ == old(self)@.push(Instruction::Alloca),
            r == old(self)@.len(),
            final(self).keeps(*old(self)),
    {
        self.emit(Instruction::Alloca)
    }

    pub fn build_struct_gep(&mut self, pointer: ValueRef, field: u32) -> (r: ValueRef)
        requires
            old(self).has_value(pointer),
        ensures
            final(self)@ == old(self)@.push(Instruction::StructGep { pointer, field }),
            r == old(self)@.len(),
            final(self).keeps(*old(self)),
    {
        self.emit(Instruction::StructGep { pointer, field })
    }

    pub fn build_in_bounds_gep(&mut self, pointer: ValueRef, index: ValueRef) -> (r: ValueRef)
        requires
            old(self).has_value(pointer),
            old(self).has_value(index),
        ensures
            final(self)@ == old(self)@.push(Instruction::InBoundsGep { pointer, element: index }),
            r == old(self)@.len(),
            final(self).keeps(*old(self)),
    {
        self.emit(Instruction::InBoundsGep { pointer, element: index })
    }

    pub fn build_load(&mut self, pointer: ValueRef) -> (r: ValueRef)
        requires
            old(self).has_value(pointer),
        ensures
            final(self)@ == old(self)@.push(Instruction::Load { pointer }),
            r == old(self)@.len(),
            final(self).keeps(*old(self)),
    {
        self.emit(Instruction::Load { pointer })
    }

    pub fn build_store(&mut self, pointer: ValueRef, value: ValueRef)
        requires
            old(self).has_value(pointer),
            old(self).has_value(value),
        ensures
            final(self)@ == old(self)@.push(Instruction::Store { pointer, word: value }),
            final(self).keeps(*old(self)),
    {
        self.emit(Instruction::Store { pointer, word: value });
    }

    pub fn build_int_add(&mut self, lhs: ValueRef, rhs: ValueRef) -> (r: ValueRef)
        requires
            old(self).has_value(lhs),
            old(self).has_value(rhs),
        ensures
            final(self)@ == old(self)@.push(Instruction::IntAdd { lhs, rhs }),
            r == old(self)@.len(),
            final(self).keeps(*old(self)),
    {
        self.emit(Instruction::IntAdd { lhs, rhs })
    }

    pub fn build_or(&mut self, lhs: ValueRef, rhs: ValueRef) -> (r: ValueRef)
        requires
            old(self).has_value(lhs),
            old(self).has_value(rhs),
        ensures
            final(self)@ == old(self)@.push(Instruction::Or { lhs, rhs }),
            r == old(self)@.len(),
            final(self).keeps(*old(self)),
    {
        self.emit(Instruction::Or { lhs, rhs })
    }

    pub fn build_and(&mut self, lhs: ValueRef, rhs: ValueRef) -> (r: ValueRef)
        requires
            old(self).has_value(lhs),
            old(self).has_value(rhs),
        ensures
            final(self)@ == old(self)@.push(Instruction::And { lhs, rhs }),
            r == old(self)@.len(),
            final(self).keeps(*old(self)),
    {
        self.emit(Instruction::And { lhs, rhs })
    }

    pub fn build_left_shift(&mut self, lhs: ValueRef, rhs: ValueRef) -> (r: ValueRef)
        requires
            old(self).has_value(lhs),
            old(self).has_value(rhs),
        ensures
            final(self)@ == old(self)@.push(Instruction::LeftShift { lhs, rhs }),
            r == old(self)@.len(),
            final(self).keeps(*old(self)),
    {
        self.emit(Instruction::LeftShift { lhs, rhs })
    }

    pub fn build_right_shift(&mut self, lhs: ValueRef, rhs: ValueRef) -> (r: ValueRef)
        requires
            old(self).has_value(lhs),
            old(self).has_value(rhs),
        ensures
            final(self)@ == old(self)@.push(Instruction::RightShift { lhs, rhs }),
            r == old(self)@.len(),
            final(self).keeps(*old(self)),
    {
        self.emit(Instruction::RightShift { lhs, rhs })
    }

    pub fn build_int_compare_below(&mut self, lhs: ValueRef, rhs: ValueRef) -> (r: ValueRef)
        requires
            old(self).has_value(lhs),
            old(self).has_value(rhs),
        ensures
            final(self)@ == old(self)@.push(Instruction::CompareBelow { lhs, rhs }),
            r == old(self)@.len(),
            final(self).keeps(*old(self)),
    {
        self.emit(Instruction::CompareBelow { lhs, rhs })
    }

    pub fn build_cast_to_bool(&mut self, value: ValueRef) -> (r: ValueRef)
        requires
            old(self).has_value(value),
        ensures
            final(self)@ == old(self)@.push(Instruction::CastToBool { word: value }),
            r == old(self)@.len(),
            final(self).keeps(*old(self)),
    {
        self.emit(Instruction::CastToBool { word: value })
    }

    pub fn get_bitmap(&mut self, array: ValueRef) -> (r: ValueRef)
        requires
            old(self).has_value(array),
        ensures
            final(self)@ == old(self)@.push(Instruction::GetBitmap { array }),
            r == old(self)@.len(),
            final(self).keeps(*old(self)),
    {
        self.emit(Instruction::GetBitmap { array })
    }

    pub fn set_bitmap(&mut self, array: ValueRef, bitmap: ValueRef)
        requires
            old(self).has_value(array),
            old(self).has_value(bitmap),
        ensures
            final(self)@ == old(self)@.push(Instruction::SetBitmap { array, bitmap }),
            final(self).keeps(*old(self)),
    {
        self.emit(Instruction::SetBitmap { array, bitmap });
    }

    pub fn build_call(&mut self, function: FunctionRef, scratch: ValueRef, pointers: ValueRef)
        requires
            old(self).has_value(scratch),
            old(self).has_value(pointers),
        ensures
            final(self)@ == old(self)@.push(Instruction::Call { function, scratch, pointers }),
            final(self).keeps(*old(self)),
    {
        self.emit(Instruction::Call { function, scratch, pointers });
    }

    /// Has the block compiler call the procedure of a block.
    pub fn build_block_call(
        &mut self,
        block: u64,
        lifecycle: LifecycleFunc,
        data: ValueRef,
        pointers: ValueRef,
        ui: Option<ValueRef>,
    )
        requires
            old(self).has_value(data),
            old(self).has_value(pointers),
            ui matches Some(ui_pointer) ==> old(self).has_value(ui_pointer),
        ensures
            final(self)@ == old(self)@.push(block_call(block, lifecycle, data, pointers, ui)),
            final(self).keeps(*old(self)),
    {
        match ui {
            Some(ui_pointer) => {
                self.emit(
                    Instruction::CallBlockWithUi {
                        id: block,
                        lifecycle,
                        data,
                        pointers,
                        ui: ui_pointer,
                    },
                );
            },
            None => {
                self.emit(Instruction::CallBlock { id: block, lifecycle, data, pointers });
            },
        }
    }

    pub fn append_basic_block(&mut self) -> (r: BlockRef)
        ensures
            final(self)@ == old(self)@.push(Instruction::AppendBasicBlock),
            r == old(self)@.len(),
            final(self).keeps(*old(self)),
    {
        self.emit(Instruction::AppendBasicBlock)
    }

    pub fn position_at_end(&mut self, block: BlockRef)
        requires
            old(self).has_block(block),
        ensures
            final(self)@ == old(self)@.push(Instruction::PositionAtEnd { block }),
            final(self).keeps(*old(self)),
    {
        self.emit(Instruction::PositionAtEnd { block });
    }

    pub fn build_unconditional_branch(&mut self, block: BlockRef)
        requires
            old(self).has_block(block),
        ensures
            final(self)@ == old(self)@.push(Instruction::Branch { block }),
            final(self).keeps(*old(self)),
    {
        self.emit(Instruction::Branch { block });
    }

    pub fn build_conditional_branch(
        &mut self,
        condition: ValueRef,
        then_block: BlockRef,
        else_block: BlockRef,
    )
        requires
            old(self).has_value(condition),
            old(self).has_block(then_block),
            old(self).has_block(else_block),
        ensures
            final(self)@ == old(self)@.push(
                Instruction::ConditionalBranch { condition, then_block, else_block },
            ),
            final(self).keeps(*old(self)),
    {
        self.emit(Instruction::ConditionalBranch { condition, then_block, else_block });
    }

    pub fn build_return(&mut self)
        ensures
            final(self)@ == old(self)@.push(Instruction::Return),
            final(self).keeps(*old(self)),
    {
        self.emit(Instruction::Return);
    }
}

} // verus!
