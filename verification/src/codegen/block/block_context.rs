//! The pointers that the code of a block works with.

use crate::codegen::builder_context::BuilderContext;
use crate::codegen::instruction::{Instruction, ValueRef};
use crate::codegen::layout::BlockLayout;
use vstd::prelude::*;

verus! {

/// The pointers of one control of a block, read out of the pointer block
/// of the block.
#[derive(Debug, PartialEq, Eq, Clone, Copy)]
pub struct ControlPointers {
    pub value: ValueRef,
    pub data: ValueRef,
    pub shared: ValueRef,
    pub ui: Option<ValueRef>,
}

/// The builder of the code of one block, with the pointers that the code
/// has got hold of so far.
pub struct BlockContext<'a> {
    pub ctx: BuilderContext,
    pub layout: &'a BlockLayout,
    pub statement_ptrs: Vec<ValueRef>,
    pub pointers_ptr: ValueRef,
}

/// The code that reads a pointer out of the field of that index of the
/// struct at `base`. Its second instruction, at `at + 1`, makes the pointer.
pub open spec fn field_code(at: int, base: ValueRef, field: u32) -> Seq<Instruction> {
    seq![
        Instruction::StructGep { pointer: base, field },
        Instruction::Load { pointer: at as usize },
    ]
}

/// The code that reads the pointers of a control out of the pointer
/// block: the value, the data and the shared data of the control, and its
/// part of the user interface if that is asked for. The control has the
/// field `layout_index` of the pointer block.
pub open spec fn control_code(
    at: int,
    pointers: ValueRef,
    layout_index: u32,
    include_ui: bool,
) -> Seq<Instruction> {
    let base = at as usize;
    let common = seq![Instruction::StructGep { pointer: pointers, field: layout_index }]
        + field_code(at + 1, base, 0) + field_code(at + 3, base, 1) + field_code(
        at + 5,
        base,
        2,
    );
    if include_ui {
        common + field_code(at + 7, base, 3)
    } else {
        common
    }
}

impl<'a> BlockContext<'a> {
    /// The pointers to the statements of the block, in the order in which
    /// they were pushed.
    pub open spec fn statements(&self) -> Seq<ValueRef> {
        self.statement_ptrs@
    }

    /// The pointer block of the block.
    pub open spec fn pointers(&self) -> ValueRef {
        self.pointers_ptr
    }

    /// The context is in order: its pointer block is a value of its code.
    pub open spec fn well_formed(&self) -> bool {
        self.ctx.has_value(self.pointers())
    }

    pub fn new(ctx: BuilderContext, layout: &'a BlockLayout, pointers_ptr: ValueRef) -> (r: Self)
        ensures
            r.ctx == ctx,
            r.layout == layout,
            r.statements() == Seq::<ValueRef>::empty(),
            r.pointers() == pointers_ptr,
    {
        BlockContext { ctx, layout, statement_ptrs: Vec::new(), pointers_ptr }
    }

    pub fn push_statement(&mut self, ptr: ValueRef)
        ensures
            final(self).statements() == old(self).statements().push(ptr),
            final(self).ctx == old(self).ctx,
            final(self).layout == old(self).layout,
            final(self).pointers() == old(self).pointers(),
    {
        self.statement_ptrs.push(ptr)
    }

    pub fn get_statement(&self, index: usize) -> (r: ValueRef)
        requires
            index < self.statements().len(),
        ensures
            r == self.statements()[index as int],
    {
        self.statement_ptrs[index]
    }

    /// Reads the pointers of the control of that index out of the pointer
    /// block. There are none if the layout does not know the control.
    pub fn get_control_ptrs(&mut self, index: usize, include_ui: bool) -> (r: Option<
        ControlPointers,
    >)
        requires
            old(self).well_formed(),
        ensures
            final(self).well_formed(),
            final(self).layout == old(self).layout,
            final(self).statements() == old(self).statements(),
            final(self).pointers() == old(self).pointers(),
            match r {
                Some(control) => {
                    let at = old(self).ctx@.len();
                    &&& index < old(self).layout.control_indices.len()
                    &&& final(self).ctx@ == old(self).ctx@ + control_code(
                        at as int,
                        old(self).pointers(),
                        old(self).layout.control_indices[index as int],
                        include_ui,
                    )
                    &&& control.value == at + 2
                    &&& control.data == at + 4
                    &&& control.shared == at + 6
                    &&& control.ui == if include_ui {
                        Some((at + 8) as usize)
                    } else {
                        None
                    }
                },
                None => {
                    &&& index >= old(self).layout.control_indices.len()
                    &&& final(self).ctx@ == old(self).ctx@
                },
            },
    {
        let ghost start = self.ctx@;
        let layout_index = match self.layout.control_index(index) {
            Some(layout_index) => layout_index,
            None => {
                return None;
            },
        };
        let base_ptr = self.ctx.build_struct_gep(self.pointers_ptr, layout_index);
        let value_ptr = self.ctx.build_struct_gep(base_ptr, 0);
        let value = self.ctx.build_load(value_ptr);
        let data_ptr = self.ctx.build_struct_gep(base_ptr, 1);
        let data = self.ctx.build_load(data_ptr);
        let shared_ptr = self.ctx.build_struct_gep(base_ptr, 2);
        let shared = self.ctx.build_load(shared_ptr);
        let ui = if include_ui {
            let ui_ptr = self.ctx.build_struct_gep(base_ptr, 3);
            Some(self.ctx.build_load(ui_ptr))
        } else {
            None
        };
        assert(self.ctx@ =~= start + control_code(
            start.len() as int,
            self.pointers_ptr,
            layout_index,
            include_ui,
        ));
        Some(ControlPointers { value, data, shared, ui })
    }

    /// Reads the pointer to a function out of the field of that index of
    /// the pointer block.
    pub fn get_function_ptr(&mut self, layout_index: u32) -> (r: ValueRef)
        requires
            old(self).well_formed(),
        ensures
            final(self).well_formed(),
            final(self).layout == old(self).layout,
            final(self).statements() == old(self).statements(),
            final(self).pointers() == old(self).pointers(),
            final(self).ctx@ == old(self).ctx@ + field_code(
                old(self).ctx@.len() as int,
                old(self).pointers(),
                layout_index,
            ),
            r == old(self).ctx@.len() + 1,
    {
        let ghost start = self.ctx@;
        let ptr = self.ctx.build_struct_gep(self.pointers_ptr, layout_index);
        let r = self.ctx.build_load(ptr);
        assert(self.ctx@ =~= start + field_code(
            start.len() as int,
            self.pointers_ptr,
            layout_index,
        ));
        r
    }
}

} // verus!
