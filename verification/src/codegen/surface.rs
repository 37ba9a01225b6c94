//! The procedures of a surface.

use super::builder_context::BuilderContext;
use super::instruction::{well_scoped, FunctionRef, Instruction, ValueRef};
use super::layout::SurfaceLayout;
use super::module::{position_of, FunctionView, Linkage, Module};
use super::target_properties::{all_slots, all_slots_spec, TargetProperties, BITMAP_BITS};
use super::{CodegenError, LifecycleFunc};
use crate::mir::{
    MIRContext, MIRContextView, Node, NodeData, NodeDataView, NodeView, Surface, SurfaceIdView,
    SurfaceView,
};
use crate::text::{decimal, push_decimal};
use vstd::prelude::*;
use vstd::string::StringExecFns;

verus! {

/// The name of the procedure of a surface for one part of its life.
pub open spec fn lifecycle_func_name(surface: SurfaceIdView, lifecycle: LifecycleFunc) -> Seq<
    char,
> {
    "maxim.surface."@ + decimal(surface.id as nat) + "."@ + surface.debug_name + "."@
        + lifecycle.text()
}

/// The functions of a module once the procedure of `surface` for
/// `lifecycle` is known to it: as before if it was, and else with the
/// procedure declared at the end.
pub open spec fn with_lifecycle_func(
    functions: Seq<FunctionView>,
    surface: SurfaceIdView,
    lifecycle: LifecycleFunc,
) -> Seq<FunctionView> {
    match position_of(functions, lifecycle_func_name(surface, lifecycle)) {
        Some(_) => functions,
        None => functions.push(
            FunctionView {
                name: lifecycle_func_name(surface, lifecycle),
                linkage: Linkage::External,
                surface,
                lifecycle,
                body: None,
            },
        ),
    }
}

/// Where the procedure of `surface` for `lifecycle` stands among the
/// functions once it is known to the module.
pub open spec fn lifecycle_func_position(
    functions: Seq<FunctionView>,
    surface: SurfaceIdView,
    lifecycle: LifecycleFunc,
) -> int {
    match position_of(functions, lifecycle_func_name(surface, lifecycle)) {
        Some(index) => index,
        None => functions.len() as int,
    }
}

/// The procedure of the surface for one part of its life, declared if the
/// module does not know it yet.
pub fn get_lifecycle_func(module: &mut Module, surface: &Surface, lifecycle: LifecycleFunc) -> (r:
    FunctionRef)
    ensures
        final(module)@ == with_lifecycle_func(old(module)@, surface@.id, lifecycle),
        r == lifecycle_func_position(old(module)@, surface@.id, lifecycle),
        r < final(module)@.len(),
        final(module)@[r as int].name == lifecycle_func_name(surface@.id, lifecycle),
{
    let mut func_name = String::from_str("maxim.surface.");
    push_decimal(&mut func_name, surface.id.id);
    func_name.append(".");
    func_name.append(surface.id.debug_name.as_str());
    func_name.append(".");
    func_name.append(lifecycle.name());
    module.get_or_create_func(func_name, Linkage::External, &surface.id, lifecycle)
}

/// Calls the procedure of the surface for one part of its life.
pub fn build_lifecycle_call(
    module: &mut Module,
    ctx: &mut BuilderContext,
    surface: &Surface,
    lifecycle: LifecycleFunc,
    scratch_ptr: ValueRef,
    pointer_ptr: ValueRef,
)
    requires
        old(ctx).has_value(scratch_ptr),
        old(ctx).has_value(pointer_ptr),
    ensures
        final(module)@ == with_lifecycle_func(old(module)@, surface@.id, lifecycle),
        final(ctx)@ == old(ctx)@.push(
            Instruction::Call {
                function: lifecycle_func_position(old(module)@, surface@.id, lifecycle) as usize,
                scratch: scratch_ptr,
                pointers: pointer_ptr,
            },
        ),
{
    let func = get_lifecycle_func(module, surface, lifecycle);
    ctx.build_call(func, scratch_ptr, pointer_ptr);
}

/// Whether a node with `count` sockets cannot have the socket `socket`.
pub open spec fn is_stray_socket(count: nat, socket: usize) -> bool {
    socket >= count || socket > u32::MAX
}

/// The first entry of the list that a node with `count` sockets cannot
/// have.
pub open spec fn first_stray(sockets: Seq<usize>, count: nat) -> Option<usize>
    decreases sockets.len(),
{
    if sockets.len() == 0 {
        None
    } else if is_stray_socket(count, sockets[0]) {
        Some(sockets[0])
    } else {
        first_stray(sockets.drop_first(), count)
    }
}

/// No entry of the list is stray exactly if there is no first one.
pub proof fn lemma_first_stray(sockets: Seq<usize>, count: nat)
    ensures
        first_stray(sockets, count).is_none() <==> forall|i: int|
            0 <= i < sockets.len() ==> !is_stray_socket(count, #[trigger] sockets[i]),
    decreases sockets.len(),
{
    if sockets.len() > 0 {
        lemma_first_stray(sockets.drop_first(), count);
        if first_stray(sockets, count).is_none() {
            assert forall|i: int| 0 <= i < sockets.len() implies !is_stray_socket(
                count,
                #[trigger] sockets[i],
            ) by {
                if i > 0 {
                    assert(sockets.drop_first()[i - 1] == sockets[i]);
                }
            }
        } else if !is_stray_socket(count, sockets[0]) {
            let i = choose|i: int|
                0 <= i < sockets.drop_first().len() && is_stray_socket(
                    count,
                    #[trigger] sockets.drop_first()[i],
                );
            assert(sockets[i + 1] == sockets.drop_first()[i]);
        }
    }
}

fn find_stray(sockets: &Vec<usize>, count: usize) -> (r: Option<usize>)
    ensures
        r == first_stray(sockets@, count as nat),
{
    let mut index: usize = 0;
    assert(sockets@.subrange(0, sockets.len() as int) =~= sockets@);
    while index < sockets.len()
        invariant
            index <= sockets.len(),
            first_stray(sockets@, count as nat) == first_stray(
                sockets@.subrange(index as int, sockets.len() as int),
                count as nat,
            ),
        decreases sockets.len() - index,
    {
        let socket = sockets[index];
        let ghost rest = sockets@.subrange(index as int, sockets.len() as int);
        assert(rest[0] == socket);
        if socket >= count || socket > 0xffff_ffff {
            return Some(socket);
        }
        assert(rest.drop_first() =~= sockets@.subrange(index + 1, sockets.len() as int));
        index += 1;
    }
    assert(sockets@.subrange(index as int, sockets.len() as int) =~= Seq::empty());
    None
}

/// What is wrong with a node, if anything: the first of these that holds.
/// Its block or surface is unknown; it feeds its voices from a socket that
/// it does not have; it has its voices tell a socket that it does not have;
/// the target asks for more voices than a bitmap has bits.
pub open spec fn node_error(
    mir: MIRContextView,
    node: NodeView,
    node_index: usize,
    target: TargetProperties,
) -> Option<CodegenError> {
    match node.data {
        NodeDataView::Custom(block) => if mir.has_block(block.id) {
            None
        } else {
            Some(CodegenError::UndefinedBlock { id: block.id })
        },
        NodeDataView::Group(surface) => if mir.has_surface(surface.id) {
            None
        } else {
            Some(CodegenError::UndefinedSurface { id: surface.id })
        },
        NodeDataView::ExtractGroup { surface, source_sockets, dest_sockets } => {
            if !mir.has_surface(surface.id) {
                Some(CodegenError::UndefinedSurface { id: surface.id })
            } else if let Some(socket) = first_stray(source_sockets, node.sockets.len()) {
                Some(CodegenError::SocketOutOfRange { node: node_index, socket })
            } else if let Some(socket) = first_stray(dest_sockets, node.sockets.len()) {
                Some(CodegenError::SocketOutOfRange { node: node_index, socket })
            } else if target.capacity > BITMAP_BITS {
                Some(CodegenError::CapacityTooLarge { capacity: target.capacity })
            } else {
                None
            }
        },
    }
}

/// The code that works out which voices are live: the bitmaps of the
/// arrays at the sockets of the list, joined by `or`. `base` is where the
/// code starts in its stream, and its last instruction makes the result.
pub open spec fn gate_code(base: int, pointers: ValueRef, sockets: Seq<usize>) -> Seq<Instruction>
    decreases sockets.len(),
{
    if sockets.len() == 0 {
        Seq::empty()
    } else if sockets.len() == 1 {
        seq![
            Instruction::StructGep { pointer: pointers, field: sockets[0] as u32 },
            Instruction::Load { pointer: base as usize },
            Instruction::GetBitmap { array: (base + 1) as usize },
        ]
    } else {
        let before = gate_code(base, pointers, sockets.drop_last());
        let at = base + before.len();
        before + seq![
            Instruction::StructGep { pointer: pointers, field: sockets.last() as u32 },
            Instruction::Load { pointer: at as usize },
            Instruction::GetBitmap { array: (at + 1) as usize },
            Instruction::Or { lhs: (at - 1) as usize, rhs: (at + 2) as usize },
        ]
    }
}

/// The head of the loop over the voices: the counter, which starts at
/// zero, the four blocks of the loop, the check that ends the loop after
/// the last voice, and the step of the counter. It ends in the block in
/// which the voice is looked at.
pub open spec fn loop_head(base: int, capacity: u32) -> Seq<Instruction> {
    let index_ptr = base as usize;
    let check_block = (base + 3) as usize;
    let check_active_block = (base + 4) as usize;
    let end_block = (base + 6) as usize;
    let current_index = (base + 9) as usize;
    seq![
        Instruction::Alloca,
        Instruction::ConstInt { value: 0 },
        Instruction::Store { pointer: index_ptr, word: (base + 1) as usize },
        Instruction::AppendBasicBlock,
        Instruction::AppendBasicBlock,
        Instruction::AppendBasicBlock,
        Instruction::AppendBasicBlock,
        Instruction::Branch { block: check_block },
        Instruction::PositionAtEnd { block: check_block },
        Instruction::Load { pointer: index_ptr },
        Instruction::ConstInt { value: capacity },
        Instruction::CompareBelow { lhs: current_index, rhs: (base + 10) as usize },
        Instruction::ConditionalBranch {
            condition: (base + 11) as usize,
            then_block: check_active_block,
            else_block: end_block,
        },
        Instruction::PositionAtEnd { block: check_active_block },
        Instruction::ConstInt { value: 1 },
        Instruction::IntAdd { lhs: current_index, rhs: (base + 14) as usize },
        Instruction::Store { pointer: index_ptr, word: (base + 15) as usize },
    ]
}

/// The test that lets only a live voice run: bit number `current_index`
/// of the bitmap `active_bitmap` decides. `at` is where the test starts in
/// its stream, `base` where the loop does.
pub open spec fn loop_gate(base: int, at: int, active_bitmap: ValueRef) -> Seq<Instruction> {
    let check_block = (base + 3) as usize;
    let run_block = (base + 5) as usize;
    let current_index = (base + 9) as usize;
    seq![
        Instruction::ConstInt { value: 1 },
        Instruction::LeftShift { lhs: at as usize, rhs: current_index },
        Instruction::And { lhs: active_bitmap, rhs: (at + 1) as usize },
        Instruction::RightShift { lhs: (at + 2) as usize, rhs: current_index },
        Instruction::CastToBool { word: (at + 3) as usize },
        Instruction::ConditionalBranch {
            condition: (at + 4) as usize,
            then_block: run_block,
            else_block: check_block,
        },
    ]
}

/// The body of the loop over the voices: the call of the procedure on
/// the elements of the voice, and the way back to the check. It ends at the
/// start of the block that follows the loop.
pub open spec fn loop_body(
    base: int,
    at: int,
    callee: FunctionRef,
    scratch: ValueRef,
    pointers: ValueRef,
) -> Seq<Instruction> {
    let check_block = (base + 3) as usize;
    let run_block = (base + 5) as usize;
    let end_block = (base + 6) as usize;
    let current_index = (base + 9) as usize;
    seq![
        Instruction::PositionAtEnd { block: run_block },
        Instruction::InBoundsGep { pointer: scratch, element: current_index },
        Instruction::InBoundsGep { pointer: pointers, element: current_index },
        Instruction::Call {
            function: callee,
            scratch: (at + 1) as usize,
            pointers: (at + 2) as usize,
        },
        Instruction::Branch { block: check_block },
        Instruction::PositionAtEnd { block: end_block },
    ]
}

/// The code that runs the procedure `callee` for the voices, one after
/// the other. With a gate, which is the value of a bitmap, only the live
/// voices run. The code ends at the start of the block that follows the
/// loop.
pub open spec fn loop_code(
    base: int,
    callee: FunctionRef,
    capacity: u32,
    scratch: ValueRef,
    pointers: ValueRef,
    gate: Option<ValueRef>,
) -> Seq<Instruction> {
    match gate {
        Some(active_bitmap) => loop_head(base, capacity) + loop_gate(
            base,
            base + 17,
            active_bitmap,
        ) + loop_body(base, base + 23, callee, scratch, pointers),
        None => loop_head(base, capacity) + seq![
            Instruction::Branch { block: (base + 5) as usize },
        ] + loop_body(base, base + 18, callee, scratch, pointers),
    }
}

/// The code that makes `bitmap` the bitmap of the arrays at the sockets of
/// the list.
pub open spec fn publish_code(
    base: int,
    pointers: ValueRef,
    sockets: Seq<usize>,
    bitmap: ValueRef,
) -> Seq<Instruction>
    decreases sockets.len(),
{
    if sockets.len() == 0 {
        Seq::empty()
    } else {
        let before = publish_code(base, pointers, sockets.drop_last(), bitmap);
        let at = base + before.len();
        before + seq![
            Instruction::StructGep { pointer: pointers, field: sockets.last() as u32 },
            Instruction::Load { pointer: at as usize },
            Instruction::SetBitmap { array: (at + 1) as usize, bitmap },
        ]
    }
}

/// The code of a node that runs a surface once per voice. Only an update
/// looks at which voices are live, and only if the node has sockets that
/// say so; and only an update says afterwards which voices have run: the
/// live ones, or all of them.
pub open spec fn voices_code(
    base: int,
    callee: FunctionRef,
    capacity: u32,
    lifecycle: LifecycleFunc,
    source_sockets: Seq<usize>,
    dest_sockets: Seq<usize>,
    scratch: ValueRef,
    pointers: ValueRef,
) -> Seq<Instruction> {
    if lifecycle == LifecycleFunc::Update && source_sockets.len() > 0 {
        let gate = gate_code(base, pointers, source_sockets);
        let active_bitmap = (base + gate.len() - 1) as usize;
        let run = loop_code(
            base + gate.len(),
            callee,
            capacity,
            scratch,
            pointers,
            Some(active_bitmap),
        );
        gate + run + publish_code(
            base + gate.len() + run.len(),
            pointers,
            dest_sockets,
            active_bitmap,
        )
    } else if lifecycle == LifecycleFunc::Update {
        let run = loop_code(base, callee, capacity, scratch, pointers, None);
        let all = (base + run.len()) as usize;
        run + seq![Instruction::ConstInt { value: all_slots_spec(capacity) }] + publish_code(
            base + run.len() + 1,
            pointers,
            dest_sockets,
            all,
        )
    } else {
        loop_code(base, callee, capacity, scratch, pointers, None)
    }
}

/// The code of a node compiled from a block: the block gets the first
/// field of the scratch block of the node as its data, the second as its
/// part of the user interface if the target has one, and the pointer block
/// of the node as it is.
pub open spec fn block_code(
    base: int,
    block: u64,
    include_ui: bool,
    lifecycle: LifecycleFunc,
    scratch: ValueRef,
    pointers: ValueRef,
) -> Seq<Instruction> {
    if include_ui {
        seq![
            Instruction::StructGep { pointer: scratch, field: 0 },
            Instruction::StructGep { pointer: scratch, field: 1 },
            Instruction::CallBlockWithUi {
                id: block,
                lifecycle,
                data: base as usize,
                pointers,
                ui: (base + 1) as usize,
            },
        ]
    } else {
        seq![
            Instruction::StructGep { pointer: scratch, field: 0 },
            Instruction::CallBlock { id: block, lifecycle, data: base as usize, pointers },
        ]
    }
}

/// The surface that a node instantiates, if it does.
pub open spec fn nested_surface(mir: MIRContextView, node: NodeView) -> Option<SurfaceIdView> {
    match node.data {
        NodeDataView::Custom(_) => None,
        NodeDataView::Group(surface) => Some(mir.surface(surface.id).id),
        NodeDataView::ExtractGroup { surface, .. } => Some(mir.surface(surface.id).id),
    }
}

/// The code of a node, which starts at `base` in its stream. `callee` is
/// the procedure of the surface that the node instantiates.
pub open spec fn node_code(
    base: int,
    mir: MIRContextView,
    node: NodeView,
    callee: FunctionRef,
    target: TargetProperties,
    lifecycle: LifecycleFunc,
    scratch: ValueRef,
    pointers: ValueRef,
) -> Seq<Instruction> {
    match node.data {
        NodeDataView::Custom(block) => block_code(
            base,
            mir.block(block.id).id,
            target.include_ui,
            lifecycle,
            scratch,
            pointers,
        ),
        NodeDataView::Group(_) => seq![Instruction::Call { function: callee, scratch, pointers }],
        NodeDataView::ExtractGroup { source_sockets, dest_sockets, .. } => voices_code(
            base,
            callee,
            target.capacity,
            lifecycle,
            source_sockets,
            dest_sockets,
            scratch,
            pointers,
        ),
    }
}

/// The functions of a module once the code of a node is written: the
/// procedure of the surface that the node instantiates is known to it.
pub open spec fn with_node_callee(
    functions: Seq<FunctionView>,
    mir: MIRContextView,
    node: NodeView,
    lifecycle: LifecycleFunc,
) -> Seq<FunctionView> {
    match nested_surface(mir, node) {
        Some(surface) => with_lifecycle_func(functions, surface, lifecycle),
        None => functions,
    }
}

/// The procedure that the code of a node calls, where the node
/// instantiates a surface.
pub open spec fn node_callee(
    functions: Seq<FunctionView>,
    mir: MIRContextView,
    node: NodeView,
    lifecycle: LifecycleFunc,
) -> FunctionRef {
    match nested_surface(mir, node) {
        Some(surface) => lifecycle_func_position(functions, surface, lifecycle) as usize,
        None => 0,
    }
}

/// Every socket of the list can be the field of a struct.
pub open spec fn are_fields(sockets: Seq<usize>) -> bool {
    forall|i: int| 0 <= i < sockets.len() ==> (#[trigger] sockets[i]) <= u32::MAX
}

/// Works out which voices are live: the bitmaps of the arrays at the
/// sockets of the list, joined by `or`.
fn build_active_bitmap(
    ctx: &mut BuilderContext,
    pointers_ptr: ValueRef,
    source_sockets: &Vec<usize>,
) -> (r: ValueRef)
    requires
        old(ctx).has_value(pointers_ptr),
        source_sockets.len() > 0,
        are_fields(source_sockets@),
    ensures
        final(ctx)@ == old(ctx)@ + gate_code(
            old(ctx)@.len() as int,
            pointers_ptr,
            source_sockets@,
        ),
        r == final(ctx)@.len() - 1,
        final(ctx).has_value(r),
        final(ctx).keeps(*old(ctx)),
{
    let ghost start = ctx@;
    let ghost base = ctx@.len() as int;
    let first_ptr = ctx.build_struct_gep(pointers_ptr, source_sockets[0] as u32);
    let first_array = ctx.build_load(first_ptr);
    let mut active_bitmap = ctx.get_bitmap(first_array);
    proof {
        assert(source_sockets@.take(1).len() == 1);
        assert(ctx@ =~= start + gate_code(base, pointers_ptr, source_sockets@.take(1)));
    }
    let mut index: usize = 1;
    while index < source_sockets.len()
        invariant
            1 <= index <= source_sockets.len(),
            are_fields(source_sockets@),
            base == start.len(),
            ctx.has_value(pointers_ptr),
            ctx@ == start + gate_code(base, pointers_ptr, source_sockets@.take(index as int)),
            active_bitmap == ctx@.len() - 1,
            ctx.has_value(active_bitmap),
            ctx.keeps(*old(ctx)),
        decreases source_sockets.len() - index,
    {
        let nth_ptr = ctx.build_struct_gep(pointers_ptr, source_sockets[index] as u32);
        let nth_array = ctx.build_load(nth_ptr);
        let nth_bitmap = ctx.get_bitmap(nth_array);
        active_bitmap = ctx.build_or(active_bitmap, nth_bitmap);
        proof {
            let done = source_sockets@.take(index as int);
            let next = source_sockets@.take(index + 1);
            assert(next.drop_last() =~= done);
            assert(next.last() == source_sockets@[index as int]);
            assert(ctx@ =~= start + gate_code(base, pointers_ptr, next));
        }
        index += 1;
    }
    assert(source_sockets@.take(index as int) =~= source_sockets@);
    active_bitmap
}

/// The four basic blocks of the loop over the voices, and the value of
/// the counter in the present round.
struct VoiceLoop {
    check_block: usize,
    run_block: usize,
    end_block: usize,
    current_index: ValueRef,
}

/// Starts the loop over the voices.
fn build_loop_head(ctx: &mut BuilderContext, capacity: u32) -> (r: VoiceLoop)
    ensures
        final(ctx).keeps(*old(ctx)),
        final(ctx)@ == old(ctx)@ + loop_head(old(ctx)@.len() as int, capacity),
        r.check_block == old(ctx)@.len() + 3,
        r.run_block == old(ctx)@.len() + 5,
        r.end_block == old(ctx)@.len() + 6,
        r.current_index == old(ctx)@.len() + 9,
        final(ctx).has_block(r.check_block),
        final(ctx).has_block(r.run_block),
        final(ctx).has_block(r.end_block),
        final(ctx).has_value(r.current_index),
{
    let ghost start = ctx@;

    // The loop counts in a place on the stack, from zero.
    let index_ptr = ctx.build_alloca();
    let zero = ctx.const_int(0);
    ctx.build_store(index_ptr, zero);

    let check_block = ctx.append_basic_block();
    let check_active_block = ctx.append_basic_block();
    let run_block = ctx.append_basic_block();
    let end_block = ctx.append_basic_block();

    ctx.build_unconditional_branch(check_block);
    ctx.position_at_end(check_block);

    let current_index = ctx.build_load(index_ptr);
    let iter_limit = ctx.const_int(capacity);
    let can_continue_loop = ctx.build_int_compare_below(current_index, iter_limit);
    ctx.build_conditional_branch(can_continue_loop, check_active_block, end_block);
    ctx.position_at_end(check_active_block);

    // The counter moves on before the voice is looked at, so that the way
    // back to the check is the same for a voice that runs and one that does
    // not.
    let one = ctx.const_int(1);
    let next_index = ctx.build_int_add(current_index, one);
    ctx.build_store(index_ptr, next_index);
    assert(ctx@ =~= start + loop_head(start.len() as int, capacity));
    VoiceLoop { check_block, run_block, end_block, current_index }
}

/// Lets the voice run if its bit of the bitmap is set, and goes on to the
/// next voice if not.
fn build_loop_gate(ctx: &mut BuilderContext, voices: &VoiceLoop, active_bitmap: ValueRef)
    requires
        old(ctx).has_value(active_bitmap),
        old(ctx).has_value(voices.current_index),
        old(ctx).has_block(voices.check_block),
        old(ctx).has_block(voices.run_block),
        voices.run_block == voices.check_block + 2,
        voices.current_index == voices.check_block + 6,
    ensures
        final(ctx).keeps(*old(ctx)),
        final(ctx)@ == old(ctx)@ + loop_gate(
            voices.check_block - 3,
            old(ctx)@.len() as int,
            active_bitmap,
        ),
{
    let ghost start = ctx@;
    let bit = ctx.const_int(1);
    let bitmask = ctx.build_left_shift(bit, voices.current_index);
    let active_bits = ctx.build_and(active_bitmap, bitmask);
    let shifted = ctx.build_right_shift(active_bits, voices.current_index);
    let active_bit = ctx.build_cast_to_bool(shifted);
    ctx.build_conditional_branch(active_bit, voices.run_block, voices.check_block);
    assert(ctx@ =~= start + loop_gate(voices.check_block - 3, start.len() as int, active_bitmap));
}

/// Runs the procedure for the voice, on its own element of the scratch
/// block and of the pointer block of the node, and ends the loop.
fn build_loop_body(
    ctx: &mut BuilderContext,
    voices: &VoiceLoop,
    callee: FunctionRef,
    scratch_ptr: ValueRef,
    pointers_ptr: ValueRef,
)
    requires
        old(ctx).has_value(scratch_ptr),
        old(ctx).has_value(pointers_ptr),
        old(ctx).has_value(voices.current_index),
        old(ctx).has_block(voices.check_block),
        old(ctx).has_block(voices.run_block),
        old(ctx).has_block(voices.end_block),
        voices.run_block == voices.check_block + 2,
        voices.end_block == voices.check_block + 3,
        voices.current_index == voices.check_block + 6,
    ensures
        final(ctx).keeps(*old(ctx)),
        final(ctx)@ == old(ctx)@ + loop_body(
            voices.check_block - 3,
            old(ctx)@.len() as int,
            callee,
            scratch_ptr,
            pointers_ptr,
        ),
{
    let ghost start = ctx@;
    ctx.position_at_end(voices.run_block);

    let voice_scratch_ptr = ctx.build_in_bounds_gep(scratch_ptr, voices.current_index);
    let voice_pointers_ptr = ctx.build_in_bounds_gep(pointers_ptr, voices.current_index);
    ctx.build_call(callee, voice_scratch_ptr, voice_pointers_ptr);

    ctx.build_unconditional_branch(voices.check_block);
    ctx.position_at_end(voices.end_block);
    assert(ctx@ =~= start + loop_body(
        voices.check_block - 3,
        start.len() as int,
        callee,
        scratch_ptr,
        pointers_ptr,
    ));
}

/// Runs the procedure `callee` for the voices, one after the other, each
/// on its own element of the scratch block and the pointer block of the
/// node. With a gate only the live voices run.
fn build_voice_loop(
    ctx: &mut BuilderContext,
    callee: FunctionRef,
    capacity: u32,
    scratch_ptr: ValueRef,
    pointers_ptr: ValueRef,
    valid_bitmap: Option<ValueRef>,
)
    requires
        old(ctx).has_value(scratch_ptr),
        old(ctx).has_value(pointers_ptr),
        valid_bitmap matches Some(active_bitmap) ==> old(ctx).has_value(active_bitmap),
    ensures
        final(ctx).keeps(*old(ctx)),
        final(ctx)@ == old(ctx)@ + loop_code(
            old(ctx)@.len() as int,
            callee,
            capacity,
            scratch_ptr,
            pointers_ptr,
            valid_bitmap,
        ),
{
    let ghost start = ctx@;
    let ghost base = ctx@.len() as int;
    let voices = build_loop_head(ctx, capacity);
    match valid_bitmap {
        Some(active_bitmap) => {
            build_loop_gate(ctx, &voices, active_bitmap);
        },
        None => {
            ctx.build_unconditional_branch(voices.run_block);
        },
    }
    build_loop_body(ctx, &voices, callee, scratch_ptr, pointers_ptr);
    proof {
        assert(loop_head(base, capacity).len() == 17);
        match valid_bitmap {
            Some(active_bitmap) => {
                assert(loop_gate(base, base + 17, active_bitmap).len() == 6);
                assert(ctx@ =~= start + (loop_head(base, capacity) + loop_gate(
                    base,
                    base + 17,
                    active_bitmap,
                ) + loop_body(base, base + 23, callee, scratch_ptr, pointers_ptr)));
            },
            None => {
                assert(ctx@ =~= start + (loop_head(base, capacity) + seq![
                    Instruction::Branch { block: (base + 5) as usize },
                ] + loop_body(base, base + 18, callee, scratch_ptr, pointers_ptr)));
            },
        }
    }
}

/// Makes `bitmap` the bitmap of the arrays at the sockets of the list.
fn build_publish(
    ctx: &mut BuilderContext,
    pointers_ptr: ValueRef,
    dest_sockets: &Vec<usize>,
    active_bitmap: ValueRef,
)
    requires
        old(ctx).has_value(pointers_ptr),
        old(ctx).has_value(active_bitmap),
        are_fields(dest_sockets@),
    ensures
        final(ctx)@ == old(ctx)@ + publish_code(
            old(ctx)@.len() as int,
            pointers_ptr,
            dest_sockets@,
            active_bitmap,
        ),
{
    let ghost start = ctx@;
    let ghost base = ctx@.len() as int;
    let mut index: usize = 0;
    assert(ctx@ =~= start + publish_code(
        base,
        pointers_ptr,
        dest_sockets@.take(0),
        active_bitmap,
    ));
    while index < dest_sockets.len()
        invariant
            index <= dest_sockets.len(),
            are_fields(dest_sockets@),
            base == start.len(),
            ctx.has_value(pointers_ptr),
            ctx.has_value(active_bitmap),
            ctx@ == start + publish_code(
                base,
                pointers_ptr,
                dest_sockets@.take(index as int),
                active_bitmap,
            ),
        decreases dest_sockets.len() - index,
    {
        let dest_ptr = ctx.build_struct_gep(pointers_ptr, dest_sockets[index] as u32);
        let dest_array = ctx.build_load(dest_ptr);
        ctx.set_bitmap(dest_array, active_bitmap);
        proof {
            let done = dest_sockets@.take(index as int);
            let next = dest_sockets@.take(index + 1);
            assert(next.drop_last() =~= done);
            assert(next.last() == dest_sockets@[index as int]);
            assert(ctx@ =~= start + publish_code(base, pointers_ptr, next, active_bitmap));
        }
        index += 1;
    }
    assert(dest_sockets@.take(index as int) =~= dest_sockets@);
}

/// Writes the code of a node that runs the procedure `callee` once per
/// voice.
fn build_voices_call(
    ctx: &mut BuilderContext,
    callee: FunctionRef,
    capacity: u32,
    lifecycle: LifecycleFunc,
    source_sockets: &Vec<usize>,
    dest_sockets: &Vec<usize>,
    scratch_ptr: ValueRef,
    pointers_ptr: ValueRef,
)
    requires
        old(ctx).has_value(scratch_ptr),
        old(ctx).has_value(pointers_ptr),
        are_fields(source_sockets@),
        are_fields(dest_sockets@),
        capacity <= BITMAP_BITS,
    ensures
        final(ctx)@ == old(ctx)@ + voices_code(
            old(ctx)@.len() as int,
            callee,
            capacity,
            lifecycle,
            source_sockets@,
            dest_sockets@,
            scratch_ptr,
            pointers_ptr,
        ),
{
    let ghost start = ctx@;
    let ghost base = ctx@.len() as int;

    // Only an update looks at which voices are live, and only if the node
    // has sockets that say so.
    let valid_bitmap = if lifecycle.is_update() && source_sockets.len() > 0 {
        Some(build_active_bitmap(ctx, pointers_ptr, source_sockets))
    } else {
        None
    };
    build_voice_loop(ctx, callee, capacity, scratch_ptr, pointers_ptr, valid_bitmap);

    // Only an update says which voices have run.
    if lifecycle.is_update() {
        let active_bitmap = match valid_bitmap {
            Some(active_bitmap) => active_bitmap,
            None => ctx.const_int(all_slots(capacity)),
        };
        build_publish(ctx, pointers_ptr, dest_sockets, active_bitmap);
    }
    proof {
        assert(ctx@ =~= start + voices_code(
            base,
            callee,
            capacity,
            lifecycle,
            source_sockets@,
            dest_sockets@,
            scratch_ptr,
            pointers_ptr,
        ));
    }
}

/// Writes the code of one node: what the node does in one part of the life
/// of its surface, on the scratch block and the pointer block of the node.
///
/// A node compiled from a block has the block compiler call the block. A
/// node with a nested surface calls the procedure of that surface once. A
/// node with a surface per voice calls it for each voice in turn, in an
/// update for the live voices only, and then tells the arrays at its
/// destination sockets which voices have run.
///
/// A node that is not in order is refused before anything is written.
pub fn build_node_call(
    ctx: &mut BuilderContext,
    module: &mut Module,
    mir: &MIRContext,
    node: &Node,
    node_index: usize,
    target: &TargetProperties,
    lifecycle: LifecycleFunc,
    scratch_ptr: ValueRef,
    pointers_ptr: ValueRef,
) -> (r: Result<(), CodegenError>)
    requires
        old(ctx).has_value(scratch_ptr),
        old(ctx).has_value(pointers_ptr),
    ensures
        match r {
            Ok(_) => {
                &&& node_error(mir@, node@, node_index, *target).is_none()
                &&& final(module)@ == with_node_callee(old(module)@, mir@, node@, lifecycle)
                &&& final(ctx)@ == old(ctx)@ + node_code(
                    old(ctx)@.len() as int,
                    mir@,
                    node@,
                    node_callee(old(module)@, mir@, node@, lifecycle),
                    *target,
                    lifecycle,
                    scratch_ptr,
                    pointers_ptr,
                )
            },
            Err(error) => {
                &&& node_error(mir@, node@, node_index, *target) == Some(error)
                &&& final(module)@ == old(module)@
                &&& final(ctx)@ == old(ctx)@
            },
        },
{
    let ghost start = ctx@;
    match &node.data {
        NodeData::Custom(block_id) => {
            let block = match mir.block(block_id) {
                Some(block) => block,
                None => {
                    return Err(CodegenError::UndefinedBlock { id: block_id.id });
                },
            };
            let data_ptr = ctx.build_struct_gep(scratch_ptr, 0);
            let ui_ptr = if target.include_ui {
                Some(ctx.build_struct_gep(scratch_ptr, 1))
            } else {
                None
            };
            ctx.build_block_call(block.id.id, lifecycle, data_ptr, pointers_ptr, ui_ptr);
            assert(ctx@ =~= start + block_code(
                start.len() as int,
                block@.id,
                target.include_ui,
                lifecycle,
                scratch_ptr,
                pointers_ptr,
            ));
            Ok(())
        },
        NodeData::Group(surface_id) => {
            let surface = match mir.surface(surface_id) {
                Some(surface) => surface,
                None => {
                    return Err(CodegenError::UndefinedSurface { id: surface_id.id });
                },
            };
            build_lifecycle_call(module, ctx, surface, lifecycle, scratch_ptr, pointers_ptr);
            assert(ctx@ =~= start + seq![
                Instruction::Call {
                    function: node_callee(old(module)@, mir@, node@, lifecycle),
                    scratch: scratch_ptr,
                    pointers: pointers_ptr,
                },
            ]);
            Ok(())
        },
        NodeData::ExtractGroup { surface: surface_id, source_sockets, dest_sockets } => {
            let surface = match mir.surface(surface_id) {
                Some(surface) => surface,
                None => {
                    return Err(CodegenError::UndefinedSurface { id: surface_id.id });
                },
            };
            proof {
                lemma_first_stray(source_sockets@, node@.sockets.len());
                lemma_first_stray(dest_sockets@, node@.sockets.len());
            }
            if let Some(socket) = find_stray(source_sockets, node.sockets.len()) {
                return Err(CodegenError::SocketOutOfRange { node: node_index, socket });
            }
            if let Some(socket) = find_stray(dest_sockets, node.sockets.len()) {
                return Err(CodegenError::SocketOutOfRange { node: node_index, socket });
            }
            if target.capacity > BITMAP_BITS {
                return Err(CodegenError::CapacityTooLarge { capacity: target.capacity });
            }
            let callee = get_lifecycle_func(module, surface, lifecycle);
            build_voices_call(
                ctx,
                callee,
                target.capacity,
                lifecycle,
                source_sockets,
                dest_sockets,
                scratch_ptr,
                pointers_ptr,
            );
            Ok(())
        },
    }
}

/// How far the procedure of a surface has come: the functions of the
/// module, the code written, and what has stopped the work, if anything.
pub struct Progress {
    pub functions: Seq<FunctionView>,
    pub code: Seq<Instruction>,
    pub error: Option<CodegenError>,
}

/// What is wrong with node number `index` of a surface, if anything: the
/// layout has no place for it, or the node itself is not in order.
pub open spec fn placed_node_error(
    mir: MIRContextView,
    surface: SurfaceView,
    layout: SurfaceLayout,
    target: TargetProperties,
    index: int,
) -> Option<CodegenError> {
    if !layout.covers(index) {
        Some(CodegenError::LayoutMiss { node: index as usize })
    } else {
        node_error(mir, surface.nodes[index], index as usize, target)
    }
}

/// The procedure of a surface once its first `count` nodes are dealt
/// with. The procedure starts with its two parameters, the scratch block
/// and the pointer block of the surface. Each node then gets its fields of
/// the two blocks, and its code. The first node that is not in order stops
/// the work.
pub open spec fn lowered(
    functions: Seq<FunctionView>,
    mir: MIRContextView,
    surface: SurfaceView,
    layout: SurfaceLayout,
    target: TargetProperties,
    lifecycle: LifecycleFunc,
    count: nat,
) -> Progress
    decreases count,
{
    if count == 0 {
        Progress {
            functions: with_lifecycle_func(functions, surface.id, lifecycle),
            code: seq![Instruction::Param { index: 0 }, Instruction::Param { index: 1 }],
            error: None,
        }
    } else {
        let before = lowered(
            functions,
            mir,
            surface,
            layout,
            target,
            lifecycle,
            (count - 1) as nat,
        );
        let index = count - 1;
        if before.error.is_some() {
            before
        } else if placed_node_error(mir, surface, layout, target, index).is_some() {
            Progress { error: placed_node_error(mir, surface, layout, target, index), ..before }
        } else {
            let node = surface.nodes[index];
            let at = before.code.len() as int;
            Progress {
                functions: with_node_callee(before.functions, mir, node, lifecycle),
                code: before.code + seq![
                    Instruction::StructGep {
                        pointer: 0,
                        field: layout.node_scratch_indices[index],
                    },
                    Instruction::StructGep {
                        pointer: 1,
                        field: layout.node_pointer_indices[index],
                    },
                ] + node_code(
                    at + 2,
                    mir,
                    node,
                    node_callee(before.functions, mir, node, lifecycle),
                    target,
                    lifecycle,
                    at as usize,
                    (at + 1) as usize,
                ),
                error: None,
            }
        }
    }
}

/// The module once the procedure of a surface for one part of its life is
/// written: the procedure, and those that it calls, are known to the module,
/// and it has its body, unless a node was not in order.
pub open spec fn with_lifecycle_body(
    functions: Seq<FunctionView>,
    mir: MIRContextView,
    surface: SurfaceView,
    layout: SurfaceLayout,
    target: TargetProperties,
    lifecycle: LifecycleFunc,
) -> Seq<FunctionView> {
    let done = lowered(
        functions,
        mir,
        surface,
        layout,
        target,
        lifecycle,
        surface.nodes.len(),
    );
    if done.error.is_some() {
        done.functions
    } else {
        let index = lifecycle_func_position(functions, surface.id, lifecycle);
        done.functions.update(
            index,
            FunctionView {
                body: Some(done.code.push(Instruction::Return)),
                ..done.functions[index]
            },
        )
    }
}

/// What stops the lowering of a surface for one part of its life, if
/// anything.
pub open spec fn lifecycle_error(
    functions: Seq<FunctionView>,
    mir: MIRContextView,
    surface: SurfaceView,
    layout: SurfaceLayout,
    target: TargetProperties,
    lifecycle: LifecycleFunc,
) -> Option<CodegenError> {
    lowered(functions, mir, surface, layout, target, lifecycle, surface.nodes.len()).error
}

/// A module that knows a function keeps it, at its place, when another
/// function becomes known.
proof fn lemma_known_func_stays(
    functions: Seq<FunctionView>,
    surface: SurfaceIdView,
    lifecycle: LifecycleFunc,
    index: int,
)
    requires
        0 <= index < functions.len(),
    ensures
        index < with_lifecycle_func(functions, surface, lifecycle).len(),
        with_lifecycle_func(functions, surface, lifecycle)[index] == functions[index],
{
}

/// Writes the procedure of the surface for one part of its life: for each
/// node in turn, the code of the node on the fields that the layout gives
/// the node in the scratch block and the pointer block of the surface.
///
/// The procedure gets its body only if every node is in order.
pub fn build_lifecycle_func(
    module: &mut Module,
    mir: &MIRContext,
    surface: &Surface,
    layout: &SurfaceLayout,
    target: &TargetProperties,
    lifecycle: LifecycleFunc,
) -> (r: Result<(), CodegenError>)
    ensures
        final(module)@ == with_lifecycle_body(
            old(module)@,
            mir@,
            surface@,
            *layout,
            *target,
            lifecycle,
        ),
        match r {
            Ok(_) => {
                &&& lifecycle_error(old(module)@, mir@, surface@, *layout, *target, lifecycle)
                    .is_none()
                &&& well_scoped(
                    lowered(
                        old(module)@,
                        mir@,
                        surface@,
                        *layout,
                        *target,
                        lifecycle,
                        surface@.nodes.len(),
                    ).code.push(Instruction::Return),
                )
            },
            Err(error) => lifecycle_error(
                old(module)@,
                mir@,
                surface@,
                *layout,
                *target,
                lifecycle,
            ) == Some(error),
        },
{
    let ghost before = module@;
    let func = get_lifecycle_func(module, surface, lifecycle);
    let mut ctx = BuilderContext::new();
    let scratch_ptr = ctx.get_nth_param(0);
    let pointers_ptr = ctx.get_nth_param(1);
    assert(ctx@ =~= seq![Instruction::Param { index: 0 }, Instruction::Param { index: 1 }]);

    let mut node_index: usize = 0;
    while node_index < surface.nodes.len()
        invariant
            node_index <= surface.nodes.len(),
            before == old(module)@,
            scratch_ptr == 0,
            pointers_ptr == 1,
            ctx.has_value(scratch_ptr),
            ctx.has_value(pointers_ptr),
            func < module@.len(),
            func == lifecycle_func_position(before, surface@.id, lifecycle),
            module@[func as int].name == lifecycle_func_name(surface@.id, lifecycle),
            lowered(before, mir@, surface@, *layout, *target, lifecycle, node_index as nat)
                == (Progress { functions: module@, code: ctx@, error: None }),
        decreases surface.nodes.len() - node_index,
    {
        let ghost so_far = lowered(
            before,
            mir@,
            surface@,
            *layout,
            *target,
            lifecycle,
            node_index as nat,
        );
        let ghost next = lowered(
            before,
            mir@,
            surface@,
            *layout,
            *target,
            lifecycle,
            (node_index + 1) as nat,
        );
        let ghost functions_before = module@;
        let node = &surface.nodes[node_index];
        assert(node@ == surface@.nodes[node_index as int]);
        let (scratch_index, pointer_index) = match (
            layout.node_scratch_index(node_index),
            layout.node_ptr_index(node_index),
        ) {
            (Some(scratch_index), Some(pointer_index)) => (scratch_index, pointer_index),
            _ => {
                proof {
                    assert(!layout.covers(node_index as int));
                    assert(so_far.error.is_none());
                    assert(next.error == Some(CodegenError::LayoutMiss { node: node_index }));
                    assert(next.functions == module@);
                    lemma_stopped(
                        before,
                        mir@,
                        surface@,
                        *layout,
                        *target,
                        lifecycle,
                        (node_index + 1) as nat,
                    );
                }
                return Err(CodegenError::LayoutMiss { node: node_index });
            },
        };
        let node_scratch_ptr = ctx.build_struct_gep(scratch_ptr, scratch_index);
        let node_pointers_ptr = ctx.build_struct_gep(pointers_ptr, pointer_index);
        match build_node_call(
            &mut ctx,
            module,
            mir,
            node,
            node_index,
            target,
            lifecycle,
            node_scratch_ptr,
            node_pointers_ptr,
        ) {
            Ok(_) => {
                proof {
                    assert(layout.covers(node_index as int));
                    assert(so_far.error.is_none());
                    assert(ctx@ =~= next.code);
                    match nested_surface(mir@, node@) {
                        Some(nested) => {
                            lemma_known_func_stays(
                                functions_before,
                                nested,
                                lifecycle,
                                func as int,
                            );
                        },
                        None => {},
                    }
                }
            },
            Err(error) => {
                proof {
                    assert(layout.covers(node_index as int));
                    assert(so_far.error.is_none());
                    assert(next.error == Some(error));
                    assert(next.functions == module@);
                    lemma_stopped(
                        before,
                        mir@,
                        surface@,
                        *layout,
                        *target,
                        lifecycle,
                        (node_index + 1) as nat,
                    );
                }
                return Err(error);
            },
        }
        node_index += 1;
    }
    ctx.build_return();
    module.define(func, ctx.into_instructions());
    Ok(())
}

/// Once a node has stopped the work, the work stays as it is.
proof fn lemma_stopped(
    functions: Seq<FunctionView>,
    mir: MIRContextView,
    surface: SurfaceView,
    layout: SurfaceLayout,
    target: TargetProperties,
    lifecycle: LifecycleFunc,
    count: nat,
)
    requires
        count <= surface.nodes.len(),
        lowered(functions, mir, surface, layout, target, lifecycle, count).error.is_some(),
    ensures
        lowered(functions, mir, surface, layout, target, lifecycle, surface.nodes.len())
            == lowered(functions, mir, surface, layout, target, lifecycle, count),
    decreases surface.nodes.len() - count,
{
    if count < surface.nodes.len() {
        lemma_stopped(functions, mir, surface, layout, target, lifecycle, count + 1);
    }
}

/// The module once the three procedures of a surface are written, or as
/// many of them as there was no error before.
pub open spec fn with_funcs(
    functions: Seq<FunctionView>,
    mir: MIRContextView,
    surface: SurfaceView,
    layout: SurfaceLayout,
    target: TargetProperties,
) -> Seq<FunctionView> {
    let constructed = with_lifecycle_body(
        functions,
        mir,
        surface,
        layout,
        target,
        LifecycleFunc::Construct,
    );
    if lifecycle_error(functions, mir, surface, layout, target, LifecycleFunc::Construct)
        .is_some() {
        constructed
    } else {
        let updated = with_lifecycle_body(
            constructed,
            mir,
            surface,
            layout,
            target,
            LifecycleFunc::Update,
        );
        if lifecycle_error(constructed, mir, surface, layout, target, LifecycleFunc::Update)
            .is_some() {
            updated
        } else {
            with_lifecycle_body(updated, mir, surface, layout, target, LifecycleFunc::Destruct)
        }
    }
}

/// What stops the lowering of a surface, if anything: the first error of
/// the three parts of its life, in their order.
pub open spec fn funcs_error(
    functions: Seq<FunctionView>,
    mir: MIRContextView,
    surface: SurfaceView,
    layout: SurfaceLayout,
    target: TargetProperties,
) -> Option<CodegenError> {
    let constructed = with_lifecycle_body(
        functions,
        mir,
        surface,
        layout,
        target,
        LifecycleFunc::Construct,
    );
    let first = lifecycle_error(functions, mir, surface, layout, target, LifecycleFunc::Construct);
    if first.is_some() {
        first
    } else {
        let updated = with_lifecycle_body(
            constructed,
            mir,
            surface,
            layout,
            target,
            LifecycleFunc::Update,
        );
        let second = lifecycle_error(
            constructed,
            mir,
            surface,
            layout,
            target,
            LifecycleFunc::Update,
        );
        if second.is_some() {
            second
        } else {
            lifecycle_error(updated, mir, surface, layout, target, LifecycleFunc::Destruct)
        }
    }
}

/// Writes the three procedures of the surface: construct, update and
/// destruct, in this order, as far as there is no error.
pub fn build_funcs(
    module: &mut Module,
    mir: &MIRContext,
    surface: &Surface,
    layout: &SurfaceLayout,
    target: &TargetProperties,
) -> (r: Result<(), CodegenError>)
    ensures
        final(module)@ == with_funcs(old(module)@, mir@, surface@, *layout, *target),
        match r {
            Ok(_) => funcs_error(old(module)@, mir@, surface@, *layout, *target).is_none(),
            Err(error) => funcs_error(old(module)@, mir@, surface@, *layout, *target) == Some(
                error,
            ),
        },
{
    match build_lifecycle_func(module, mir, surface, layout, target, LifecycleFunc::Construct) {
        Ok(_) => {},
        Err(error) => {
            return Err(error);
        },
    }
    match build_lifecycle_func(module, mir, surface, layout, target, LifecycleFunc::Update) {
        Ok(_) => {},
        Err(error) => {
            return Err(error);
        },
    }
    build_lifecycle_func(module, mir, surface, layout, target, LifecycleFunc::Destruct)
}

} // verus!
