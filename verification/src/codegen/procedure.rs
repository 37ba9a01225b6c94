//! What the procedure of a surface does when it runs.

use super::instruction::{well_scoped, FunctionRef, Instruction, ValueRef};
use super::layout::SurfaceLayout;
use super::machine::{EventView, MachineView, PlaceView, Root, Status, Step, WordView};
use super::module::FunctionView;
use super::surface::{
    lemma_first_stray, lifecycle_error, lowered, node_callee, node_code, node_error,
    placed_node_error,
};
use super::target_properties::TargetProperties;
use super::voices::{
    fits, have_bitmaps, holds_at, keeps_below, law_voices_run, lemma_chain, lemma_holds_parts,
    lemma_made, lemma_run_on, lemma_run_step, lemma_step_call, lemma_step_struct_gep,
    voices_bitmaps, voices_events,
};
use super::LifecycleFunc;
use crate::mir::{MIRContextView, NodeDataView, NodeView, SurfaceView};
use vstd::prelude::*;

verus! {

/// What the code of a node does, on the scratch block and the pointer
/// block of the node: a node compiled from a block has the block called, a
/// node with a nested surface calls the procedure of that surface, and a
/// node with a surface per voice calls it for the voices that run.
pub open spec fn node_events(
    mir: MIRContextView,
    node: NodeView,
    callee: FunctionRef,
    target: TargetProperties,
    lifecycle: LifecycleFunc,
    scratch: PlaceView,
    pointers: PlaceView,
    bitmaps: Seq<(PlaceView, u32)>,
) -> Seq<EventView> {
    match node.data {
        NodeDataView::Custom(block) => seq![
            EventView::CallBlock {
                id: mir.block(block.id).id,
                lifecycle,
                data: scratch.on(Step::Field(0)),
                pointers,
                ui: if target.include_ui {
                    Some(scratch.on(Step::Field(1)))
                } else {
                    None
                },
            },
        ],
        NodeDataView::Group(_) => seq![EventView::Call { function: callee, scratch, pointers }],
        NodeDataView::ExtractGroup { source_sockets, dest_sockets, .. } => voices_events(
            callee,
            target.capacity,
            lifecycle,
            source_sockets,
            dest_sockets,
            scratch,
            pointers,
            bitmaps,
        ),
    }
}

/// The bitmaps that the code of a node sets.
pub open spec fn node_bitmaps(
    node: NodeView,
    target: TargetProperties,
    lifecycle: LifecycleFunc,
    pointers: PlaceView,
    bitmaps: Seq<(PlaceView, u32)>,
) -> Seq<(PlaceView, u32)> {
    match node.data {
        NodeDataView::ExtractGroup { source_sockets, dest_sockets, .. } => voices_bitmaps(
            target.capacity,
            lifecycle,
            source_sockets,
            dest_sockets,
            pointers,
            bitmaps,
        ),
        _ => Seq::empty(),
    }
}

/// The code of the node finds what it reads: in an update of a node with
/// a surface per voice, each array at a source socket has a bitmap.
pub open spec fn node_ready(
    node: NodeView,
    lifecycle: LifecycleFunc,
    pointers: PlaceView,
    bitmaps: Seq<(PlaceView, u32)>,
) -> bool {
    match node.data {
        NodeDataView::ExtractGroup { source_sockets, .. } => lifecycle == LifecycleFunc::Update
            ==> have_bitmaps(bitmaps, pointers, source_sockets),
        _ => true,
    }
}

/// A call of the procedure of a block is carried out.
proof fn lemma_step_call_block(
    m: MachineView,
    code: Seq<Instruction>,
    id: u64,
    lifecycle: LifecycleFunc,
    data: ValueRef,
    pointers: ValueRef,
    ui: Option<ValueRef>,
)
    requires
        fits(m, code),
        0 <= m.pc < code.len(),
        code[m.pc] == super::builder_context::block_call(id, lifecycle, data, pointers, ui),
        m.place_at(data).is_some(),
        m.place_at(pointers).is_some(),
        ui matches Some(ui_pointer) ==> m.place_at(ui_pointer).is_some(),
    ensures
        m.step(code) == (
            m.with_event(
                EventView::CallBlock {
                    id,
                    lifecycle,
                    data: m.place_at(data).unwrap(),
                    pointers: m.place_at(pointers).unwrap(),
                    ui: match ui {
                        Some(ui_pointer) => m.place_at(ui_pointer),
                        None => None,
                    },
                },
            ),
            Status::Running,
        ),
{
    reveal(MachineView::step);
    reveal(MachineView::act);
}

/// The code of a node that is in order does what `node_events` says,
/// whatever the machine holds when the code starts: the code runs to its
/// end, and changes nothing else but the values that it makes itself.
///
/// The node has to have its two blocks of memory, the pointer block not
/// on the stack, and it has to find what it reads.
pub proof fn law_node_runs(
    code: Seq<Instruction>,
    m: MachineView,
    base: int,
    mir: MIRContextView,
    node: NodeView,
    node_index: usize,
    callee: FunctionRef,
    target: TargetProperties,
    lifecycle: LifecycleFunc,
    scratch: ValueRef,
    pointers: ValueRef,
) -> (fuel: nat)
    requires
        well_scoped(code),
        fits(m, code),
        node_error(mir, node, node_index, target).is_none(),
        holds_at(
            code,
            base,
            node_code(base, mir, node, callee, target, lifecycle, scratch, pointers),
        ),
        m.pc == base,
        scratch < base,
        pointers < base,
        m.place_at(scratch).is_some(),
        m.place_at(pointers).is_some(),
        !(m.place_at(pointers).unwrap().root is Stack),
        node_ready(node, lifecycle, m.place_at(pointers).unwrap(), m.bitmaps),
    ensures
        ({
            let (end, status) = m.run(code, fuel);
            let s = m.place_at(scratch).unwrap();
            let p = m.place_at(pointers).unwrap();
            &&& status == Status::Running
            &&& fits(end, code)
            &&& end.pc == base + node_code(
                base,
                mir,
                node,
                callee,
                target,
                lifecycle,
                scratch,
                pointers,
            ).len()
            &&& end.events == m.events + node_events(
                mir,
                node,
                callee,
                target,
                lifecycle,
                s,
                p,
                m.bitmaps,
            )
            &&& end.bitmaps == m.bitmaps + node_bitmaps(node, target, lifecycle, p, m.bitmaps)
            &&& keeps_below(end, m, base)
        }),
{
    let s = m.place_at(scratch).unwrap();
    let p = m.place_at(pointers).unwrap();
    let part = node_code(base, mir, node, callee, target, lifecycle, scratch, pointers);
    match node.data {
        NodeDataView::Custom(block) => {
            let id = mir.block(block.id).id;
            let data = WordView::At(s.on(Step::Field(0)));
            assert(code[base] == part[0]);
            assert(code[base + 1] == part[1]);
            let m1 = m.with_value(data);
            lemma_step_struct_gep(m, code, scratch, 0);
            lemma_made(m, data);
            lemma_run_step(m, code);
            assert(m1.place_at(base as usize) == Some(s.on(Step::Field(0))));
            assert(m1.place_at(pointers) == Some(p));
            assert(m.bitmaps + node_bitmaps(node, target, lifecycle, p, m.bitmaps) =~= m.bitmaps);
            if target.include_ui {
                assert(code[base + 2] == part[2]);
                let ui = WordView::At(s.on(Step::Field(1)));
                let m2 = m1.with_value(ui);
                assert(m1.place_at(scratch) == Some(s));
                lemma_step_struct_gep(m1, code, scratch, 1);
                lemma_made(m1, ui);
                lemma_chain(m, code, 1, m1, m2);
                assert(m2.place_at(base as usize) == Some(s.on(Step::Field(0))));
                assert(m2.place_at((base + 1) as usize) == Some(s.on(Step::Field(1))));
                assert(m2.place_at(pointers) == Some(p));
                let event = EventView::CallBlock {
                    id,
                    lifecycle,
                    data: s.on(Step::Field(0)),
                    pointers: p,
                    ui: Some(s.on(Step::Field(1))),
                };
                let m3 = m2.with_event(event);
                lemma_step_call_block(
                    m2,
                    code,
                    id,
                    lifecycle,
                    base as usize,
                    pointers,
                    Some((base + 1) as usize),
                );
                lemma_chain(m, code, 2, m2, m3);
                assert(m3.events =~= m.events + seq![event]);
                assert(keeps_below(m3, m, base));
                3
            } else {
                let event = EventView::CallBlock {
                    id,
                    lifecycle,
                    data: s.on(Step::Field(0)),
                    pointers: p,
                    ui: None,
                };
                let m2 = m1.with_event(event);
                lemma_step_call_block(m1, code, id, lifecycle, base as usize, pointers, None);
                lemma_chain(m, code, 1, m1, m2);
                assert(m2.events =~= m.events + seq![event]);
                assert(keeps_below(m2, m, base));
                2
            }
        },
        NodeDataView::Group(_) => {
            assert(code[base] == part[0]);
            let event = EventView::Call { function: callee, scratch: s, pointers: p };
            let m1 = m.with_event(event);
            lemma_step_call(m, code, callee, scratch, pointers);
            lemma_run_step(m, code);
            assert(m1.events =~= m.events + seq![event]);
            assert(m.bitmaps + node_bitmaps(node, target, lifecycle, p, m.bitmaps) =~= m.bitmaps);
            1
        },
        NodeDataView::ExtractGroup { surface, source_sockets, dest_sockets } => {
            lemma_first_stray(source_sockets, node.sockets.len());
            lemma_first_stray(dest_sockets, node.sockets.len());
            law_voices_run(
                code,
                m,
                base,
                callee,
                target.capacity,
                lifecycle,
                source_sockets,
                dest_sockets,
                scratch,
                pointers,
            )
        },
    }
}

/// Where the node of that index keeps its scratch memory: in its field
/// of the scratch block of the surface.
pub open spec fn node_scratch(layout: SurfaceLayout, index: int) -> PlaceView {
    PlaceView {
        root: Root::Scratch,
        path: seq![Step::Field(layout.node_scratch_indices[index])],
    }
}

/// Where the node of that index keeps its pointers: in its field of the
/// pointer block of the surface.
pub open spec fn node_pointers(layout: SurfaceLayout, index: int) -> PlaceView {
    PlaceView {
        root: Root::Pointers,
        path: seq![Step::Field(layout.node_pointer_indices[index])],
    }
}

/// What a procedure has come to after some of its nodes.
pub struct Outcome {
    /// What it has done.
    pub events: Seq<EventView>,
    /// The bitmaps of the arrays.
    pub bitmaps: Seq<(PlaceView, u32)>,
    /// Whether every node so far has found what it reads.
    pub ready: bool,
}

/// What the procedure of a surface comes to by its first `count` nodes,
/// where it starts with these bitmaps: each node in turn does what it does
/// on its own part of the scratch block and the pointer block.
pub open spec fn surface_outcome(
    functions: Seq<FunctionView>,
    mir: MIRContextView,
    surface: SurfaceView,
    layout: SurfaceLayout,
    target: TargetProperties,
    lifecycle: LifecycleFunc,
    bitmaps: Seq<(PlaceView, u32)>,
    count: nat,
) -> Outcome
    decreases count,
{
    if count == 0 {
        Outcome { events: Seq::empty(), bitmaps, ready: true }
    } else {
        let before = surface_outcome(
            functions,
            mir,
            surface,
            layout,
            target,
            lifecycle,
            bitmaps,
            (count - 1) as nat,
        );
        let index = count - 1;
        let node = surface.nodes[index];
        let callee = node_callee(
            lowered(functions, mir, surface, layout, target, lifecycle, (count - 1) as nat)
                .functions,
            mir,
            node,
            lifecycle,
        );
        let scratch = node_scratch(layout, index);
        let pointers = node_pointers(layout, index);
        Outcome {
            events: before.events + node_events(
                mir,
                node,
                callee,
                target,
                lifecycle,
                scratch,
                pointers,
                before.bitmaps,
            ),
            bitmaps: before.bitmaps + node_bitmaps(
                node,
                target,
                lifecycle,
                pointers,
                before.bitmaps,
            ),
            ready: before.ready && node_ready(node, lifecycle, pointers, before.bitmaps),
        }
    }
}

/// Where lowering goes through, it goes through for every node, and the
/// code for the first nodes is the start of the code for all.
proof fn lemma_lowered_start(
    functions: Seq<FunctionView>,
    mir: MIRContextView,
    surface: SurfaceView,
    layout: SurfaceLayout,
    target: TargetProperties,
    lifecycle: LifecycleFunc,
    count: nat,
    all: nat,
)
    requires
        count <= all,
        lowered(functions, mir, surface, layout, target, lifecycle, all).error.is_none(),
    ensures
        lowered(functions, mir, surface, layout, target, lifecycle, count).error.is_none(),
        holds_at(
            lowered(functions, mir, surface, layout, target, lifecycle, all).code,
            0,
            lowered(functions, mir, surface, layout, target, lifecycle, count).code,
        ),
    decreases all - count,
{
    let whole = lowered(functions, mir, surface, layout, target, lifecycle, all).code;
    if count < all {
        lemma_lowered_start(functions, mir, surface, layout, target, lifecycle, count + 1, all);
        let longer = lowered(functions, mir, surface, layout, target, lifecycle, count + 1);
        let shorter = lowered(functions, mir, surface, layout, target, lifecycle, count);
        assert(shorter.error.is_none());
        assert forall|j: int| 0 <= j < shorter.code.len() implies whole[0 + j]
            == #[trigger] shorter.code[j] by {
            assert(longer.code[j] == shorter.code[j]);
            assert(whole[0 + j] == longer.code[j]);
        }
    }
}

proof fn lemma_step_param(m: MachineView, code: Seq<Instruction>, index: u32)
    requires
        fits(m, code),
        0 <= m.pc < code.len(),
        code[m.pc] == (Instruction::Param { index }),
        index < 2,
    ensures
        m.step(code) == (
            m.with_value(
                WordView::At(
                    PlaceView {
                        root: if index == 0 {
                            Root::Scratch
                        } else {
                            Root::Pointers
                        },
                        path: Seq::empty(),
                    },
                ),
            ),
            Status::Running,
        ),
{
    reveal(MachineView::value_of);
    reveal(MachineView::step);
}

proof fn lemma_step_return(m: MachineView, code: Seq<Instruction>)
    requires
        fits(m, code),
        0 <= m.pc < code.len(),
        code[m.pc] == Instruction::Return,
    ensures
        m.step(code) == (m, Status::Returned),
{
    reveal(MachineView::step);
    reveal(MachineView::act);
}

/// The procedure runs through its first `count` nodes.
proof fn lemma_nodes_run(
    functions: Seq<FunctionView>,
    mir: MIRContextView,
    surface: SurfaceView,
    layout: SurfaceLayout,
    target: TargetProperties,
    lifecycle: LifecycleFunc,
    bitmaps: Seq<(PlaceView, u32)>,
    count: nat,
) -> (fuel: nat)
    requires
        count <= surface.nodes.len(),
        lifecycle_error(functions, mir, surface, layout, target, lifecycle).is_none(),
        well_scoped(
            lowered(functions, mir, surface, layout, target, lifecycle, surface.nodes.len())
                .code.push(Instruction::Return),
        ),
        lowered(functions, mir, surface, layout, target, lifecycle, surface.nodes.len()).code.len()
            < usize::MAX,
        surface_outcome(functions, mir, surface, layout, target, lifecycle, bitmaps, count).ready,
    ensures
        ({
            let code = lowered(
                functions,
                mir,
                surface,
                layout,
                target,
                lifecycle,
                surface.nodes.len(),
            ).code.push(Instruction::Return);
            let (end, status) = MachineView::start(code.len(), bitmaps).run(code, fuel);
            let outcome = surface_outcome(
                functions,
                mir,
                surface,
                layout,
                target,
                lifecycle,
                bitmaps,
                count,
            );
            &&& status == Status::Running
            &&& fits(end, code)
            &&& end.pc == lowered(functions, mir, surface, layout, target, lifecycle, count)
                .code.len()
            &&& end.place_at(0) == Some(PlaceView { root: Root::Scratch, path: Seq::empty() })
            &&& end.place_at(1) == Some(PlaceView { root: Root::Pointers, path: Seq::empty() })
            &&& end.events == outcome.events
            &&& end.bitmaps == outcome.bitmaps
        }),
    decreases count,
{
    let all = surface.nodes.len();
    let whole = lowered(functions, mir, surface, layout, target, lifecycle, all).code;
    let code = whole.push(Instruction::Return);
    let start = MachineView::start(code.len(), bitmaps);
    let scratch_block = PlaceView { root: Root::Scratch, path: Seq::empty() };
    let pointer_block = PlaceView { root: Root::Pointers, path: Seq::empty() };
    if count == 0 {
        lemma_lowered_start(functions, mir, surface, layout, target, lifecycle, 0, all);
        let first = lowered(functions, mir, surface, layout, target, lifecycle, 0).code;
        assert(code[0] == first[0]);
        assert(code[1] == first[1]);
        let m1 = start.with_value(WordView::At(scratch_block));
        lemma_step_param(start, code, 0);
        lemma_made(start, WordView::At(scratch_block));
        lemma_run_step(start, code);
        let m2 = m1.with_value(WordView::At(pointer_block));
        lemma_step_param(m1, code, 1);
        lemma_made(m1, WordView::At(pointer_block));
        lemma_chain(start, code, 1, m1, m2);
        assert(m2.place_at(0) == Some(scratch_block));
        assert(m2.place_at(1) == Some(pointer_block));
        2
    } else {
        let index = (count - 1) as int;
        let f0 = lemma_nodes_run(
            functions,
            mir,
            surface,
            layout,
            target,
            lifecycle,
            bitmaps,
            (count - 1) as nat,
        );
        let m0 = start.run(code, f0).0;
        lemma_lowered_start(functions, mir, surface, layout, target, lifecycle, count, all);
        lemma_lowered_start(
            functions,
            mir,
            surface,
            layout,
            target,
            lifecycle,
            (count - 1) as nat,
            all,
        );
        let before = lowered(
            functions,
            mir,
            surface,
            layout,
            target,
            lifecycle,
            (count - 1) as nat,
        );
        let after = lowered(functions, mir, surface, layout, target, lifecycle, count);
        let node = surface.nodes[index];
        let at = before.code.len() as int;
        let callee = node_callee(before.functions, mir, node, lifecycle);
        let placing = seq![
            Instruction::StructGep { pointer: 0, field: layout.node_scratch_indices[index] },
            Instruction::StructGep { pointer: 1, field: layout.node_pointer_indices[index] },
        ];
        let part = node_code(
            at + 2,
            mir,
            node,
            callee,
            target,
            lifecycle,
            at as usize,
            (at + 1) as usize,
        );
        assert(placed_node_error(mir, surface, layout, target, index).is_none());
        assert(after.code == before.code + placing + part);
        assert(holds_at(code, at, placing + part)) by {
            assert forall|j: int| 0 <= j < (placing + part).len() implies code[at + j]
                == #[trigger] (placing + part)[j] by {
                assert(after.code[at + j] == (placing + part)[j]);
                assert(whole[0 + (at + j)] == after.code[at + j]);
            }
        }
        lemma_holds_parts(code, at, placing, part);
        assert(code[at] == placing[0]);
        assert(code[at + 1] == placing[1]);
        let s = node_scratch(layout, index);
        let p = node_pointers(layout, index);
        assert(scratch_block.on(Step::Field(layout.node_scratch_indices[index])) =~= s);
        assert(pointer_block.on(Step::Field(layout.node_pointer_indices[index])) =~= p);
        let m1 = m0.with_value(WordView::At(s));
        lemma_step_struct_gep(m0, code, 0, layout.node_scratch_indices[index]);
        lemma_made(m0, WordView::At(s));
        lemma_chain(start, code, f0, m0, m1);
        assert(m1.place_at(1) == Some(pointer_block));
        let m2 = m1.with_value(WordView::At(p));
        lemma_step_struct_gep(m1, code, 1, layout.node_pointer_indices[index]);
        lemma_made(m1, WordView::At(p));
        lemma_chain(start, code, f0 + 1, m1, m2);
        assert(m2.place_at(at as usize) == Some(s));
        assert(m2.place_at((at + 1) as usize) == Some(p));
        let f1 = law_node_runs(
            code,
            m2,
            at + 2,
            mir,
            node,
            index as usize,
            callee,
            target,
            lifecycle,
            at as usize,
            (at + 1) as usize,
        );
        let m3 = m2.run(code, f1).0;
        lemma_run_on(start, code, f0 + 2, f1);
        assert(m3.place_at(0) == Some(scratch_block));
        assert(m3.place_at(1) == Some(pointer_block));
        f0 + 2 + f1
    }
}

/// The procedure of a surface deals with the nodes of the surface in
/// their order, each on its own part of the scratch block and the pointer
/// block, and returns: run from its start, knowing these bitmaps, it does
/// what `surface_outcome` says and nothing else.
///
/// Every node has to find what it reads.
pub proof fn law_procedure_runs(
    functions: Seq<FunctionView>,
    mir: MIRContextView,
    surface: SurfaceView,
    layout: SurfaceLayout,
    target: TargetProperties,
    lifecycle: LifecycleFunc,
    bitmaps: Seq<(PlaceView, u32)>,
) -> (fuel: nat)
    requires
        lifecycle_error(functions, mir, surface, layout, target, lifecycle).is_none(),
        well_scoped(
            lowered(functions, mir, surface, layout, target, lifecycle, surface.nodes.len())
                .code.push(Instruction::Return),
        ),
        lowered(functions, mir, surface, layout, target, lifecycle, surface.nodes.len()).code.len()
            < usize::MAX,
        surface_outcome(
            functions,
            mir,
            surface,
            layout,
            target,
            lifecycle,
            bitmaps,
            surface.nodes.len(),
        ).ready,
    ensures
        ({
            let code = lowered(
                functions,
                mir,
                surface,
                layout,
                target,
                lifecycle,
                surface.nodes.len(),
            ).code.push(Instruction::Return);
            let (end, status) = MachineView::start(code.len(), bitmaps).run(code, fuel);
            let outcome = surface_outcome(
                functions,
                mir,
                surface,
                layout,
                target,
                lifecycle,
                bitmaps,
                surface.nodes.len(),
            );
            &&& status == Status::Returned
            &&& end.events == outcome.events
            &&& end.bitmaps == outcome.bitmaps
        }),
{
    let all = surface.nodes.len();
    let whole = lowered(functions, mir, surface, layout, target, lifecycle, all).code;
    let code = whole.push(Instruction::Return);
    let start = MachineView::start(code.len(), bitmaps);
    let f0 = lemma_nodes_run(functions, mir, surface, layout, target, lifecycle, bitmaps, all);
    let m0 = start.run(code, f0).0;
    lemma_step_return(m0, code);
    lemma_run_on(start, code, f0, 1);
    reveal_with_fuel(MachineView::run, 2);
    f0 + 1
}

} // verus!
