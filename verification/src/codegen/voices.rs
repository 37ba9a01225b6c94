//! What the code of a node with a surface per voice does when it runs.

use super::instruction::{well_scoped, FunctionRef, Instruction, ValueRef};
use super::machine::{
    bitmap_of, entry_from, entry_of, EventView, MachineView, PlaceView, Root, Status, Step,
    WordView,
};
use super::surface::{
    are_fields, gate_code, loop_body, loop_code, loop_gate, loop_head, publish_code, voices_code,
};
use super::target_properties::{all_slots_spec, is_live};
use super::LifecycleFunc;
use vstd::prelude::*;

verus! {

/// The instructions of `part` stand in `code` from `base` on.
pub open spec fn holds_at(code: Seq<Instruction>, base: int, part: Seq<Instruction>) -> bool {
    &&& 0 <= base
    &&& base + part.len() <= code.len()
    &&& forall|j: int| 0 <= j < part.len() ==> code[base + j] == #[trigger] part[j]
}

/// What stands in `code` from `base` on stands there in all its parts.
pub proof fn lemma_holds_parts(
    code: Seq<Instruction>,
    base: int,
    first: Seq<Instruction>,
    second: Seq<Instruction>,
)
    requires
        holds_at(code, base, first + second),
    ensures
        holds_at(code, base, first),
        holds_at(code, base + first.len(), second),
{
    assert forall|j: int| 0 <= j < first.len() implies code[base + j] == #[trigger] first[j] by {
        assert((first + second)[j] == first[j]);
    }
    assert forall|j: int| 0 <= j < second.len() implies code[base + first.len() + j]
        == #[trigger] second[j] by {
        assert((first + second)[first.len() + j] == second[j]);
    }
}

/// The machine is in order for `code`: it has a value and a place on the
/// stack for every instruction.
pub open spec fn fits(m: MachineView, code: Seq<Instruction>) -> bool {
    m.values.len() == code.len() && m.stack.len() == code.len() && code.len() <= usize::MAX
}

/// The machine `later` holds what `earlier` held below `base`.
pub open spec fn keeps_below(later: MachineView, earlier: MachineView, base: int) -> bool {
    &&& later.values.len() == earlier.values.len()
    &&& later.stack.len() == earlier.stack.len()
    &&& forall|v: int|
        0 <= v < base && v < earlier.values.len() ==> later.values[v] == earlier.values[v]
}

/// A machine that runs on after it has run goes as far as if it had run the
/// whole way at once.
pub proof fn lemma_run_on(m: MachineView, code: Seq<Instruction>, first: nat, second: nat)
    requires
        m.run(code, first).1 == Status::Running,
    ensures
        m.run(code, first + second) == m.run(code, first).0.run(code, second),
    decreases first,
{
    if first > 0 {
        let (next, status) = m.step(code);
        if status == Status::Running {
            lemma_run_on(next, code, (first - 1) as nat, second);
        }
    }
}

/// One step that goes well is a run of one instruction.
pub proof fn lemma_run_step(m: MachineView, code: Seq<Instruction>)
    requires
        m.step(code).1 == Status::Running,
    ensures
        m.run(code, 1) == m.step(code),
{
    reveal_with_fuel(MachineView::run, 2);
}

/// Where the code of a basic block starts: after the first instruction
/// that positions the builder at its end.
pub proof fn lemma_entry(code: Seq<Instruction>, block: usize, at: int, from: int)
    requires
        0 <= from <= at < code.len(),
        code[at] == (Instruction::PositionAtEnd { block }),
        forall|i: int| from <= i < at ==> code[i] != (Instruction::PositionAtEnd { block }),
    ensures
        entry_from(code, block, from) == Some(at + 1),
    decreases at - from,
{
    if from < at {
        lemma_entry(code, block, at, from + 1);
    }
}

/// In a well scoped stream, no instruction up to the one that appends a
/// basic block names the block.
pub proof fn lemma_not_positioned(code: Seq<Instruction>, block: usize, i: int)
    requires
        well_scoped(code),
        0 <= i <= block,
        i < code.len(),
    ensures
        code[i] != (Instruction::PositionAtEnd { block }),
{
    if code[i] == (Instruction::PositionAtEnd { block }) {
        assert(code[i].in_scope(code.take(i)));
        assert(code[i].targets()[0] == block);
    }
}

/// A run that goes one step on.
pub proof fn lemma_chain(
    m: MachineView,
    code: Seq<Instruction>,
    fuel: nat,
    reached: MachineView,
    next: MachineView,
)
    requires
        m.run(code, fuel) == (reached, Status::Running),
        reached.step(code) == (next, Status::Running),
    ensures
        m.run(code, fuel + 1) == (next, Status::Running),
{
    lemma_run_step(reached, code);
    lemma_run_on(m, code, fuel, 1);
}

/// What a machine holds once the instruction at `pc` has made a word:
/// that word at `pc`, and elsewhere what it held.
pub proof fn lemma_made(m: MachineView, word: WordView)
    requires
        0 <= m.pc < m.values.len(),
    ensures
        m.with_value(word).values[m.pc] == Some(word),
        forall|v: int|
            0 <= v < m.values.len() && v != m.pc ==> m.with_value(word).values[v] == m.values[v],
        m.with_value(word).values.len() == m.values.len(),
        m.with_value(word).stack == m.stack,
        m.with_value(word).bitmaps == m.bitmaps,
        m.with_value(word).events == m.events,
        m.with_value(word).pc == m.pc + 1,
{
}

/// An instruction that makes a value makes it, and the machine goes on.
pub proof fn lemma_step_value(m: MachineView, code: Seq<Instruction>, word: WordView)
    requires
        fits(m, code),
        0 <= m.pc < code.len(),
        code[m.pc].makes_value(),
        m.value_of(code[m.pc]) == Some(word),
    ensures
        m.step(code) == (m.with_value(word), Status::Running),
{
    reveal(MachineView::step);
}

pub proof fn lemma_step_const(m: MachineView, code: Seq<Instruction>, value: u32)
    requires
        fits(m, code),
        0 <= m.pc < code.len(),
        code[m.pc] == (Instruction::ConstInt { value }),
    ensures
        m.step(code) == (m.with_value(WordView::Int(value)), Status::Running),
{
    reveal(MachineView::value_of);
    lemma_step_value(m, code, WordView::Int(value));
}

pub proof fn lemma_step_alloca(m: MachineView, code: Seq<Instruction>)
    requires
        fits(m, code),
        0 <= m.pc < code.len(),
        code[m.pc] == Instruction::Alloca,
    ensures
        m.step(code) == (
            m.with_value(
                WordView::At(PlaceView { root: Root::Stack(m.pc as usize), path: Seq::empty() }),
            ),
            Status::Running,
        ),
{
    reveal(MachineView::value_of);
    lemma_step_value(
        m,
        code,
        WordView::At(PlaceView { root: Root::Stack(m.pc as usize), path: Seq::empty() }),
    );
}

pub proof fn lemma_step_struct_gep(
    m: MachineView,
    code: Seq<Instruction>,
    pointer: ValueRef,
    field: u32,
)
    requires
        fits(m, code),
        0 <= m.pc < code.len(),
        code[m.pc] == (Instruction::StructGep { pointer, field }),
        m.place_at(pointer).is_some(),
    ensures
        m.step(code) == (
            m.with_value(WordView::At(m.place_at(pointer).unwrap().on(Step::Field(field)))),
            Status::Running,
        ),
{
    reveal(MachineView::value_of);
    lemma_step_value(
        m,
        code,
        WordView::At(m.place_at(pointer).unwrap().on(Step::Field(field))),
    );
}

pub proof fn lemma_step_element_gep(
    m: MachineView,
    code: Seq<Instruction>,
    pointer: ValueRef,
    index: ValueRef,
)
    requires
        fits(m, code),
        0 <= m.pc < code.len(),
        code[m.pc] == (Instruction::InBoundsGep { pointer, element: index }),
        m.place_at(pointer).is_some(),
        m.int_at(index).is_some(),
    ensures
        m.step(code) == (
            m.with_value(
                WordView::At(
                    m.place_at(pointer).unwrap().on(Step::Element(m.int_at(index).unwrap())),
                ),
            ),
            Status::Running,
        ),
{
    reveal(MachineView::value_of);
    lemma_step_value(
        m,
        code,
        WordView::At(m.place_at(pointer).unwrap().on(Step::Element(m.int_at(index).unwrap()))),
    );
}

/// A load from one of the two blocks of memory makes the address that is
/// stored there.
pub proof fn lemma_step_load_pointer(m: MachineView, code: Seq<Instruction>, pointer: ValueRef)
    requires
        fits(m, code),
        0 <= m.pc < code.len(),
        code[m.pc] == (Instruction::Load { pointer }),
        m.place_at(pointer).is_some(),
        !(m.place_at(pointer).unwrap().root is Stack),
    ensures
        m.step(code) == (
            m.with_value(WordView::At(m.place_at(pointer).unwrap().on(Step::Target))),
            Status::Running,
        ),
{
    reveal(MachineView::value_of);
    lemma_step_value(m, code, WordView::At(m.place_at(pointer).unwrap().on(Step::Target)));
}

/// A load from a place on the stack makes what was stored there.
pub proof fn lemma_step_load_stack(
    m: MachineView,
    code: Seq<Instruction>,
    pointer: ValueRef,
    slot: int,
    number: u32,
)
    requires
        fits(m, code),
        0 <= m.pc < code.len(),
        code[m.pc] == (Instruction::Load { pointer }),
        0 <= slot < m.stack.len(),
        m.place_at(pointer) == Some(
            PlaceView { root: Root::Stack(slot as usize), path: Seq::empty() },
        ),
        m.stack[slot] == Some(number),
    ensures
        m.step(code) == (m.with_value(WordView::Int(number)), Status::Running),
{
    reveal(MachineView::value_of);
    lemma_step_value(m, code, WordView::Int(number));
}

pub proof fn lemma_step_store(
    m: MachineView,
    code: Seq<Instruction>,
    pointer: ValueRef,
    value: ValueRef,
    slot: int,
)
    requires
        fits(m, code),
        0 <= m.pc < code.len(),
        code[m.pc] == (Instruction::Store { pointer, word: value }),
        0 <= slot < m.stack.len(),
        m.place_at(pointer) == Some(
            PlaceView { root: Root::Stack(slot as usize), path: Seq::empty() },
        ),
        m.int_at(value).is_some(),
    ensures
        m.step(code) == (
            MachineView {
                pc: m.pc + 1,
                stack: m.stack.update(slot, Some(m.int_at(value).unwrap())),
                ..m
            },
            Status::Running,
        ),
{
    reveal(MachineView::step);
    reveal(MachineView::act);
}

pub proof fn lemma_step_get_bitmap(m: MachineView, code: Seq<Instruction>, array: ValueRef)
    requires
        fits(m, code),
        0 <= m.pc < code.len(),
        code[m.pc] == (Instruction::GetBitmap { array }),
        m.place_at(array).is_some(),
        bitmap_of(m.bitmaps, m.place_at(array).unwrap()).is_some(),
    ensures
        m.step(code) == (
            m.with_value(
                WordView::Int(bitmap_of(m.bitmaps, m.place_at(array).unwrap()).unwrap()),
            ),
            Status::Running,
        ),
{
    reveal(MachineView::value_of);
    lemma_step_value(
        m,
        code,
        WordView::Int(bitmap_of(m.bitmaps, m.place_at(array).unwrap()).unwrap()),
    );
}

pub proof fn lemma_step_set_bitmap(
    m: MachineView,
    code: Seq<Instruction>,
    array: ValueRef,
    bitmap: ValueRef,
)
    requires
        fits(m, code),
        0 <= m.pc < code.len(),
        code[m.pc] == (Instruction::SetBitmap { array, bitmap }),
        m.place_at(array).is_some(),
        m.int_at(bitmap).is_some(),
    ensures
        m.step(code) == (
            MachineView {
                pc: m.pc + 1,
                bitmaps: m.bitmaps.push((m.place_at(array).unwrap(), m.int_at(bitmap).unwrap())),
                events: m.events.push(
                    EventView::SetBitmap {
                        array: m.place_at(array).unwrap(),
                        bitmap: m.int_at(bitmap).unwrap(),
                    },
                ),
                ..m
            },
            Status::Running,
        ),
{
    reveal(MachineView::step);
    reveal(MachineView::act);
}

pub proof fn lemma_step_call(
    m: MachineView,
    code: Seq<Instruction>,
    function: FunctionRef,
    scratch: ValueRef,
    pointers: ValueRef,
)
    requires
        fits(m, code),
        0 <= m.pc < code.len(),
        code[m.pc] == (Instruction::Call { function, scratch, pointers }),
        m.place_at(scratch).is_some(),
        m.place_at(pointers).is_some(),
    ensures
        m.step(code) == (
            m.with_event(
                EventView::Call {
                    function,
                    scratch: m.place_at(scratch).unwrap(),
                    pointers: m.place_at(pointers).unwrap(),
                },
            ),
            Status::Running,
        ),
{
    reveal(MachineView::step);
    reveal(MachineView::act);
}

pub proof fn lemma_step_append(m: MachineView, code: Seq<Instruction>)
    requires
        fits(m, code),
        0 <= m.pc < code.len(),
        code[m.pc] == Instruction::AppendBasicBlock,
    ensures
        m.step(code) == (MachineView { pc: m.pc + 1, ..m }, Status::Running),
{
    reveal(MachineView::step);
    reveal(MachineView::act);
}

pub proof fn lemma_step_branch(m: MachineView, code: Seq<Instruction>, block: usize, entry: int)
    requires
        fits(m, code),
        0 <= m.pc < code.len(),
        code[m.pc] == (Instruction::Branch { block }),
        entry_of(code, block) == Some(entry),
    ensures
        m.step(code) == (MachineView { pc: entry, ..m }, Status::Running),
{
    reveal(MachineView::step);
    reveal(MachineView::act);
}

pub proof fn lemma_step_conditional_branch(
    m: MachineView,
    code: Seq<Instruction>,
    condition: ValueRef,
    then_block: usize,
    else_block: usize,
    entry: int,
)
    requires
        fits(m, code),
        0 <= m.pc < code.len(),
        code[m.pc] == (Instruction::ConditionalBranch { condition, then_block, else_block }),
        m.int_at(condition).is_some(),
        entry_of(
            code,
            if m.int_at(condition).unwrap() != 0 {
                then_block
            } else {
                else_block
            },
        ) == Some(entry),
    ensures
        m.step(code) == (MachineView { pc: entry, ..m }, Status::Running),
{
    reveal(MachineView::step);
    reveal(MachineView::act);
}

/// The instructions that work on two integers make what their names say.
pub proof fn lemma_step_binary(m: MachineView, code: Seq<Instruction>, lhs: ValueRef, rhs: ValueRef)
    requires
        fits(m, code),
        0 <= m.pc < code.len(),
        m.int_at(lhs).is_some(),
        m.int_at(rhs).is_some(),
    ensures
        code[m.pc] == (Instruction::Or { lhs, rhs }) ==> m.step(code) == (
            m.with_value(WordView::Int(m.int_at(lhs).unwrap() | m.int_at(rhs).unwrap())),
            Status::Running,
        ),
        code[m.pc] == (Instruction::And { lhs, rhs }) ==> m.step(code) == (
            m.with_value(WordView::Int(m.int_at(lhs).unwrap() & m.int_at(rhs).unwrap())),
            Status::Running,
        ),
        code[m.pc] == (Instruction::IntAdd { lhs, rhs }) ==> m.step(code) == (
            m.with_value(
                WordView::Int(
                    ((m.int_at(lhs).unwrap() + m.int_at(rhs).unwrap()) % 0x1_0000_0000) as u32,
                ),
            ),
            Status::Running,
        ),
        code[m.pc] == (Instruction::CompareBelow { lhs, rhs }) ==> m.step(code) == (
            m.with_value(
                WordView::Int(
                    if m.int_at(lhs).unwrap() < m.int_at(rhs).unwrap() {
                        1
                    } else {
                        0
                    },
                ),
            ),
            Status::Running,
        ),
        code[m.pc] == (Instruction::LeftShift { lhs, rhs }) && m.int_at(rhs).unwrap() < 32
            ==> m.step(code) == (
            m.with_value(WordView::Int(m.int_at(lhs).unwrap() << m.int_at(rhs).unwrap())),
            Status::Running,
        ),
        code[m.pc] == (Instruction::RightShift { lhs, rhs }) && m.int_at(rhs).unwrap() < 32
            ==> m.step(code) == (
            m.with_value(WordView::Int(m.int_at(lhs).unwrap() >> m.int_at(rhs).unwrap())),
            Status::Running,
        ),
{
    reveal(MachineView::value_of);
    reveal(MachineView::step);
}

pub proof fn lemma_step_cast(m: MachineView, code: Seq<Instruction>, value: ValueRef)
    requires
        fits(m, code),
        0 <= m.pc < code.len(),
        code[m.pc] == (Instruction::CastToBool { word: value }),
        m.int_at(value).is_some(),
    ensures
        m.step(code) == (
            m.with_value(WordView::Int(m.int_at(value).unwrap() & 1)),
            Status::Running,
        ),
{
    reveal(MachineView::value_of);
    lemma_step_value(m, code, WordView::Int(m.int_at(value).unwrap() & 1));
}

/// The array bound to a socket of a node: what the pointer in that field
/// of the pointer block of the node points to.
pub open spec fn array_place(pointers: PlaceView, socket: usize) -> PlaceView {
    pointers.on(Step::Field(socket as u32)).on(Step::Target)
}

/// Every array bound to a socket of the list has a bitmap.
pub open spec fn have_bitmaps(
    bitmaps: Seq<(PlaceView, u32)>,
    pointers: PlaceView,
    sockets: Seq<usize>,
) -> bool {
    forall|i: int|
        0 <= i < sockets.len() ==> bitmap_of(
            bitmaps,
            array_place(pointers, #[trigger] sockets[i]),
        ).is_some()
}

/// The bitmaps of the arrays bound to the sockets of the list, joined by
/// `or`: a voice is live in it if it is live in one of them.
pub open spec fn joined_bitmaps(
    bitmaps: Seq<(PlaceView, u32)>,
    pointers: PlaceView,
    sockets: Seq<usize>,
) -> u32
    decreases sockets.len(),
{
    if sockets.len() == 0 {
        0
    } else {
        joined_bitmaps(bitmaps, pointers, sockets.drop_last()) | bitmap_of(
            bitmaps,
            array_place(pointers, sockets.last()),
        ).unwrap()
    }
}

/// How long the code is that joins the bitmaps of that many arrays.
pub proof fn lemma_gate_len(base: int, pointers: ValueRef, sockets: Seq<usize>)
    requires
        sockets.len() > 0,
    ensures
        gate_code(base, pointers, sockets).len() == 4 * sockets.len() - 1,
    decreases sockets.len(),
{
    if sockets.len() > 1 {
        lemma_gate_len(base, pointers, sockets.drop_last());
    }
}

/// The code that joins the bitmaps runs to its end, and its last
/// instruction makes the joined bitmap. Nothing else changes.
pub proof fn lemma_gate_runs(
    code: Seq<Instruction>,
    m: MachineView,
    base: int,
    pointers: ValueRef,
    sockets: Seq<usize>,
) -> (fuel: nat)
    requires
        fits(m, code),
        holds_at(code, base, gate_code(base, pointers, sockets)),
        sockets.len() > 0,
        are_fields(sockets),
        m.pc == base,
        pointers < base,
        m.place_at(pointers).is_some(),
        !(m.place_at(pointers).unwrap().root is Stack),
        have_bitmaps(m.bitmaps, m.place_at(pointers).unwrap(), sockets),
    ensures
        ({
            let (end, status) = m.run(code, fuel);
            let length = gate_code(base, pointers, sockets).len();
            &&& status == Status::Running
            &&& end.pc == base + length
            &&& end.int_at((base + length - 1) as usize) == Some(
                joined_bitmaps(m.bitmaps, m.place_at(pointers).unwrap(), sockets),
            )
            &&& end.bitmaps == m.bitmaps
            &&& end.events == m.events
            &&& end.stack == m.stack
            &&& keeps_below(end, m, base)
        }),
    decreases sockets.len(),
{
    let p = m.place_at(pointers).unwrap();
    let part = gate_code(base, pointers, sockets);
    lemma_gate_len(base, pointers, sockets);
    if sockets.len() == 1 {
        let socket = sockets[0];
        let array = array_place(p, socket);
        let bitmap = bitmap_of(m.bitmaps, array).unwrap();
        assert(code[base] == part[0]);
        assert(code[base + 1] == part[1]);
        assert(code[base + 2] == part[2]);
        let m1 = m.with_value(WordView::At(p.on(Step::Field(socket as u32))));
        lemma_step_struct_gep(m, code, pointers, socket as u32);
        lemma_made(m, WordView::At(p.on(Step::Field(socket as u32))));
        lemma_run_step(m, code);
        let m2 = m1.with_value(WordView::At(array));
        assert(m1.place_at(base as usize) == Some(p.on(Step::Field(socket as u32))));
        lemma_step_load_pointer(m1, code, base as usize);
        lemma_made(m1, WordView::At(array));
        lemma_chain(m, code, 1, m1, m2);
        let m3 = m2.with_value(WordView::Int(bitmap));
        assert(m2.place_at((base + 1) as usize) == Some(array));
        lemma_step_get_bitmap(m2, code, (base + 1) as usize);
        lemma_made(m2, WordView::Int(bitmap));
        lemma_chain(m, code, 2, m2, m3);
        assert(sockets.drop_last().len() == 0);
        assert(0u32 | bitmap == bitmap) by (bit_vector);
        assert(sockets.last() == socket);
        assert(joined_bitmaps(m.bitmaps, p, sockets.drop_last()) == 0);
        assert(joined_bitmaps(m.bitmaps, p, sockets) == 0u32 | bitmap);
        assert(m.run(code, 3) == (m3, Status::Running));
        assert(m3.int_at((base + 2) as usize) == Some(bitmap));
        assert(keeps_below(m3, m, base));
        3
    } else {
        let before = gate_code(base, pointers, sockets.drop_last());
        let tail = seq![
            Instruction::StructGep { pointer: pointers, field: sockets.last() as u32 },
            Instruction::Load { pointer: (base + before.len()) as usize },
            Instruction::GetBitmap { array: (base + before.len() + 1) as usize },
            Instruction::Or {
                lhs: (base + before.len() - 1) as usize,
                rhs: (base + before.len() + 2) as usize,
            },
        ];
        assert(part == before + tail);
        lemma_holds_parts(code, base, before, tail);
        lemma_gate_len(base, pointers, sockets.drop_last());
        assert forall|i: int| 0 <= i < sockets.drop_last().len() implies bitmap_of(
            m.bitmaps,
            array_place(p, #[trigger] sockets.drop_last()[i]),
        ).is_some() by {
            assert(sockets.drop_last()[i] == sockets[i]);
        }
        assert(are_fields(sockets.drop_last())) by {
            assert forall|i: int| 0 <= i < sockets.drop_last().len() implies (
            #[trigger] sockets.drop_last()[i]) <= u32::MAX by {
                assert(sockets.drop_last()[i] == sockets[i]);
            }
        }
        let f0 = lemma_gate_runs(code, m, base, pointers, sockets.drop_last());
        let m0 = m.run(code, f0).0;
        let at = base + before.len();
        let socket = sockets.last();
        assert(sockets[sockets.len() - 1] == socket);
        let array = array_place(p, socket);
        let bitmap = bitmap_of(m.bitmaps, array).unwrap();
        let so_far = joined_bitmaps(m.bitmaps, p, sockets.drop_last());
        assert(code[at] == tail[0]);
        assert(code[at + 1] == tail[1]);
        assert(code[at + 2] == tail[2]);
        assert(code[at + 3] == tail[3]);
        assert(m0.place_at(pointers) == Some(p));
        let m1 = m0.with_value(WordView::At(p.on(Step::Field(socket as u32))));
        lemma_step_struct_gep(m0, code, pointers, socket as u32);
        lemma_made(m0, WordView::At(p.on(Step::Field(socket as u32))));
        lemma_chain(m, code, f0, m0, m1);
        let m2 = m1.with_value(WordView::At(array));
        assert(m1.place_at(at as usize) == Some(p.on(Step::Field(socket as u32))));
        lemma_step_load_pointer(m1, code, at as usize);
        lemma_made(m1, WordView::At(array));
        lemma_chain(m, code, f0 + 1, m1, m2);
        let m3 = m2.with_value(WordView::Int(bitmap));
        assert(m2.place_at((at + 1) as usize) == Some(array));
        lemma_step_get_bitmap(m2, code, (at + 1) as usize);
        lemma_made(m2, WordView::Int(bitmap));
        lemma_chain(m, code, f0 + 2, m2, m3);
        let m4 = m3.with_value(WordView::Int(so_far | bitmap));
        assert(m3.int_at((at - 1) as usize) == Some(so_far));
        assert(m3.int_at((at + 2) as usize) == Some(bitmap));
        lemma_step_binary(m3, code, (at - 1) as usize, (at + 2) as usize);
        lemma_made(m3, WordView::Int(so_far | bitmap));
        lemma_chain(m, code, f0 + 3, m3, m4);
        assert(m.run(code, f0 + 4) == (m4, Status::Running));
        assert(joined_bitmaps(m.bitmaps, p, sockets) == so_far | bitmap);
        assert(m4.int_at((at + 3) as usize) == Some(so_far | bitmap));
        assert(keeps_below(m4, m, base));
        f0 + 4
    }
}

/// The bitmaps that the arrays bound to the sockets of the list get.
pub open spec fn published_bitmaps(pointers: PlaceView, sockets: Seq<usize>, bitmap: u32) -> Seq<
    (PlaceView, u32),
> {
    sockets.map_values(|socket: usize| (array_place(pointers, socket), bitmap))
}

/// What the procedure does when it makes `bitmap` the bitmap of the arrays
/// bound to the sockets of the list, in their order.
pub open spec fn publish_events(pointers: PlaceView, sockets: Seq<usize>, bitmap: u32) -> Seq<
    EventView,
> {
    sockets.map_values(
        |socket: usize| EventView::SetBitmap { array: array_place(pointers, socket), bitmap },
    )
}

/// The code that tells the arrays runs to its end, and each array of the
/// list gets the bitmap. Nothing else changes.
pub proof fn lemma_publish_runs(
    code: Seq<Instruction>,
    m: MachineView,
    base: int,
    pointers: ValueRef,
    sockets: Seq<usize>,
    bitmap: ValueRef,
) -> (fuel: nat)
    requires
        fits(m, code),
        holds_at(code, base, publish_code(base, pointers, sockets, bitmap)),
        are_fields(sockets),
        m.pc == base,
        pointers < base,
        bitmap < base,
        m.place_at(pointers).is_some(),
        !(m.place_at(pointers).unwrap().root is Stack),
        m.int_at(bitmap).is_some(),
    ensures
        ({
            let (end, status) = m.run(code, fuel);
            let p = m.place_at(pointers).unwrap();
            let b = m.int_at(bitmap).unwrap();
            &&& status == Status::Running
            &&& fits(end, code)
            &&& end.pc == base + publish_code(base, pointers, sockets, bitmap).len()
            &&& end.bitmaps == m.bitmaps + published_bitmaps(p, sockets, b)
            &&& end.events == m.events + publish_events(p, sockets, b)
            &&& end.stack == m.stack
            &&& keeps_below(end, m, base)
        }),
    decreases sockets.len(),
{
    let p = m.place_at(pointers).unwrap();
    let b = m.int_at(bitmap).unwrap();
    if sockets.len() == 0 {
        assert(m.bitmaps + published_bitmaps(p, sockets, b) =~= m.bitmaps);
        assert(m.events + publish_events(p, sockets, b) =~= m.events);
        0
    } else {
        let before = publish_code(base, pointers, sockets.drop_last(), bitmap);
        let at = base + before.len();
        let tail = seq![
            Instruction::StructGep { pointer: pointers, field: sockets.last() as u32 },
            Instruction::Load { pointer: at as usize },
            Instruction::SetBitmap { array: (at + 1) as usize, bitmap },
        ];
        assert(publish_code(base, pointers, sockets, bitmap) == before + tail);
        lemma_holds_parts(code, base, before, tail);
        assert(are_fields(sockets.drop_last())) by {
            assert forall|i: int| 0 <= i < sockets.drop_last().len() implies (
            #[trigger] sockets.drop_last()[i]) <= u32::MAX by {
                assert(sockets.drop_last()[i] == sockets[i]);
            }
        }
        let f0 = lemma_publish_runs(code, m, base, pointers, sockets.drop_last(), bitmap);
        let m0 = m.run(code, f0).0;
        let socket = sockets.last();
        assert(sockets[sockets.len() - 1] == socket);
        let array = array_place(p, socket);
        assert(code[at] == tail[0]);
        assert(code[at + 1] == tail[1]);
        assert(code[at + 2] == tail[2]);
        assert(m0.place_at(pointers) == Some(p));
        assert(m0.int_at(bitmap) == Some(b));
        let m1 = m0.with_value(WordView::At(p.on(Step::Field(socket as u32))));
        lemma_step_struct_gep(m0, code, pointers, socket as u32);
        lemma_made(m0, WordView::At(p.on(Step::Field(socket as u32))));
        lemma_chain(m, code, f0, m0, m1);
        let m2 = m1.with_value(WordView::At(array));
        assert(m1.place_at(at as usize) == Some(p.on(Step::Field(socket as u32))));
        lemma_step_load_pointer(m1, code, at as usize);
        lemma_made(m1, WordView::At(array));
        lemma_chain(m, code, f0 + 1, m1, m2);
        assert(m2.place_at((at + 1) as usize) == Some(array));
        assert(m2.int_at(bitmap) == Some(b));
        let m3 = MachineView {
            pc: m2.pc + 1,
            bitmaps: m2.bitmaps.push((array, b)),
            events: m2.events.push(EventView::SetBitmap { array, bitmap: b }),
            ..m2
        };
        lemma_step_set_bitmap(m2, code, (at + 1) as usize, bitmap);
        lemma_chain(m, code, f0 + 2, m2, m3);
        assert(m.run(code, f0 + 3) == (m3, Status::Running));
        assert(m3.bitmaps =~= m.bitmaps + published_bitmaps(p, sockets, b)) by {
            assert(published_bitmaps(p, sockets, b) =~= published_bitmaps(
                p,
                sockets.drop_last(),
                b,
            ).push((array, b)));
        }
        assert(m3.events =~= m.events + publish_events(p, sockets, b)) by {
            assert(publish_events(p, sockets, b) =~= publish_events(
                p,
                sockets.drop_last(),
                b,
            ).push(EventView::SetBitmap { array, bitmap: b }));
        }
        assert(keeps_below(m3, m, base));
        f0 + 3
    }
}

/// Whether a voice runs: with a gate if it is live, and without one in
/// any case.
pub open spec fn runs(gate: Option<u32>, voice: u32) -> bool {
    match gate {
        Some(bitmap) => is_live(bitmap, voice),
        None => true,
    }
}

/// The call of the procedure for one voice: on the element of the voice of
/// the scratch block and of the pointer block of the node.
pub open spec fn voice_call(
    callee: FunctionRef,
    scratch: PlaceView,
    pointers: PlaceView,
    voice: u32,
) -> EventView {
    EventView::Call {
        function: callee,
        scratch: scratch.on(Step::Element(voice)),
        pointers: pointers.on(Step::Element(voice)),
    }
}

/// The calls for the first `count` voices: one for each voice that runs,
/// in the order of the voices.
pub open spec fn voice_calls(
    callee: FunctionRef,
    scratch: PlaceView,
    pointers: PlaceView,
    gate: Option<u32>,
    count: nat,
) -> Seq<EventView>
    decreases count,
{
    if count == 0 {
        Seq::empty()
    } else {
        let before = voice_calls(callee, scratch, pointers, gate, (count - 1) as nat);
        if runs(gate, (count - 1) as u32) {
            before.push(voice_call(callee, scratch, pointers, (count - 1) as u32))
        } else {
            before
        }
    }
}

/// A loop over the voices in its stream.
pub struct LoopFrame {
    /// The stream.
    pub code: Seq<Instruction>,
    /// Where the loop starts in the stream.
    pub base: int,
    pub callee: FunctionRef,
    pub capacity: u32,
    pub scratch: ValueRef,
    pub pointers: ValueRef,
    pub gate: Option<ValueRef>,
}

impl LoopFrame {
    /// The code of the loop.
    pub open spec fn part(self) -> Seq<Instruction> {
        loop_code(self.base, self.callee, self.capacity, self.scratch, self.pointers, self.gate)
    }

    /// The loop stands in its stream, which is well scoped, and uses
    /// values made before it.
    pub open spec fn in_place(self) -> bool {
        &&& well_scoped(self.code)
        &&& self.code.len() <= usize::MAX
        &&& holds_at(self.code, self.base, self.part())
        &&& self.capacity <= 32
        &&& self.scratch < self.base
        &&& self.pointers < self.base
        &&& self.gate matches Some(bitmap) ==> bitmap < self.base
    }

    /// Where the code of the body of the loop starts.
    pub open spec fn body_entry(self) -> int {
        if self.gate.is_some() {
            self.base + 24
        } else {
            self.base + 19
        }
    }

    /// Where the code after the loop starts.
    pub open spec fn end_entry(self) -> int {
        if self.gate.is_some() {
            self.base + 29
        } else {
            self.base + 24
        }
    }

    /// The address of the counter of the loop.
    pub open spec fn counter(self) -> PlaceView {
        PlaceView { root: Root::Stack(self.base as usize), path: Seq::empty() }
    }

    /// The bitmap that gates the loop, as the machine holds it.
    pub open spec fn gate_of(self, m: MachineView) -> Option<u32> {
        match self.gate {
            Some(bitmap) => m.int_at(bitmap),
            None => None,
        }
    }

    /// What holds of the machine `m` while the loop runs, `origin` being
    /// the machine at the start of the loop: the calls for the first `round`
    /// voices are made, the counter stands at `counter`, and all else is as
    /// it was.
    pub open spec fn holds(
        self,
        m: MachineView,
        origin: MachineView,
        round: nat,
        counter: nat,
    ) -> bool {
        &&& fits(m, self.code)
        &&& round <= self.capacity
        &&& counter <= self.capacity
        &&& m.place_at(self.base as usize) == Some(self.counter())
        &&& m.stack[self.base] == Some(counter as u32)
        &&& origin.place_at(self.scratch).is_some()
        &&& origin.place_at(self.pointers).is_some()
        &&& m.place_at(self.scratch) == origin.place_at(self.scratch)
        &&& m.place_at(self.pointers) == origin.place_at(self.pointers)
        &&& self.gate matches Some(bitmap) ==> origin.int_at(bitmap).is_some() && m.int_at(bitmap)
            == origin.int_at(bitmap)
        &&& m.bitmaps == origin.bitmaps
        &&& m.events == origin.events + voice_calls(
            self.callee,
            origin.place_at(self.scratch).unwrap(),
            origin.place_at(self.pointers).unwrap(),
            self.gate_of(origin),
            round,
        )
        &&& keeps_below(m, origin, self.base)
    }

    /// What the head of the loop is made of.
    pub proof fn lemma_head(self)
        requires
            self.in_place(),
        ensures
            self.part().len() == self.end_entry() - self.base,
            self.code[self.base] == Instruction::Alloca,
            self.code[self.base + 1] == (Instruction::ConstInt { value: 0 }),
            self.code[self.base + 2] == (Instruction::Store {
                pointer: self.base as usize,
                word: (self.base + 1) as usize,
            }),
            self.code[self.base + 3] == Instruction::AppendBasicBlock,
            self.code[self.base + 4] == Instruction::AppendBasicBlock,
            self.code[self.base + 5] == Instruction::AppendBasicBlock,
            self.code[self.base + 6] == Instruction::AppendBasicBlock,
            self.code[self.base + 7] == (Instruction::Branch { block: (self.base + 3) as usize }),
            self.code[self.base + 8] == (Instruction::PositionAtEnd {
                block: (self.base + 3) as usize,
            }),
            self.code[self.base + 9] == (Instruction::Load { pointer: self.base as usize }),
            self.code[self.base + 10] == (Instruction::ConstInt { value: self.capacity }),
            self.code[self.base + 11] == (Instruction::CompareBelow {
                lhs: (self.base + 9) as usize,
                rhs: (self.base + 10) as usize,
            }),
            self.code[self.base + 12] == (Instruction::ConditionalBranch {
                condition: (self.base + 11) as usize,
                then_block: (self.base + 4) as usize,
                else_block: (self.base + 6) as usize,
            }),
            self.code[self.base + 13] == (Instruction::PositionAtEnd {
                block: (self.base + 4) as usize,
            }),
            self.code[self.base + 14] == (Instruction::ConstInt { value: 1 }),
            self.code[self.base + 15] == (Instruction::IntAdd {
                lhs: (self.base + 9) as usize,
                rhs: (self.base + 14) as usize,
            }),
            self.code[self.base + 16] == (Instruction::Store {
                pointer: self.base as usize,
                word: (self.base + 15) as usize,
            }),
    {
        let head = loop_head(self.base, self.capacity);
        let part = self.part();
        assert(head.len() == 17);
        assert forall|k: int| 0 <= k < 17 implies self.code[self.base + k] == head[k] by {
            assert(part[k] == head[k]);
        }
        assert(self.code[self.base] == head[0]);
        assert(self.code[self.base + 1] == head[1]);
        assert(self.code[self.base + 2] == head[2]);
        assert(self.code[self.base + 3] == head[3]);
        assert(self.code[self.base + 4] == head[4]);
        assert(self.code[self.base + 5] == head[5]);
        assert(self.code[self.base + 6] == head[6]);
        assert(self.code[self.base + 7] == head[7]);
        assert(self.code[self.base + 8] == head[8]);
        assert(self.code[self.base + 9] == head[9]);
        assert(self.code[self.base + 10] == head[10]);
        assert(self.code[self.base + 11] == head[11]);
        assert(self.code[self.base + 12] == head[12]);
        assert(self.code[self.base + 13] == head[13]);
        assert(self.code[self.base + 14] == head[14]);
        assert(self.code[self.base + 15] == head[15]);
        assert(self.code[self.base + 16] == head[16]);
    }

    /// What a loop with a gate has for its gate.
    pub proof fn lemma_gate(self)
        requires
            self.in_place(),
            self.gate.is_some(),
        ensures
            self.code[self.base + 17] == (Instruction::ConstInt { value: 1 }),
            self.code[self.base + 18] == (Instruction::LeftShift {
                lhs: (self.base + 17) as usize,
                rhs: (self.base + 9) as usize,
            }),
            self.code[self.base + 19] == (Instruction::And {
                lhs: self.gate.unwrap(),
                rhs: (self.base + 18) as usize,
            }),
            self.code[self.base + 20] == (Instruction::RightShift {
                lhs: (self.base + 19) as usize,
                rhs: (self.base + 9) as usize,
            }),
            self.code[self.base + 21] == (Instruction::CastToBool {
                word: (self.base + 20) as usize,
            }),
            self.code[self.base + 22] == (Instruction::ConditionalBranch {
                condition: (self.base + 21) as usize,
                then_block: (self.base + 5) as usize,
                else_block: (self.base + 3) as usize,
            }),
    {
        let head = loop_head(self.base, self.capacity);
        let gate = loop_gate(self.base, self.base + 17, self.gate.unwrap());
        let part = self.part();
        assert(head.len() == 17);
        assert(gate.len() == 6);
        assert forall|k: int| 0 <= k < 6 implies self.code[self.base + 17 + k] == gate[k] by {
            assert(part[17 + k] == gate[k]);
        }
        assert(self.code[self.base + 17] == gate[0]);
        assert(self.code[self.base + 18] == gate[1]);
        assert(self.code[self.base + 19] == gate[2]);
        assert(self.code[self.base + 20] == gate[3]);
        assert(self.code[self.base + 21] == gate[4]);
        assert(self.code[self.base + 22] == gate[5]);
    }

    /// What the body of the loop is made of.
    pub proof fn lemma_body(self)
        requires
            self.in_place(),
        ensures
            self.gate.is_none() ==> self.code[self.base + 17] == (Instruction::Branch {
                block: (self.base + 5) as usize,
            }),
            self.code[self.body_entry() - 1] == (Instruction::PositionAtEnd {
                block: (self.base + 5) as usize,
            }),
            self.code[self.body_entry()] == (Instruction::InBoundsGep {
                pointer: self.scratch,
                element: (self.base + 9) as usize,
            }),
            self.code[self.body_entry() + 1] == (Instruction::InBoundsGep {
                pointer: self.pointers,
                element: (self.base + 9) as usize,
            }),
            self.code[self.body_entry() + 2] == (Instruction::Call {
                function: self.callee,
                scratch: self.body_entry() as usize,
                pointers: (self.body_entry() + 1) as usize,
            }),
            self.code[self.body_entry() + 3] == (Instruction::Branch {
                block: (self.base + 3) as usize,
            }),
            self.code[self.body_entry() + 4] == (Instruction::PositionAtEnd {
                block: (self.base + 6) as usize,
            }),
    {
        let head = loop_head(self.base, self.capacity);
        let part = self.part();
        let at = self.body_entry() - 1;
        let body = loop_body(self.base, at, self.callee, self.scratch, self.pointers);
        assert(head.len() == 17);
        assert(body.len() == 6);
        assert forall|k: int| 0 <= k < 6 implies self.code[at + k] == body[k] by {
            assert(part[at - self.base + k] == body[k]);
        }
        assert(self.code[at] == body[0]);
        assert(self.code[at + 1] == body[1]);
        assert(self.code[at + 2] == body[2]);
        assert(self.code[at + 3] == body[3]);
        assert(self.code[at + 4] == body[4]);
        assert(self.code[at + 5] == body[5]);
        if self.gate.is_none() {
            assert(part[17] == Instruction::Branch { block: (self.base + 5) as usize });
        }
    }

    /// Where the code of the four basic blocks of the loop starts.
    pub proof fn lemma_entries(self)
        requires
            self.in_place(),
        ensures
            entry_of(self.code, (self.base + 3) as usize) == Some(self.base + 9),
            entry_of(self.code, (self.base + 4) as usize) == Some(self.base + 14),
            entry_of(self.code, (self.base + 5) as usize) == Some(self.body_entry()),
            entry_of(self.code, (self.base + 6) as usize) == Some(self.end_entry()),
    {
        let code = self.code;
        let b = self.base;
        self.lemma_head();
        self.lemma_body();
        if self.gate.is_some() {
            self.lemma_gate();
        }
        assert forall|i: int| 0 <= i < b + 8 implies code[i] != (Instruction::PositionAtEnd {
            block: (b + 3) as usize,
        }) by {
            if i <= b + 3 {
                lemma_not_positioned(code, (b + 3) as usize, i);
            }
        }
        lemma_entry(code, (b + 3) as usize, b + 8, 0);
        assert forall|i: int| 0 <= i < b + 13 implies code[i] != (Instruction::PositionAtEnd {
            block: (b + 4) as usize,
        }) by {
            if i <= b + 4 {
                lemma_not_positioned(code, (b + 4) as usize, i);
            }
        }
        lemma_entry(code, (b + 4) as usize, b + 13, 0);
        assert forall|i: int| 0 <= i < self.body_entry() - 1 implies code[i] != (
        Instruction::PositionAtEnd { block: (b + 5) as usize }) by {
            if i <= b + 5 {
                lemma_not_positioned(code, (b + 5) as usize, i);
            }
        }
        lemma_entry(code, (b + 5) as usize, self.body_entry() - 1, 0);
        assert forall|i: int| 0 <= i < self.end_entry() - 1 implies code[i] != (
        Instruction::PositionAtEnd { block: (b + 6) as usize }) by {
            if i <= b + 6 {
                lemma_not_positioned(code, (b + 6) as usize, i);
            }
        }
        lemma_entry(code, (b + 6) as usize, self.end_entry() - 1, 0);
    }

    /// The head of the loop runs up to the check, with the counter at
    /// zero.
    pub proof fn lemma_enter(self, m: MachineView) -> (fuel: nat)
        requires
            self.in_place(),
            fits(m, self.code),
            m.pc == self.base,
            m.place_at(self.scratch).is_some(),
            m.place_at(self.pointers).is_some(),
            self.gate matches Some(bitmap) ==> m.int_at(bitmap).is_some(),
        ensures
            m.run(self.code, fuel).1 == Status::Running,
            m.run(self.code, fuel).0.pc == self.base + 9,
            self.holds(m.run(self.code, fuel).0, m, 0, 0),
    {
        let code = self.code;
        let b = self.base;
        self.lemma_head();
        self.lemma_entries();
        let counter = WordView::At(self.counter());
        let m1 = m.with_value(counter);
        lemma_step_alloca(m, code);
        lemma_made(m, counter);
        lemma_run_step(m, code);
        let m2 = m1.with_value(WordView::Int(0));
        lemma_step_const(m1, code, 0);
        lemma_made(m1, WordView::Int(0));
        lemma_chain(m, code, 1, m1, m2);
        assert(m2.place_at(b as usize) == Some(self.counter()));
        assert(m2.int_at((b + 1) as usize) == Some(0u32));
        let m3 = MachineView { pc: m2.pc + 1, stack: m2.stack.update(b, Some(0u32)), ..m2 };
        lemma_step_store(m2, code, b as usize, (b + 1) as usize, b);
        lemma_chain(m, code, 2, m2, m3);
        let m4 = MachineView { pc: m3.pc + 1, ..m3 };
        lemma_step_append(m3, code);
        lemma_chain(m, code, 3, m3, m4);
        let m5 = MachineView { pc: m4.pc + 1, ..m4 };
        lemma_step_append(m4, code);
        lemma_chain(m, code, 4, m4, m5);
        let m6 = MachineView { pc: m5.pc + 1, ..m5 };
        lemma_step_append(m5, code);
        lemma_chain(m, code, 5, m5, m6);
        let m7 = MachineView { pc: m6.pc + 1, ..m6 };
        lemma_step_append(m6, code);
        lemma_chain(m, code, 6, m6, m7);
        let m8 = MachineView { pc: b + 9, ..m7 };
        lemma_step_branch(m7, code, (b + 3) as usize, b + 9);
        lemma_chain(m, code, 7, m7, m8);
        assert(m.run(code, 8) == (m8, Status::Running));
        assert(m8.events =~= m.events + voice_calls(
            self.callee,
            m.place_at(self.scratch).unwrap(),
            m.place_at(self.pointers).unwrap(),
            self.gate_of(m),
            0,
        ));
        assert(m8.place_at(self.scratch) == m.place_at(self.scratch));
        assert(m8.place_at(self.pointers) == m.place_at(self.pointers));
        assert(keeps_below(m8, m, b));
        8
    }

    /// From the check, the loop either ends, after the last voice, or
    /// goes on to look at the voice of the round.
    pub proof fn lemma_check(self, m: MachineView, origin: MachineView, round: nat) -> (fuel: nat)
        requires
            self.in_place(),
            self.holds(m, origin, round, round),
            m.pc == self.base + 9,
        ensures
            m.run(self.code, fuel).1 == Status::Running,
            self.holds(m.run(self.code, fuel).0, origin, round, round),
            m.run(self.code, fuel).0.int_at((self.base + 9) as usize) == Some(round as u32),
            round < self.capacity ==> m.run(self.code, fuel).0.pc == self.base + 14,
            round == self.capacity ==> m.run(self.code, fuel).0.pc == self.end_entry(),
    {
        let code = self.code;
        let b = self.base;
        self.lemma_head();
        self.lemma_entries();
        let count = round as u32;
        let m1 = m.with_value(WordView::Int(count));
        lemma_step_load_stack(m, code, b as usize, b, count);
        lemma_made(m, WordView::Int(count));
        lemma_run_step(m, code);
        let m2 = m1.with_value(WordView::Int(self.capacity));
        lemma_step_const(m1, code, self.capacity);
        lemma_made(m1, WordView::Int(self.capacity));
        lemma_chain(m, code, 1, m1, m2);
        assert(m2.int_at((b + 9) as usize) == Some(count));
        assert(m2.int_at((b + 10) as usize) == Some(self.capacity));
        let below: u32 = if count < self.capacity {
            1
        } else {
            0
        };
        let m3 = m2.with_value(WordView::Int(below));
        lemma_step_binary(m2, code, (b + 9) as usize, (b + 10) as usize);
        lemma_made(m2, WordView::Int(below));
        lemma_chain(m, code, 2, m2, m3);
        assert(m3.int_at((b + 11) as usize) == Some(below));
        let target = if round < self.capacity {
            b + 14
        } else {
            self.end_entry()
        };
        let m4 = MachineView { pc: target, ..m3 };
        lemma_step_conditional_branch(
            m3,
            code,
            (b + 11) as usize,
            (b + 4) as usize,
            (b + 6) as usize,
            target,
        );
        lemma_chain(m, code, 3, m3, m4);
        assert(m.run(code, 4) == (m4, Status::Running));
        assert(m4.int_at((b + 9) as usize) == Some(count));
        assert(m4.place_at(b as usize) == Some(self.counter()));
        assert(m4.place_at(self.scratch) == origin.place_at(self.scratch));
        assert(m4.place_at(self.pointers) == origin.place_at(self.pointers));
        assert(keeps_below(m4, origin, b));
        4
    }

    /// The counter moves on to the next voice.
    pub proof fn lemma_advance(self, m: MachineView, origin: MachineView, round: nat) -> (fuel:
        nat)
        requires
            self.in_place(),
            self.holds(m, origin, round, round),
            round < self.capacity,
            m.pc == self.base + 14,
            m.int_at((self.base + 9) as usize) == Some(round as u32),
        ensures
            m.run(self.code, fuel).1 == Status::Running,
            self.holds(m.run(self.code, fuel).0, origin, round, round + 1),
            m.run(self.code, fuel).0.int_at((self.base + 9) as usize) == Some(round as u32),
            m.run(self.code, fuel).0.pc == self.base + 17,
    {
        let code = self.code;
        let b = self.base;
        self.lemma_head();
        let count = round as u32;
        let m1 = m.with_value(WordView::Int(1));
        lemma_step_const(m, code, 1);
        lemma_made(m, WordView::Int(1));
        lemma_run_step(m, code);
        assert(m1.int_at((b + 9) as usize) == Some(count));
        assert(m1.int_at((b + 14) as usize) == Some(1u32));
        let next = (count + 1) as u32;
        assert(((count + 1u32) % 0x1_0000_0000) as u32 == next);
        let m2 = m1.with_value(WordView::Int(next));
        lemma_step_binary(m1, code, (b + 9) as usize, (b + 14) as usize);
        lemma_made(m1, WordView::Int(next));
        lemma_chain(m, code, 1, m1, m2);
        assert(m2.place_at(b as usize) == Some(self.counter()));
        assert(m2.int_at((b + 15) as usize) == Some(next));
        let m3 = MachineView { pc: m2.pc + 1, stack: m2.stack.update(b, Some(next)), ..m2 };
        lemma_step_store(m2, code, b as usize, (b + 15) as usize, b);
        lemma_chain(m, code, 2, m2, m3);
        assert(m.run(code, 3) == (m3, Status::Running));
        assert(m3.int_at((b + 9) as usize) == Some(count));
        assert(m3.place_at(self.scratch) == origin.place_at(self.scratch));
        assert(m3.place_at(self.pointers) == origin.place_at(self.pointers));
        assert(keeps_below(m3, origin, b));
        3
    }

    /// The body of the loop calls the procedure for the voice of the
    /// round and goes back to the check.
    pub proof fn lemma_call(self, m: MachineView, origin: MachineView, round: nat) -> (fuel: nat)
        requires
            self.in_place(),
            self.holds(m, origin, round, round + 1),
            round < self.capacity,
            runs(self.gate_of(origin), round as u32),
            m.pc == self.body_entry(),
            m.int_at((self.base + 9) as usize) == Some(round as u32),
        ensures
            m.run(self.code, fuel).1 == Status::Running,
            self.holds(m.run(self.code, fuel).0, origin, round + 1, round + 1),
            m.run(self.code, fuel).0.pc == self.base + 9,
    {
        let code = self.code;
        let b = self.base;
        let at = self.body_entry();
        self.lemma_head();
        self.lemma_body();
        self.lemma_entries();
        let voice = round as u32;
        let scratch = origin.place_at(self.scratch).unwrap();
        let pointers = origin.place_at(self.pointers).unwrap();
        let m1 = m.with_value(WordView::At(scratch.on(Step::Element(voice))));
        lemma_step_element_gep(m, code, self.scratch, (b + 9) as usize);
        lemma_made(m, WordView::At(scratch.on(Step::Element(voice))));
        lemma_run_step(m, code);
        assert(m1.place_at(self.pointers) == Some(pointers));
        assert(m1.int_at((b + 9) as usize) == Some(voice));
        let m2 = m1.with_value(WordView::At(pointers.on(Step::Element(voice))));
        lemma_step_element_gep(m1, code, self.pointers, (b + 9) as usize);
        lemma_made(m1, WordView::At(pointers.on(Step::Element(voice))));
        lemma_chain(m, code, 1, m1, m2);
        assert(m2.place_at(at as usize) == Some(scratch.on(Step::Element(voice))));
        assert(m2.place_at((at + 1) as usize) == Some(pointers.on(Step::Element(voice))));
        let m3 = m2.with_event(voice_call(self.callee, scratch, pointers, voice));
        lemma_step_call(m2, code, self.callee, at as usize, (at + 1) as usize);
        lemma_chain(m, code, 2, m2, m3);
        let m4 = MachineView { pc: b + 9, ..m3 };
        lemma_step_branch(m3, code, (b + 3) as usize, b + 9);
        lemma_chain(m, code, 3, m3, m4);
        assert(m.run(code, 4) == (m4, Status::Running));
        assert(m4.events =~= origin.events + voice_calls(
            self.callee,
            scratch,
            pointers,
            self.gate_of(origin),
            round + 1,
        ));
        assert(m4.place_at(b as usize) == Some(self.counter()));
        assert(m4.place_at(self.scratch) == origin.place_at(self.scratch));
        assert(m4.place_at(self.pointers) == origin.place_at(self.pointers));
        assert(keeps_below(m4, origin, b));
        4
    }

    /// A gate lets the voice of the round into the body of the loop if
    /// it is live, and sends the loop back to the check if not.
    pub proof fn lemma_test(self, m: MachineView, origin: MachineView, round: nat) -> (fuel: nat)
        requires
            self.in_place(),
            self.gate.is_some(),
            self.holds(m, origin, round, round + 1),
            round < self.capacity,
            m.pc == self.base + 17,
            m.int_at((self.base + 9) as usize) == Some(round as u32),
        ensures
            m.run(self.code, fuel).1 == Status::Running,
            self.holds(m.run(self.code, fuel).0, origin, round, round + 1),
            m.run(self.code, fuel).0.int_at((self.base + 9) as usize) == Some(round as u32),
            m.run(self.code, fuel).0.pc == if runs(self.gate_of(origin), round as u32) {
                self.body_entry()
            } else {
                self.base + 9
            },
    {
        let code = self.code;
        let b = self.base;
        self.lemma_head();
        self.lemma_gate();
        self.lemma_entries();
        let voice = round as u32;
        let gate = self.gate.unwrap();
        let bitmap = origin.int_at(gate).unwrap();
        let m1 = m.with_value(WordView::Int(1));
        lemma_step_const(m, code, 1);
        lemma_made(m, WordView::Int(1));
        lemma_run_step(m, code);
        assert(m1.int_at((b + 17) as usize) == Some(1u32));
        assert(m1.int_at((b + 9) as usize) == Some(voice));
        let mask = 1u32 << voice;
        let m2 = m1.with_value(WordView::Int(mask));
        lemma_step_binary(m1, code, (b + 17) as usize, (b + 9) as usize);
        lemma_made(m1, WordView::Int(mask));
        lemma_chain(m, code, 1, m1, m2);
        assert(m2.int_at(gate) == Some(bitmap));
        assert(m2.int_at((b + 18) as usize) == Some(mask));
        let masked = bitmap & mask;
        let m3 = m2.with_value(WordView::Int(masked));
        lemma_step_binary(m2, code, gate, (b + 18) as usize);
        lemma_made(m2, WordView::Int(masked));
        lemma_chain(m, code, 2, m2, m3);
        assert(m3.int_at((b + 19) as usize) == Some(masked));
        assert(m3.int_at((b + 9) as usize) == Some(voice));
        let shifted = masked >> voice;
        let m4 = m3.with_value(WordView::Int(shifted));
        lemma_step_binary(m3, code, (b + 19) as usize, (b + 9) as usize);
        lemma_made(m3, WordView::Int(shifted));
        lemma_chain(m, code, 3, m3, m4);
        assert(m4.int_at((b + 20) as usize) == Some(shifted));
        let bit = shifted & 1;
        let m5 = m4.with_value(WordView::Int(bit));
        lemma_step_cast(m4, code, (b + 20) as usize);
        lemma_made(m4, WordView::Int(bit));
        lemma_chain(m, code, 4, m4, m5);
        assert(m5.int_at((b + 21) as usize) == Some(bit));
        assert((((bitmap & (1u32 << voice)) >> voice) & 1 != 0) <==> ((bitmap >> voice) & 1 == 1))
            by (bit_vector)
            requires
                voice < 32,
        ;
        let live = runs(self.gate_of(origin), voice);
        assert(live == (bit != 0));
        let target = if live {
            self.body_entry()
        } else {
            b + 9
        };
        let m6 = MachineView { pc: target, ..m5 };
        lemma_step_conditional_branch(
            m5,
            code,
            (b + 21) as usize,
            (b + 5) as usize,
            (b + 3) as usize,
            target,
        );
        lemma_chain(m, code, 5, m5, m6);
        assert(m.run(code, 6) == (m6, Status::Running));
        assert(m6.int_at((b + 9) as usize) == Some(voice));
        assert(m6.place_at(b as usize) == Some(self.counter()));
        assert(m6.place_at(self.scratch) == origin.place_at(self.scratch));
        assert(m6.place_at(self.pointers) == origin.place_at(self.pointers));
        assert(m6.int_at(gate) == origin.int_at(gate));
        assert(keeps_below(m6, origin, b));
        6
    }

    /// One round of the loop: from the check, by way of the voice of the
    /// round, back to the check.
    pub proof fn lemma_round(self, m: MachineView, origin: MachineView, round: nat) -> (fuel: nat)
        requires
            self.in_place(),
            self.holds(m, origin, round, round),
            round < self.capacity,
            m.pc == self.base + 9,
        ensures
            m.run(self.code, fuel).1 == Status::Running,
            self.holds(m.run(self.code, fuel).0, origin, round + 1, round + 1),
            m.run(self.code, fuel).0.pc == self.base + 9,
    {
        let code = self.code;
        let b = self.base;
        let f1 = self.lemma_check(m, origin, round);
        let m1 = m.run(code, f1).0;
        let f2 = self.lemma_advance(m1, origin, round);
        let m2 = m1.run(code, f2).0;
        lemma_run_on(m, code, f1, f2);
        let live = runs(self.gate_of(origin), round as u32);
        let scratch = origin.place_at(self.scratch).unwrap();
        let pointers = origin.place_at(self.pointers).unwrap();
        if self.gate.is_some() {
            let f3 = self.lemma_test(m2, origin, round);
            let m3 = m2.run(code, f3).0;
            lemma_run_on(m, code, f1 + f2, f3);
            if live {
                let f4 = self.lemma_call(m3, origin, round);
                lemma_run_on(m, code, f1 + f2 + f3, f4);
                f1 + f2 + f3 + f4
            } else {
                assert(voice_calls(
                    self.callee,
                    scratch,
                    pointers,
                    self.gate_of(origin),
                    round + 1,
                ) == voice_calls(self.callee, scratch, pointers, self.gate_of(origin), round));
                f1 + f2 + f3
            }
        } else {
            self.lemma_body();
            self.lemma_entries();
            let m3 = MachineView { pc: self.body_entry(), ..m2 };
            lemma_step_branch(m2, code, (b + 5) as usize, self.body_entry());
            lemma_chain(m, code, f1 + f2, m2, m3);
            let f4 = self.lemma_call(m3, origin, round);
            lemma_run_on(m, code, f1 + f2 + 1, f4);
            f1 + f2 + 1 + f4
        }
    }

    /// From the check of any round, the loop runs to its end and makes
    /// the calls for the voices that are left.
    pub proof fn lemma_rounds(self, m: MachineView, origin: MachineView, round: nat) -> (fuel: nat)
        requires
            self.in_place(),
            self.holds(m, origin, round, round),
            m.pc == self.base + 9,
        ensures
            m.run(self.code, fuel).1 == Status::Running,
            self.holds(
                m.run(self.code, fuel).0,
                origin,
                self.capacity as nat,
                self.capacity as nat,
            ),
            m.run(self.code, fuel).0.pc == self.end_entry(),
        decreases self.capacity - round,
    {
        if round < self.capacity {
            let f1 = self.lemma_round(m, origin, round);
            let m1 = m.run(self.code, f1).0;
            let f2 = self.lemma_rounds(m1, origin, round + 1);
            lemma_run_on(m, self.code, f1, f2);
            f1 + f2
        } else {
            self.lemma_check(m, origin, round)
        }
    }

    /// The loop runs from its start to its end and makes the calls for
    /// the voices that run, in their order. Nothing else changes but the
    /// values that the loop makes and its counter.
    pub proof fn lemma_runs(self, m: MachineView) -> (fuel: nat)
        requires
            self.in_place(),
            fits(m, self.code),
            m.pc == self.base,
            m.place_at(self.scratch).is_some(),
            m.place_at(self.pointers).is_some(),
            self.gate matches Some(bitmap) ==> m.int_at(bitmap).is_some(),
        ensures
            ({
                let (end, status) = m.run(self.code, fuel);
                &&& status == Status::Running
                &&& fits(end, self.code)
                &&& end.pc == self.base + self.part().len()
                &&& end.events == m.events + voice_calls(
                    self.callee,
                    m.place_at(self.scratch).unwrap(),
                    m.place_at(self.pointers).unwrap(),
                    self.gate_of(m),
                    self.capacity as nat,
                )
                &&& end.bitmaps == m.bitmaps
                &&& keeps_below(end, m, self.base)
            }),
    {
        self.lemma_head();
        let f1 = self.lemma_enter(m);
        let m1 = m.run(self.code, f1).0;
        let f2 = self.lemma_rounds(m1, m, 0);
        lemma_run_on(m, self.code, f1, f2);
        f1 + f2
    }
}

/// The bitmap that decides which voices run: in an update of a node that
/// has sources, the joined bitmaps of their arrays. Else every voice runs.
pub open spec fn voices_gate(
    lifecycle: LifecycleFunc,
    bitmaps: Seq<(PlaceView, u32)>,
    pointers: PlaceView,
    source_sockets: Seq<usize>,
) -> Option<u32> {
    if lifecycle == LifecycleFunc::Update && source_sockets.len() > 0 {
        Some(joined_bitmaps(bitmaps, pointers, source_sockets))
    } else {
        None
    }
}

/// The bitmap that an update tells the destinations: which voices have
/// run.
pub open spec fn voices_told(gate: Option<u32>, capacity: u32) -> u32 {
    match gate {
        Some(bitmap) => bitmap,
        None => all_slots_spec(capacity),
    }
}

/// What the code of a node with a surface per voice does: it calls the
/// procedure for each voice that runs, in the order of the voices; and in
/// an update it then tells the arrays at the destination sockets, in their
/// order, which voices have run.
pub open spec fn voices_events(
    callee: FunctionRef,
    capacity: u32,
    lifecycle: LifecycleFunc,
    source_sockets: Seq<usize>,
    dest_sockets: Seq<usize>,
    scratch: PlaceView,
    pointers: PlaceView,
    bitmaps: Seq<(PlaceView, u32)>,
) -> Seq<EventView> {
    let gate = voices_gate(lifecycle, bitmaps, pointers, source_sockets);
    let calls = voice_calls(callee, scratch, pointers, gate, capacity as nat);
    if lifecycle == LifecycleFunc::Update {
        calls + publish_events(pointers, dest_sockets, voices_told(gate, capacity))
    } else {
        calls
    }
}

/// The bitmaps that the code of a node with a surface per voice sets.
pub open spec fn voices_bitmaps(
    capacity: u32,
    lifecycle: LifecycleFunc,
    source_sockets: Seq<usize>,
    dest_sockets: Seq<usize>,
    pointers: PlaceView,
    bitmaps: Seq<(PlaceView, u32)>,
) -> Seq<(PlaceView, u32)> {
    let gate = voices_gate(lifecycle, bitmaps, pointers, source_sockets);
    if lifecycle == LifecycleFunc::Update {
        published_bitmaps(pointers, dest_sockets, voices_told(gate, capacity))
    } else {
        Seq::empty()
    }
}

/// What `keeps_below` says of a run holds of a run that follows it.
proof fn lemma_keeps_on(
    last: MachineView,
    middle: MachineView,
    first: MachineView,
    base: int,
    later: int,
)
    requires
        keeps_below(middle, first, base),
        keeps_below(last, middle, later),
        base <= later,
    ensures
        keeps_below(last, first, base),
{
}

/// The code of a node with a surface per voice does what `voices_events`
/// says, whatever the machine holds when the code starts: the code runs to
/// its end, and changes nothing else but the values that it makes itself.
///
/// The node has to have its two blocks of memory, the pointer block not
/// on the stack, and in an update each array at a source socket has to have
/// a bitmap.
pub proof fn law_voices_run(
    code: Seq<Instruction>,
    m: MachineView,
    base: int,
    callee: FunctionRef,
    capacity: u32,
    lifecycle: LifecycleFunc,
    source_sockets: Seq<usize>,
    dest_sockets: Seq<usize>,
    scratch: ValueRef,
    pointers: ValueRef,
) -> (fuel: nat)
    requires
        well_scoped(code),
        fits(m, code),
        holds_at(
            code,
            base,
            voices_code(
                base,
                callee,
                capacity,
                lifecycle,
                source_sockets,
                dest_sockets,
                scratch,
                pointers,
            ),
        ),
        m.pc == base,
        capacity <= 32,
        scratch < base,
        pointers < base,
        are_fields(source_sockets),
        are_fields(dest_sockets),
        m.place_at(scratch).is_some(),
        m.place_at(pointers).is_some(),
        !(m.place_at(pointers).unwrap().root is Stack),
        lifecycle == LifecycleFunc::Update ==> have_bitmaps(
            m.bitmaps,
            m.place_at(pointers).unwrap(),
            source_sockets,
        ),
    ensures
        ({
            let (end, status) = m.run(code, fuel);
            let s = m.place_at(scratch).unwrap();
            let p = m.place_at(pointers).unwrap();
            &&& status == Status::Running
            &&& fits(end, code)
            &&& end.pc == base + voices_code(
                base,
                callee,
                capacity,
                lifecycle,
                source_sockets,
                dest_sockets,
                scratch,
                pointers,
            ).len()
            &&& end.events == m.events + voices_events(
                callee,
                capacity,
                lifecycle,
                source_sockets,
                dest_sockets,
                s,
                p,
                m.bitmaps,
            )
            &&& end.bitmaps == m.bitmaps + voices_bitmaps(
                capacity,
                lifecycle,
                source_sockets,
                dest_sockets,
                p,
                m.bitmaps,
            )
            &&& keeps_below(end, m, base)
        }),
{
    let s = m.place_at(scratch).unwrap();
    let p = m.place_at(pointers).unwrap();
    let gate = voices_gate(lifecycle, m.bitmaps, p, source_sockets);
    if lifecycle == LifecycleFunc::Update && source_sockets.len() > 0 {
        let gate_part = gate_code(base, pointers, source_sockets);
        let bitmap = (base + gate_part.len() - 1) as usize;
        let frame = LoopFrame {
            code,
            base: base + gate_part.len(),
            callee,
            capacity,
            scratch,
            pointers,
            gate: Some(bitmap),
        };
        let loop_part = frame.part();
        let publish_part = publish_code(
            base + gate_part.len() + loop_part.len(),
            pointers,
            dest_sockets,
            bitmap,
        );
        lemma_gate_len(base, pointers, source_sockets);
        lemma_holds_parts(code, base, gate_part + loop_part, publish_part);
        lemma_holds_parts(code, base, gate_part, loop_part);
        let f1 = lemma_gate_runs(code, m, base, pointers, source_sockets);
        let m1 = m.run(code, f1).0;
        assert(m1.place_at(scratch) == Some(s));
        assert(m1.place_at(pointers) == Some(p));
        let f2 = frame.lemma_runs(m1);
        let m2 = m1.run(code, f2).0;
        lemma_run_on(m, code, f1, f2);
        assert(m2.place_at(pointers) == Some(p));
        assert(m2.int_at(bitmap) == m1.int_at(bitmap));
        let f3 = lemma_publish_runs(
            code,
            m2,
            base + gate_part.len() + loop_part.len(),
            pointers,
            dest_sockets,
            bitmap,
        );
        let m3 = m2.run(code, f3).0;
        lemma_run_on(m, code, f1 + f2, f3);
        lemma_keeps_on(m2, m1, m, base, base + gate_part.len());
        lemma_keeps_on(m3, m2, m, base, base + gate_part.len() + loop_part.len());
        assert(m3.events =~= m.events + voices_events(
            callee,
            capacity,
            lifecycle,
            source_sockets,
            dest_sockets,
            s,
            p,
            m.bitmaps,
        ));
        f1 + f2 + f3
    } else if lifecycle == LifecycleFunc::Update {
        let frame = LoopFrame { code, base, callee, capacity, scratch, pointers, gate: None };
        let loop_part = frame.part();
        let all = (base + loop_part.len()) as usize;
        let told = seq![Instruction::ConstInt { value: all_slots_spec(capacity) }];
        let publish_part = publish_code(base + loop_part.len() + 1, pointers, dest_sockets, all);
        lemma_holds_parts(code, base, loop_part + told, publish_part);
        lemma_holds_parts(code, base, loop_part, told);
        frame.lemma_head();
        let f1 = frame.lemma_runs(m);
        let m1 = m.run(code, f1).0;
        assert(code[base + loop_part.len()] == told[0]);
        let m2 = m1.with_value(WordView::Int(all_slots_spec(capacity)));
        lemma_step_const(m1, code, all_slots_spec(capacity));
        lemma_made(m1, WordView::Int(all_slots_spec(capacity)));
        lemma_chain(m, code, f1, m1, m2);
        assert(m2.place_at(pointers) == Some(p));
        assert(m2.int_at(all) == Some(all_slots_spec(capacity)));
        let f3 = lemma_publish_runs(
            code,
            m2,
            base + loop_part.len() + 1,
            pointers,
            dest_sockets,
            all,
        );
        let m3 = m2.run(code, f3).0;
        lemma_run_on(m, code, f1 + 1, f3);
        assert(keeps_below(m2, m, base));
        lemma_keeps_on(m3, m2, m, base, base + loop_part.len() + 1);
        assert(m3.events =~= m.events + voices_events(
            callee,
            capacity,
            lifecycle,
            source_sockets,
            dest_sockets,
            s,
            p,
            m.bitmaps,
        ));
        f1 + 1 + f3
    } else {
        let frame = LoopFrame { code, base, callee, capacity, scratch, pointers, gate: None };
        let f1 = frame.lemma_runs(m);
        let m1 = m.run(code, f1).0;
        assert(m1.bitmaps =~= m.bitmaps + Seq::<(PlaceView, u32)>::empty());
        f1
    }
}

/// Without a gate every voice runs: the calls are those for the voices
/// from the first to the last.
pub proof fn law_every_voice_runs(
    callee: FunctionRef,
    scratch: PlaceView,
    pointers: PlaceView,
    count: nat,
)
    requires
        count <= u32::MAX,
    ensures
        voice_calls(callee, scratch, pointers, None, count) == Seq::new(
            count,
            |voice: int| voice_call(callee, scratch, pointers, voice as u32),
        ),
    decreases count,
{
    if count > 0 {
        law_every_voice_runs(callee, scratch, pointers, (count - 1) as nat);
    }
    assert(voice_calls(callee, scratch, pointers, None, count) =~= Seq::new(
        count,
        |voice: int| voice_call(callee, scratch, pointers, voice as u32),
    ));
}

/// With a gate exactly the live voices run: among the calls for the
/// first `count` voices is the call for a voice exactly if the voice is
/// one of them and live.
pub proof fn law_live_voices_run(
    callee: FunctionRef,
    scratch: PlaceView,
    pointers: PlaceView,
    bitmap: u32,
    count: nat,
    voice: u32,
)
    requires
        count <= u32::MAX,
    ensures
        voice_calls(callee, scratch, pointers, Some(bitmap), count).contains(
            voice_call(callee, scratch, pointers, voice),
        ) <==> voice < count && is_live(bitmap, voice),
    decreases count,
{
    let wanted = voice_call(callee, scratch, pointers, voice);
    let all = voice_calls(callee, scratch, pointers, Some(bitmap), count);
    if count > 0 {
        let last = (count - 1) as u32;
        let before = voice_calls(callee, scratch, pointers, Some(bitmap), (count - 1) as nat);
        law_live_voices_run(callee, scratch, pointers, bitmap, (count - 1) as nat, voice);
        let call = voice_call(callee, scratch, pointers, last);
        assert(call == wanted <==> last == voice) by {
            if call == wanted {
                assert(scratch.on(Step::Element(last)).path.last() == Step::Element(last));
                assert(scratch.on(Step::Element(voice)).path.last() == Step::Element(voice));
            }
        }
        if is_live(bitmap, last) {
            assert(all == before.push(call));
            if before.contains(wanted) {
                let i = choose|i: int| 0 <= i < before.len() && before[i] == wanted;
                assert(all[i] == wanted);
            }
            assert(all[before.len() as int] == call);
            if all.contains(wanted) {
                let i = choose|i: int| 0 <= i < all.len() && all[i] == wanted;
                if i < before.len() {
                    assert(before[i] == wanted);
                }
            }
        }
    }
}

/// A voice is live in the joined bitmap exactly if it is live in the
/// bitmap of one of the arrays.
pub proof fn law_joined_is_any(
    bitmaps: Seq<(PlaceView, u32)>,
    pointers: PlaceView,
    sockets: Seq<usize>,
    voice: u32,
)
    requires
        voice < 32,
    ensures
        is_live(joined_bitmaps(bitmaps, pointers, sockets), voice) <==> exists|i: int|
            0 <= i < sockets.len() && is_live(
                bitmap_of(bitmaps, array_place(pointers, #[trigger] sockets[i])).unwrap(),
                voice,
            ),
    decreases sockets.len(),
{
    if sockets.len() == 0 {
        assert((0u32 >> voice) & 1 == 0) by (bit_vector);
    } else {
        let rest = sockets.drop_last();
        law_joined_is_any(bitmaps, pointers, rest, voice);
        let a = joined_bitmaps(bitmaps, pointers, rest);
        let b = bitmap_of(bitmaps, array_place(pointers, sockets.last())).unwrap();
        assert((((a | b) >> voice) & 1 == 1) <==> (((a >> voice) & 1 == 1) || ((b >> voice) & 1
            == 1))) by (bit_vector);
        if is_live(a, voice) {
            let i = choose|i: int|
                0 <= i < rest.len() && is_live(
                    bitmap_of(bitmaps, array_place(pointers, #[trigger] rest[i])).unwrap(),
                    voice,
                );
            assert(sockets[i] == rest[i]);
        }
        if is_live(b, voice) {
            assert(sockets[sockets.len() - 1] == sockets.last());
        }
        if exists|i: int|
            0 <= i < sockets.len() && is_live(
                bitmap_of(bitmaps, array_place(pointers, #[trigger] sockets[i])).unwrap(),
                voice,
            ) {
            let i = choose|i: int|
                0 <= i < sockets.len() && is_live(
                    bitmap_of(bitmaps, array_place(pointers, #[trigger] sockets[i])).unwrap(),
                    voice,
                );
            if i < rest.len() {
                assert(rest[i] == sockets[i]);
            }
        }
    }
}

} // verus!
