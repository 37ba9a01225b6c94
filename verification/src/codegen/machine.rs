//! What the instructions of a procedure do when the procedure runs.
//!
//! The machine knows the two blocks of memory of the procedure by name
//! only. It follows addresses into them, keeps the integers that the
//! procedure holds on its stack and the bitmaps of the arrays that it is
//! told of, and takes down every call and every bitmap that the procedure
//! sets.

use super::instruction::Instruction;
use super::LifecycleFunc;
use vstd::prelude::*;

verus! {

/// Where an address starts.
#[derive(Debug, PartialEq, Eq, Clone, Copy, Structural)]
pub enum Root {
    /// At the scratch block, the first parameter of the procedure.
    Scratch,
    /// At the pointer block, the second parameter of the procedure.
    Pointers,
    /// At the place on the stack that the instruction of that index makes.
    Stack(usize),
}

/// One step of the way from the start of an address to its end.
#[derive(Debug, PartialEq, Eq, Clone, Copy, Structural)]
pub enum Step {
    /// To the field of that index of a struct.
    Field(u32),
    /// To the element of that index, counted from where the way has come to.
    Element(u32),
    /// To what the pointer stored there points to.
    Target,
}

/// What a `Place` is, as plain values.
pub struct PlaceView {
    pub root: Root,
    pub path: Seq<Step>,
}

/// An address: where it starts and the way from there.
#[derive(Debug, PartialEq, Eq)]
pub struct Place {
    pub root: Root,
    pub path: Vec<Step>,
}

impl View for Place {
    type V = PlaceView;

    open spec fn view(&self) -> PlaceView {
        PlaceView { root: self.root, path: self.path@ }
    }
}

impl PlaceView {
    /// The address one step on.
    pub open spec fn on(self, step: Step) -> PlaceView {
        PlaceView { root: self.root, path: self.path.push(step) }
    }
}

impl Clone for Place {
    fn clone(&self) -> (r: Self)
        ensures
            r@ == self@,
    {
        let mut path: Vec<Step> = Vec::new();
        let mut index: usize = 0;
        while index < self.path.len()
            invariant
                index <= self.path.len(),
                path@ == self.path@.take(index as int),
            decreases self.path.len() - index,
        {
            path.push(self.path[index]);
            assert(path@ =~= self.path@.take(index + 1));
            index += 1;
        }
        assert(path@ =~= self.path@);
        Place { root: self.root, path }
    }
}

impl Place {
    /// The address that starts at `root` and stays there.
    pub fn new(root: Root) -> (r: Self)
        ensures
            r@ == (PlaceView { root, path: Seq::empty() }),
    {
        Place { root, path: Vec::new() }
    }

    /// The address one step on.
    pub fn on(&self, step: Step) -> (r: Self)
        ensures
            r@ == self@.on(step),
    {
        let mut next = self.clone();
        next.path.push(step);
        next
    }

    /// Whether the two addresses are the same.
    pub fn same(&self, other: &Place) -> (r: bool)
        ensures
            r == (self@ == other@),
    {
        if self.root != other.root || self.path.len() != other.path.len() {
            return false;
        }
        let mut index: usize = 0;
        while index < self.path.len()
            invariant
                index <= self.path.len(),
                self.path.len() == other.path.len(),
                forall|j: int| 0 <= j < index ==> self.path@[j] == other.path@[j],
            decreases self.path.len() - index,
        {
            if self.path[index] != other.path[index] {
                return false;
            }
            index += 1;
        }
        assert(self.path@ =~= other.path@);
        true
    }
}

/// What a `Word` is, as plain values.
pub enum WordView {
    Int(u32),
    At(PlaceView),
}

/// A value of a running procedure: an integer or an address.
#[derive(Debug, PartialEq, Eq)]
pub enum Word {
    Int(u32),
    At(Place),
}

impl View for Word {
    type V = WordView;

    open spec fn view(&self) -> WordView {
        match self {
            Word::Int(value) => WordView::Int(*value),
            Word::At(place) => WordView::At(place@),
        }
    }
}

/// What an `Event` is, as plain values.
pub enum EventView {
    Call { function: usize, scratch: PlaceView, pointers: PlaceView },
    CallBlock {
        id: u64,
        lifecycle: LifecycleFunc,
        data: PlaceView,
        pointers: PlaceView,
        ui: Option<PlaceView>,
    },
    SetBitmap { array: PlaceView, bitmap: u32 },
}

/// What a running procedure does to the world around it.
#[derive(Debug, PartialEq, Eq)]
pub enum Event {
    /// It calls the function of that index with these two blocks of memory.
    Call { function: usize, scratch: Place, pointers: Place },
    /// It calls the procedure of a block.
    CallBlock {
        id: u64,
        lifecycle: LifecycleFunc,
        data: Place,
        pointers: Place,
        ui: Option<Place>,
    },
    /// It makes `bitmap` the bitmap of the array at `array`.
    SetBitmap { array: Place, bitmap: u32 },
}

impl View for Event {
    type V = EventView;

    open spec fn view(&self) -> EventView {
        match self {
            Event::Call { function, scratch, pointers } => EventView::Call {
                function: *function,
                scratch: scratch@,
                pointers: pointers@,
            },
            Event::CallBlock { id: block, lifecycle, data, pointers, ui } => EventView::CallBlock {
                id: *block,
                lifecycle: *lifecycle,
                data: data@,
                pointers: pointers@,
                ui: match ui {
                    Some(place) => Some(place@),
                    None => None,
                },
            },
            Event::SetBitmap { array, bitmap } => EventView::SetBitmap {
                array: array@,
                bitmap: *bitmap,
            },
        }
    }
}

/// How a machine stands after a step.
#[derive(Debug, PartialEq, Eq, Clone, Copy, Structural)]
pub enum Status {
    /// It can go on.
    Running,
    /// The procedure has returned.
    Returned,
    /// The instruction that is next cannot be carried out.
    Trapped,
}

/// What a `Machine` is, as plain values.
pub struct MachineView {
    /// The index of the instruction that is next.
    pub pc: int,
    /// What the instructions have made, each at its index.
    pub values: Seq<Option<WordView>>,
    /// What the places on the stack hold, each at the index of the
    /// instruction that makes it.
    pub stack: Seq<Option<u32>>,
    /// The bitmaps of arrays: of those for one array the last one holds.
    pub bitmaps: Seq<(PlaceView, u32)>,
    /// What the procedure has done so far.
    pub events: Seq<EventView>,
}

/// The bitmap of the array at `array`, if it has one.
pub open spec fn bitmap_of(bitmaps: Seq<(PlaceView, u32)>, array: PlaceView) -> Option<u32>
    decreases bitmaps.len(),
{
    if bitmaps.len() == 0 {
        None
    } else if bitmaps.last().0 == array {
        Some(bitmaps.last().1)
    } else {
        bitmap_of(bitmaps.drop_last(), array)
    }
}

/// Where the code of the basic block `block` starts, looking from `from`
/// on: after the first instruction that positions the builder at its end.
pub open spec fn entry_from(stream: Seq<Instruction>, block: usize, from: int) -> Option<int>
    decreases stream.len() - from,
{
    if from < 0 || from >= stream.len() {
        None
    } else if stream[from] == (Instruction::PositionAtEnd { block }) {
        Some(from + 1)
    } else {
        entry_from(stream, block, from + 1)
    }
}

/// Where the code of the basic block `block` starts.
pub open spec fn entry_of(stream: Seq<Instruction>, block: usize) -> Option<int> {
    entry_from(stream, block, 0)
}

impl MachineView {
    /// The machine at the start of a procedure of `length` instructions,
    /// which knows these bitmaps.
    pub open spec fn start(length: nat, bitmaps: Seq<(PlaceView, u32)>) -> MachineView {
        MachineView {
            pc: 0,
            values: Seq::new(length, |i: int| None),
            stack: Seq::new(length, |i: int| None),
            bitmaps,
            events: Seq::empty(),
        }
    }

    /// The integer that the instruction of index `value` has made.
    pub open spec fn int_at(self, value: usize) -> Option<u32> {
        if value < self.values.len() {
            match self.values[value as int] {
                Some(WordView::Int(number)) => Some(number),
                _ => None,
            }
        } else {
            None
        }
    }

    /// The address that the instruction of index `value` has made.
    pub open spec fn place_at(self, value: usize) -> Option<PlaceView> {
        if value < self.values.len() {
            match self.values[value as int] {
                Some(WordView::At(place)) => Some(place),
                _ => None,
            }
        } else {
            None
        }
    }

    /// What a place on the stack holds: `pointer` has to be the address of
    /// the place itself.
    pub open spec fn stack_slot(self, place: PlaceView) -> Option<int> {
        match place.root {
            Root::Stack(slot) => if place.path.len() == 0 && slot < self.stack.len() {
                Some(slot as int)
            } else {
                None
            },
            _ => None,
        }
    }

    /// What the instruction makes, if it makes a value and can be carried
    /// out.
    #[verifier::opaque]
    pub open spec fn value_of(self, instruction: Instruction) -> Option<WordView> {
        match instruction {
            Instruction::Param { index } => if index == 0 {
                Some(WordView::At(PlaceView { root: Root::Scratch, path: Seq::empty() }))
            } else if index == 1 {
                Some(WordView::At(PlaceView { root: Root::Pointers, path: Seq::empty() }))
            } else {
                None
            },
            Instruction::ConstInt { value } => Some(WordView::Int(value)),
            Instruction::Alloca => Some(
                WordView::At(PlaceView { root: Root::Stack(self.pc as usize), path: Seq::empty() }),
            ),
            Instruction::StructGep { pointer, field } => match self.place_at(pointer) {
                Some(place) => Some(WordView::At(place.on(Step::Field(field)))),
                None => None,
            },
            Instruction::InBoundsGep { pointer, element: index } => match (
                self.place_at(pointer),
                self.int_at(index),
            ) {
                (Some(place), Some(number)) => Some(WordView::At(place.on(Step::Element(number)))),
                _ => None,
            },
            Instruction::Load { pointer } => match self.place_at(pointer) {
                Some(place) => match place.root {
                    Root::Stack(_) => match self.stack_slot(place) {
                        Some(slot) => match self.stack[slot] {
                            Some(number) => Some(WordView::Int(number)),
                            None => None,
                        },
                        None => None,
                    },
                    _ => Some(WordView::At(place.on(Step::Target))),
                },
                None => None,
            },
            Instruction::IntAdd { lhs, rhs } => match (self.int_at(lhs), self.int_at(rhs)) {
                (Some(a), Some(b)) => Some(WordView::Int(((a + b) % 0x1_0000_0000) as u32)),
                _ => None,
            },
            Instruction::Or { lhs, rhs } => match (self.int_at(lhs), self.int_at(rhs)) {
                (Some(a), Some(b)) => Some(WordView::Int(a | b)),
                _ => None,
            },
            Instruction::And { lhs, rhs } => match (self.int_at(lhs), self.int_at(rhs)) {
                (Some(a), Some(b)) => Some(WordView::Int(a & b)),
                _ => None,
            },
            Instruction::LeftShift { lhs, rhs } => match (self.int_at(lhs), self.int_at(rhs)) {
                (Some(a), Some(b)) => if b < 32 {
                    Some(WordView::Int(a << b))
                } else {
                    None
                },
                _ => None,
            },
            Instruction::RightShift { lhs, rhs } => match (self.int_at(lhs), self.int_at(rhs)) {
                (Some(a), Some(b)) => if b < 32 {
                    Some(WordView::Int(a >> b))
                } else {
                    None
                },
                _ => None,
            },
            Instruction::CompareBelow { lhs, rhs } => match (self.int_at(lhs), self.int_at(rhs)) {
                (Some(a), Some(b)) => Some(
                    WordView::Int(
                        if a < b {
                            1
                        } else {
                            0
                        },
                    ),
                ),
                _ => None,
            },
            Instruction::CastToBool { word: value } => match self.int_at(value) {
                Some(a) => Some(WordView::Int(a & 1)),
                None => None,
            },
            Instruction::GetBitmap { array } => match self.place_at(array) {
                Some(place) => match bitmap_of(self.bitmaps, place) {
                    Some(bitmap) => Some(WordView::Int(bitmap)),
                    None => None,
                },
                None => None,
            },
            _ => None,
        }
    }

    /// The machine after the instruction at `pc` has made `word`.
    pub open spec fn with_value(self, word: WordView) -> MachineView {
        MachineView { pc: self.pc + 1, values: self.values.update(self.pc, Some(word)), ..self }
    }

    /// The machine after the event.
    pub open spec fn with_event(self, event: EventView) -> MachineView {
        MachineView { pc: self.pc + 1, events: self.events.push(event), ..self }
    }

    /// The machine at the start of the code of the basic block, if the
    /// block has code.
    pub open spec fn jump(self, stream: Seq<Instruction>, block: usize) -> (MachineView, Status) {
        match entry_of(stream, block) {
            Some(entry) => (MachineView { pc: entry, ..self }, Status::Running),
            None => (self, Status::Trapped),
        }
    }

    /// The machine after the instruction at `pc`, where that instruction
    /// makes no value.
    #[verifier::opaque]
    pub open spec fn act(self, stream: Seq<Instruction>, instruction: Instruction) -> (
        MachineView,
        Status,
    ) {
        match instruction {
            Instruction::Store { pointer, word: value } => match (
                self.place_at(pointer),
                self.int_at(value),
            ) {
                (Some(place), Some(number)) => match self.stack_slot(place) {
                    Some(slot) => (
                        MachineView {
                            pc: self.pc + 1,
                            stack: self.stack.update(slot, Some(number)),
                            ..self
                        },
                        Status::Running,
                    ),
                    None => (self, Status::Trapped),
                },
                _ => (self, Status::Trapped),
            },
            Instruction::SetBitmap { array, bitmap } => match (
                self.place_at(array),
                self.int_at(bitmap),
            ) {
                (Some(place), Some(number)) => (
                    MachineView {
                        pc: self.pc + 1,
                        bitmaps: self.bitmaps.push((place, number)),
                        events: self.events.push(
                            EventView::SetBitmap { array: place, bitmap: number },
                        ),
                        ..self
                    },
                    Status::Running,
                ),
                _ => (self, Status::Trapped),
            },
            Instruction::Call { function, scratch, pointers } => match (
                self.place_at(scratch),
                self.place_at(pointers),
            ) {
                (Some(scratch_place), Some(pointers_place)) => (
                    self.with_event(
                        EventView::Call {
                            function,
                            scratch: scratch_place,
                            pointers: pointers_place,
                        },
                    ),
                    Status::Running,
                ),
                _ => (self, Status::Trapped),
            },
            Instruction::CallBlock { id: block, lifecycle, data, pointers } => match (
                self.place_at(data),
                self.place_at(pointers),
            ) {
                (Some(data_place), Some(pointers_place)) => (
                    self.with_event(
                        EventView::CallBlock {
                            id: block,
                            lifecycle,
                            data: data_place,
                            pointers: pointers_place,
                            ui: None,
                        },
                    ),
                    Status::Running,
                ),
                _ => (self, Status::Trapped),
            },
            Instruction::CallBlockWithUi { id: block, lifecycle, data, pointers, ui } => match (
                self.place_at(data),
                self.place_at(pointers),
                self.place_at(ui),
            ) {
                (Some(data_place), Some(pointers_place), Some(ui_place)) => (
                    self.with_event(
                        EventView::CallBlock {
                            id: block,
                            lifecycle,
                            data: data_place,
                            pointers: pointers_place,
                            ui: Some(ui_place),
                        },
                    ),
                    Status::Running,
                ),
                _ => (self, Status::Trapped),
            },
            Instruction::AppendBasicBlock => (
                MachineView { pc: self.pc + 1, ..self },
                Status::Running,
            ),
            Instruction::Branch { block } => self.jump(stream, block),
            Instruction::ConditionalBranch { condition, then_block, else_block } => {
                match self.int_at(condition) {
                    Some(number) => if number != 0 {
                        self.jump(stream, then_block)
                    } else {
                        self.jump(stream, else_block)
                    },
                    None => (self, Status::Trapped),
                }
            },
            Instruction::Return => (self, Status::Returned),
            // The builder is moved to another block: the block that was
            // running has no end.
            _ => (self, Status::Trapped),
        }
    }

    /// The machine one instruction on.
    #[verifier::opaque]
    pub open spec fn step(self, stream: Seq<Instruction>) -> (MachineView, Status) {
        if self.pc < 0 || self.pc >= stream.len() || self.values.len() != stream.len()
            || self.stack.len() != stream.len() {
            (self, Status::Trapped)
        } else {
            let instruction = stream[self.pc];
            if instruction.makes_value() {
                match self.value_of(instruction) {
                    Some(word) => (self.with_value(word), Status::Running),
                    None => (self, Status::Trapped),
                }
            } else {
                self.act(stream, instruction)
            }
        }
    }

    /// The machine `fuel` instructions on, or where it has come to rest
    /// before.
    pub open spec fn run(self, stream: Seq<Instruction>, fuel: nat) -> (MachineView, Status)
        decreases fuel,
    {
        if fuel == 0 {
            (self, Status::Running)
        } else {
            let (next, status) = self.step(stream);
            if status == Status::Running {
                next.run(stream, (fuel - 1) as nat)
            } else {
                (next, status)
            }
        }
    }
}

/// The words of a list, as plain values.
pub open spec fn words_of(words: Seq<Option<Word>>) -> Seq<Option<WordView>> {
    words.map_values(
        |word: Option<Word>|
            match word {
                Some(word) => Some(word@),
                None => None,
            },
    )
}

/// The bitmaps of a list, as plain values.
pub open spec fn bitmaps_of(bitmaps: Seq<(Place, u32)>) -> Seq<(PlaceView, u32)> {
    bitmaps.map_values(|entry: (Place, u32)| (entry.0@, entry.1))
}

/// The events of a list, as plain values.
pub open spec fn events_of(events: Seq<Event>) -> Seq<EventView> {
    events.map_values(|event: Event| event@)
}

/// A procedure as it runs.
#[derive(Debug, PartialEq, Eq)]
pub struct Machine {
    /// The index of the instruction that is next.
    pub pc: usize,
    /// What the instructions have made, each at its index.
    pub values: Vec<Option<Word>>,
    /// What the places on the stack hold, each at the index of the
    /// instruction that makes it.
    pub stack: Vec<Option<u32>>,
    /// The bitmaps of arrays: of those for one array the last one holds.
    pub bitmaps: Vec<(Place, u32)>,
    /// What the procedure has done so far.
    pub events: Vec<Event>,
}

impl View for Machine {
    type V = MachineView;

    open spec fn view(&self) -> MachineView {
        MachineView {
            pc: self.pc as int,
            values: words_of(self.values@),
            stack: self.stack@,
            bitmaps: bitmaps_of(self.bitmaps@),
            events: events_of(self.events@),
        }
    }
}

/// Where the code of the basic block starts.
pub fn find_entry(stream: &Vec<Instruction>, block: usize) -> (r: Option<usize>)
    ensures
        match r {
            Some(entry) => entry_of(stream@, block) == Some(entry as int) && entry <= stream.len(),
            None => entry_of(stream@, block).is_none(),
        },
{
    let mut index: usize = 0;
    while index < stream.len()
        invariant
            index <= stream.len(),
            entry_of(stream@, block) == entry_from(stream@, block, index as int),
        decreases stream.len() - index,
    {
        let found = match stream[index] {
            Instruction::PositionAtEnd { block: positioned } => positioned == block,
            _ => false,
        };
        if found {
            return Some(index + 1);
        }
        index += 1;
    }
    None
}

impl Machine {
    /// The machine at the start of a procedure of `length` instructions,
    /// which knows these bitmaps.
    pub fn start(length: usize, bitmaps: Vec<(Place, u32)>) -> (r: Self)
        ensures
            r@ == MachineView::start(length as nat, bitmaps_of(bitmaps@)),
    {
        let mut values: Vec<Option<Word>> = Vec::new();
        let mut stack: Vec<Option<u32>> = Vec::new();
        let mut index: usize = 0;
        while index < length
            invariant
                index <= length,
                values.len() == index,
                stack.len() == index,
                forall|i: int| 0 <= i < index ==> (#[trigger] values@[i]).is_none(),
                forall|i: int| 0 <= i < index ==> (#[trigger] stack@[i]).is_none(),
            decreases length - index,
        {
            values.push(None);
            stack.push(None);
            index += 1;
        }
        let r = Machine { pc: 0, values, stack, bitmaps, events: Vec::new() };
        proof {
            let expected = MachineView::start(length as nat, bitmaps_of(bitmaps@));
            assert(r@.values =~= expected.values);
            assert(r@.stack =~= expected.stack);
            assert(r@.events =~= expected.events);
        }
        r
    }

    /// The integer that the instruction of index `value` has made.
    fn int_at(&self, value: usize) -> (r: Option<u32>)
        ensures
            r == self@.int_at(value),
    {
        if value < self.values.len() {
            match &self.values[value] {
                Some(Word::Int(number)) => Some(*number),
                _ => None,
            }
        } else {
            None
        }
    }

    /// The address that the instruction of index `value` has made.
    fn place_at(&self, value: usize) -> (r: Option<&Place>)
        ensures
            match r {
                Some(place) => self@.place_at(value) == Some(place@),
                None => self@.place_at(value).is_none(),
            },
    {
        if value < self.values.len() {
            match &self.values[value] {
                Some(Word::At(place)) => Some(place),
                _ => None,
            }
        } else {
            None
        }
    }

    /// The bitmap of the array at `array`, if it has one.
    fn bitmap_of(&self, array: &Place) -> (r: Option<u32>)
        ensures
            r == bitmap_of(self@.bitmaps, array@),
    {
        let ghost all = self@.bitmaps;
        let mut index: usize = self.bitmaps.len();
        assert(all.take(index as int) =~= all);
        while index > 0
            invariant
                index <= self.bitmaps.len(),
                all == bitmaps_of(self.bitmaps@),
                bitmap_of(all, array@) == bitmap_of(all.take(index as int), array@),
            decreases index,
        {
            index -= 1;
            let ghost upto = all.take(index + 1);
            assert(upto.last() == all[index as int]);
            assert(upto.drop_last() =~= all.take(index as int));
            if self.bitmaps[index].0.same(array) {
                return Some(self.bitmaps[index].1);
            }
        }
        None
    }

    /// What a place on the stack holds: `place` has to be the address of
    /// the place itself.
    fn stack_slot(&self, place: &Place) -> (r: Option<usize>)
        ensures
            match r {
                Some(slot) => self@.stack_slot(place@) == Some(slot as int) && slot
                    < self.stack.len(),
                None => self@.stack_slot(place@).is_none(),
            },
    {
        match place.root {
            Root::Stack(slot) => {
                if place.path.len() == 0 && slot < self.stack.len() {
                    Some(slot)
                } else {
                    None
                }
            },
            _ => None,
        }
    }

    /// What the instruction makes, if it makes a value and can be carried
    /// out.
    fn value_of(&self, instruction: Instruction) -> (r: Option<Word>)
        ensures
            match r {
                Some(word) => self@.value_of(instruction) == Some(word@),
                None => self@.value_of(instruction).is_none(),
            },
    {
        reveal(MachineView::value_of);
        match instruction {
            Instruction::Param { index } => {
                if index == 0 {
                    Some(Word::At(Place::new(Root::Scratch)))
                } else if index == 1 {
                    Some(Word::At(Place::new(Root::Pointers)))
                } else {
                    None
                }
            },
            Instruction::ConstInt { value } => Some(Word::Int(value)),
            Instruction::Alloca => Some(Word::At(Place::new(Root::Stack(self.pc)))),
            Instruction::StructGep { pointer, field } => match self.place_at(pointer) {
                Some(place) => Some(Word::At(place.on(Step::Field(field)))),
                None => None,
            },
            Instruction::InBoundsGep { pointer, element: index } => match (
                self.place_at(pointer),
                self.int_at(index),
            ) {
                (Some(place), Some(number)) => Some(Word::At(place.on(Step::Element(number)))),
                _ => None,
            },
            Instruction::Load { pointer } => match self.place_at(pointer) {
                Some(place) => match place.root {
                    Root::Stack(_) => match self.stack_slot(place) {
                        Some(slot) => match self.stack[slot] {
                            Some(number) => Some(Word::Int(number)),
                            None => None,
                        },
                        None => None,
                    },
                    _ => Some(Word::At(place.on(Step::Target))),
                },
                None => None,
            },
            Instruction::IntAdd { lhs, rhs } => match (self.int_at(lhs), self.int_at(rhs)) {
                (Some(a), Some(b)) => {
                    let wide: u64 = a as u64 + b as u64;
                    Some(Word::Int((wide % 0x1_0000_0000) as u32))
                },
                _ => None,
            },
            Instruction::Or { lhs, rhs } => match (self.int_at(lhs), self.int_at(rhs)) {
                (Some(a), Some(b)) => Some(Word::Int(a | b)),
                _ => None,
            },
            Instruction::And { lhs, rhs } => match (self.int_at(lhs), self.int_at(rhs)) {
                (Some(a), Some(b)) => Some(Word::Int(a & b)),
                _ => None,
            },
            Instruction::LeftShift { lhs, rhs } => match (self.int_at(lhs), self.int_at(rhs)) {
                (Some(a), Some(b)) => {
                    if b < 32 {
                        Some(Word::Int(a << b))
                    } else {
                        None
                    }
                },
                _ => None,
            },
            Instruction::RightShift { lhs, rhs } => match (self.int_at(lhs), self.int_at(rhs)) {
                (Some(a), Some(b)) => {
                    if b < 32 {
                        Some(Word::Int(a >> b))
                    } else {
                        None
                    }
                },
                _ => None,
            },
            Instruction::CompareBelow { lhs, rhs } => match (self.int_at(lhs), self.int_at(rhs)) {
                (Some(a), Some(b)) => Some(
                    Word::Int(
                        if a < b {
                            1
                        } else {
                            0
                        },
                    ),
                ),
                _ => None,
            },
            Instruction::CastToBool { word: value } => match self.int_at(value) {
                Some(a) => Some(Word::Int(a & 1)),
                None => None,
            },
            Instruction::GetBitmap { array } => match self.place_at(array) {
                Some(place) => match self.bitmap_of(place) {
                    Some(bitmap) => Some(Word::Int(bitmap)),
                    None => None,
                },
                None => None,
            },
            _ => None,
        }
    }

    /// Goes to the start of the code of the basic block.
    fn jump(&mut self, stream: &Vec<Instruction>, block: usize) -> (r: Status)
        ensures
            (final(self)@, r) == old(self)@.jump(stream@, block),
    {
        match find_entry(stream, block) {
            Some(entry) => {
                self.pc = entry;
                Status::Running
            },
            None => Status::Trapped,
        }
    }

    /// Takes down an event and goes on.
    fn record(&mut self, event: Event)
        requires
            old(self).pc < usize::MAX,
        ensures
            final(self)@ == old(self)@.with_event(event@),
    {
        self.events.push(event);
        self.pc = self.pc + 1;
        assert(self@.events =~= old(self)@.events.push(event@));
    }

    /// Carries out the instruction at `pc`, which makes no value.
    fn act(&mut self, stream: &Vec<Instruction>, instruction: Instruction) -> (r: Status)
        requires
            old(self).pc < stream.len(),
        ensures
            (final(self)@, r) == old(self)@.act(stream@, instruction),
    {
        reveal(MachineView::act);
        match instruction {
            Instruction::Store { pointer, word: value } => {
                let slot = match (self.place_at(pointer), self.int_at(value)) {
                    (Some(place), Some(number)) => match self.stack_slot(place) {
                        Some(slot) => Some((slot, number)),
                        None => None,
                    },
                    _ => None,
                };
                match slot {
                    Some((slot, number)) => {
                        self.stack[slot] = Some(number);
                        self.pc = self.pc + 1;
                        Status::Running
                    },
                    None => Status::Trapped,
                }
            },
            Instruction::SetBitmap { array, bitmap } => {
                let set = match (self.place_at(array), self.int_at(bitmap)) {
                    (Some(place), Some(number)) => Some((place.clone(), place.clone(), number)),
                    _ => None,
                };
                match set {
                    Some((place, again, number)) => {
                        self.bitmaps.push((place, number));
                        self.events.push(Event::SetBitmap { array: again, bitmap: number });
                        self.pc = self.pc + 1;
                        proof {
                            let before = old(self)@;
                            assert(self@.bitmaps =~= before.bitmaps.push((again@, number)));
                            assert(self@.events =~= before.events.push(
                                EventView::SetBitmap { array: again@, bitmap: number },
                            ));
                        }
                        Status::Running
                    },
                    None => Status::Trapped,
                }
            },
            Instruction::Call { function, scratch, pointers } => {
                let event = match (self.place_at(scratch), self.place_at(pointers)) {
                    (Some(scratch_place), Some(pointers_place)) => Some(
                        Event::Call {
                            function,
                            scratch: scratch_place.clone(),
                            pointers: pointers_place.clone(),
                        },
                    ),
                    _ => None,
                };
                match event {
                    Some(event) => {
                        self.record(event);
                        Status::Running
                    },
                    None => Status::Trapped,
                }
            },
            Instruction::CallBlock { id: block, lifecycle, data, pointers } => {
                let event = match (self.place_at(data), self.place_at(pointers)) {
                    (Some(data_place), Some(pointers_place)) => Some(
                        Event::CallBlock {
                            id: block,
                            lifecycle,
                            data: data_place.clone(),
                            pointers: pointers_place.clone(),
                            ui: None,
                        },
                    ),
                    _ => None,
                };
                match event {
                    Some(event) => {
                        self.record(event);
                        Status::Running
                    },
                    None => Status::Trapped,
                }
            },
            Instruction::CallBlockWithUi { id: block, lifecycle, data, pointers, ui } => {
                let event = match (
                    self.place_at(data),
                    self.place_at(pointers),
                    self.place_at(ui),
                ) {
                    (Some(data_place), Some(pointers_place), Some(ui_place)) => Some(
                        Event::CallBlock {
                            id: block,
                            lifecycle,
                            data: data_place.clone(),
                            pointers: pointers_place.clone(),
                            ui: Some(ui_place.clone()),
                        },
                    ),
                    _ => None,
                };
                match event {
                    Some(event) => {
                        self.record(event);
                        Status::Running
                    },
                    None => Status::Trapped,
                }
            },
            Instruction::AppendBasicBlock => {
                self.pc = self.pc + 1;
                Status::Running
            },
            Instruction::Branch { block } => self.jump(stream, block),
            Instruction::ConditionalBranch { condition, then_block, else_block } => {
                match self.int_at(condition) {
                    Some(number) => {
                        if number != 0 {
                            self.jump(stream, then_block)
                        } else {
                            self.jump(stream, else_block)
                        }
                    },
                    None => Status::Trapped,
                }
            },
            Instruction::Return => Status::Returned,
            _ => Status::Trapped,
        }
    }

    /// Carries out the instruction that is next.
    pub fn step(&mut self, stream: &Vec<Instruction>) -> (r: Status)
        ensures
            (final(self)@, r) == old(self)@.step(stream@),
    {
        reveal(MachineView::step);
        if self.pc >= stream.len() || self.values.len() != stream.len() || self.stack.len()
            != stream.len() {
            return Status::Trapped;
        }
        let instruction = stream[self.pc];
        if makes_value(instruction) {
            match self.value_of(instruction) {
                Some(word) => {
                    let pc = self.pc;
                    self.values[pc] = Some(word);
                    self.pc = pc + 1;
                    assert(self@.values =~= old(self)@.values.update(pc as int, Some(word@)));
                    Status::Running
                },
                None => Status::Trapped,
            }
        } else {
            self.act(stream, instruction)
        }
    }

    /// Carries out instructions until the procedure returns, an
    /// instruction cannot be carried out, or `fuel` instructions are done.
    pub fn run(&mut self, stream: &Vec<Instruction>, fuel: u64) -> (r: Status)
        ensures
            (final(self)@, r) == old(self)@.run(stream@, fuel as nat),
    {
        let mut left: u64 = fuel;
        while left > 0
            invariant
                old(self)@.run(stream@, fuel as nat) == self@.run(stream@, left as nat),
            decreases left,
        {
            let status = self.step(stream);
            match status {
                Status::Running => {},
                _ => {
                    return status;
                },
            }
            left -= 1;
        }
        Status::Running
    }
}

/// Whether the instruction makes a value.
pub fn makes_value(instruction: Instruction) -> (r: bool)
    ensures
        r == instruction.makes_value(),
{
    match instruction {
        Instruction::Param { .. }
        | Instruction::ConstInt { .. }
        | Instruction::Alloca
        | Instruction::StructGep { .. }
        | Instruction::InBoundsGep { .. }
        | Instruction::Load { .. }
        | Instruction::IntAdd { .. }
        | Instruction::Or { .. }
        | Instruction::And { .. }
        | Instruction::LeftShift { .. }
        | Instruction::RightShift { .. }
        | Instruction::CompareBelow { .. }
        | Instruction::CastToBool { .. }
        | Instruction::GetBitmap { .. } => true,
        _ => false,
    }
}

/// What a procedure does when it runs from its start, knowing these
/// bitmaps, for `fuel` instructions at most: how it ends, and what it has
/// done by then.
pub fn execute(stream: &Vec<Instruction>, bitmaps: Vec<(Place, u32)>, fuel: u64) -> (r: (
    Status,
    Vec<Event>,
))
    ensures
        ({
            let (machine, status) = MachineView::start(stream@.len(), bitmaps_of(bitmaps@)).run(
                stream@,
                fuel as nat,
            );
            r.0 == status && events_of(r.1@) == machine.events
        }),
{
    let mut machine = Machine::start(stream.len(), bitmaps);
    let status = machine.run(stream, fuel);
    (status, machine.events)
}

} // verus!
