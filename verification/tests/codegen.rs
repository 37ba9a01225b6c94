use compiler::codegen::machine::{
    execute, find_entry, Event, Machine, Place, Root, Status, Step,
};
use compiler::codegen::surface::{
    build_funcs, build_lifecycle_call, build_lifecycle_func, build_node_call, get_lifecycle_func,
};
use compiler::codegen::block::{BlockContext, ControlPointers};
use compiler::codegen::{
    all_slots, BlockLayout, BuilderContext, CodegenError, Instruction, LifecycleFunc, Linkage,
    Module, SurfaceLayout, TargetProperties,
};
use compiler::mir::{
    Block, BlockId, MIRContext, Node, NodeData, Surface, SurfaceId, ValueGroup, ValueGroupSource,
    ValueSocket, VarType,
};

fn id(id: u64, name: &str) -> SurfaceId {
    SurfaceId { id, debug_name: String::from(name) }
}

fn array() -> ValueGroup {
    ValueGroup::new(VarType::Array(Box::new(VarType::Num)), ValueGroupSource::Internal)
}

fn voice_surface() -> Surface {
    Surface::new(
        id(2, "main.extracted0"),
        vec![ValueGroup::new(VarType::Num, ValueGroupSource::Socket(0))],
        vec![],
    )
}

/// A surface with one node, which runs the voice surface once per voice.
fn voices_surface(source_sockets: Vec<usize>, dest_sockets: Vec<usize>) -> Surface {
    Surface::new(
        id(1, "main"),
        vec![array(), array(), array()],
        vec![Node::new(
            vec![
                ValueSocket::new(0, false, true, false),
                ValueSocket::new(1, true, false, false),
                ValueSocket::new(2, true, false, false),
            ],
            NodeData::ExtractGroup {
                surface: id(2, "main.extracted0"),
                source_sockets,
                dest_sockets,
            },
        )],
    )
}

fn context() -> MIRContext {
    MIRContext::new(
        vec![voice_surface()],
        vec![Block { id: BlockId { id: 9, debug_name: String::from("osc") } }],
    )
}

fn layout() -> SurfaceLayout {
    SurfaceLayout::new(vec![3], vec![5])
}

fn place(root: Root, path: &[Step]) -> Place {
    Place { root, path: path.to_vec() }
}

/// The array bound to a socket of the node.
fn array_at(socket: u32) -> Place {
    place(Root::Pointers, &[Step::Field(5), Step::Field(socket), Step::Target])
}

fn voice_call(function: usize, voice: u32) -> Event {
    Event::Call {
        function,
        scratch: place(Root::Scratch, &[Step::Field(3), Step::Element(voice)]),
        pointers: place(Root::Pointers, &[Step::Field(5), Step::Element(voice)]),
    }
}

/// Lowers the surface for one part of its life and runs the procedure.
fn lower_and_run(
    surface: &Surface,
    capacity: u32,
    lifecycle: LifecycleFunc,
    bitmaps: Vec<(Place, u32)>,
) -> (Status, Vec<Event>) {
    let mut module = Module::new();
    let target = TargetProperties::new(false, capacity);
    build_lifecycle_func(&mut module, &context(), surface, &layout(), &target, lifecycle).unwrap();
    let body = module.function(0).body.clone().unwrap();
    execute(&body, bitmaps, 10_000)
}

#[test]
fn update_runs_the_live_voices_and_tells_the_destinations() {
    let surface = voices_surface(vec![0], vec![1, 2]);
    let (status, events) =
        lower_and_run(&surface, 4, LifecycleFunc::Update, vec![(array_at(0), 0b0101)]);
    assert_eq!(status, Status::Returned);
    assert_eq!(
        events,
        vec![
            voice_call(1, 0),
            voice_call(1, 2),
            Event::SetBitmap { array: array_at(1), bitmap: 0b0101 },
            Event::SetBitmap { array: array_at(2), bitmap: 0b0101 },
        ]
    );
}

#[test]
fn update_without_sources_runs_every_voice() {
    let surface = voices_surface(vec![], vec![1, 2]);
    let (status, events) = lower_and_run(&surface, 4, LifecycleFunc::Update, vec![]);
    assert_eq!(status, Status::Returned);
    assert_eq!(
        events,
        vec![
            voice_call(1, 0),
            voice_call(1, 1),
            voice_call(1, 2),
            voice_call(1, 3),
            Event::SetBitmap { array: array_at(1), bitmap: 0b1111 },
            Event::SetBitmap { array: array_at(2), bitmap: 0b1111 },
        ]
    );
}

#[test]
fn construct_and_destruct_run_every_voice_whatever_is_live() {
    for lifecycle in [LifecycleFunc::Construct, LifecycleFunc::Destruct] {
        let surface = voices_surface(vec![0], vec![1, 2]);
        let (status, events) =
            lower_and_run(&surface, 4, lifecycle, vec![(array_at(0), 0b0101)]);
        assert_eq!(status, Status::Returned);
        assert_eq!(
            events,
            vec![voice_call(1, 0), voice_call(1, 1), voice_call(1, 2), voice_call(1, 3)]
        );

        let unsourced = voices_surface(vec![], vec![1]);
        let (status, events) = lower_and_run(&unsourced, 4, lifecycle, vec![]);
        assert_eq!(status, Status::Returned);
        assert_eq!(events.len(), 4);
    }
}

#[test]
fn a_voice_is_live_if_any_source_says_so() {
    let surface = voices_surface(vec![0, 2, 1], vec![1]);
    let (status, events) = lower_and_run(
        &surface,
        8,
        LifecycleFunc::Update,
        vec![(array_at(0), 0b0000_0001), (array_at(1), 0b1000_0000), (array_at(2), 0b0001_0000)],
    );
    assert_eq!(status, Status::Returned);
    assert_eq!(
        events,
        vec![
            voice_call(1, 0),
            voice_call(1, 4),
            voice_call(1, 7),
            Event::SetBitmap { array: array_at(1), bitmap: 0b1001_0001 },
        ]
    );
}

#[test]
fn no_voice_runs_where_none_is_live() {
    let surface = voices_surface(vec![0], vec![1]);
    let (status, events) =
        lower_and_run(&surface, 4, LifecycleFunc::Update, vec![(array_at(0), 0)]);
    assert_eq!(status, Status::Returned);
    assert_eq!(events, vec![Event::SetBitmap { array: array_at(1), bitmap: 0 }]);
}

#[test]
fn bits_beyond_the_capacity_run_no_voice() {
    let surface = voices_surface(vec![0], vec![]);
    let (status, events) =
        lower_and_run(&surface, 2, LifecycleFunc::Update, vec![(array_at(0), 0b1110)]);
    assert_eq!(status, Status::Returned);
    assert_eq!(events, vec![voice_call(1, 1)]);
}

#[test]
fn all_thirty_two_voices_can_run() {
    let surface = voices_surface(vec![], vec![1]);
    let (status, events) = lower_and_run(&surface, 32, LifecycleFunc::Update, vec![]);
    assert_eq!(status, Status::Returned);
    assert_eq!(events.len(), 33);
    assert_eq!(events[31], voice_call(1, 31));
    assert_eq!(events[32], Event::SetBitmap { array: array_at(1), bitmap: 0xffff_ffff });
}

#[test]
fn a_source_without_a_bitmap_traps() {
    let surface = voices_surface(vec![0], vec![1]);
    let (status, events) = lower_and_run(&surface, 4, LifecycleFunc::Update, vec![]);
    assert_eq!(status, Status::Trapped);
    assert!(events.is_empty());
}

#[test]
fn all_slots_sets_the_low_bits() {
    assert_eq!(all_slots(0), 0);
    assert_eq!(all_slots(1), 1);
    assert_eq!(all_slots(4), 0b1111);
    assert_eq!(all_slots(16), 0xffff);
    assert_eq!(all_slots(32), 0xffff_ffff);
}

#[test]
fn lifecycle_names() {
    assert_eq!(LifecycleFunc::Construct.name(), "construct");
    assert_eq!(LifecycleFunc::Update.name(), "update");
    assert_eq!(LifecycleFunc::Destruct.name(), "destruct");
    assert!(LifecycleFunc::Update.is_update());
    assert!(!LifecycleFunc::Construct.is_update());
    assert!(!LifecycleFunc::Destruct.is_update());
}

#[test]
fn procedures_are_named_by_identity_name_and_lifecycle() {
    let mut module = Module::new();
    let surface = Surface::new(id(1234567890, "main.extracted10"), vec![], vec![]);
    let first = get_lifecycle_func(&mut module, &surface, LifecycleFunc::Update);
    let second = get_lifecycle_func(&mut module, &surface, LifecycleFunc::Destruct);
    let again = get_lifecycle_func(&mut module, &surface, LifecycleFunc::Update);
    assert_eq!((first, second, again), (0, 1, 0));
    assert_eq!(module.len(), 2);
    assert_eq!(module.function(0).name, "maxim.surface.1234567890.main.extracted10.update");
    assert_eq!(module.function(1).name, "maxim.surface.1234567890.main.extracted10.destruct");
    assert_eq!(module.function(0).linkage, Linkage::External);
    assert_eq!(module.function(0).surface, id(1234567890, "main.extracted10"));
    assert_eq!(module.function(0).lifecycle, LifecycleFunc::Update);
    assert_eq!(module.function(0).body, None);

    let zero = Surface::new(id(0, ""), vec![], vec![]);
    let third = get_lifecycle_func(&mut module, &zero, LifecycleFunc::Construct);
    assert_eq!(module.function(third).name, "maxim.surface.0..construct");
}

#[test]
fn a_nested_surface_is_called_once_on_the_blocks_of_its_node() {
    let surface = Surface::new(
        id(1, "main"),
        vec![],
        vec![Node::new(vec![], NodeData::Group(id(2, "ignored")))],
    );
    let mut module = Module::new();
    let target = TargetProperties::new(false, 4);
    build_lifecycle_func(
        &mut module,
        &context(),
        &surface,
        &layout(),
        &target,
        LifecycleFunc::Construct,
    )
    .unwrap();
    assert_eq!(module.len(), 2);
    assert_eq!(module.function(0).name, "maxim.surface.1.main.construct");
    assert_eq!(module.function(1).name, "maxim.surface.2.main.extracted0.construct");
    assert_eq!(module.function(1).body, None);
    let body = module.function(0).body.clone().unwrap();
    assert_eq!(
        body,
        vec![
            Instruction::Param { index: 0 },
            Instruction::Param { index: 1 },
            Instruction::StructGep { pointer: 0, field: 3 },
            Instruction::StructGep { pointer: 1, field: 5 },
            Instruction::Call { function: 1, scratch: 2, pointers: 3 },
            Instruction::Return,
        ]
    );
    let (status, events) = execute(&body, vec![], 100);
    assert_eq!(status, Status::Returned);
    assert_eq!(
        events,
        vec![Event::Call {
            function: 1,
            scratch: place(Root::Scratch, &[Step::Field(3)]),
            pointers: place(Root::Pointers, &[Step::Field(5)]),
        }]
    );
}

fn block_surface() -> Surface {
    Surface::new(
        id(1, "main"),
        vec![],
        vec![Node::new(
            vec![],
            NodeData::Custom(BlockId { id: 9, debug_name: String::from("osc") }),
        )],
    )
}

#[test]
fn a_block_gets_its_data_and_its_pointers() {
    let mut module = Module::new();
    let target = TargetProperties::new(false, 4);
    build_lifecycle_func(
        &mut module,
        &context(),
        &block_surface(),
        &layout(),
        &target,
        LifecycleFunc::Update,
    )
    .unwrap();
    assert_eq!(module.len(), 1);
    let body = module.function(0).body.clone().unwrap();
    assert_eq!(
        body,
        vec![
            Instruction::Param { index: 0 },
            Instruction::Param { index: 1 },
            Instruction::StructGep { pointer: 0, field: 3 },
            Instruction::StructGep { pointer: 1, field: 5 },
            Instruction::StructGep { pointer: 2, field: 0 },
            Instruction::CallBlock {
                id: 9,
                lifecycle: LifecycleFunc::Update,
                data: 4,
                pointers: 3,
            },
            Instruction::Return,
        ]
    );
    let (status, events) = execute(&body, vec![], 100);
    assert_eq!(status, Status::Returned);
    assert_eq!(
        events,
        vec![Event::CallBlock {
            id: 9,
            lifecycle: LifecycleFunc::Update,
            data: place(Root::Scratch, &[Step::Field(3), Step::Field(0)]),
            pointers: place(Root::Pointers, &[Step::Field(5)]),
            ui: None,
        }]
    );
}

#[test]
fn a_block_gets_its_user_interface_if_the_target_has_one() {
    let mut module = Module::new();
    let target = TargetProperties::new(true, 4);
    build_lifecycle_func(
        &mut module,
        &context(),
        &block_surface(),
        &layout(),
        &target,
        LifecycleFunc::Destruct,
    )
    .unwrap();
    let body = module.function(0).body.clone().unwrap();
    let (status, events) = execute(&body, vec![], 100);
    assert_eq!(status, Status::Returned);
    assert_eq!(
        events,
        vec![Event::CallBlock {
            id: 9,
            lifecycle: LifecycleFunc::Destruct,
            data: place(Root::Scratch, &[Step::Field(3), Step::Field(0)]),
            pointers: place(Root::Pointers, &[Step::Field(5)]),
            ui: Some(place(Root::Scratch, &[Step::Field(3), Step::Field(1)])),
        }]
    );
}

#[test]
fn nodes_are_dealt_with_in_their_order() {
    let surface = Surface::new(
        id(1, "main"),
        vec![],
        vec![
            Node::new(vec![], NodeData::Group(id(2, "x"))),
            Node::new(vec![], NodeData::Custom(BlockId { id: 9, debug_name: String::new() })),
            Node::new(vec![], NodeData::Group(id(2, "x"))),
        ],
    );
    let mut module = Module::new();
    let target = TargetProperties::new(false, 4);
    let layout = SurfaceLayout::new(vec![0, 1, 2], vec![2, 1, 0]);
    build_lifecycle_func(
        &mut module,
        &context(),
        &surface,
        &layout,
        &target,
        LifecycleFunc::Update,
    )
    .unwrap();
    assert_eq!(module.len(), 2);
    let body = module.function(0).body.clone().unwrap();
    let (status, events) = execute(&body, vec![], 100);
    assert_eq!(status, Status::Returned);
    assert_eq!(
        events,
        vec![
            Event::Call {
                function: 1,
                scratch: place(Root::Scratch, &[Step::Field(0)]),
                pointers: place(Root::Pointers, &[Step::Field(2)]),
            },
            Event::CallBlock {
                id: 9,
                lifecycle: LifecycleFunc::Update,
                data: place(Root::Scratch, &[Step::Field(1), Step::Field(0)]),
                pointers: place(Root::Pointers, &[Step::Field(1)]),
                ui: None,
            },
            Event::Call {
                function: 1,
                scratch: place(Root::Scratch, &[Step::Field(2)]),
                pointers: place(Root::Pointers, &[Step::Field(0)]),
            },
        ]
    );
}

#[test]
fn three_procedures_per_surface() {
    let mut module = Module::new();
    let target = TargetProperties::new(false, 4);
    let surface = voices_surface(vec![0], vec![1]);
    build_funcs(&mut module, &context(), &surface, &layout(), &target).unwrap();
    let names: Vec<String> = (0..module.len()).map(|i| module.function(i).name.clone()).collect();
    assert_eq!(
        names,
        vec![
            "maxim.surface.1.main.construct",
            "maxim.surface.2.main.extracted0.construct",
            "maxim.surface.1.main.update",
            "maxim.surface.2.main.extracted0.update",
            "maxim.surface.1.main.destruct",
            "maxim.surface.2.main.extracted0.destruct",
        ]
    );
    for index in [0, 2, 4] {
        assert!(module.function(index).body.is_some());
    }
    for index in [1, 3, 5] {
        assert!(module.function(index).body.is_none());
    }
    // A second surface that runs the same voices declares nothing anew.
    let other = Surface::new(
        id(3, "other"),
        vec![],
        vec![Node::new(vec![], NodeData::Group(id(2, "x")))],
    );
    build_funcs(&mut module, &context(), &other, &layout(), &target).unwrap();
    assert_eq!(module.len(), 9);
    let body = module.function(6).body.clone().unwrap();
    assert_eq!(body[4], Instruction::Call { function: 1, scratch: 2, pointers: 3 });
}

#[test]
fn the_code_of_the_gated_loop() {
    let mut ctx = BuilderContext::new();
    let mut module = Module::new();
    let scratch = ctx.get_nth_param(0);
    let pointers = ctx.get_nth_param(1);
    let surface = voices_surface(vec![2], vec![1]);
    let target = TargetProperties::new(false, 16);
    build_node_call(
        &mut ctx,
        &mut module,
        &context(),
        &surface.nodes[0],
        0,
        &target,
        LifecycleFunc::Update,
        scratch,
        pointers,
    )
    .unwrap();
    assert_eq!(
        *ctx.instructions(),
        vec![
            Instruction::Param { index: 0 },
            Instruction::Param { index: 1 },
            // which voices are live
            Instruction::StructGep { pointer: 1, field: 2 },
            Instruction::Load { pointer: 2 },
            Instruction::GetBitmap { array: 3 },
            // the counter and the blocks
            Instruction::Alloca,
            Instruction::ConstInt { value: 0 },
            Instruction::Store { pointer: 5, word: 6 },
            Instruction::AppendBasicBlock,
            Instruction::AppendBasicBlock,
            Instruction::AppendBasicBlock,
            Instruction::AppendBasicBlock,
            Instruction::Branch { block: 8 },
            // check
            Instruction::PositionAtEnd { block: 8 },
            Instruction::Load { pointer: 5 },
            Instruction::ConstInt { value: 16 },
            Instruction::CompareBelow { lhs: 14, rhs: 15 },
            Instruction::ConditionalBranch { condition: 16, then_block: 9, else_block: 11 },
            // check active
            Instruction::PositionAtEnd { block: 9 },
            Instruction::ConstInt { value: 1 },
            Instruction::IntAdd { lhs: 14, rhs: 19 },
            Instruction::Store { pointer: 5, word: 20 },
            Instruction::ConstInt { value: 1 },
            Instruction::LeftShift { lhs: 22, rhs: 14 },
            Instruction::And { lhs: 4, rhs: 23 },
            Instruction::RightShift { lhs: 24, rhs: 14 },
            Instruction::CastToBool { word: 25 },
            Instruction::ConditionalBranch { condition: 26, then_block: 10, else_block: 8 },
            // run
            Instruction::PositionAtEnd { block: 10 },
            Instruction::InBoundsGep { pointer: 0, element: 14 },
            Instruction::InBoundsGep { pointer: 1, element: 14 },
            Instruction::Call { function: 0, scratch: 29, pointers: 30 },
            Instruction::Branch { block: 8 },
            // end
            Instruction::PositionAtEnd { block: 11 },
            Instruction::StructGep { pointer: 1, field: 1 },
            Instruction::Load { pointer: 34 },
            Instruction::SetBitmap { array: 35, bitmap: 4 },
        ]
    );
}

#[test]
fn the_code_of_the_plain_loop() {
    let mut ctx = BuilderContext::new();
    let mut module = Module::new();
    let scratch = ctx.get_nth_param(0);
    let pointers = ctx.get_nth_param(1);
    let surface = voices_surface(vec![], vec![1]);
    let target = TargetProperties::new(false, 3);
    build_node_call(
        &mut ctx,
        &mut module,
        &context(),
        &surface.nodes[0],
        0,
        &target,
        LifecycleFunc::Update,
        scratch,
        pointers,
    )
    .unwrap();
    assert_eq!(ctx.instructions().len(), 30);
    assert_eq!(ctx.instructions()[19], Instruction::Branch { block: 7 });
    assert_eq!(ctx.instructions()[23], Instruction::Call { function: 0, scratch: 21, pointers: 22 });
    assert_eq!(ctx.instructions()[26], Instruction::ConstInt { value: 0b111 });
    assert_eq!(ctx.instructions()[29], Instruction::SetBitmap { array: 28, bitmap: 26 });
}

#[test]
fn lifecycle_call_declares_and_calls() {
    let mut ctx = BuilderContext::new();
    let mut module = Module::new();
    let scratch = ctx.get_nth_param(0);
    let pointers = ctx.get_nth_param(1);
    build_lifecycle_call(
        &mut module,
        &mut ctx,
        &voice_surface(),
        LifecycleFunc::Destruct,
        scratch,
        pointers,
    );
    assert_eq!(module.len(), 1);
    assert_eq!(module.function(0).name, "maxim.surface.2.main.extracted0.destruct");
    assert_eq!(ctx.instructions()[2], Instruction::Call { function: 0, scratch: 0, pointers: 1 });
}

fn refused(surface: &Surface, layout: &SurfaceLayout, capacity: u32) -> (CodegenError, Module) {
    let mut module = Module::new();
    let target = TargetProperties::new(false, capacity);
    let error = build_lifecycle_func(
        &mut module,
        &context(),
        surface,
        layout,
        &target,
        LifecycleFunc::Update,
    )
    .unwrap_err();
    (error, module)
}

#[test]
fn an_unknown_surface_is_refused() {
    let surface = Surface::new(
        id(1, "main"),
        vec![],
        vec![
            Node::new(vec![], NodeData::Group(id(2, "x"))),
            Node::new(vec![], NodeData::Group(id(77, "y"))),
        ],
    );
    let (error, module) = refused(&surface, &SurfaceLayout::new(vec![0, 1], vec![0, 1]), 4);
    assert_eq!(error, CodegenError::UndefinedSurface { id: 77 });
    assert_eq!(module.len(), 2);
    assert_eq!(module.function(0).body, None);

    let voices = Surface::new(
        id(1, "main"),
        vec![],
        vec![Node::new(
            vec![],
            NodeData::ExtractGroup {
                surface: id(78, "z"),
                source_sockets: vec![5],
                dest_sockets: vec![],
            },
        )],
    );
    assert_eq!(refused(&voices, &layout(), 64).0, CodegenError::UndefinedSurface { id: 78 });
}

#[test]
fn an_unknown_block_is_refused() {
    let surface = Surface::new(
        id(1, "main"),
        vec![],
        vec![Node::new(vec![], NodeData::Custom(BlockId { id: 10, debug_name: String::new() }))],
    );
    assert_eq!(refused(&surface, &layout(), 4).0, CodegenError::UndefinedBlock { id: 10 });
}

#[test]
fn a_node_without_a_place_is_refused() {
    let surface = voices_surface(vec![0], vec![1]);
    assert_eq!(
        refused(&surface, &SurfaceLayout::new(vec![], vec![0]), 4).0,
        CodegenError::LayoutMiss { node: 0 }
    );
    assert_eq!(
        refused(&surface, &SurfaceLayout::new(vec![0], vec![]), 4).0,
        CodegenError::LayoutMiss { node: 0 }
    );
}

#[test]
fn a_socket_that_the_node_does_not_have_is_refused() {
    assert_eq!(
        refused(&voices_surface(vec![0, 3], vec![7]), &layout(), 4).0,
        CodegenError::SocketOutOfRange { node: 0, socket: 3 }
    );
    assert_eq!(
        refused(&voices_surface(vec![0, 2], vec![1, 7]), &layout(), 64).0,
        CodegenError::SocketOutOfRange { node: 0, socket: 7 }
    );
}

#[test]
fn more_voices_than_bits_are_refused() {
    assert_eq!(
        refused(&voices_surface(vec![0], vec![1]), &layout(), 33).0,
        CodegenError::CapacityTooLarge { capacity: 33 }
    );
}

#[test]
fn a_refused_node_writes_nothing() {
    let mut ctx = BuilderContext::new();
    let mut module = Module::new();
    let scratch = ctx.get_nth_param(0);
    let pointers = ctx.get_nth_param(1);
    let surface = voices_surface(vec![9], vec![1]);
    let target = TargetProperties::new(false, 4);
    let error = build_node_call(
        &mut ctx,
        &mut module,
        &context(),
        &surface.nodes[0],
        4,
        &target,
        LifecycleFunc::Construct,
        scratch,
        pointers,
    )
    .unwrap_err();
    assert_eq!(error, CodegenError::SocketOutOfRange { node: 4, socket: 9 });
    assert_eq!(ctx.instructions().len(), 2);
    assert_eq!(module.len(), 0);
}

#[test]
fn the_machine_stops_when_the_fuel_is_spent() {
    let surface = voices_surface(vec![], vec![]);
    let mut module = Module::new();
    let target = TargetProperties::new(false, 4);
    build_lifecycle_func(
        &mut module,
        &context(),
        &surface,
        &layout(),
        &target,
        LifecycleFunc::Construct,
    )
    .unwrap();
    let body = module.function(0).body.clone().unwrap();
    let (status, events) = execute(&body, vec![], 30);
    assert_eq!(status, Status::Running);
    assert_eq!(events, vec![voice_call(1, 0)]);
}

#[test]
fn the_machine_traps_on_what_it_cannot_do() {
    // a block without an end
    let open = vec![
        Instruction::AppendBasicBlock,
        Instruction::PositionAtEnd { block: 0 },
    ];
    assert_eq!(execute(&open, vec![], 10).0, Status::Trapped);
    // a branch to a block without code
    let nowhere = vec![Instruction::AppendBasicBlock, Instruction::Branch { block: 0 }];
    assert_eq!(execute(&nowhere, vec![], 10).0, Status::Trapped);
    // an integer where an address has to be
    let confused =
        vec![Instruction::ConstInt { value: 1 }, Instruction::Load { pointer: 0 }];
    assert_eq!(execute(&confused, vec![], 10).0, Status::Trapped);
    // a shift by the width of the word
    let shifted = vec![
        Instruction::ConstInt { value: 1 },
        Instruction::ConstInt { value: 32 },
        Instruction::LeftShift { lhs: 0, rhs: 1 },
    ];
    assert_eq!(execute(&shifted, vec![], 10).0, Status::Trapped);
    // a third parameter
    assert_eq!(execute(&vec![Instruction::Param { index: 2 }], vec![], 10).0, Status::Trapped);
    // the end of the stream
    assert_eq!(execute(&vec![Instruction::ConstInt { value: 1 }], vec![], 10).0, Status::Trapped);
    // a place on the stack that nothing was stored in
    let empty = vec![Instruction::Alloca, Instruction::Load { pointer: 0 }];
    assert_eq!(execute(&empty, vec![], 10).0, Status::Trapped);
}

#[test]
fn the_machine_does_its_arithmetic_in_thirty_two_bits() {
    let stream = vec![
        Instruction::ConstInt { value: 0xffff_ffff },
        Instruction::ConstInt { value: 2 },
        Instruction::IntAdd { lhs: 0, rhs: 1 },
        Instruction::Or { lhs: 1, rhs: 2 },
        Instruction::And { lhs: 0, rhs: 3 },
        Instruction::LeftShift { lhs: 4, rhs: 1 },
        Instruction::RightShift { lhs: 0, rhs: 1 },
        Instruction::CompareBelow { lhs: 1, rhs: 0 },
        Instruction::CompareBelow { lhs: 0, rhs: 1 },
        Instruction::CastToBool { word: 5 },
        Instruction::CastToBool { word: 0 },
        Instruction::Return,
    ];
    let mut machine = Machine::start(stream.len(), vec![]);
    assert_eq!(machine.run(&stream, 100), Status::Returned);
    let ints: Vec<u32> = machine
        .values
        .iter()
        .flatten()
        .map(|word| match word {
            compiler::codegen::machine::Word::Int(value) => *value,
            other => panic!("unexpected {:?}", other),
        })
        .collect();
    assert_eq!(ints, vec![0xffff_ffff, 2, 1, 3, 3, 12, 0x3fff_ffff, 1, 0, 0, 1]);
}

#[test]
fn the_last_bitmap_of_an_array_holds() {
    let stream = vec![
        Instruction::Param { index: 1 },
        Instruction::ConstInt { value: 6 },
        Instruction::SetBitmap { array: 0, bitmap: 1 },
        Instruction::GetBitmap { array: 0 },
        Instruction::Return,
    ];
    let mut machine =
        Machine::start(stream.len(), vec![(place(Root::Pointers, &[]), 1), (place(Root::Scratch, &[]), 2)]);
    assert_eq!(machine.run(&stream, 100), Status::Returned);
    assert_eq!(machine.values[3], Some(compiler::codegen::machine::Word::Int(6)));
    assert_eq!(
        machine.events,
        vec![Event::SetBitmap { array: place(Root::Pointers, &[]), bitmap: 6 }]
    );
}

#[test]
fn control_pointers_are_read_out_of_the_pointer_block() {
    let layout = BlockLayout::new(vec![4, 7]);
    let mut ctx = BuilderContext::new();
    ctx.get_nth_param(0);
    let pointers = ctx.get_nth_param(1);
    let mut block = BlockContext::new(ctx, &layout, pointers);

    let control = block.get_control_ptrs(1, true).unwrap();
    assert_eq!(control, ControlPointers { value: 4, data: 6, shared: 8, ui: Some(10) });
    assert_eq!(
        block.ctx.instructions()[2..],
        [
            Instruction::StructGep { pointer: 1, field: 7 },
            Instruction::StructGep { pointer: 2, field: 0 },
            Instruction::Load { pointer: 3 },
            Instruction::StructGep { pointer: 2, field: 1 },
            Instruction::Load { pointer: 5 },
            Instruction::StructGep { pointer: 2, field: 2 },
            Instruction::Load { pointer: 7 },
            Instruction::StructGep { pointer: 2, field: 3 },
            Instruction::Load { pointer: 9 },
        ]
    );

    let plain = block.get_control_ptrs(0, false).unwrap();
    assert_eq!(plain, ControlPointers { value: 13, data: 15, shared: 17, ui: None });
    assert_eq!(block.ctx.instructions().len(), 18);
    assert_eq!(block.ctx.instructions()[11], Instruction::StructGep { pointer: 1, field: 4 });

    assert_eq!(block.get_control_ptrs(2, true), None);
    assert_eq!(block.ctx.instructions().len(), 18);

    let mut machine = Machine::start(block.ctx.instructions().len(), vec![]);
    assert_eq!(machine.run(&block.ctx.instructions(), 18), Status::Running);
    assert_eq!(
        machine.values[10],
        Some(compiler::codegen::machine::Word::At(place(
            Root::Pointers,
            &[Step::Field(7), Step::Field(3), Step::Target]
        )))
    );
}

#[test]
fn function_pointers_and_statements() {
    let layout = BlockLayout::new(vec![]);
    let mut ctx = BuilderContext::new();
    let pointers = ctx.get_nth_param(1);
    let mut block = BlockContext::new(ctx, &layout, pointers);
    assert_eq!(block.get_function_ptr(6), 2);
    assert_eq!(
        block.ctx.instructions()[1..],
        [Instruction::StructGep { pointer: 0, field: 6 }, Instruction::Load { pointer: 1 }]
    );
    block.push_statement(2);
    block.push_statement(0);
    assert_eq!(block.get_statement(0), 2);
    assert_eq!(block.get_statement(1), 0);
}

#[test]
fn the_context_finds_the_first_surface_and_block_of_an_identity() {
    let mir = MIRContext::new(
        vec![
            Surface::new(id(5, "first"), vec![], vec![]),
            Surface::new(id(6, "other"), vec![], vec![]),
            Surface::new(id(5, "second"), vec![], vec![]),
        ],
        vec![
            Block { id: BlockId { id: 1, debug_name: String::from("a") } },
            Block { id: BlockId { id: 1, debug_name: String::from("b") } },
        ],
    );
    assert_eq!(mir.surface(&id(5, "whatever")).unwrap().id.debug_name, "first");
    assert_eq!(mir.surface(&id(6, "")).unwrap().id.debug_name, "other");
    assert!(mir.surface(&id(7, "first")).is_none());
    let wanted = BlockId { id: 1, debug_name: String::new() };
    assert_eq!(mir.block(&wanted).unwrap().id.debug_name, "a");
    assert!(mir.block(&BlockId { id: 2, debug_name: String::from("a") }).is_none());
}

#[test]
fn a_function_gets_its_body_once_it_is_defined() {
    let mut module = Module::new();
    let surface = id(1, "main");
    let index = module.get_or_create_func(
        String::from("named"),
        Linkage::Private,
        &surface,
        LifecycleFunc::Update,
    );
    assert_eq!(index, 0);
    assert_eq!(module.get_function(&String::from("named")), Some(0));
    assert_eq!(module.get_function(&String::from("unnamed")), None);
    assert_eq!(module.function(0).linkage, Linkage::Private);
    module.define(0, vec![Instruction::Return]);
    assert_eq!(module.function(0).body, Some(vec![Instruction::Return]));
    assert_eq!(module.function(0).name, "named");
    let again = module.get_or_create_func(
        String::from("named"),
        Linkage::External,
        &id(2, "other"),
        LifecycleFunc::Construct,
    );
    assert_eq!(again, 0);
    assert_eq!(module.len(), 1);
    assert_eq!(module.function(0).surface, surface);
}

#[test]
fn places_are_compared_by_root_and_path() {
    let here = place(Root::Pointers, &[Step::Field(1), Step::Target]);
    assert!(here.same(&place(Root::Pointers, &[Step::Field(1), Step::Target])));
    assert!(!here.same(&place(Root::Scratch, &[Step::Field(1), Step::Target])));
    assert!(!here.same(&place(Root::Pointers, &[Step::Field(1)])));
    assert!(!here.same(&place(Root::Pointers, &[Step::Field(2), Step::Target])));
    assert!(!place(Root::Stack(1), &[]).same(&place(Root::Stack(2), &[])));
    assert_eq!(
        Place::new(Root::Scratch).on(Step::Element(3)).on(Step::Target),
        place(Root::Scratch, &[Step::Element(3), Step::Target])
    );
    assert_eq!(here.clone(), here);
}

#[test]
fn the_code_of_a_block_starts_after_the_builder_is_put_there() {
    let stream = vec![
        Instruction::AppendBasicBlock,
        Instruction::AppendBasicBlock,
        Instruction::Branch { block: 1 },
        Instruction::PositionAtEnd { block: 1 },
        Instruction::Return,
        Instruction::PositionAtEnd { block: 0 },
        Instruction::PositionAtEnd { block: 1 },
    ];
    assert_eq!(find_entry(&stream, 1), Some(4));
    assert_eq!(find_entry(&stream, 0), Some(6));
    assert_eq!(find_entry(&stream, 2), None);
    assert_eq!(execute(&stream, vec![], 10), (Status::Returned, vec![]));
}
