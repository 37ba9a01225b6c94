use compiler::codegen::machine::{execute, Event, Place, Root, Status, Step};
use compiler::codegen::surface::build_funcs;
use compiler::codegen::{LifecycleFunc, Module, SurfaceLayout, TargetProperties};
use compiler::mir::{
    Block, BlockId, IdAllocator, MIRContext, Node, NodeData, Surface, SurfaceId, ValueGroup,
    ValueGroupSource, ValueSocket, VarType,
};
use compiler::pass::group_extracted;

fn voices() -> ValueGroup {
    ValueGroup::new(VarType::Array(Box::new(VarType::Num)), ValueGroupSource::Internal)
}

fn block(id: u64) -> NodeData {
    NodeData::Custom(BlockId { id, debug_name: format!("block{}", id) })
}

fn place(root: Root, path: &[Step]) -> Place {
    Place { root, path: path.to_vec() }
}

/// A surface is taken apart by the pass and then lowered: the procedure of
/// what is left of it runs the new surface for the live voices.
#[test]
fn an_extracted_surface_is_run_for_its_live_voices() {
    let mut main = Surface::new(
        SurfaceId { id: 0, debug_name: String::from("main") },
        vec![voices(), voices()],
        vec![
            Node::new(vec![ValueSocket::new(0, true, false, true)], block(1)),
            Node::new(
                vec![ValueSocket::new(0, false, true, false), ValueSocket::new(1, true, false, false)],
                block(2),
            ),
            Node::new(vec![ValueSocket::new(1, false, true, true)], block(3)),
        ],
    );
    let mut allocator = IdAllocator::new(1);
    let mut children = group_extracted(&mut main, &mut allocator).unwrap();
    assert_eq!(children.len(), 1);
    let child = children.pop().unwrap();
    assert_eq!(child.id.id, 1);

    let mir = MIRContext::new(
        vec![child],
        (1..=3)
            .map(|id| Block { id: BlockId { id, debug_name: format!("block{}", id) } })
            .collect(),
    );
    let target = TargetProperties::new(false, 8);
    let mut module = Module::new();

    // The new surface first, then the surface that runs it.
    let child_layout = SurfaceLayout::new(vec![0], vec![0]);
    build_funcs(&mut module, &mir, &mir.surfaces[0], &child_layout, &target).unwrap();
    let main_layout = SurfaceLayout::new(vec![0, 1, 2], vec![0, 1, 2]);
    build_funcs(&mut module, &mir, &main, &main_layout, &target).unwrap();

    let names: Vec<&str> = (0..module.len()).map(|i| module.function(i).name.as_str()).collect();
    assert_eq!(
        names,
        vec![
            "maxim.surface.1.main.extracted0.construct",
            "maxim.surface.1.main.extracted0.update",
            "maxim.surface.1.main.extracted0.destruct",
            "maxim.surface.0.main.construct",
            "maxim.surface.0.main.update",
            "maxim.surface.0.main.destruct",
        ]
    );
    assert!((0..6).all(|i| module.function(i).body.is_some()));

    // In the new surface the one node that has moved is called.
    let (status, events) = execute(module.function(1).body.as_ref().unwrap(), vec![], 1000);
    assert_eq!(status, Status::Returned);
    assert_eq!(
        events,
        vec![Event::CallBlock {
            id: 2,
            lifecycle: LifecycleFunc::Update,
            data: place(Root::Scratch, &[Step::Field(0), Step::Field(0)]),
            pointers: place(Root::Pointers, &[Step::Field(0)]),
            ui: None,
        }]
    );

    // In what is left, the source, the sink and the voices follow each
    // other. The voices are fed from socket 0 of their node and tell socket 1.
    let source_array = place(Root::Pointers, &[Step::Field(2), Step::Field(0), Step::Target]);
    let told_array = place(Root::Pointers, &[Step::Field(2), Step::Field(1), Step::Target]);
    let (status, events) =
        execute(module.function(4).body.as_ref().unwrap(), vec![(source_array, 0b1000_0010)], 1000);
    assert_eq!(status, Status::Returned);
    let voice = |index: u32| Event::Call {
        function: 1,
        scratch: place(Root::Scratch, &[Step::Field(2), Step::Element(index)]),
        pointers: place(Root::Pointers, &[Step::Field(2), Step::Element(index)]),
    };
    assert_eq!(events.len(), 5);
    assert!(matches!(&events[0], Event::CallBlock { id: 1, .. }));
    assert!(matches!(&events[1], Event::CallBlock { id: 3, .. }));
    assert_eq!(events[2], voice(1));
    assert_eq!(events[3], voice(7));
    assert_eq!(events[4], Event::SetBitmap { array: told_array, bitmap: 0b1000_0010 });
}
