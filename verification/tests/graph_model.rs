use compiler::mir::{IdAllocator, SurfaceId, ValueSocket, VarType};

#[test]
fn allocator_counts_up() {
    let mut allocator = IdAllocator::new(7);
    assert_eq!(allocator.alloc_id(), 7);
    assert_eq!(allocator.alloc_id(), 8);
    let id = SurfaceId::new(String::from("main"), &mut allocator);
    assert_eq!(id.id, 9);
    assert_eq!(id.debug_name, "main");
}

#[test]
fn element_type_unwraps_one_array() {
    let nested = VarType::Array(Box::new(VarType::Array(Box::new(VarType::Num))));
    assert_eq!(nested.element_type(), VarType::Array(Box::new(VarType::Num)));
    assert_eq!(VarType::Midi.element_type(), VarType::Midi);
    let tuple = VarType::Tuple(vec![VarType::Num, VarType::Midi]);
    assert_eq!(tuple.element_type(), tuple.clone());
}

#[test]
fn socket_keeps_its_flags() {
    let socket = ValueSocket::new(3, true, false, true);
    assert_eq!(socket.group_id, 3);
    assert!(socket.value_written);
    assert!(!socket.value_read);
    assert!(socket.is_extractor);
}

#[test]
fn allocator_knows_what_is_left() {
    let allocator = IdAllocator::new(u64::MAX - 3);
    assert_eq!(allocator.remaining(), 3);
    assert_eq!(IdAllocator::new(0).remaining(), u64::MAX);
}

#[test]
fn clones_are_equal() {
    let id = SurfaceId { id: 4, debug_name: String::from("a.b") };
    assert_eq!(id.clone(), id);
    let ty = VarType::Tuple(vec![
        VarType::Array(Box::new(VarType::Midi)),
        VarType::Tuple(vec![]),
        VarType::Num,
    ]);
    assert_eq!(ty.clone(), ty);
    assert_eq!(VarType::Num.base_type(), None);
    assert_eq!(VarType::Array(Box::new(VarType::Midi)).base_type(), Some(&VarType::Midi));
}
