use compiler::mir::{
    BlockId, IdAllocator, Node, NodeData, Surface, SurfaceId, ValueGroup, ValueGroupSource,
    ValueSocket, VarType,
};
use compiler::pass::{
    check_groups, extract_groups, find_extracted_groups, group_extracted, merge_extract_groups,
    ExtractError, ExtractGroup, GroupExtractor, ValueGroupData,
};

fn voices() -> ValueGroup {
    ValueGroup::new(VarType::Array(Box::new(VarType::Num)), ValueGroupSource::Internal)
}

fn custom(id: u64, sockets: Vec<ValueSocket>) -> Node {
    Node::new(
        sockets,
        NodeData::Custom(BlockId { id, debug_name: format!("block{}", id) }),
    )
}

fn surface(groups: Vec<ValueGroup>, nodes: Vec<Node>) -> Surface {
    Surface::new(SurfaceId { id: 100, debug_name: String::from("main") }, groups, nodes)
}

fn writes_voices(group: usize) -> ValueSocket {
    ValueSocket::new(group, true, false, true)
}

fn reads_voices(group: usize) -> ValueSocket {
    ValueSocket::new(group, false, true, true)
}

fn reads(group: usize) -> ValueSocket {
    ValueSocket::new(group, false, true, false)
}

fn writes(group: usize) -> ValueSocket {
    ValueSocket::new(group, true, false, false)
}

/// A source of voices, an oscillator per voice, and a sink that mixes them.
fn one_chain() -> Surface {
    surface(
        vec![voices(), voices()],
        vec![
            custom(1, vec![writes_voices(0)]),
            custom(2, vec![reads(0), writes(1)]),
            custom(3, vec![reads_voices(1)]),
        ],
    )
}

fn plain() -> Surface {
    surface(
        vec![
            ValueGroup::new(VarType::Num, ValueGroupSource::Internal),
            ValueGroup::new(VarType::Midi, ValueGroupSource::Socket(0)),
        ],
        vec![
            custom(1, vec![writes(0)]),
            custom(2, vec![reads(0), reads(1)]),
        ],
    )
}

#[test]
fn new_extract_group_is_empty() {
    let group = ExtractGroup::new();
    assert!(group.sources.is_empty());
    assert!(group.destinations.is_empty());
    assert!(group.nodes.is_empty());
    assert!(group.value_groups.is_empty());
}

#[test]
fn new_value_group_data_is_empty() {
    assert!(ValueGroupData::new().sockets.is_empty());
}

#[test]
fn surface_without_extractors_is_left_alone() {
    let mut work = plain();
    let mut allocator = IdAllocator::new(5);
    let children = group_extracted(&mut work, &mut allocator).unwrap();
    assert!(children.is_empty());
    assert_eq!(work, plain());
    assert_eq!(allocator.alloc_id(), 5);
}

#[test]
fn search_finds_nothing_without_extractors() {
    assert!(find_extracted_groups(&plain()).is_empty());
}

#[test]
fn search_follows_reads_and_merges_at_the_node() {
    let groups = find_extracted_groups(&one_chain());
    assert_eq!(groups.len(), 1);
    assert_eq!(groups[0].sources, vec![0]);
    assert_eq!(groups[0].destinations, vec![1]);
    assert_eq!(groups[0].nodes, vec![1]);
    assert_eq!(groups[0].value_groups, vec![0, 1]);
}

#[test]
fn chain_moves_into_one_surface() {
    let mut work = one_chain();
    let mut allocator = IdAllocator::new(7);
    let children = group_extracted(&mut work, &mut allocator).unwrap();
    assert_eq!(children.len(), 1);

    let child = &children[0];
    assert_eq!(child.id, SurfaceId { id: 7, debug_name: String::from("main.extracted0") });
    assert_eq!(
        child.groups,
        vec![
            ValueGroup::new(VarType::Num, ValueGroupSource::Socket(0)),
            ValueGroup::new(VarType::Num, ValueGroupSource::Socket(1)),
        ]
    );
    assert_eq!(child.nodes, vec![custom(2, vec![reads(0), writes(1)])]);

    assert_eq!(work.id, SurfaceId { id: 100, debug_name: String::from("main") });
    assert_eq!(work.groups, vec![voices(), voices()]);
    assert_eq!(
        work.nodes,
        vec![
            custom(1, vec![writes_voices(0)]),
            custom(3, vec![reads_voices(1)]),
            Node::new(
                vec![
                    ValueSocket::new(0, false, true, false),
                    ValueSocket::new(1, true, false, false),
                ],
                NodeData::ExtractGroup {
                    surface: SurfaceId { id: 7, debug_name: String::from("main.extracted0") },
                    source_sockets: vec![0],
                    dest_sockets: vec![1],
                },
            ),
        ]
    );
    assert_eq!(allocator.alloc_id(), 8);
}

#[test]
fn moved_sockets_name_groups_of_the_new_surface() {
    // The cluster touches groups 3 and 1 of five, in that order.
    let mut work = surface(
        vec![voices(), voices(), voices(), voices(), voices()],
        vec![
            custom(1, vec![writes_voices(3)]),
            custom(2, vec![writes(1), reads(3), reads(1)]),
        ],
    );
    let mut allocator = IdAllocator::new(0);
    let children = group_extracted(&mut work, &mut allocator).unwrap();
    assert_eq!(children.len(), 1);
    assert_eq!(children[0].groups.len(), 2);
    assert_eq!(
        children[0].nodes,
        vec![custom(2, vec![writes(1), reads(0), reads(1)])]
    );
    assert_eq!(
        work.nodes[1],
        Node::new(
            vec![
                ValueSocket::new(3, false, true, false),
                ValueSocket::new(1, true, true, false),
            ],
            NodeData::ExtractGroup {
                surface: SurfaceId { id: 0, debug_name: String::from("main.extracted0") },
                source_sockets: vec![0],
                dest_sockets: vec![],
            },
        )
    );
}

#[test]
fn two_seeds_that_meet_in_a_node_share_a_surface() {
    let mut work = surface(
        vec![voices(), voices(), voices()],
        vec![
            custom(1, vec![writes_voices(0)]),
            custom(2, vec![writes_voices(1)]),
            custom(3, vec![reads(0), reads(1), writes(2)]),
            custom(4, vec![reads(2)]),
        ],
    );
    let mut allocator = IdAllocator::new(0);
    let children = group_extracted(&mut work, &mut allocator).unwrap();
    assert_eq!(children.len(), 1);
    assert_eq!(
        children[0].nodes,
        vec![
            custom(3, vec![reads(0), reads(1), writes(2)]),
            custom(4, vec![reads(2)]),
        ]
    );
    assert_eq!(work.nodes.len(), 3);
    match &work.nodes[2].data {
        NodeData::ExtractGroup { source_sockets, dest_sockets, .. } => {
            assert_eq!(source_sockets, &vec![0, 1]);
            assert!(dest_sockets.is_empty());
        }
        other => panic!("unexpected node {:?}", other),
    }
}

#[test]
fn independent_seeds_make_two_surfaces() {
    let mut work = surface(
        vec![voices(), voices(), voices(), voices()],
        vec![
            custom(1, vec![writes_voices(0)]),
            custom(2, vec![reads(0), writes(2)]),
            custom(3, vec![writes_voices(1)]),
            custom(4, vec![reads(1), writes(3)]),
            custom(5, vec![]),
            custom(6, vec![reads(2)]),
        ],
    );
    let mut allocator = IdAllocator::new(40);
    let children = group_extracted(&mut work, &mut allocator).unwrap();
    assert_eq!(children.len(), 2);
    assert_eq!(children[0].id.debug_name, "main.extracted0");
    assert_eq!(children[0].id.id, 40);
    assert_eq!(
        children[0].nodes,
        vec![custom(2, vec![reads(0), writes(1)]), custom(6, vec![reads(1)])]
    );
    assert_eq!(children[1].id.debug_name, "main.extracted1");
    assert_eq!(children[1].id.id, 41);
    assert_eq!(children[1].nodes, vec![custom(4, vec![reads(0), writes(1)])]);

    assert_eq!(work.nodes.len(), 5);
    assert_eq!(work.nodes[0], custom(1, vec![writes_voices(0)]));
    assert_eq!(work.nodes[1], custom(3, vec![writes_voices(1)]));
    assert_eq!(work.nodes[2], custom(5, vec![]));
    match (&work.nodes[3].data, &work.nodes[4].data) {
        (
            NodeData::ExtractGroup { surface: first, .. },
            NodeData::ExtractGroup { surface: second, .. },
        ) => {
            assert_eq!(first, &children[0].id);
            assert_eq!(second, &children[1].id);
        }
        other => panic!("unexpected nodes {:?}", other),
    }
    assert_eq!(
        work.nodes[3].sockets,
        vec![ValueSocket::new(0, false, true, false), ValueSocket::new(2, true, true, false)]
    );
    assert_eq!(
        work.nodes[4].sockets,
        vec![ValueSocket::new(1, false, true, false), ValueSocket::new(3, true, false, false)]
    );
}

#[test]
fn a_group_looked_at_before_its_writer_is_claimed_still_joins() {
    // Group 1 is taken from the queue while node 2, which only writes it,
    // has no cluster yet.
    let mut work = surface(
        vec![voices(), voices()],
        vec![
            custom(1, vec![reads_voices(1)]),
            custom(2, vec![writes_voices(0)]),
            custom(3, vec![reads(0), writes(1)]),
        ],
    );
    let groups = find_extracted_groups(&work);
    assert_eq!(groups.len(), 1);
    assert_eq!(groups[0].nodes, vec![2]);
    assert_eq!(groups[0].sources, vec![0]);
    assert_eq!(groups[0].destinations, vec![1]);
    assert_eq!(groups[0].value_groups, vec![0, 1]);

    let mut allocator = IdAllocator::new(0);
    let children = group_extracted(&mut work, &mut allocator).unwrap();
    assert_eq!(children.len(), 1);
    assert_eq!(children[0].nodes, vec![custom(3, vec![reads(0), writes(1)])]);
}

#[test]
fn extractor_and_write_only_sockets_do_not_pull_their_node_in() {
    let mut work = surface(
        vec![voices()],
        vec![
            custom(1, vec![writes_voices(0)]),
            custom(2, vec![writes(0)]),
            custom(3, vec![reads_voices(0)]),
        ],
    );
    let mut allocator = IdAllocator::new(0);
    let children = group_extracted(&mut work, &mut allocator).unwrap();
    assert!(children.is_empty());
    assert_eq!(work.nodes.len(), 3);
}

#[test]
fn a_group_with_two_extractor_sockets_is_forwarded_once() {
    let mut work = surface(
        vec![voices()],
        vec![
            custom(1, vec![writes_voices(0)]),
            custom(2, vec![writes_voices(0)]),
            custom(3, vec![reads(0)]),
        ],
    );
    let mut allocator = IdAllocator::new(0);
    let children = group_extracted(&mut work, &mut allocator).unwrap();
    assert_eq!(children.len(), 1);
    assert_eq!(children[0].groups.len(), 1);
    assert_eq!(work.nodes[2].sockets, vec![ValueSocket::new(0, false, true, false)]);
    match &work.nodes[2].data {
        NodeData::ExtractGroup { source_sockets, .. } => assert_eq!(source_sockets, &vec![0]),
        other => panic!("unexpected node {:?}", other),
    }
}

#[test]
fn every_socket_names_a_group_afterwards() {
    let mut work = surface(
        vec![voices(), voices(), voices(), voices()],
        vec![
            custom(1, vec![writes_voices(0)]),
            custom(2, vec![reads(0), writes(2)]),
            custom(3, vec![writes_voices(1)]),
            custom(4, vec![reads(1), writes(3), reads(2)]),
        ],
    );
    let mut allocator = IdAllocator::new(0);
    let children = group_extracted(&mut work, &mut allocator).unwrap();
    assert_eq!(work.groups.len(), 4);
    assert!(check_groups(&work).is_ok());
    assert_eq!(children.len(), 1);
    for child in &children {
        assert!(check_groups(child).is_ok());
    }
    assert_eq!(children[0].groups.len(), work.nodes[2].sockets.len());
}

#[test]
fn nodes_move_once_and_new_surfaces_are_not_searched() {
    // The cluster holds a node with an extractor socket of its own.
    let mut work = surface(
        vec![voices(), voices()],
        vec![
            custom(1, vec![writes_voices(0)]),
            custom(2, vec![reads(0), writes_voices(1)]),
            custom(3, vec![reads(1)]),
        ],
    );
    let mut allocator = IdAllocator::new(0);
    let children = group_extracted(&mut work, &mut allocator).unwrap();
    assert_eq!(children.len(), 1);
    assert_eq!(
        children[0].nodes,
        vec![custom(2, vec![reads(0), writes_voices(1)]), custom(3, vec![reads(1)])]
    );
    assert_eq!(work.nodes.len(), 2);
    assert_eq!(allocator.alloc_id(), 1);
}

#[test]
fn a_socket_on_a_missing_group_is_refused() {
    let mut work = surface(
        vec![voices(), voices()],
        vec![
            custom(1, vec![writes_voices(0)]),
            custom(2, vec![reads(0), writes(5), reads(9)]),
        ],
    );
    let mut allocator = IdAllocator::new(3);
    let refused = group_extracted(&mut work, &mut allocator);
    assert_eq!(
        refused,
        Err(ExtractError::InvalidGroup { surface: 100, node: 1, socket: 1, group_id: 5 })
    );
    assert_eq!(
        work,
        surface(
            vec![voices(), voices()],
            vec![
                custom(1, vec![writes_voices(0)]),
                custom(2, vec![reads(0), writes(5), reads(9)]),
            ],
        )
    );
    assert_eq!(allocator.alloc_id(), 3);
    assert_eq!(
        check_groups(&work),
        Err(ExtractError::InvalidGroup { surface: 100, node: 1, socket: 1, group_id: 5 })
    );
}

#[test]
fn merge_moves_lists_and_renames_owners() {
    let mut groups = vec![ExtractGroup::new(), ExtractGroup::new(), ExtractGroup::new()];
    groups[0].sources = vec![4];
    groups[0].nodes = vec![0];
    groups[0].value_groups = vec![4];
    groups[2].sources = vec![1];
    groups[2].destinations = vec![2];
    groups[2].nodes = vec![3, 5];
    groups[2].value_groups = vec![1, 2];
    let mut value_group_extracts = vec![None, Some(2), Some(2), Some(1), Some(0)];
    let mut node_extracts = vec![Some(0), None, None, Some(2), None, Some(2)];

    merge_extract_groups(0, 2, &mut groups, &mut value_group_extracts, &mut node_extracts);

    assert_eq!(groups[0].sources, vec![4, 1]);
    assert_eq!(groups[0].destinations, vec![2]);
    assert_eq!(groups[0].nodes, vec![0, 3, 5]);
    assert_eq!(groups[0].value_groups, vec![4, 1, 2]);
    assert_eq!(groups[2], ExtractGroup::new());
    assert_eq!(groups[1], ExtractGroup::new());
    assert_eq!(value_group_extracts, vec![None, Some(0), Some(0), Some(1), Some(0)]);
    assert_eq!(node_extracts, vec![Some(0), None, None, Some(0), None, Some(0)]);
}

#[test]
fn merge_of_a_group_with_itself_changes_nothing() {
    let mut groups = vec![ExtractGroup::new()];
    groups[0].nodes = vec![1];
    let mut value_group_extracts = vec![Some(0)];
    let mut node_extracts = vec![None, Some(0)];
    merge_extract_groups(0, 0, &mut groups, &mut value_group_extracts, &mut node_extracts);
    assert_eq!(groups[0].nodes, vec![1]);
    assert_eq!(value_group_extracts, vec![Some(0)]);
    assert_eq!(node_extracts, vec![None, Some(0)]);
}

#[test]
fn extractor_handle_does_what_the_pass_does() {
    let mut by_handle = one_chain();
    let mut by_pass = one_chain();
    let mut first = IdAllocator::new(0);
    let mut second = IdAllocator::new(0);
    let from_handle = GroupExtractor::new(&mut by_handle).extract_groups(&mut first);
    let from_pass = extract_groups(&mut by_pass, &mut second);
    assert_eq!(from_handle, from_pass);
    assert_eq!(by_handle, by_pass);
}

#[test]
fn ordinals_are_written_in_decimal() {
    let mut groups = Vec::new();
    let mut nodes = Vec::new();
    for i in 0..12 {
        groups.push(voices());
        nodes.push(custom(2 * i as u64, vec![writes_voices(i)]));
        nodes.push(custom(2 * i as u64 + 1, vec![reads(i)]));
    }
    let mut work = surface(groups, nodes);
    let mut allocator = IdAllocator::new(0);
    let children = group_extracted(&mut work, &mut allocator).unwrap();
    assert_eq!(children.len(), 12);
    assert_eq!(children[9].id.debug_name, "main.extracted9");
    assert_eq!(children[10].id.debug_name, "main.extracted10");
    assert_eq!(children[11].id.debug_name, "main.extracted11");
    assert_eq!(children[11].id.id, 11);
    assert_eq!(children[11].nodes, vec![custom(23, vec![reads(0)])]);
    assert_eq!(work.nodes.len(), 24);
}
