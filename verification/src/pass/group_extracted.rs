//! Groups the per-voice nodes of a surface into surfaces of their own.

use crate::mir::{
    IdAllocator, Node, NodeData, Surface, SurfaceId, SurfaceView, ValueGroup, ValueGroupSource,
    ValueGroupView, ValueSocket,
};
use crate::pass::clusters::{binds, captured_node, connected, is_destination, is_source, touches};
use crate::pass::laws::{has_no_seam, law_no_seam_no_change};
use crate::pass::relocation::{
    child_surface, extracted, gone_with, gone_with_first, is_moved, lemma_clusters_disjoint,
    lemma_extracted_well_formed, lemma_next_gone, lemma_plan_size, lemma_tracked_remaining,
    link_node, link_nodes, link_sockets, moved_node, moved_nodes, moved_socket, node_reads,
    node_writes, read_by_first, slot_of, tracks, written_by_first,
};
use crate::pass::search::{
    before, lemma_contains_after_push, lemma_distinct_bounded, lemma_next_node, remapped,
};
use crate::pass::tracer::Tracer;
use crate::text::push_decimal;
use std::collections::HashMap;
use vstd::prelude::*;
use vstd::string::StringExecFns;

verus! {

/// Groups the per-voice nodes of a surface into surfaces of their own.
///
/// A surface with a socket that names a group the surface does not have is
/// refused, and left as it is. Otherwise every cluster of per-voice nodes
/// moves into a new surface, and a node that instantiates the new surface
/// once per voice takes its place at the end of the surface. The new
/// surfaces are handed back; the pass does not look into them.
pub fn group_extracted(surface: &mut Surface, allocator: &mut IdAllocator) -> (r: Result<
    Vec<Surface>,
    ExtractError,
>)
    requires
        old(allocator).next() + old(surface).nodes.len() <= u64::MAX,
    ensures
        match r {
            Ok(children) => {
                &&& old(surface)@.well_formed()
                &&& extraction_of(
                    old(surface)@,
                    old(allocator).next(),
                    final(surface)@,
                    surfaces_of(children@),
                )
                &&& final(allocator).next() == old(allocator).next() + children.len()
                &&& final(surface)@.well_formed()
                &&& forall|i: int|
                    0 <= i < children.len() ==> (#[trigger] children[i])@.well_formed()
                &&& has_no_seam(old(surface)@) ==> children.len() == 0 && final(surface)@
                    == old(surface)@
            },
            Err(ExtractError::InvalidGroup { surface: id, node, socket, group_id }) => {
                &&& id == old(surface)@.id.id
                &&& first_stray_socket(old(surface)@, node as int, socket as int)
                &&& group_id == old(surface)@.nodes[node as int].sockets[socket as int].group_id
                &&& final(surface)@ == old(surface)@
                &&& final(allocator).next() == old(allocator).next()
            },
        },
{
    match check_groups(surface) {
        Ok(_) => {
            let new_surfaces = GroupExtractor::new(surface).extract_groups(allocator);
            proof {
                if has_no_seam(old(surface)@) {
                    law_no_seam_no_change(
                        old(surface)@,
                        old(allocator).next(),
                        surface@,
                        surfaces_of(new_surfaces@),
                    );
                }
            }
            Ok(new_surfaces)
        },
        Err(error) => Err(error),
    }
}

/// What is wrong with a surface that the pass refuses.
#[derive(Debug, PartialEq, Eq, Clone, Copy, Structural)]
pub enum ExtractError {
    /// Socket number `socket` of node number `node` of the surface with the
    /// identity `surface` names the group `group_id`, which the surface does
    /// not have.
    InvalidGroup { surface: u64, node: usize, socket: usize, group_id: usize },
}

/// Socket `k` of node `n` is the first socket of the surface that names a
/// group the surface does not have.
pub open spec fn first_stray_socket(s: SurfaceView, n: int, k: int) -> bool {
    &&& s.has_socket(n, k)
    &&& s.nodes[n].sockets[k].group_id >= s.groups.len()
    &&& forall|a: int, b: int| #[trigger]
        s.has_socket(a, b) && (a < n || (a == n && b < k)) ==> s.nodes[a].sockets[b].group_id
            < s.groups.len()
}

/// Checks that every socket of the surface names a group the surface has.
pub fn check_groups(surface: &Surface) -> (r: Result<(), ExtractError>)
    ensures
        match r {
            Ok(_) => surface@.well_formed(),
            Err(ExtractError::InvalidGroup { surface: id, node, socket, group_id }) => {
                &&& id == surface@.id.id
                &&& first_stray_socket(surface@, node as int, socket as int)
                &&& group_id == surface@.nodes[node as int].sockets[socket as int].group_id
            },
        },
{
    let ghost s = surface@;
    let mut node_index: usize = 0;
    while node_index < surface.nodes.len()
        invariant
            s == surface@,
            node_index <= surface.nodes.len(),
            forall|a: int, b: int| #[trigger]
                s.has_socket(a, b) && a < node_index ==> s.nodes[a].sockets[b].group_id
                    < s.groups.len(),
        decreases surface.nodes.len() - node_index,
    {
        let node = &surface.nodes[node_index];
        assert(node@ == s.nodes[node_index as int]);
        let mut socket_index: usize = 0;
        while socket_index < node.sockets.len()
            invariant
                s == surface@,
                node_index < surface.nodes.len(),
                node@ == s.nodes[node_index as int],
                socket_index <= node.sockets.len(),
                forall|a: int, b: int| #[trigger]
                    s.has_socket(a, b) && (a < node_index || (a == node_index && b
                        < socket_index)) ==> s.nodes[a].sockets[b].group_id < s.groups.len(),
            decreases node.sockets.len() - socket_index,
        {
            let group_id = node.sockets[socket_index].group_id;
            if group_id >= surface.groups.len() {
                assert(s.has_socket(node_index as int, socket_index as int));
                return Err(
                    ExtractError::InvalidGroup {
                        surface: surface.id.id,
                        node: node_index,
                        socket: socket_index,
                        group_id,
                    },
                );
            }
            socket_index += 1;
        }
        node_index += 1;
    }
    Ok(())
}

pub type ValueGroupRef = usize;

pub type NodeRef = usize;

pub type ValueSocketRef = (NodeRef, usize);

/// What an `ExtractGroup` is, as plain values.
pub struct ExtractGroupView {
    pub sources: Seq<ValueGroupRef>,
    pub destinations: Seq<ValueGroupRef>,
    pub nodes: Seq<NodeRef>,
    pub value_groups: Seq<ValueGroupRef>,
}

/// One cluster on its way out of a surface: the nodes that move, every value
/// group they are wired to, and which of those groups feed the voices
/// (`sources`) or collect from them (`destinations`).
#[derive(Debug, PartialEq, Eq)]
pub struct ExtractGroup {
    pub sources: Vec<ValueGroupRef>,
    pub destinations: Vec<ValueGroupRef>,
    pub nodes: Vec<NodeRef>,
    pub value_groups: Vec<ValueGroupRef>,
}

impl View for ExtractGroup {
    type V = ExtractGroupView;

    open spec fn view(&self) -> ExtractGroupView {
        ExtractGroupView {
            sources: self.sources@,
            destinations: self.destinations@,
            nodes: self.nodes@,
            value_groups: self.value_groups@,
        }
    }
}

impl ExtractGroup {
    pub fn new() -> (r: Self)
        ensures
            r@ == ExtractGroupView::empty(),
    {
        ExtractGroup {
            sources: Vec::new(),
            destinations: Vec::new(),
            nodes: Vec::new(),
            value_groups: Vec::new(),
        }
    }
}

/// The sockets bound to one value group, each as node index and socket index.
#[derive(Debug, PartialEq, Eq)]
pub struct ValueGroupData {
    pub sockets: Vec<ValueSocketRef>,
}

impl ValueGroupData {
    pub fn new() -> (r: Self)
        ensures
            r.sockets@ == Seq::<ValueSocketRef>::empty(),
    {
        ValueGroupData { sockets: Vec::new() }
    }
}

/// Each element is smaller than the next.
pub open spec fn strictly_increasing(v: Seq<usize>) -> bool {
    forall|i: int, j: int| 0 <= i < j < v.len() ==> v[i] < v[j]
}

impl ExtractGroupView {
    pub open spec fn empty() -> ExtractGroupView {
        ExtractGroupView {
            sources: Seq::empty(),
            destinations: Seq::empty(),
            nodes: Seq::empty(),
            value_groups: Seq::empty(),
        }
    }

    /// The lists of `self`, each followed by the same list of `other`.
    pub open spec fn joined(self, other: ExtractGroupView) -> ExtractGroupView {
        ExtractGroupView {
            sources: self.sources + other.sources,
            destinations: self.destinations + other.destinations,
            nodes: self.nodes + other.nodes,
            value_groups: self.value_groups + other.value_groups,
        }
    }

    /// The cluster can be moved out of `s`: its nodes are listed in
    /// increasing order, and its value groups are, each once, exactly the
    /// groups those nodes are wired to.
    pub open spec fn relocatable(self, s: SurfaceView) -> bool {
        &&& strictly_increasing(self.nodes)
        &&& forall|i: int| 0 <= i < self.nodes.len() ==> self.nodes[i] < s.nodes.len()
        &&& self.value_groups.no_duplicates()
        &&& forall|i: int|
            0 <= i < self.value_groups.len() ==> self.value_groups[i] < s.groups.len()
        &&& forall|g: usize| #[trigger]
            self.value_groups.contains(g) <==> exists|n: usize| #[trigger]
                self.nodes.contains(n) && touches(s, n as int, g as int)
        &&& forall|i: int|
            0 <= i < self.sources.len() ==> self.value_groups.contains(#[trigger] self.sources[i])
        &&& forall|i: int|
            0 <= i < self.destinations.len() ==> self.value_groups.contains(
                #[trigger] self.destinations[i],
            )
    }

    /// The cluster is one that extraction produces for `s`: it can be moved
    /// out, it has a node, and its sources and destinations are, each once,
    /// exactly those of its groups that an extractor socket writes or reads.
    pub open spec fn fits(self, s: SurfaceView) -> bool {
        &&& self.relocatable(s)
        &&& self.nodes.len() > 0
        &&& self.sources.no_duplicates()
        &&& self.destinations.no_duplicates()
        &&& forall|g: usize| #[trigger]
            self.sources.contains(g) <==> self.value_groups.contains(g) && is_source(s, g as int)
        &&& forall|g: usize| #[trigger]
            self.destinations.contains(g) <==> self.value_groups.contains(g) && is_destination(
                s,
                g as int,
            )
    }
}

/// The clusters `p` are what extraction finds in `s`: every per-voice node
/// is in one of them, no other node is, and two of these nodes are in the
/// same cluster exactly when they have to share their voices.
pub open spec fn is_extraction_plan(s: SurfaceView, p: Seq<ExtractGroupView>) -> bool {
    &&& forall|i: int| 0 <= i < p.len() ==> (#[trigger] p[i]).fits(s)
    &&& forall|n: usize|
        n < s.nodes.len() ==> (captured_node(s, n as int) <==> exists|i: int|
            0 <= i < p.len() && #[trigger] p[i].nodes.contains(n))
    &&& forall|i: int, j: int, a: usize, b: usize|
        0 <= i < p.len() && 0 <= j < p.len() && #[trigger] p[i].nodes.contains(a)
            && #[trigger] p[j].nodes.contains(b) ==> (i == j <==> connected(
            s,
            a as int,
            b as int,
        ))
}

/// The clusters of a list, as plain values.
pub open spec fn plan_of(groups: Seq<ExtractGroup>) -> Seq<ExtractGroupView> {
    groups.map_values(|x: ExtractGroup| x@)
}

/// The surfaces of a list, as plain values.
pub open spec fn surfaces_of(surfaces: Seq<Surface>) -> Seq<SurfaceView> {
    surfaces.map_values(|surface: Surface| surface@)
}

/// `parent` and `children` are what extraction makes of `s`, the new
/// surfaces numbered from `first_id` on: the clusters that a search finds in
/// `s` have moved out.
pub open spec fn extraction_of(
    s: SurfaceView,
    first_id: u64,
    parent: SurfaceView,
    children: Seq<SurfaceView>,
) -> bool {
    exists|p: Seq<ExtractGroupView>| #[trigger]
        is_extraction_plan(s, p) && extracted(s, p, first_id, parent, children)
}

/// A surface in the hands of the pass.
pub struct GroupExtractor<'a> {
    pub surface: &'a mut Surface,
}

impl<'a> GroupExtractor<'a> {
    /// Takes the surface to work on.
    pub fn new(surface: &'a mut Surface) -> (r: Self)
        ensures
            *r.surface == *old(surface),
            *final(r.surface) == *final(surface),
    {
        GroupExtractor { surface }
    }

    /// Finds the clusters of per-voice nodes of the surface and moves each
    /// into a surface of its own. The new surfaces come back in the order in
    /// which their nodes replace them at the end of the surface.
    pub fn extract_groups(&mut self, allocator: &mut IdAllocator) -> (r: Vec<Surface>)
        requires
            old(self).surface@.well_formed(),
            old(allocator).next() + old(self).surface.nodes.len() <= u64::MAX,
        ensures
            extraction_of(
                old(self).surface@,
                old(allocator).next(),
                final(self).surface@,
                surfaces_of(r@),
            ),
            final(allocator).next() == old(allocator).next() + r.len(),
            final(self).surface@.well_formed(),
            forall|i: int| 0 <= i < r.len() ==> (#[trigger] r[i])@.well_formed(),
            *final(final(self).surface) == *final(old(self).surface),
    {
        extract_groups(self.surface, allocator)
    }
}

/// Finds the clusters of per-voice nodes of the surface and moves each into
/// a surface of its own. The new surfaces come back in the order in which
/// their nodes replace them at the end of the surface.
pub fn extract_groups(surface: &mut Surface, allocator: &mut IdAllocator) -> (r: Vec<Surface>)
    requires
        old(surface)@.well_formed(),
        old(allocator).next() + old(surface).nodes.len() <= u64::MAX,
    ensures
        extraction_of(old(surface)@, old(allocator).next(), final(surface)@, surfaces_of(r@)),
        final(allocator).next() == old(allocator).next() + r.len(),
        final(surface)@.well_formed(),
        forall|i: int| 0 <= i < r.len() ==> (#[trigger] r[i])@.well_formed(),
{
    let ghost s = surface@;
    let ghost first_id = allocator.next();
    let groups = find_extracted_groups(surface);
    let ghost p = plan_of(groups@);
    proof {
        lemma_plan_size(s, p);
        assert(s.nodes.len() == surface.nodes.len());
    }

    let mut origin: Vec<NodeRef> = Vec::new();
    let mut node_index: usize = 0;
    while node_index < surface.nodes.len()
        invariant
            node_index <= surface.nodes.len(),
            origin.len() == node_index,
            forall|j: int| 0 <= j < node_index ==> origin[j] == j,
        decreases surface.nodes.len() - node_index,
    {
        origin.push(node_index);
        node_index += 1;
    }
    proof {
        assert(moved_nodes(p.take(0)) =~= Set::empty());
        assert forall|n: usize| n < s.nodes.len() implies #[trigger] origin@.contains(n) by {
            assert(origin@[n as int] == n);
        }
    }

    let mut new_surfaces: Vec<Surface> = Vec::new();
    let mut extract_index: usize = 0;
    while extract_index < groups.len()
        invariant
            s.well_formed(),
            s.nodes.len() <= usize::MAX,
            p == plan_of(groups@),
            is_extraction_plan(s, p),
            extract_index <= groups.len(),
            first_id + groups.len() <= u64::MAX,
            allocator.next() == first_id + extract_index,
            tracks(s, moved_nodes(p.take(extract_index as int)), origin@, surface@),
            new_surfaces.len() == extract_index,
            forall|i: int|
                0 <= i < extract_index ==> (#[trigger] new_surfaces[i])@ == child_surface(
                    s,
                    p[i],
                    i as nat,
                    (first_id + i) as u64,
                ),
            surface@.nodes.subrange(origin.len() as int, surface@.nodes.len() as int)
                == link_nodes(
                s,
                p.take(extract_index as int),
                surfaces_of(new_surfaces@),
            ),
        decreases groups.len() - extract_index,
    {
        let ghost gone = moved_nodes(p.take(extract_index as int));
        let ghost children_before = surfaces_of(new_surfaces@);
        proof {
            let x = p[extract_index as int];
            assert(x == groups[extract_index as int]@);
            assert(x.fits(s));
            assert forall|r: int| 0 <= r < x.nodes.len() implies !gone.contains(
                #[trigger] x.nodes[r] as int,
            ) by {
                let n = x.nodes[r];
                if is_moved(p.take(extract_index as int), n as int) {
                    let (j, q) = choose|j: int, q: int|
                        0 <= j < p.take(extract_index as int).len() && 0 <= q < p.take(
                            extract_index as int,
                        )[j].nodes.len() && (#[trigger] p.take(extract_index as int)[j].nodes[q])
                            == n as int;
                    assert(p[j].nodes[q] == n);
                    assert(p[j].nodes.contains(n));
                    assert(x.nodes.contains(n));
                    lemma_clusters_disjoint(s, p, j, extract_index as int, n);
                }
            }
            lemma_next_gone(p, extract_index as int);
        }
        let new_surface = extract_group(
            surface,
            &mut origin,
            allocator,
            extract_index,
            &groups[extract_index],
            Ghost(s),
            Ghost(gone),
        );
        new_surfaces.push(new_surface);
        proof {
            let children = surfaces_of(new_surfaces@);
            let next = extract_index + 1;
            assert(children =~= children_before.push(new_surface@));
            assert(surface@.nodes.subrange(origin.len() as int, surface@.nodes.len() as int)
                =~= link_nodes(s, p.take(next), children)) by {
                let links = link_nodes(s, p.take(next), children);
                let was = link_nodes(s, p.take(extract_index as int), children_before);
                assert(links =~= was.push(
                    link_node(s, p[extract_index as int], new_surface@.id),
                )) by {
                    assert forall|i: int| 0 <= i < links.len() implies links[i] == was.push(
                        link_node(s, p[extract_index as int], new_surface@.id),
                    )[i] by {
                        if i < extract_index {
                            assert(p.take(next)[i] == p.take(extract_index as int)[i]);
                            assert(children[i] == children_before[i]);
                        }
                    }
                }
            }
        }
        extract_index += 1;
    }
    proof {
        let parent = surface@;
        let children = surfaces_of(new_surfaces@);
        assert(p.take(p.len() as int) =~= p);
        lemma_tracked_remaining(s, p, moved_nodes(p), origin@, parent);
        assert(parent.nodes =~= parent.nodes.subrange(0, origin.len() as int)
            + parent.nodes.subrange(origin.len() as int, parent.nodes.len() as int));
        assert(extracted(s, p, first_id, parent, children));
        lemma_extracted_well_formed(s, p, first_id, parent, children);
        assert forall|i: int| 0 <= i < new_surfaces.len() implies (#[trigger] new_surfaces[i])@.well_formed() by {
            assert(children[i] == new_surfaces[i]@);
        }
    }
    new_surfaces
}

/// Moves one cluster out of the surface into a surface of its own, which
/// is handed back, and puts a node in its place that instantiates the new
/// surface once per voice.
///
/// The groups of the cluster stay where they are: the new node has a socket
/// on each, which forwards the group into the new surface.
fn extract_group(
    surface: &mut Surface,
    origin: &mut Vec<NodeRef>,
    allocator: &mut IdAllocator,
    extract_index: usize,
    group: &ExtractGroup,
    Ghost(s): Ghost<SurfaceView>,
    Ghost(gone): Ghost<Set<int>>,
) -> (new_surface: Surface)
    requires
        tracks(s, gone, old(origin)@, old(surface)@),
        group@.relocatable(s),
        forall|r: int|
            0 <= r < group.nodes.len() ==> !gone.contains(
                #[trigger] group.nodes[r] as int,
            ),
        old(allocator).next() < u64::MAX,
    ensures
        new_surface@ == child_surface(
            s,
            group@,
            extract_index as nat,
            old(allocator).next(),
        ),
        final(allocator).next() == old(allocator).next() + 1,
        tracks(s, gone_with(gone, group@), final(origin)@, final(surface)@),
        final(surface)@.nodes.subrange(
            final(origin).len() as int,
            final(surface)@.nodes.len() as int,
        ) == old(surface)@.nodes.subrange(
            old(origin).len() as int,
            old(surface)@.nodes.len() as int,
        ).push(link_node(s, group@, new_surface@.id)),
{
    let ghost x = group@;
    let ghost tail = surface@.nodes.subrange(origin.len() as int, surface@.nodes.len() as int);
    assert(surface@.groups.len() == surface.groups.len());
    let (new_value_groups, mut new_sockets, new_value_group_indexes) = new_boundary(
        surface,
        &group.value_groups,
    );
    let new_nodes = relocate_nodes(
        surface,
        origin,
        &mut new_sockets,
        &new_value_group_indexes,
        group,
        Ghost(s),
        Ghost(gone),
    );

    let mut debug_name = surface.id.debug_name.clone();
    debug_name.append(".extracted");
    push_decimal(&mut debug_name, extract_index as u64);
    let new_surface = Surface::new(
        SurfaceId::new(debug_name, allocator),
        new_value_groups,
        new_nodes,
    );
    proof {
        let child = child_surface(s, x, extract_index as nat, old(allocator).next());
        assert(new_surface@.id == child.id);
        assert(new_surface@.groups =~= child.groups);
        assert(new_surface@.nodes =~= child.nodes);
    }

    let new_node = Node::new(
        new_sockets,
        NodeData::ExtractGroup {
            surface: new_surface.id.clone(),
            source_sockets: places_of(
                &group.sources,
                &new_value_group_indexes,
                Ghost(x.value_groups),
            ),
            dest_sockets: places_of(
                &group.destinations,
                &new_value_group_indexes,
                Ghost(x.value_groups),
            ),
        },
    );
    assert(new_node@ == link_node(s, x, new_surface@.id));

    // The new node goes to the end of the parent.
    let ghost before_push = surface@;
    surface.nodes.push(new_node);
    proof {
        let now = surface@;
        assert(now.nodes =~= before_push.nodes.push(link_node(s, x, new_surface@.id)));
        assert(now.nodes.subrange(origin@.len() as int, now.nodes.len() as int) =~= tail.push(
            link_node(s, x, new_surface@.id),
        ));
    }
    new_surface
}

/// The table gives, for each group of the list, where the group stands in
/// the list, and has no other entry.
pub open spec fn maps_slots(indexes: Map<usize, usize>, value_groups: Seq<usize>) -> bool {
    &&& forall|g: usize| #[trigger] indexes.contains_key(g) <==> value_groups.contains(g)
    &&& forall|j: int|
        0 <= j < value_groups.len() ==> indexes[#[trigger] value_groups[j]] == j
}

/// In a list without repetition, an entry stands where it stands.
proof fn lemma_slot_of(list: Seq<usize>, j: int)
    requires
        list.no_duplicates(),
        0 <= j < list.len(),
    ensures
        slot_of(list, list[j]) == j,
{
}

/// What stands at the seam of a new surface: for each group that moves, a
/// group of the new surface, of the type that one voice sees, and a socket
/// that forwards the old group; and the table from old group to new.
fn new_boundary(surface: &Surface, value_groups: &Vec<ValueGroupRef>) -> (r: (
    Vec<ValueGroup>,
    Vec<ValueSocket>,
    HashMap<ValueGroupRef, usize>,
))
    requires
        value_groups@.no_duplicates(),
        forall|j: int| 0 <= j < value_groups.len() ==> value_groups[j] < surface.groups.len(),
    ensures
        r.0.len() == value_groups.len(),
        forall|j: int|
            0 <= j < value_groups.len() ==> (#[trigger] r.0[j])@ == (ValueGroupView {
                value_type: surface@.groups[value_groups[j] as int].value_type.element(),
                source: ValueGroupSource::Socket(j as usize),
            }),
        r.1.len() == value_groups.len(),
        forall|j: int|
            0 <= j < value_groups.len() ==> #[trigger] r.1[j] == (ValueSocket {
                group_id: value_groups[j],
                value_written: false,
                value_read: false,
                is_extractor: false,
            }),
        maps_slots(r.2@, value_groups@),
{
    broadcast use vstd::std_specs::hash::group_hash_axioms;

    let mut new_value_groups: Vec<ValueGroup> = Vec::new();
    let mut new_sockets: Vec<ValueSocket> = Vec::new();
    let mut new_value_group_indexes: HashMap<ValueGroupRef, usize> = HashMap::new();
    let mut index: usize = 0;
    while index < value_groups.len()
        invariant
            index <= value_groups.len(),
            value_groups@.no_duplicates(),
            forall|j: int| 0 <= j < value_groups.len() ==> value_groups[j] < surface.groups.len(),
            new_value_groups.len() == index,
            new_sockets.len() == index,
            forall|j: int|
                0 <= j < index ==> (#[trigger] new_value_groups[j])@ == (ValueGroupView {
                    value_type: surface@.groups[value_groups[j] as int].value_type.element(),
                    source: ValueGroupSource::Socket(j as usize),
                }),
            forall|j: int|
                0 <= j < index ==> #[trigger] new_sockets[j] == (ValueSocket {
                    group_id: value_groups[j],
                    value_written: false,
                    value_read: false,
                    is_extractor: false,
                }),
            maps_slots(new_value_group_indexes@, value_groups@.subrange(0, index as int)),
        decreases value_groups.len() - index,
    {
        let parent_group_index = value_groups[index];
        let new_group_index = new_value_groups.len();
        let parent_group = &surface.groups[parent_group_index];
        assert(surface@.groups[parent_group_index as int] == parent_group@);

        // The group stays an array in the parent and is a single value in
        // the new surface.
        new_value_groups.push(
            ValueGroup::new(
                parent_group.value_type.element_type(),
                ValueGroupSource::Socket(new_group_index),
            ),
        );
        new_sockets.push(ValueSocket::new(parent_group_index, false, false, false));
        new_value_group_indexes.insert(parent_group_index, new_group_index);
        proof {
            let done = value_groups@.subrange(0, index as int);
            let next = value_groups@.subrange(0, index + 1);
            assert(next =~= done.push(parent_group_index));
            assert forall|g: usize| #[trigger]
                new_value_group_indexes@.contains_key(g) <==> next.contains(g) by {
                crate::pass::search::lemma_contains_after_push(done, parent_group_index, g);
            }
            assert forall|j: int| 0 <= j < next.len() implies new_value_group_indexes@[#[trigger] next[j]]
                == j by {
                if j < index {
                    assert(done[j] == value_groups@[j]);
                    assert(value_groups@[j] != value_groups@[index as int]);
                }
            }
        }
        index += 1;
    }
    assert(value_groups@.subrange(0, index as int) =~= value_groups@);
    (new_value_groups, new_sockets, new_value_group_indexes)
}

/// Moves the nodes of a cluster out of the surface, in their order, and
/// hands them back rebound to the groups of the new surface. `origin` says
/// where each node of the surface stood at first, which is how the nodes of
/// the cluster are found once nodes before them have left.
fn relocate_nodes(
    surface: &mut Surface,
    origin: &mut Vec<NodeRef>,
    new_sockets: &mut Vec<ValueSocket>,
    indexes: &HashMap<ValueGroupRef, usize>,
    extract_group: &ExtractGroup,
    Ghost(s): Ghost<SurfaceView>,
    Ghost(gone): Ghost<Set<int>>,
) -> (new_nodes: Vec<Node>)
    requires
        tracks(s, gone, old(origin)@, old(surface)@),
        extract_group@.relocatable(s),
        forall|r: int|
            0 <= r < extract_group.nodes.len() ==> !gone.contains(
                #[trigger] extract_group.nodes[r] as int,
            ),
        maps_slots(indexes@, extract_group.value_groups@),
        old(new_sockets).len() == extract_group.value_groups.len(),
        forall|j: int|
            0 <= j < extract_group.value_groups.len() ==> #[trigger] old(new_sockets)[j]
                == (ValueSocket {
                group_id: extract_group.value_groups[j],
                value_written: false,
                value_read: false,
                is_extractor: false,
            }),
    ensures
        tracks(s, gone_with(gone, extract_group@), final(origin)@, final(surface)@),
        final(surface)@.nodes.subrange(
            final(origin).len() as int,
            final(surface)@.nodes.len() as int,
        ) == old(surface)@.nodes.subrange(
            old(origin).len() as int,
            old(surface)@.nodes.len() as int,
        ),
        new_nodes.len() == extract_group.nodes.len(),
        forall|r: int|
            0 <= r < extract_group.nodes.len() ==> (#[trigger] new_nodes[r])@ == moved_node(
                s.nodes[extract_group.nodes[r] as int],
                extract_group.value_groups@,
            ),
        final(new_sockets)@ == link_sockets(s, extract_group@),
{
    let ghost x = extract_group@;
    let ghost tail = surface@.nodes.subrange(origin.len() as int, surface@.nodes.len() as int);
    let mut new_nodes: Vec<Node> = Vec::new();
    let mut cursor: usize = 0;
    let mut removed_count: usize = 0;
    while removed_count < extract_group.nodes.len()
        invariant
            x == extract_group@,
            x.relocatable(s),
            forall|r: int| 0 <= r < x.nodes.len() ==> !gone.contains(#[trigger] x.nodes[r] as int),
            maps_slots(indexes@, x.value_groups),
            removed_count <= x.nodes.len(),
            tracks(s, gone_with_first(gone, x, removed_count as int), origin@, surface@),
            surface@.nodes.subrange(origin.len() as int, surface@.nodes.len() as int) == tail,
            cursor <= origin.len(),
            forall|j: int|
                0 <= j < cursor && removed_count < x.nodes.len() ==> origin[j]
                    < x.nodes[removed_count as int],
            new_nodes.len() == removed_count,
            forall|r: int|
                0 <= r < removed_count ==> (#[trigger] new_nodes[r])@ == moved_node(
                    s.nodes[x.nodes[r] as int],
                    x.value_groups,
                ),
            new_sockets.len() == x.value_groups.len(),
            forall|j: int|
                0 <= j < x.value_groups.len() ==> #[trigger] new_sockets[j] == (ValueSocket {
                    group_id: x.value_groups[j],
                    value_written: written_by_first(s, x, x.value_groups[j], removed_count as int),
                    value_read: read_by_first(s, x, x.value_groups[j], removed_count as int),
                    is_extractor: false,
                }),
        decreases x.nodes.len() - removed_count,
    {
        let node_index = extract_group.nodes[removed_count];
        let ghost gone_now = gone_with_first(gone, x, removed_count as int);
        let ghost origin_before = origin@;
        let ghost surface_before = surface@;
        proof {
            assert(!gone_now.contains(node_index as int)) by {
                if gone_now.contains(node_index as int) {
                    let r = choose|r: int| 0 <= r < removed_count && #[trigger] x.nodes[r] == node_index;
                    assert(x.nodes[r] < x.nodes[removed_count as int]);
                }
            }
            assert(origin_before.contains(node_index));
        }
        let ghost place = choose|j: int| 0 <= j < origin_before.len() && origin_before[j] == node_index;
        // The node stands where its index says, less the nodes that have
        // left from before it.
        while origin[cursor] != node_index
            invariant
                origin@ == origin_before,
                strictly_increasing(origin_before),
                0 <= place < origin.len(),
                origin_before[place] == node_index,
                cursor <= place,
            decreases place - cursor,
        {
            cursor += 1;
        }
        assert(cursor == place);
        let mut new_node = surface.nodes.remove(cursor);
        origin.remove(cursor);
        proof {
            assert(new_node@ == surface_before.nodes[cursor as int]);
            assert(new_node@ == s.nodes[node_index as int]);
            assert forall|k: int| 0 <= k < new_node.sockets.len() implies x.value_groups.contains(
                (#[trigger] new_node.sockets[k]).group_id,
            ) by {
                let g = new_node.sockets[k].group_id;
                assert(binds(s, node_index as int, k, g as int));
                assert(touches(s, node_index as int, g as int));
                assert(x.nodes.contains(node_index) && touches(s, node_index as int, g as int));
            }
        }
        let ghost sockets_before = new_sockets@;
        relocate_sockets(&mut new_node, new_sockets, indexes, Ghost(x.value_groups));
        new_nodes.push(new_node);
        proof {
            let gone_next = gone_with_first(gone, x, removed_count + 1);
            let now = surface@;
            assert(now.nodes =~= surface_before.nodes.remove(cursor as int));
            assert(now.groups == surface_before.groups);
            assert(tracks(s, gone_next, origin@, now)) by {
                assert forall|j: int| 0 <= j < origin@.len() implies (#[trigger] origin@[j])
                    < s.nodes.len() && now.nodes[j] == s.nodes[origin@[j] as int] by {
                    if j < cursor {
                        assert(origin@[j] == origin_before[j]);
                    } else {
                        assert(origin@[j] == origin_before[j + 1]);
                    }
                }
                assert forall|i: int, j: int| 0 <= i < j < origin@.len() implies origin@[i]
                    < origin@[j] by {
                    let i0 = if i < cursor { i } else { i + 1 };
                    let j0 = if j < cursor { j } else { j + 1 };
                    assert(origin_before[i0] < origin_before[j0]);
                }
                assert forall|n: usize| n < s.nodes.len() implies (#[trigger] origin@.contains(n)
                    <==> !gone_next.contains(n as int)) by {
                    if origin@.contains(n) {
                        let j = choose|j: int| 0 <= j < origin@.len() && origin@[j] == n;
                        let j0 = if j < cursor { j } else { j + 1 };
                        assert(origin_before[j0] == n);
                        assert(origin_before.contains(n));
                        assert(n != node_index);
                        if gone_next.contains(n as int) {
                            let r = choose|r: int| 0 <= r < removed_count + 1 && #[trigger] x.nodes[r] == n;
                            assert(r < removed_count);
                        }
                    }
                    if !gone_next.contains(n as int) {
                        assert(n != node_index) by {
                            assert(x.nodes[removed_count as int] == node_index);
                        }
                        assert(!gone_now.contains(n as int)) by {
                            if gone_now.contains(n as int) && !gone.contains(n as int) {
                                let r = choose|r: int| 0 <= r < removed_count && #[trigger] x.nodes[r] == n;
                                assert(x.nodes[r] == n);
                            }
                        }
                        assert(origin_before.contains(n));
                        let j0 = choose|j: int| 0 <= j < origin_before.len() && origin_before[j] == n;
                        let j = if j0 < cursor { j0 } else { j0 - 1 };
                        assert(origin@[j] == n);
                    }
                }
            }
            assert(now.nodes.subrange(origin@.len() as int, now.nodes.len() as int) =~= tail);
            assert forall|j: int| 0 <= j < cursor && removed_count + 1 < x.nodes.len() implies origin@[j]
                < x.nodes[removed_count + 1] by {
                assert(origin@[j] == origin_before[j]);
                assert(origin_before[j] < origin_before[cursor as int]);
                assert(x.nodes[removed_count as int] < x.nodes[removed_count + 1]);
            }
            assert forall|j: int| 0 <= j < x.value_groups.len() implies #[trigger] new_sockets[j]
                == (ValueSocket {
                group_id: x.value_groups[j],
                value_written: written_by_first(s, x, x.value_groups[j], removed_count + 1),
                value_read: read_by_first(s, x, x.value_groups[j], removed_count + 1),
                is_extractor: false,
            }) by {
                let g = x.value_groups[j];
                assert(sockets_before[j].group_id == g);
                let node = s.nodes[x.nodes[removed_count as int] as int];
                assert(written_by_first(s, x, g, removed_count + 1) <==> written_by_first(
                    s,
                    x,
                    g,
                    removed_count as int,
                ) || node_writes(node, g)) by {
                    if written_by_first(s, x, g, removed_count as int) {
                        let i = choose|i: int|
                            0 <= i < removed_count && node_writes(
                                s.nodes[#[trigger] x.nodes[i] as int],
                                g,
                            );
                        assert(0 <= i < removed_count + 1 && node_writes(
                            s.nodes[x.nodes[i] as int],
                            g,
                        ));
                    }
                    if node_writes(node, g) {
                        assert(node_writes(s.nodes[x.nodes[removed_count as int] as int], g));
                    }
                }
                assert(read_by_first(s, x, g, removed_count + 1) <==> read_by_first(
                    s,
                    x,
                    g,
                    removed_count as int,
                ) || node_reads(node, g)) by {
                    if read_by_first(s, x, g, removed_count as int) {
                        let i = choose|i: int|
                            0 <= i < removed_count && node_reads(
                                s.nodes[#[trigger] x.nodes[i] as int],
                                g,
                            );
                        assert(0 <= i < removed_count + 1 && node_reads(
                            s.nodes[x.nodes[i] as int],
                            g,
                        ));
                    }
                    if node_reads(node, g) {
                        assert(node_reads(s.nodes[x.nodes[removed_count as int] as int], g));
                    }
                }
            }
        }
        removed_count += 1;
    }
    proof {
        assert(new_sockets@ =~= link_sockets(s, x));
    }
    new_nodes
}

/// Rebinds the sockets of a node that moves to the groups of the new
/// surface, and notes on the forwarding sockets which groups the node
/// writes and reads.
fn relocate_sockets(
    node: &mut Node,
    new_sockets: &mut Vec<ValueSocket>,
    indexes: &HashMap<ValueGroupRef, usize>,
    Ghost(value_groups): Ghost<Seq<usize>>,
)
    requires
        value_groups.no_duplicates(),
        maps_slots(indexes@, value_groups),
        old(new_sockets).len() == value_groups.len(),
        forall|j: int|
            0 <= j < value_groups.len() ==> (#[trigger] old(new_sockets)[j]).group_id
                == value_groups[j],
        forall|k: int|
            0 <= k < old(node).sockets.len() ==> value_groups.contains(
                (#[trigger] old(node).sockets[k]).group_id,
            ),
    ensures
        final(node)@ == moved_node(old(node)@, value_groups),
        final(new_sockets).len() == value_groups.len(),
        forall|j: int|
            0 <= j < value_groups.len() ==> {
                &&& (#[trigger] final(new_sockets)[j]).group_id == value_groups[j]
                &&& final(new_sockets)[j].is_extractor == old(new_sockets)[j].is_extractor
                &&& final(new_sockets)[j].value_written == (old(new_sockets)[j].value_written
                    || node_writes(old(node)@, value_groups[j]))
                &&& final(new_sockets)[j].value_read == (old(new_sockets)[j].value_read
                    || node_reads(old(node)@, value_groups[j]))
            },
{
    broadcast use vstd::std_specs::hash::group_hash_axioms;

    let ghost was = node@;
    let socket_count = node.sockets.len();
    let mut socket_index: usize = 0;
    while socket_index < socket_count
        invariant
            value_groups.no_duplicates(),
            maps_slots(indexes@, value_groups),
            was == old(node)@,
            node.data == old(node).data,
            socket_count == was.sockets.len(),
            node.sockets.len() == socket_count,
            socket_index <= socket_count,
            forall|k: int|
                0 <= k < socket_count ==> value_groups.contains(
                    (#[trigger] was.sockets[k]).group_id,
                ),
            forall|k: int|
                0 <= k < socket_index ==> #[trigger] node.sockets[k] == moved_socket(
                    was.sockets[k],
                    value_groups,
                ),
            forall|k: int| socket_index <= k < socket_count ==> node.sockets[k] == was.sockets[k],
            new_sockets.len() == value_groups.len(),
            forall|j: int|
                0 <= j < value_groups.len() ==> {
                    &&& (#[trigger] new_sockets[j]).group_id == value_groups[j]
                    &&& new_sockets[j].is_extractor == old(new_sockets)[j].is_extractor
                    &&& new_sockets[j].value_written == (old(new_sockets)[j].value_written
                        || exists|k: int|
                        0 <= k < socket_index && (#[trigger] was.sockets[k]).group_id
                            == value_groups[j] && was.sockets[k].value_written)
                    &&& new_sockets[j].value_read == (old(new_sockets)[j].value_read || exists|
                        k: int,
                    |
                        0 <= k < socket_index && (#[trigger] was.sockets[k]).group_id
                            == value_groups[j] && was.sockets[k].value_read)
                },
        decreases socket_count - socket_index,
    {
        let socket = node.sockets[socket_index];
        assert(socket == was.sockets[socket_index as int]);
        assert(value_groups.contains(was.sockets[socket_index as int].group_id));
        let remapped_id = *indexes.get(&socket.group_id).unwrap();
        proof {
            let j = choose|j: int| 0 <= j < value_groups.len() && value_groups[j] == socket.group_id;
            lemma_slot_of(value_groups, j);
            assert(indexes@[value_groups[j]] == j);
        }
        node.sockets[socket_index].group_id = remapped_id;

        let ghost noted_sockets = new_sockets@;
        if socket.value_written {
            new_sockets[remapped_id].value_written = true;
        }
        if socket.value_read {
            new_sockets[remapped_id].value_read = true;
        }
        proof {
            assert forall|j: int| 0 <= j < value_groups.len() implies {
                &&& (#[trigger] new_sockets[j]).group_id == value_groups[j]
                &&& new_sockets[j].is_extractor == old(new_sockets)[j].is_extractor
                &&& new_sockets[j].value_written == (old(new_sockets)[j].value_written || exists|
                    k: int,
                |
                    0 <= k < socket_index + 1 && (#[trigger] was.sockets[k]).group_id
                        == value_groups[j] && was.sockets[k].value_written)
                &&& new_sockets[j].value_read == (old(new_sockets)[j].value_read || exists|k: int|
                    0 <= k < socket_index + 1 && (#[trigger] was.sockets[k]).group_id
                        == value_groups[j] && was.sockets[k].value_read)
            } by {
                assert(noted_sockets[j].group_id == value_groups[j]);
                let here = was.sockets[socket_index as int];
                if j == remapped_id {
                    assert(here.group_id == value_groups[j]);
                } else {
                    assert(here.group_id != value_groups[j]);
                }
            }
        }
        socket_index += 1;
    }
    proof {
        assert(node@.sockets =~= moved_node(was, value_groups).sockets);
    }
}

/// The place in the new surface of each group of the list.
fn places_of(
    list: &Vec<ValueGroupRef>,
    indexes: &HashMap<ValueGroupRef, usize>,
    Ghost(value_groups): Ghost<Seq<usize>>,
) -> (r: Vec<usize>)
    requires
        value_groups.no_duplicates(),
        maps_slots(indexes@, value_groups),
        forall|i: int| 0 <= i < list.len() ==> value_groups.contains(#[trigger] list[i]),
    ensures
        r@ == list@.map_values(|g: usize| slot_of(value_groups, g) as usize),
{
    broadcast use vstd::std_specs::hash::group_hash_axioms;

    let mut places: Vec<usize> = Vec::new();
    let mut index: usize = 0;
    while index < list.len()
        invariant
            index <= list.len(),
            value_groups.no_duplicates(),
            maps_slots(indexes@, value_groups),
            forall|i: int| 0 <= i < list.len() ==> value_groups.contains(#[trigger] list[i]),
            places.len() == index,
            forall|i: int|
                0 <= i < index ==> #[trigger] places[i] == slot_of(value_groups, list[i]) as usize,
        decreases list.len() - index,
    {
        let group = list[index];
        assert(value_groups.contains(list[index as int]));
        let place = *indexes.get(&group).unwrap();
        proof {
            let j = choose|j: int| 0 <= j < value_groups.len() && value_groups[j] == group;
            lemma_slot_of(value_groups, j);
            assert(indexes@[value_groups[j]] == j);
        }
        places.push(place);
        index += 1;
    }
    assert(places@ =~= list@.map_values(|g: usize| slot_of(value_groups, g) as usize));
    places
}

/// Finds the clusters of nodes that have to run once per voice.
///
/// The search starts at the groups bound to extractor sockets, each a
/// cluster of its own at first, and spreads breadth first: from a group to
/// the nodes that read it through an ordinary socket, and from such a node to
/// every group the node is wired to. Clusters that meet in a node become one.
/// What comes back are the clusters that have a node.
pub fn find_extracted_groups(surface: &Surface) -> (r: Vec<ExtractGroup>)
    requires
        surface@.well_formed(),
    ensures
        is_extraction_plan(surface@, plan_of(r@)),
{
    let ghost s = surface@;
    let mut tracer = Tracer::new(surface);

    // First look at every socket once: this files the sockets under their
    // groups and finds the seeds.
    let mut node_index: usize = 0;
    while node_index < surface.nodes.len()
        invariant
            s == surface@,
            s.well_formed(),
            node_index <= surface.nodes.len(),
            tracer@.seeding(s, node_index as int, 0),
        decreases surface.nodes.len() - node_index,
    {
        let socket_count = surface.nodes[node_index].sockets.len();
        let mut socket_index: usize = 0;
        while socket_index < socket_count
            invariant
                s == surface@,
                s.well_formed(),
                node_index < surface.nodes.len(),
                socket_count == s.nodes[node_index as int].sockets.len(),
                socket_index <= socket_count,
                tracer@.seeding(s, node_index as int, socket_index as int),
            decreases socket_count - socket_index,
        {
            tracer.index_socket(surface, node_index, socket_index);
            socket_index += 1;
        }
        proof {
            lemma_next_node(s, node_index as int);
            let t = tracer@;
            assert(t.indexed(s, node_index + 1, 0)) by {
                assert forall|n: int, k: int, g: int| #[trigger]
                    binds(s, n, k, g) && before(n, k, node_index + 1, 0) implies t.index[g].contains(
                    (n as usize, k as usize),
                ) by {
                    assert(s.has_socket(n, k));
                }
            }
        }
        node_index += 1;
    }
    proof {
        tracer@.lemma_seeded(s);
    }

    // Then spread from the queued groups until none is left.
    let ghost mut through: Seq<usize> = Seq::empty();
    while tracer.has_queued()
        invariant
            s == surface@,
            s.well_formed(),
            tracer@.tracing(s, -1, -1, 0),
            through.no_duplicates(),
            forall|i: int|
                0 <= i < through.len() ==> (#[trigger] through[i]) < s.groups.len()
                    && tracer@.group_of(through[i] as int) >= 0 && !tracer@.queue.contains(
                    through[i],
                ),
        decreases s.groups.len() - through.len(),
    {
        let ghost t0 = tracer@;
        let ghost front = t0.queue[0];
        proof {
            t0.lemma_tracing_basics(s, -1, -1, 0);
            assert(t0.queue.contains(front));
            lemma_contains_after_push(through, front, front);
            assert(!through.contains(front)) by {
                if through.contains(front) {
                    let i = choose|i: int| 0 <= i < through.len() && through[i] == front;
                    assert(!t0.queue.contains(through[i]));
                }
            }
            lemma_distinct_bounded(through.push(front), s.groups.len());
        }
        let value_group_index = tracer.trace_next_group(surface);
        proof {
            let t = tracer@;
            let earlier = through;
            through = through.push(value_group_index);
            assert forall|i: int| 0 <= i < through.len() implies (#[trigger] through[i])
                < s.groups.len() && t.group_of(through[i] as int) >= 0 && !t.queue.contains(
                through[i],
            ) by {
                if i < earlier.len() {
                    assert(through[i] == earlier[i]);
                    assert(t0.group_of(earlier[i] as int) >= 0);
                } else {
                    assert(t0.group_of(front as int) >= 0);
                }
            }
        }
    }
    assert(tracer@.queue.len() == 0);
    tracer.into_groups(surface)
}

/// Makes `dest` own everything `src` owns: the tables name `dest` wherever
/// they named `src`, the lists of `src` go to the end of those of `dest`,
/// and `src` stays behind empty.
pub fn merge_extract_groups(
    dest_index: usize,
    src_index: usize,
    groups: &mut Vec<ExtractGroup>,
    value_group_extracts: &mut Vec<Option<usize>>,
    node_extracts: &mut Vec<Option<usize>>,
)
    requires
        dest_index < old(groups).len(),
        src_index < old(groups).len(),
    ensures
        final(groups).len() == old(groups).len(),
        dest_index == src_index ==> {
            &&& forall|c: int| 0 <= c < old(groups).len() ==> final(groups)[c]@ == old(groups)[c]@
            &&& final(value_group_extracts)@ == old(value_group_extracts)@
            &&& final(node_extracts)@ == old(node_extracts)@
        },
        dest_index != src_index ==> {
            &&& final(groups)[dest_index as int]@ == old(groups)[dest_index as int]@.joined(
                old(groups)[src_index as int]@,
            )
            &&& final(groups)[src_index as int]@ == ExtractGroupView::empty()
            &&& forall|c: int|
                0 <= c < old(groups).len() && c != dest_index && c != src_index
                    ==> final(groups)[c]@ == old(groups)[c]@
            &&& final(value_group_extracts)@ == remapped(
                old(value_group_extracts)@,
                src_index,
                dest_index,
            )
            &&& final(node_extracts)@ == remapped(old(node_extracts)@, src_index, dest_index)
        },
{
    if dest_index == src_index {
        return ;
    }
    remap(value_group_extracts, src_index, dest_index);
    remap(node_extracts, src_index, dest_index);

    let mut moved = ExtractGroup::new();
    std::mem::swap(&mut groups[src_index], &mut moved);

    let dest_group = &mut groups[dest_index];
    dest_group.sources.append(&mut moved.sources);
    dest_group.destinations.append(&mut moved.destinations);
    dest_group.nodes.append(&mut moved.nodes);
    dest_group.value_groups.append(&mut moved.value_groups);
}

/// Has every entry of the table that names `src` name `dest` instead.
fn remap(table: &mut Vec<Option<usize>>, src: usize, dest: usize)
    ensures
        final(table)@ == remapped(old(table)@, src, dest),
{
    let mut i: usize = 0;
    while i < table.len()
        invariant
            table.len() == old(table).len(),
            i <= table.len(),
            forall|j: int| 0 <= j < i ==> table@[j] == remapped(old(table)@, src, dest)[j],
            forall|j: int| i <= j < table.len() ==> table@[j] == old(table)@[j],
        decreases table.len() - i,
    {
        let owned_by_src = match table[i] {
            Some(owner) => owner == src,
            None => false,
        };
        if owned_by_src {
            table[i] = Some(dest);
        }
        i += 1;
    }
    assert(table@ =~= remapped(old(table)@, src, dest));
}

} // verus!
