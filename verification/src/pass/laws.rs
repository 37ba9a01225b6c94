//! What holds of every extraction.

use crate::mir::{NodeDataView, NodeView, SurfaceView};
use crate::pass::clusters::{captured_node, lemma_reached_connected, reachable_from, seeds, touches};
use crate::pass::group_extracted::{extraction_of, is_extraction_plan, ExtractGroupView};
use crate::pass::relocation::{
    extracted, is_moved, lemma_clusters_disjoint, lemma_staying, link_nodes, remaining, slot_of,
    staying,
};
use vstd::prelude::*;

verus! {

/// No socket of the surface is an extractor socket.
pub open spec fn has_no_seam(s: SurfaceView) -> bool {
    forall|n: int, k: int| #[trigger] s.has_socket(n, k) ==> !s.nodes[n].sockets[k].is_extractor
}

/// Some socket of the node is bound to group `g`.
pub open spec fn node_binds(node: NodeView, g: usize) -> bool {
    exists|j: int| 0 <= j < node.sockets.len() && (#[trigger] node.sockets[j]).group_id == g
}

/// Some node of the cluster is wired to group `g`.
pub open spec fn cluster_touches(s: SurfaceView, x: ExtractGroupView, g: usize) -> bool {
    exists|n: usize| #[trigger] x.nodes.contains(n) && touches(s, n as int, g as int)
}

/// Where no cluster moves, every node stays.
proof fn lemma_all_stay(count: nat)
    ensures
        staying(Seq::<ExtractGroupView>::empty(), count) == Seq::new(count, |n: int| n),
    decreases count,
{
    let p = Seq::<ExtractGroupView>::empty();
    if count > 0 {
        lemma_all_stay((count - 1) as nat);
        assert(!is_moved(p, count - 1));
        assert(staying(p, count) =~= Seq::new(count, |n: int| n));
    } else {
        assert(staying(p, count) =~= Seq::new(count, |n: int| n));
    }
}

/// In a surface without extractor sockets a search finds no cluster.
pub proof fn lemma_no_seam_no_cluster(s: SurfaceView, p: Seq<ExtractGroupView>)
    requires
        has_no_seam(s),
        is_extraction_plan(s, p),
    ensures
        p.len() == 0,
{
    if p.len() > 0 {
        assert(p[0].fits(s));
        let n = p[0].nodes[0];
        assert(p[0].nodes.contains(n));
        assert(captured_node(s, n as int));
        let seed = choose|seed: int| reachable_from(s, seed, n as int);
        let (m, k) = choose|m: int, k: int| seeds(s, m, k, seed);
        assert(s.has_socket(m, k));
    }
}

/// Extraction leaves a surface without extractor sockets as it is, and
/// makes no new surface of it.
pub proof fn law_no_seam_no_change(
    s: SurfaceView,
    first_id: u64,
    parent: SurfaceView,
    children: Seq<SurfaceView>,
)
    requires
        has_no_seam(s),
        extraction_of(s, first_id, parent, children),
    ensures
        children.len() == 0,
        parent == s,
{
    let p = choose|p: Seq<ExtractGroupView>| #[trigger]
        is_extraction_plan(s, p) && extracted(s, p, first_id, parent, children);
    lemma_no_seam_no_cluster(s, p);
    assert(p =~= Seq::empty());
    lemma_all_stay(s.nodes.len());
    assert(remaining(s.nodes, p) =~= s.nodes);
    assert(link_nodes(s, p, children) =~= Seq::empty());
    assert(parent.nodes =~= s.nodes);
}

/// Extraction adds no group to the surface and takes none away. Each node
/// that stands for a cluster has one socket for each group that a node of the
/// cluster is wired to, no two of them on the same group, and the surface
/// made of the cluster has as many groups as that node has sockets.
pub proof fn law_one_socket_per_group(
    s: SurfaceView,
    p: Seq<ExtractGroupView>,
    first_id: u64,
    parent: SurfaceView,
    children: Seq<SurfaceView>,
    i: int,
)
    requires
        is_extraction_plan(s, p),
        extracted(s, p, first_id, parent, children),
        0 <= i < p.len(),
    ensures
        parent.groups == s.groups,
        parent.nodes.len() == remaining(s.nodes, p).len() + p.len(),
        ({
            let link = parent.nodes[remaining(s.nodes, p).len() + i];
            &&& link.sockets.len() == children[i].groups.len()
            &&& forall|j: int, k: int|
                0 <= j < k < link.sockets.len() ==> link.sockets[j].group_id
                    != link.sockets[k].group_id
            &&& forall|g: usize| #[trigger] node_binds(link, g) <==> cluster_touches(s, p[i], g)
        }),
{
    let x = p[i];
    assert(x.fits(s));
    let link = parent.nodes[remaining(s.nodes, p).len() + i];
    assert(link == link_nodes(s, p, children)[i]);
    assert forall|g: usize| #[trigger] node_binds(link, g) <==> cluster_touches(s, p[i], g) by {
        if node_binds(link, g) {
            let j = choose|j: int|
                0 <= j < link.sockets.len() && (#[trigger] link.sockets[j]).group_id == g;
            assert(x.value_groups[j] == g);
            assert(x.value_groups.contains(g));
        }
        if x.value_groups.contains(g) {
            let j = choose|j: int| 0 <= j < x.value_groups.len() && x.value_groups[j] == g;
            assert(link.sockets[j].group_id == g);
        }
    }
}

/// Two nodes reachable from one seed move into the same surface.
pub proof fn law_reached_together(
    s: SurfaceView,
    p: Seq<ExtractGroupView>,
    seed: int,
    a: usize,
    b: usize,
) -> (i: int)
    requires
        is_extraction_plan(s, p),
        a < s.nodes.len(),
        b < s.nodes.len(),
        reachable_from(s, seed, a as int),
        reachable_from(s, seed, b as int),
    ensures
        0 <= i < p.len(),
        p[i].nodes.contains(a),
        p[i].nodes.contains(b),
{
    assert(captured_node(s, a as int));
    assert(captured_node(s, b as int));
    let i = choose|i: int| 0 <= i < p.len() && #[trigger] p[i].nodes.contains(a);
    let j = choose|j: int| 0 <= j < p.len() && #[trigger] p[j].nodes.contains(b);
    lemma_reached_connected(s, seed, a as int, b as int);
    assert(i == j);
    i
}

/// Seeds that reach a common node end in one surface: if `a` is reachable
/// from two seeds, then `a`, and every node `b` reachable from either of
/// them, move into the same surface.
pub proof fn law_seeds_merge(
    s: SurfaceView,
    p: Seq<ExtractGroupView>,
    seed1: int,
    seed2: int,
    a: usize,
    b: usize,
) -> (i: int)
    requires
        is_extraction_plan(s, p),
        a < s.nodes.len(),
        b < s.nodes.len(),
        reachable_from(s, seed1, a as int),
        reachable_from(s, seed2, a as int),
        reachable_from(s, seed1, b as int) || reachable_from(s, seed2, b as int),
    ensures
        0 <= i < p.len(),
        p[i].nodes.contains(a),
        p[i].nodes.contains(b),
{
    if reachable_from(s, seed1, b as int) {
        law_reached_together(s, p, seed1, a, b)
    } else {
        law_reached_together(s, p, seed2, a, b)
    }
}

/// Extraction moves each node once at most: no node is in two clusters, a
/// node that is in one does not stay, a node that is in none does, and each
/// new surface holds the nodes of its cluster and no other, each doing what
/// it did before.
pub proof fn law_each_node_once(
    s: SurfaceView,
    p: Seq<ExtractGroupView>,
    first_id: u64,
    parent: SurfaceView,
    children: Seq<SurfaceView>,
)
    requires
        is_extraction_plan(s, p),
        extracted(s, p, first_id, parent, children),
    ensures
        forall|i: int, j: int, n: usize|
            0 <= i < p.len() && 0 <= j < p.len() && #[trigger] p[i].nodes.contains(n)
                && #[trigger] p[j].nodes.contains(n) ==> i == j,
        forall|n: int|
            0 <= n < s.nodes.len() ==> (#[trigger] staying(p, s.nodes.len()).contains(n)
                <==> !is_moved(p, n)),
        forall|i: int|
            0 <= i < p.len() ==> (#[trigger] children[i]).nodes.len() == p[i].nodes.len(),
        forall|i: int, r: int|
            0 <= i < p.len() && 0 <= r < p[i].nodes.len() ==> (#[trigger] children[i].nodes[r]).data
                == s.nodes[p[i].nodes[r] as int].data,
{
    assert forall|i: int, j: int, n: usize|
        0 <= i < p.len() && 0 <= j < p.len() && #[trigger] p[i].nodes.contains(n)
            && #[trigger] p[j].nodes.contains(n) implies i == j by {
        lemma_clusters_disjoint(s, p, i, j, n);
    }
    lemma_staying(p, s.nodes.len());
}

/// The node that stands for a cluster names only sockets that it has, and
/// instantiates the surface made of the cluster: each of its source and
/// destination sockets is the socket on a group of the cluster that feeds
/// the voices or collects from them.
pub proof fn law_link_is_in_order(
    s: SurfaceView,
    p: Seq<ExtractGroupView>,
    first_id: u64,
    parent: SurfaceView,
    children: Seq<SurfaceView>,
    i: int,
)
    requires
        s.groups.len() <= usize::MAX,
        is_extraction_plan(s, p),
        extracted(s, p, first_id, parent, children),
        0 <= i < p.len(),
    ensures
        ({
            let link = parent.nodes[remaining(s.nodes, p).len() + i];
            &&& link.data matches NodeDataView::ExtractGroup { surface, source_sockets, dest_sockets }
            &&& surface == children[i].id
            &&& source_sockets.len() == p[i].sources.len()
            &&& dest_sockets.len() == p[i].destinations.len()
            &&& forall|j: int|
                0 <= j < source_sockets.len() ==> (#[trigger] source_sockets[j])
                    < link.sockets.len() && link.sockets[source_sockets[j] as int].group_id
                    == p[i].sources[j]
            &&& forall|j: int|
                0 <= j < dest_sockets.len() ==> (#[trigger] dest_sockets[j]) < link.sockets.len()
                    && link.sockets[dest_sockets[j] as int].group_id == p[i].destinations[j]
        }),
{
    let x = p[i];
    assert(x.fits(s));
    let link = parent.nodes[remaining(s.nodes, p).len() + i];
    assert(link == link_nodes(s, p, children)[i]);
    crate::pass::search::lemma_distinct_bounded(x.value_groups, s.groups.len());
    assert forall|g: usize| x.value_groups.contains(g) implies 0 <= slot_of(x.value_groups, g)
        < x.value_groups.len() && x.value_groups[slot_of(x.value_groups, g)] == g by {
        let j = choose|j: int| 0 <= j < x.value_groups.len() && x.value_groups[j] == g;
    }
    match link.data {
        NodeDataView::ExtractGroup { surface, source_sockets, dest_sockets } => {
            assert forall|j: int| 0 <= j < source_sockets.len() implies (
            #[trigger] source_sockets[j]) < link.sockets.len()
                && link.sockets[source_sockets[j] as int].group_id == p[i].sources[j] by {
                assert(x.value_groups.contains(x.sources[j]));
            }
            assert forall|j: int| 0 <= j < dest_sockets.len() implies (#[trigger] dest_sockets[j])
                < link.sockets.len() && link.sockets[dest_sockets[j] as int].group_id
                == p[i].destinations[j] by {
                assert(x.value_groups.contains(x.destinations[j]));
            }
        },
        _ => {},
    }
}

} // verus!
