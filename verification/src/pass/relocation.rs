//! What moving clusters out of a surface leaves behind and brings forth.

use crate::mir::{
    NodeDataView, NodeView, SurfaceIdView, SurfaceView, ValueGroupSource, ValueGroupView,
    ValueSocket,
};
use crate::pass::clusters::{binds, lemma_connected_refl, touches};
use crate::pass::group_extracted::{is_extraction_plan, strictly_increasing, ExtractGroupView};
use crate::text::decimal;
use vstd::prelude::*;

verus! {

/// Where `g` stands in `list`.
pub open spec fn slot_of(list: Seq<usize>, g: usize) -> int {
    choose|j: int| 0 <= j < list.len() && list[j] == g
}

/// The socket as it is after the move: bound to the group of the new surface
/// that stands for its old group.
pub open spec fn moved_socket(socket: ValueSocket, value_groups: Seq<usize>) -> ValueSocket {
    ValueSocket { group_id: slot_of(value_groups, socket.group_id) as usize, ..socket }
}

/// The node as it is after the move.
pub open spec fn moved_node(node: NodeView, value_groups: Seq<usize>) -> NodeView {
    NodeView {
        sockets: node.sockets.map_values(|socket: ValueSocket| moved_socket(socket, value_groups)),
        data: node.data,
    }
}

/// The name of the surface made of cluster number `ordinal` of a surface.
pub open spec fn extracted_name(parent: Seq<char>, ordinal: nat) -> Seq<char> {
    parent + ".extracted"@ + decimal(ordinal)
}

/// The surface made of cluster `x` of `s`. It has one group for each group
/// of the cluster, in the same order, of the type that one voice sees, and
/// the nodes of the cluster, in the same order.
pub open spec fn child_surface(
    s: SurfaceView,
    x: ExtractGroupView,
    ordinal: nat,
    id: u64,
) -> SurfaceView {
    SurfaceView {
        id: SurfaceIdView { id, debug_name: extracted_name(s.id.debug_name, ordinal) },
        groups: Seq::new(
            x.value_groups.len(),
            |j: int|
                ValueGroupView {
                    value_type: s.groups[x.value_groups[j] as int].value_type.element(),
                    source: ValueGroupSource::Socket(j as usize),
                },
        ),
        nodes: Seq::new(
            x.nodes.len(),
            |r: int| moved_node(s.nodes[x.nodes[r] as int], x.value_groups),
        ),
    }
}

/// Some socket of the node writes group `g`.
pub open spec fn node_writes(node: NodeView, g: usize) -> bool {
    exists|k: int|
        0 <= k < node.sockets.len() && (#[trigger] node.sockets[k]).group_id == g
            && node.sockets[k].value_written
}

/// Some socket of the node reads group `g`.
pub open spec fn node_reads(node: NodeView, g: usize) -> bool {
    exists|k: int|
        0 <= k < node.sockets.len() && (#[trigger] node.sockets[k]).group_id == g
            && node.sockets[k].value_read
}

/// One of the first `r` nodes of the cluster writes group `g`.
pub open spec fn written_by_first(s: SurfaceView, x: ExtractGroupView, g: usize, r: int) -> bool {
    exists|i: int| 0 <= i < r && node_writes(s.nodes[#[trigger] x.nodes[i] as int], g)
}

/// One of the first `r` nodes of the cluster reads group `g`.
pub open spec fn read_by_first(s: SurfaceView, x: ExtractGroupView, g: usize, r: int) -> bool {
    exists|i: int| 0 <= i < r && node_reads(s.nodes[#[trigger] x.nodes[i] as int], g)
}

/// The sockets of the node that stands for cluster `x` in `s`: one for each
/// group of the cluster, in the same order, which writes or reads the group
/// if a socket of the cluster does.
pub open spec fn link_sockets(s: SurfaceView, x: ExtractGroupView) -> Seq<ValueSocket> {
    Seq::new(
        x.value_groups.len(),
        |j: int|
            ValueSocket {
                group_id: x.value_groups[j],
                value_written: written_by_first(s, x, x.value_groups[j], x.nodes.len() as int),
                value_read: read_by_first(s, x, x.value_groups[j], x.nodes.len() as int),
                is_extractor: false,
            },
    )
}

/// The node that stands for cluster `x` in `s` once the cluster is the
/// surface `child`. Of its sockets it names those that feed the voices and
/// those that collect from them.
pub open spec fn link_node(s: SurfaceView, x: ExtractGroupView, child: SurfaceIdView) -> NodeView {
    NodeView {
        sockets: link_sockets(s, x),
        data: NodeDataView::ExtractGroup {
            surface: child,
            source_sockets: x.sources.map_values(|g: usize| slot_of(x.value_groups, g) as usize),
            dest_sockets: x.destinations.map_values(
                |g: usize| slot_of(x.value_groups, g) as usize,
            ),
        },
    }
}

/// Node `n` is in one of the clusters.
pub open spec fn is_moved(p: Seq<ExtractGroupView>, n: int) -> bool {
    exists|i: int, r: int|
        0 <= i < p.len() && 0 <= r < p[i].nodes.len() && (#[trigger] p[i].nodes[r]) == n
}

/// The nodes that are in one of the clusters.
pub open spec fn moved_nodes(p: Seq<ExtractGroupView>) -> Set<int> {
    Set::new(|n: int| is_moved(p, n))
}

/// Of the first `count` nodes, the indices of those that are in no cluster.
pub open spec fn staying(p: Seq<ExtractGroupView>, count: nat) -> Seq<int>
    decreases count,
{
    if count == 0 {
        Seq::empty()
    } else if is_moved(p, count - 1) {
        staying(p, (count - 1) as nat)
    } else {
        staying(p, (count - 1) as nat).push(count - 1)
    }
}

/// The nodes that are in no cluster, in their order.
pub open spec fn remaining(nodes: Seq<NodeView>, p: Seq<ExtractGroupView>) -> Seq<NodeView> {
    staying(p, nodes.len()).map_values(|n: int| nodes[n])
}

/// The nodes that stand for the clusters, one each, in the order of the
/// clusters.
pub open spec fn link_nodes(
    s: SurfaceView,
    p: Seq<ExtractGroupView>,
    children: Seq<SurfaceView>,
) -> Seq<NodeView> {
    Seq::new(p.len(), |i: int| link_node(s, p[i], children[i].id))
}

/// `parent` and `children` are what becomes of `s` when the clusters `p`
/// move out, the surfaces numbered from `first_id` on: each cluster is a
/// surface of its own, and in the parent the nodes that stay are followed by
/// one node for each cluster. The groups of the parent stay as they are.
pub open spec fn extracted(
    s: SurfaceView,
    p: Seq<ExtractGroupView>,
    first_id: u64,
    parent: SurfaceView,
    children: Seq<SurfaceView>,
) -> bool {
    &&& children.len() == p.len()
    &&& forall|i: int|
        0 <= i < p.len() ==> #[trigger] children[i] == child_surface(
            s,
            p[i],
            i as nat,
            (first_id + i) as u64,
        )
    &&& parent.id == s.id
    &&& parent.groups == s.groups
    &&& parent.nodes == remaining(s.nodes, p) + link_nodes(s, p, children)
}

/// What `staying` holds: in increasing order, the indices below `count` of
/// the nodes that are in no cluster.
pub proof fn lemma_staying(p: Seq<ExtractGroupView>, count: nat)
    ensures
        forall|i: int, j: int|
            0 <= i < j < staying(p, count).len() ==> staying(p, count)[i] < staying(p, count)[j],
        forall|n: int| #[trigger]
            staying(p, count).contains(n) <==> 0 <= n < count && !is_moved(p, n),
    decreases count,
{
    if count > 0 {
        lemma_staying(p, (count - 1) as nat);
        let rest = staying(p, (count - 1) as nat);
        let all = staying(p, count);
        assert forall|n: int| #[trigger] all.contains(n) <==> 0 <= n < count && !is_moved(
            p,
            n,
        ) by {
            if !is_moved(p, count - 1) {
                if rest.contains(n) {
                    let j = choose|j: int| 0 <= j < rest.len() && rest[j] == n;
                    assert(all[j] == n);
                }
                assert(all[rest.len() as int] == count - 1);
                if all.contains(n) {
                    let j = choose|j: int| 0 <= j < all.len() && all[j] == n;
                    if j < rest.len() {
                        assert(rest[j] == n);
                    }
                }
            }
        }
        assert forall|i: int, j: int| 0 <= i < j < all.len() implies all[i] < all[j] by {
            if j == rest.len() {
                assert(rest.contains(rest[i]));
            }
        }
    }
}

/// Two increasing lists that hold the same numbers are the same list.
pub proof fn lemma_same_increasing(a: Seq<int>, b: Seq<int>)
    requires
        forall|i: int, j: int| 0 <= i < j < a.len() ==> a[i] < a[j],
        forall|i: int, j: int| 0 <= i < j < b.len() ==> b[i] < b[j],
        forall|n: int| a.contains(n) <==> b.contains(n),
    ensures
        a == b,
    decreases a.len(),
{
    if a.len() == 0 {
        if b.len() > 0 {
            assert(b.contains(b[0]));
        }
        assert(a =~= b);
    } else {
        assert(a.contains(a.last()));
        assert(b.contains(a.last()));
        assert(b.contains(b.last()));
        assert(a.contains(b.last()));
        assert(a.last() == b.last());
        let a1 = a.drop_last();
        let b1 = b.drop_last();
        assert forall|n: int| a1.contains(n) <==> b1.contains(n) by {
            if a1.contains(n) {
                let i = choose|i: int| 0 <= i < a1.len() && a1[i] == n;
                assert(a[i] == n);
                assert(a.contains(n));
                let j = choose|j: int| 0 <= j < b.len() && b[j] == n;
                assert(j < b.len() - 1);
                assert(b1[j] == n);
            }
            if b1.contains(n) {
                let i = choose|i: int| 0 <= i < b1.len() && b1[i] == n;
                assert(b[i] == n);
                assert(b.contains(n));
                let j = choose|j: int| 0 <= j < a.len() && a[j] == n;
                assert(j < a.len() - 1);
                assert(a1[j] == n);
            }
        }
        lemma_same_increasing(a1, b1);
        assert(a =~= a1.push(a.last()));
        assert(b =~= b1.push(b.last()));
    }
}

/// What holds between a surface `now`, out of which clusters are being
/// moved, and the surface `s` it was: of the nodes of `s`, those in `gone`
/// have left, and the others are the first nodes of `now`, in their order;
/// `origin` lists where in `s` each of them stood.
pub open spec fn tracks(
    s: SurfaceView,
    gone: Set<int>,
    origin: Seq<usize>,
    now: SurfaceView,
) -> bool {
    &&& now.id == s.id
    &&& now.groups == s.groups
    &&& strictly_increasing(origin)
    &&& origin.len() <= now.nodes.len()
    &&& forall|j: int|
        0 <= j < origin.len() ==> (#[trigger] origin[j]) < s.nodes.len() && now.nodes[j]
            == s.nodes[origin[j] as int]
    &&& forall|n: usize|
        n < s.nodes.len() ==> (#[trigger] origin.contains(n) <==> !gone.contains(n as int))
}

/// `gone`, and the first `count` nodes of cluster `x`.
pub open spec fn gone_with_first(gone: Set<int>, x: ExtractGroupView, count: int) -> Set<int> {
    Set::new(
        |n: int|
            gone.contains(n) || exists|r: int| 0 <= r < count && #[trigger] x.nodes[r] == n,
    )
}

/// `gone`, and the nodes of cluster `x`.
pub open spec fn gone_with(gone: Set<int>, x: ExtractGroupView) -> Set<int> {
    gone_with_first(gone, x, x.nodes.len() as int)
}

/// Once every cluster of `p` has left, the nodes that `tracks` speaks of
/// are the remaining ones.
pub proof fn lemma_tracked_remaining(
    s: SurfaceView,
    p: Seq<ExtractGroupView>,
    gone: Set<int>,
    origin: Seq<usize>,
    now: SurfaceView,
)
    requires
        s.nodes.len() <= usize::MAX,
        tracks(s, gone, origin, now),
        forall|n: int| 0 <= n < s.nodes.len() ==> (gone.contains(n) <==> is_moved(p, n)),
    ensures
        now.nodes.subrange(0, origin.len() as int) == remaining(s.nodes, p),
{
    let stay = staying(p, s.nodes.len());
    let here = origin.map_values(|n: usize| n as int);
    lemma_staying(p, s.nodes.len());
    assert forall|n: int| here.contains(n) <==> stay.contains(n) by {
        if here.contains(n) {
            let j = choose|j: int| 0 <= j < here.len() && here[j] == n;
            assert(origin[j] == n);
            assert(origin.contains(n as usize));
        }
        if stay.contains(n) {
            assert(origin.contains(n as usize));
            let j = choose|j: int| 0 <= j < origin.len() && origin[j] == n as usize;
            assert(here[j] == n);
        }
    }
    lemma_same_increasing(here, stay);
    assert(now.nodes.subrange(0, origin.len() as int) =~= remaining(s.nodes, p)) by {
        assert forall|j: int| 0 <= j < origin.len() implies now.nodes[j] == remaining(
            s.nodes,
            p,
        )[j] by {
            assert(here[j] == origin[j]);
        }
    }
}

/// No node is in two clusters of a plan.
pub proof fn lemma_clusters_disjoint(
    s: SurfaceView,
    p: Seq<ExtractGroupView>,
    i: int,
    j: int,
    n: usize,
)
    requires
        is_extraction_plan(s, p),
        0 <= i < p.len(),
        0 <= j < p.len(),
        p[i].nodes.contains(n),
        p[j].nodes.contains(n),
    ensures
        i == j,
{
    lemma_connected_refl(s, n as int);
}

/// A plan has at most as many clusters as the surface has nodes.
pub proof fn lemma_plan_size(s: SurfaceView, p: Seq<ExtractGroupView>)
    requires
        is_extraction_plan(s, p),
    ensures
        p.len() <= s.nodes.len(),
{
    let firsts = Seq::new(p.len(), |i: int| p[i].nodes[0]);
    assert forall|i: int, j: int| 0 <= i < firsts.len() && 0 <= j < firsts.len() && i
        != j implies firsts[i] != firsts[j] by {
        assert(p[i].fits(s));
        assert(p[j].fits(s));
        assert(p[i].nodes.contains(p[i].nodes[0]));
        assert(p[j].nodes.contains(p[j].nodes[0]));
        if firsts[i] == firsts[j] {
            lemma_clusters_disjoint(s, p, i, j, firsts[i]);
        }
    }
    assert forall|i: int| 0 <= i < firsts.len() implies firsts[i] < s.nodes.len() by {
        assert(p[i].fits(s));
    }
    crate::pass::search::lemma_distinct_bounded(firsts, s.nodes.len());
}

/// Once the first `i` clusters have left and cluster `i` leaves, the first
/// `i + 1` clusters have left.
pub proof fn lemma_next_gone(p: Seq<ExtractGroupView>, i: int)
    requires
        0 <= i < p.len(),
    ensures
        gone_with(moved_nodes(p.take(i)), p[i]) == moved_nodes(p.take(i + 1)),
{
    let a = gone_with(moved_nodes(p.take(i)), p[i]);
    let b = moved_nodes(p.take(i + 1));
    assert forall|n: int| a.contains(n) <==> b.contains(n) by {
        if is_moved(p.take(i), n) {
            let (j, r) = choose|j: int, r: int|
                0 <= j < p.take(i).len() && 0 <= r < p.take(i)[j].nodes.len() && (
                #[trigger] p.take(i)[j].nodes[r]) == n;
            assert(p.take(i + 1)[j].nodes[r] == n);
        }
        if exists|r: int| 0 <= r < p[i].nodes.len() && #[trigger] p[i].nodes[r] == n {
            let r = choose|r: int| 0 <= r < p[i].nodes.len() && #[trigger] p[i].nodes[r] == n;
            assert(p.take(i + 1)[i].nodes[r] == n);
        }
        if is_moved(p.take(i + 1), n) {
            let (j, r) = choose|j: int, r: int|
                0 <= j < p.take(i + 1).len() && 0 <= r < p.take(i + 1)[j].nodes.len() && (
                #[trigger] p.take(i + 1)[j].nodes[r]) == n;
            if j < i {
                assert(p.take(i)[j].nodes[r] == n);
            } else {
                assert(p[i].nodes[r] == n);
            }
        }
    }
    assert(a =~= b);
}

/// A surface whose sockets all name groups it has stays such a surface
/// when clusters move out, and each cluster becomes one.
pub proof fn lemma_extracted_well_formed(
    s: SurfaceView,
    p: Seq<ExtractGroupView>,
    first_id: u64,
    parent: SurfaceView,
    children: Seq<SurfaceView>,
)
    requires
        s.well_formed(),
        is_extraction_plan(s, p),
        extracted(s, p, first_id, parent, children),
    ensures
        parent.well_formed(),
        forall|i: int| 0 <= i < children.len() ==> (#[trigger] children[i]).well_formed(),
{
    let rest = remaining(s.nodes, p);
    let links = link_nodes(s, p, children);
    lemma_staying(p, s.nodes.len());
    assert forall|n: int, k: int| #[trigger] parent.has_socket(n, k) implies parent.nodes[n].sockets[k].group_id
        < parent.groups.len() by {
        if n < rest.len() {
            let m = staying(p, s.nodes.len())[n];
            assert(staying(p, s.nodes.len()).contains(m));
            assert(parent.nodes[n] == s.nodes[m]);
            assert(s.has_socket(m, k));
        } else {
            let i = n - rest.len();
            assert(parent.nodes[n] == links[i]);
            assert(p[i].fits(s));
        }
    }
    assert forall|i: int| 0 <= i < children.len() implies (#[trigger] children[i]).well_formed() by {
        let c = children[i];
        let x = p[i];
        assert(x.fits(s));
        assert forall|r: int, k: int| #[trigger] c.has_socket(r, k) implies c.nodes[r].sockets[k].group_id
            < c.groups.len() by {
            let n = x.nodes[r];
            let g = s.nodes[n as int].sockets[k].group_id;
            assert(x.nodes.contains(n));
            assert(binds(s, n as int, k, g as int));
            assert(touches(s, n as int, g as int));
            assert(x.nodes.contains(n) && touches(s, n as int, g as int));
            assert(x.value_groups.contains(g));
        }
    }
}

} // verus!
