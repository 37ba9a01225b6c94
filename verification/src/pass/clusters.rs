//! Which nodes of a surface run once per voice, and which of them belong
//! together.
//!
//! An extractor socket is the seam where per-voice data enters or leaves the
//! surface; its group is a seed. A node that reads a per-voice group through
//! an ordinary socket has to run per voice itself, and then every group it is
//! wired to is per-voice too. Nodes wired to a common group must share their
//! voices, so they end up in the same cluster.

use crate::mir::SurfaceView;
use vstd::prelude::*;

verus! {

/// Socket `k` of node `n` is bound to group `g`.
pub open spec fn binds(s: SurfaceView, n: int, k: int, g: int) -> bool {
    s.has_socket(n, k) && s.nodes[n].sockets[k].group_id == g
}

/// Socket `k` of node `n` is an ordinary socket that reads group `g`.
pub open spec fn draws(s: SurfaceView, n: int, k: int, g: int) -> bool {
    binds(s, n, k, g) && !s.nodes[n].sockets[k].is_extractor && s.nodes[n].sockets[k].value_read
}

/// Socket `k` of node `n` is an extractor socket on group `g`.
pub open spec fn seeds(s: SurfaceView, n: int, k: int, g: int) -> bool {
    binds(s, n, k, g) && s.nodes[n].sockets[k].is_extractor
}

/// Node `n` has a socket on group `g`.
pub open spec fn touches(s: SurfaceView, n: int, g: int) -> bool {
    exists|k: int| binds(s, n, k, g)
}

/// Node `n` reads group `g` through an ordinary socket.
pub open spec fn reads(s: SurfaceView, n: int, g: int) -> bool {
    exists|k: int| draws(s, n, k, g)
}

/// Some extractor socket is bound to group `g`.
pub open spec fn is_seed(s: SurfaceView, g: int) -> bool {
    exists|n: int, k: int| seeds(s, n, k, g)
}

/// Some extractor socket writes group `g`: the group feeds the voices.
pub open spec fn is_source(s: SurfaceView, g: int) -> bool {
    exists|n: int, k: int| #[trigger] seeds(s, n, k, g) && s.nodes[n].sockets[k].value_written
}

/// Some extractor socket reads group `g`: the group collects from the voices.
pub open spec fn is_destination(s: SurfaceView, g: int) -> bool {
    exists|n: int, k: int| #[trigger] seeds(s, n, k, g) && s.nodes[n].sockets[k].value_read
}

/// Group `g` is `seed` itself, or is wired to a node reached from `seed` in
/// fewer than `d` rounds.
pub open spec fn group_reached(s: SurfaceView, seed: int, g: int, d: nat) -> bool
    decreases d, 0nat,
{
    g == seed || (d > 0 && exists|n: int|
        node_reached(s, seed, n, (d - 1) as nat) && touches(s, n, g))
}

/// Node `n` reads, through an ordinary socket, a group reached from `seed`
/// within `d` rounds.
pub open spec fn node_reached(s: SurfaceView, seed: int, n: int, d: nat) -> bool
    decreases d, 1nat,
{
    exists|g: int| group_reached(s, seed, g, d) && reads(s, n, g)
}

/// Node `n` is reachable from the seed group `seed`.
pub open spec fn reachable_from(s: SurfaceView, seed: int, n: int) -> bool {
    is_seed(s, seed) && exists|d: nat| node_reached(s, seed, n, d)
}

/// Node `n` has to run per voice.
pub open spec fn captured_node(s: SurfaceView, n: int) -> bool {
    exists|seed: int| reachable_from(s, seed, n)
}

/// Group `g` holds per-voice data.
pub open spec fn captured_group(s: SurfaceView, g: int) -> bool {
    exists|seed: int, d: nat| is_seed(s, seed) && group_reached(s, seed, g, d)
}

/// Two per-voice nodes are wired to a common group.
pub open spec fn adjacent(s: SurfaceView, a: int, b: int) -> bool {
    captured_node(s, a) && captured_node(s, b) && exists|g: int|
        touches(s, a, g) && touches(s, b, g)
}

/// A chain of `d` adjacent pairs leads from `a` to `b`.
pub open spec fn linked(s: SurfaceView, a: int, b: int, d: nat) -> bool
    decreases d,
{
    if d == 0 {
        a == b
    } else {
        exists|m: int| linked(s, a, m, (d - 1) as nat) && adjacent(s, m, b)
    }
}

/// Nodes `a` and `b` have to share their voices.
pub open spec fn connected(s: SurfaceView, a: int, b: int) -> bool {
    exists|d: nat| linked(s, a, b, d)
}

/// A seed group holds per-voice data.
pub proof fn lemma_seed_captured(s: SurfaceView, g: int)
    requires
        is_seed(s, g),
    ensures
        captured_group(s, g),
{
    assert(group_reached(s, g, g, 0));
}

/// Whoever reads a per-voice group through an ordinary socket runs per voice.
pub proof fn lemma_reader_captured(s: SurfaceView, n: int, g: int)
    requires
        captured_group(s, g),
        reads(s, n, g),
    ensures
        captured_node(s, n),
{
    let (seed, d) = choose|seed: int, d: nat| is_seed(s, seed) && group_reached(s, seed, g, d);
    assert(node_reached(s, seed, n, d));
    assert(reachable_from(s, seed, n));
}

/// Every group wired to a per-voice node holds per-voice data.
pub proof fn lemma_touched_captured(s: SurfaceView, n: int, g: int)
    requires
        captured_node(s, n),
        touches(s, n, g),
    ensures
        captured_group(s, g),
{
    let seed = choose|seed: int| reachable_from(s, seed, n);
    let d = choose|d: nat| node_reached(s, seed, n, d);
    assert(group_reached(s, seed, g, d + 1));
}

pub proof fn lemma_connected_refl(s: SurfaceView, a: int)
    ensures
        connected(s, a, a),
{
    assert(linked(s, a, a, 0));
}

pub proof fn lemma_adjacent_connected(s: SurfaceView, a: int, b: int)
    requires
        adjacent(s, a, b),
    ensures
        connected(s, a, b),
{
    assert(linked(s, a, a, 0));
    assert(linked(s, a, b, 1));
}

proof fn lemma_linked_trans(s: SurfaceView, a: int, b: int, c: int, d1: nat, d2: nat)
    requires
        linked(s, a, b, d1),
        linked(s, b, c, d2),
    ensures
        linked(s, a, c, d1 + d2),
    decreases d2,
{
    if d2 > 0 {
        let m = choose|m: int| linked(s, b, m, (d2 - 1) as nat) && adjacent(s, m, c);
        lemma_linked_trans(s, a, b, m, d1, (d2 - 1) as nat);
        assert(linked(s, a, m, (d1 + d2 - 1) as nat));
    }
}

proof fn lemma_linked_sym(s: SurfaceView, a: int, b: int, d: nat)
    requires
        linked(s, a, b, d),
    ensures
        linked(s, b, a, d),
    decreases d,
{
    if d > 0 {
        let m = choose|m: int| linked(s, a, m, (d - 1) as nat) && adjacent(s, m, b);
        lemma_linked_sym(s, a, m, (d - 1) as nat);
        assert(adjacent(s, b, m));
        assert(linked(s, b, b, 0));
        assert(linked(s, b, m, 1));
        lemma_linked_trans(s, b, m, a, 1, (d - 1) as nat);
    }
}

pub proof fn lemma_connected_sym(s: SurfaceView, a: int, b: int)
    requires
        connected(s, a, b),
    ensures
        connected(s, b, a),
{
    let d = choose|d: nat| linked(s, a, b, d);
    lemma_linked_sym(s, a, b, d);
}

pub proof fn lemma_connected_trans(s: SurfaceView, a: int, b: int, c: int)
    requires
        connected(s, a, b),
        connected(s, b, c),
    ensures
        connected(s, a, c),
{
    let d1 = choose|d: nat| linked(s, a, b, d);
    let d2 = choose|d: nat| linked(s, b, c, d);
    lemma_linked_trans(s, a, b, c, d1, d2);
}

/// Whatever is reached from a seed is reached through a node that reads
/// the seed itself.
proof fn lemma_first_reader(s: SurfaceView, seed: int, n: int, d: nat) -> (first: int)
    requires
        node_reached(s, seed, n, d),
    ensures
        reads(s, first, seed),
    decreases d,
{
    let g = choose|g: int| group_reached(s, seed, g, d) && reads(s, n, g);
    if g == seed {
        n
    } else {
        let m = choose|m: int| node_reached(s, seed, m, (d - 1) as nat) && touches(s, m, g);
        lemma_first_reader(s, seed, m, (d - 1) as nat)
    }
}

/// Whatever is reached from a seed has to share its voices with the nodes
/// that read the seed itself.
proof fn lemma_reached_from_first(s: SurfaceView, seed: int, first: int, d: nat)
    requires
        is_seed(s, seed),
        reads(s, first, seed),
    ensures
        forall|n: int| #[trigger] node_reached(s, seed, n, d) ==> connected(s, first, n),
        forall|g: int| #[trigger]
            group_reached(s, seed, g, d) ==> g == seed || exists|m: int|
                connected(s, first, m) && captured_node(s, m) && touches(s, m, g),
    decreases d,
{
    if d > 0 {
        lemma_reached_from_first(s, seed, first, (d - 1) as nat);
    }
    let k0 = choose|k: int| draws(s, first, k, seed);
    assert(binds(s, first, k0, seed));
    assert(touches(s, first, seed));
    assert(group_reached(s, seed, seed, 0));
    assert(node_reached(s, seed, first, 0));
    assert(reachable_from(s, seed, first));
    assert forall|g: int| #[trigger] group_reached(s, seed, g, d) implies g == seed || exists|
        m: int,
    | connected(s, first, m) && captured_node(s, m) && touches(s, m, g) by {
        if g != seed {
            let m = choose|m: int| node_reached(s, seed, m, (d - 1) as nat) && touches(s, m, g);
            assert(reachable_from(s, seed, m));
            assert(connected(s, first, m) && captured_node(s, m) && touches(s, m, g));
        }
    }
    assert forall|n: int| #[trigger] node_reached(s, seed, n, d) implies connected(
        s,
        first,
        n,
    ) by {
        let g = choose|g: int| group_reached(s, seed, g, d) && reads(s, n, g);
        let k = choose|k: int| draws(s, n, k, g);
        assert(binds(s, n, k, g));
        assert(touches(s, n, g));
        assert(reachable_from(s, seed, n));
        if g == seed {
            assert(adjacent(s, first, n));
            lemma_adjacent_connected(s, first, n);
        } else {
            let m = choose|m: int|
                connected(s, first, m) && captured_node(s, m) && touches(s, m, g);
            assert(adjacent(s, m, n));
            lemma_adjacent_connected(s, m, n);
            lemma_connected_trans(s, first, m, n);
        }
    }
}

/// Two nodes reachable from one seed have to share their voices.
pub proof fn lemma_reached_connected(s: SurfaceView, seed: int, a: int, b: int)
    requires
        reachable_from(s, seed, a),
        reachable_from(s, seed, b),
    ensures
        connected(s, a, b),
{
    let da = choose|d: nat| node_reached(s, seed, a, d);
    let db = choose|d: nat| node_reached(s, seed, b, d);
    let first = lemma_first_reader(s, seed, a, da);
    lemma_reached_from_first(s, seed, first, da);
    lemma_reached_from_first(s, seed, first, db);
    lemma_connected_sym(s, first, a);
    lemma_connected_trans(s, a, first, b);
}

} // verus!
