//! The state of a search for clusters, as plain values, and what holds of it
//! from step to step.

use crate::mir::SurfaceView;
use crate::pass::clusters::{
    adjacent, binds, captured_group, captured_node, connected, draws, is_destination, is_seed,
    is_source, lemma_adjacent_connected, lemma_connected_refl, lemma_connected_sym,
    lemma_connected_trans, lemma_reader_captured, lemma_seed_captured, lemma_touched_captured,
    reads, seeds, touches,
};
use crate::pass::clusters::{group_reached, linked, node_reached, reachable_from};
use crate::pass::group_extracted::{
    is_extraction_plan, strictly_increasing, ExtractGroupView, ValueGroupRef, ValueSocketRef,
};
use vstd::prelude::*;

verus! {

/// Every entry of `table` that names `src` names `dest` instead.
pub open spec fn remapped(table: Seq<Option<usize>>, src: usize, dest: usize) -> Seq<
    Option<usize>,
> {
    Seq::new(
        table.len(),
        |i: int|
            if table[i] == Some(src) {
                Some(dest)
            } else {
                table[i]
            },
    )
}

/// `v`, and `x` after it unless `v` holds `x` already.
pub open spec fn noted(v: Seq<usize>, x: usize) -> Seq<usize> {
    if v.contains(x) {
        v
    } else {
        v.push(x)
    }
}

/// A table entry as a number: the owner, or -1 where there is none.
pub open spec fn owner(entry: Option<usize>) -> int {
    match entry {
        Some(c) => c as int,
        None => -1,
    }
}

/// Socket `(n, k)` comes before socket `(n0, k0)` in the order in which the
/// search looks at the sockets of a surface.
pub open spec fn before(n: int, k: int, n0: int, k0: int) -> bool {
    n < n0 || (n == n0 && k < k0)
}

pub open spec fn seeded_before(s: SurfaceView, g: int, n0: int, k0: int) -> bool {
    exists|n: int, k: int| #[trigger] seeds(s, n, k, g) && before(n, k, n0, k0)
}

pub open spec fn source_before(s: SurfaceView, g: int, n0: int, k0: int) -> bool {
    exists|n: int, k: int|
        #[trigger] seeds(s, n, k, g) && s.nodes[n].sockets[k].value_written && before(
            n,
            k,
            n0,
            k0,
        )
}

pub open spec fn destination_before(s: SurfaceView, g: int, n0: int, k0: int) -> bool {
    exists|n: int, k: int|
        #[trigger] seeds(s, n, k, g) && s.nodes[n].sockets[k].value_read && before(n, k, n0, k0)
}

/// The state of a search, as plain values.
pub struct Search {
    pub clusters: Seq<ExtractGroupView>,
    pub index: Seq<Seq<ValueSocketRef>>,
    pub queue: Seq<ValueGroupRef>,
    pub group_owner: Seq<Option<usize>>,
    pub node_owner: Seq<Option<usize>>,
}

impl Search {
    pub open spec fn group_of(self, g: int) -> int {
        owner(self.group_owner[g])
    }

    pub open spec fn node_of(self, n: int) -> int {
        owner(self.node_owner[n])
    }

    /// The tables have an entry for every group and node, and name only
    /// clusters that exist.
    pub open spec fn shaped(self, s: SurfaceView) -> bool {
        &&& s.groups.len() <= usize::MAX
        &&& s.nodes.len() <= usize::MAX
        &&& self.clusters.len() <= usize::MAX
        &&& forall|n: int|
            0 <= n < s.nodes.len() ==> (#[trigger] s.nodes[n]).sockets.len() <= usize::MAX
        &&& self.group_owner.len() == s.groups.len()
        &&& self.node_owner.len() == s.nodes.len()
        &&& self.index.len() == s.groups.len()
        &&& forall|g: int|
            0 <= g < s.groups.len() ==> #[trigger] self.group_of(g) < self.clusters.len()
        &&& forall|n: int|
            0 <= n < s.nodes.len() ==> #[trigger] self.node_of(n) < self.clusters.len()
    }

    /// The index holds, for each group, sockets bound to it, and among them
    /// every such socket before `(n0, k0)`.
    pub open spec fn indexed(self, s: SurfaceView, n0: int, k0: int) -> bool {
        &&& forall|g: int, j: int|
            0 <= g < self.index.len() && 0 <= j < self.index[g].len() ==> binds(
                s,
                (#[trigger] self.index[g][j]).0 as int,
                self.index[g][j].1 as int,
                g,
            )
        &&& forall|n: int, k: int, g: int| #[trigger]
            binds(s, n, k, g) && before(n, k, n0, k0) ==> self.index[g].contains(
                (n as usize, k as usize),
            )
    }

    /// The state while the sockets are looked at for the first time: the
    /// groups with an extractor socket before `(n0, k0)` have a cluster each
    /// and wait in the queue, and no node has one.
    pub open spec fn seeding(self, s: SurfaceView, n0: int, k0: int) -> bool {
        &&& self.shaped(s)
        &&& self.indexed(s, n0, k0)
        &&& forall|n: int| 0 <= n < s.nodes.len() ==> #[trigger] self.node_of(n) == -1
        &&& forall|g: int|
            0 <= g < s.groups.len() ==> (#[trigger] self.group_of(g) >= 0 <==> seeded_before(
                s,
                g,
                n0,
                k0,
            ))
        &&& forall|g1: int, g2: int|
            0 <= g1 < s.groups.len() && 0 <= g2 < s.groups.len() && #[trigger] self.group_of(g1)
                == #[trigger] self.group_of(g2) && self.group_of(g1) >= 0 ==> g1 == g2
        &&& self.queue.no_duplicates()
        &&& forall|g: usize| #[trigger]
            self.queue.contains(g) <==> g < s.groups.len() && self.group_of(g as int) >= 0
        &&& forall|c: int|
            0 <= c < self.clusters.len() ==> {
                &&& (#[trigger] self.clusters[c]).nodes.len() == 0
                &&& self.clusters[c].value_groups.len() == 0
                &&& self.clusters[c].sources.no_duplicates()
                &&& self.clusters[c].destinations.no_duplicates()
            }
        &&& forall|c: int, g: usize|
            0 <= c < self.clusters.len() ==> (#[trigger] self.clusters[c].sources.contains(g) <==> g
                < s.groups.len() && self.group_of(g as int) == c && source_before(
                s,
                g as int,
                n0,
                k0,
            ))
        &&& forall|c: int, g: usize|
            0 <= c < self.clusters.len() ==> (#[trigger] self.clusters[c].destinations.contains(g)
                <==> g < s.groups.len() && self.group_of(g as int) == c && destination_before(
                s,
                g as int,
                n0,
                k0,
            ))
    }

    /// The lists of cluster `c` hold what the tables say it owns: its
    /// nodes, those of its groups that the search has taken from the queue,
    /// and of its groups those that feed and those that collect.
    pub open spec fn mirrors(self, s: SurfaceView, c: int) -> bool {
        let x = self.clusters[c];
        &&& x.nodes.no_duplicates()
        &&& forall|n: usize| #[trigger]
            x.nodes.contains(n) <==> n < s.nodes.len() && self.node_of(n as int) == c
        &&& x.value_groups.no_duplicates()
        &&& forall|g: usize| #[trigger]
            x.value_groups.contains(g) <==> g < s.groups.len() && self.group_of(g as int) == c
                && !self.queue.contains(g)
        &&& x.sources.no_duplicates()
        &&& forall|g: usize| #[trigger]
            x.sources.contains(g) <==> g < s.groups.len() && self.group_of(g as int) == c
                && is_source(s, g as int)
        &&& x.destinations.no_duplicates()
        &&& forall|g: usize| #[trigger]
            x.destinations.contains(g) <==> g < s.groups.len() && self.group_of(g as int) == c
                && is_destination(s, g as int)
    }

    /// Some node of the cluster of group `g` is wired to `g`.
    pub open spec fn anchored(self, s: SurfaceView, g: int) -> bool {
        exists|n: int|
            0 <= n < s.nodes.len() && #[trigger] self.node_of(n) == self.group_of(g) && touches(
                s,
                n,
                g,
            )
    }

    /// The tables and the lists agree, and the queue holds owned groups,
    /// each once. Group `cur` is the one being looked at (-1: none).
    pub open spec fn ledger(self, s: SurfaceView, cur: int) -> bool {
        &&& self.shaped(s)
        &&& self.indexed(s, s.nodes.len() as int, 0)
        &&& cur == -1 || (0 <= cur < s.groups.len() && self.group_of(cur) >= 0)
        &&& forall|c: int| 0 <= c < self.clusters.len() ==> #[trigger] self.mirrors(s, c)
        &&& self.queue.no_duplicates()
        &&& forall|g: usize| #[trigger]
            self.queue.contains(g) ==> g < s.groups.len() && self.group_of(g as int) >= 0 && g
                != cur
    }

    /// Every seed has a cluster, and only per-voice groups and nodes have one.
    pub open spec fn sound(self, s: SurfaceView) -> bool {
        &&& forall|g: int|
            0 <= g < s.groups.len() && is_seed(s, g) ==> #[trigger] self.group_of(g) >= 0
        &&& forall|g: int|
            0 <= g < s.groups.len() && #[trigger] self.group_of(g) >= 0 ==> captured_group(s, g)
        &&& forall|n: int|
            0 <= n < s.nodes.len() && #[trigger] self.node_of(n) >= 0 ==> captured_node(s, n)
    }

    /// Whoever reads a group that the search is through with has a cluster,
    /// and the groups of a node with a cluster are in that cluster. Node
    /// `busy` is the one being claimed (-1: none): of its sockets only the
    /// first `done` are dealt with.
    pub open spec fn closed_off(self, s: SurfaceView, cur: int, busy: int, done: int) -> bool {
        &&& forall|n: int, k: int, g: int| #[trigger]
            draws(s, n, k, g) && self.group_of(g) >= 0 && !self.queue.contains(g as usize) && g
                != cur ==> self.node_of(n) >= 0
        &&& forall|n: int, k: int| #[trigger]
            s.has_socket(n, k) && self.node_of(n) >= 0 && (n != busy || k < done) ==> self.group_of(
                s.nodes[n].sockets[k].group_id as int,
            ) == self.node_of(n)
    }

    /// A cluster with nodes has, for each of its groups, a node wired to it;
    /// a cluster without nodes has one group at most.
    pub open spec fn anchors(self, s: SurfaceView) -> bool {
        &&& forall|g: int|
            0 <= g < s.groups.len() && #[trigger] self.group_of(g) >= 0 ==> self.clusters[self.group_of(
                g,
            )].nodes.len() == 0 || self.anchored(s, g)
        &&& forall|g1: int, g2: int|
            0 <= g1 < s.groups.len() && 0 <= g2 < s.groups.len() && #[trigger] self.group_of(g1)
                == #[trigger] self.group_of(g2) && self.group_of(g1) >= 0
                && self.clusters[self.group_of(g1)].nodes.len() == 0 ==> g1 == g2
    }

    /// The nodes of a cluster have to share their voices.
    pub open spec fn knit(self, s: SurfaceView) -> bool {
        forall|n: int, m: int|
            0 <= n < s.nodes.len() && 0 <= m < s.nodes.len() && #[trigger] self.node_of(n)
                == #[trigger] self.node_of(m) && self.node_of(n) >= 0 ==> connected(s, n, m)
    }

    /// The state while the search spreads from the queued groups.
    pub closed spec fn tracing(self, s: SurfaceView, cur: int, busy: int, done: int) -> bool {
        &&& self.ledger(s, cur)
        &&& self.sound(s)
        &&& self.closed_off(s, cur, busy, done)
        &&& self.anchors(s)
        &&& self.knit(s)
    }

    /// What the code that drives the search has to know of its state.
    pub proof fn lemma_tracing_basics(self, s: SurfaceView, cur: int, busy: int, done: int)
        requires
            self.tracing(s, cur, busy, done),
        ensures
            self.shaped(s),
            self.indexed(s, s.nodes.len() as int, 0),
            cur == -1 || (0 <= cur < s.groups.len() && self.group_of(cur) >= 0),
            forall|g: usize| #[trigger]
                self.queue.contains(g) ==> g < s.groups.len() && self.group_of(g as int) >= 0 && g
                    != cur,
            forall|c: int| 0 <= c < self.clusters.len() ==> #[trigger] self.mirrors(s, c),
            forall|n: int, k: int| #[trigger]
                s.has_socket(n, k) && self.node_of(n) >= 0 && (n != busy || k < done)
                    ==> self.group_of(s.nodes[n].sockets[k].group_id as int) == self.node_of(n),
    {
    }

    /// Once every socket has been looked at, the search can spread.
    pub proof fn lemma_seeded(self, s: SurfaceView)
        requires
            s.well_formed(),
            self.seeding(s, s.nodes.len() as int, 0),
        ensures
            self.tracing(s, -1, -1, 0),
    {
        let n0 = s.nodes.len() as int;
        assert forall|g: int| 0 <= g < s.groups.len() implies (is_source(s, g) <==> source_before(
            s,
            g,
            n0,
            0,
        )) && (is_destination(s, g) <==> destination_before(s, g, n0, 0)) && (is_seed(s, g)
            <==> seeded_before(s, g, n0, 0)) by {
            if is_source(s, g) {
                let (n, k) = choose|n: int, k: int| #[trigger]
                    seeds(s, n, k, g) && s.nodes[n].sockets[k].value_written;
                assert(before(n, k, n0, 0));
            }
            if is_destination(s, g) {
                let (n, k) = choose|n: int, k: int| #[trigger]
                    seeds(s, n, k, g) && s.nodes[n].sockets[k].value_read;
                assert(before(n, k, n0, 0));
            }
            if is_seed(s, g) {
                let (n, k) = choose|n: int, k: int| seeds(s, n, k, g);
                assert(before(n, k, n0, 0));
            }
        }
        assert forall|c: int| 0 <= c < self.clusters.len() implies #[trigger] self.mirrors(
            s,
            c,
        ) by {
            let x = self.clusters[c];
            assert forall|n: usize| #[trigger]
                x.nodes.contains(n) <==> n < s.nodes.len() && self.node_of(n as int) == c by {}
            assert forall|g: usize| #[trigger]
                x.value_groups.contains(g) <==> g < s.groups.len() && self.group_of(g as int) == c
                    && !self.queue.contains(g) by {}
        }
        assert forall|g: int|
            0 <= g < s.groups.len() && #[trigger] self.group_of(g) >= 0 implies captured_group(
            s,
            g,
        ) by {
            lemma_seed_captured(s, g);
        }
        assert forall|n: int, k: int, g: int| #[trigger]
            draws(s, n, k, g) && self.group_of(g) >= 0 && !self.queue.contains(g as usize) && g
                != -1 implies self.node_of(n) >= 0 by {
            assert(s.has_socket(n, k));
            assert(g < s.groups.len());
            assert(self.queue.contains(g as usize));
        }
    }

    /// The state after node `n` has joined cluster `c`.
    pub open spec fn claimed(self, c: int, n: int) -> Search {
        Search {
            clusters: self.clusters.update(
                c,
                ExtractGroupView {
                    nodes: self.clusters[c].nodes.push(n as usize),
                    ..self.clusters[c]
                },
            ),
            node_owner: self.node_owner.update(n, Some(c as usize)),
            ..self
        }
    }

    /// The state after group `g` has joined cluster `c` and the queue.
    pub open spec fn enlisted(self, c: int, g: int) -> Search {
        Search {
            queue: self.queue.push(g as usize),
            group_owner: self.group_owner.update(g, Some(c as usize)),
            ..self
        }
    }

    /// The state after cluster `dest` has taken over cluster `src`.
    pub open spec fn merged(self, dest: int, src: int) -> Search {
        Search {
            clusters: self.clusters.update(
                dest,
                self.clusters[dest].joined(self.clusters[src]),
            ).update(src, ExtractGroupView::empty()),
            group_owner: remapped(self.group_owner, src as usize, dest as usize),
            node_owner: remapped(self.node_owner, src as usize, dest as usize),
            ..self
        }
    }

    pub proof fn lemma_claimed(self, s: SurfaceView, cur: int, n: int)
        requires
            s.well_formed(),
            self.tracing(s, cur, -1, 0),
            0 <= cur < s.groups.len(),
            self.group_of(cur) >= 0,
            0 <= n < s.nodes.len(),
            self.node_of(n) == -1,
            reads(s, n, cur),
        ensures
            self.claimed(self.group_of(cur), n).tracing(s, cur, n, 0),
            self.claimed(self.group_of(cur), n).grown_from(self, s),
    {
        let c = self.group_of(cur);
        let t = self.claimed(c, n);
        assert(t.node_of(n) == c);
        assert forall|m: int| 0 <= m < s.nodes.len() && m != n implies #[trigger] t.node_of(m)
            == self.node_of(m) by {}
        assert forall|g: int| 0 <= g < s.groups.len() implies #[trigger] t.group_of(g)
            == self.group_of(g) by {}
        let k0 = choose|k: int| draws(s, n, k, cur);
        assert(binds(s, n, k0, cur));
        assert(touches(s, n, cur));
        lemma_reader_captured(s, n, cur);
        assert forall|d: int| 0 <= d < t.clusters.len() implies #[trigger] t.mirrors(s, d) by {
            assert(self.mirrors(s, d));
            let x = t.clusters[d];
            assert forall|m: usize| #[trigger]
                x.nodes.contains(m) <==> m < s.nodes.len() && t.node_of(m as int) == d by {
                if d == c {
                    lemma_contains_after_push(self.clusters[c].nodes, n as usize, m);
                }
                if m < s.nodes.len() && m != n {
                    assert(t.node_of(m as int) == self.node_of(m as int));
                }
            }
            if d == c {
                lemma_contains_after_push(self.clusters[c].nodes, n as usize, n as usize);
            }
            assert forall|g: usize| #[trigger]
                x.value_groups.contains(g) <==> g < s.groups.len() && t.group_of(g as int) == d
                    && !t.queue.contains(g) by {
                if g < s.groups.len() {
                    assert(t.group_of(g as int) == self.group_of(g as int));
                }
            }
            assert forall|g: usize| #[trigger]
                x.sources.contains(g) <==> g < s.groups.len() && t.group_of(g as int) == d
                    && is_source(s, g as int) by {
                if g < s.groups.len() {
                    assert(t.group_of(g as int) == self.group_of(g as int));
                }
            }
            assert forall|g: usize| #[trigger]
                x.destinations.contains(g) <==> g < s.groups.len() && t.group_of(g as int) == d
                    && is_destination(s, g as int) by {
                if g < s.groups.len() {
                    assert(t.group_of(g as int) == self.group_of(g as int));
                }
            }
        }
        assert(self.mirrors(s, c));
        assert forall|g: int|
            0 <= g < s.groups.len() && #[trigger] t.group_of(g) >= 0 implies t.clusters[t.group_of(
            g,
        )].nodes.len() == 0 || t.anchored(s, g) by {
            assert(self.group_of(g) == t.group_of(g));
            if self.group_of(g) == c {
                if self.clusters[c].nodes.len() == 0 {
                    assert(self.group_of(cur) == self.group_of(g));
                    assert(g == cur);
                    assert(t.node_of(n) == t.group_of(g) && touches(s, n, g));
                } else {
                    let a = choose|a: int|
                        0 <= a < s.nodes.len() && #[trigger] self.node_of(a) == self.group_of(g)
                            && touches(s, a, g);
                    assert(t.node_of(a) == t.group_of(g) && touches(s, a, g));
                }
            } else {
                if self.clusters[self.group_of(g)].nodes.len() != 0 {
                    let a = choose|a: int|
                        0 <= a < s.nodes.len() && #[trigger] self.node_of(a) == self.group_of(g)
                            && touches(s, a, g);
                    assert(t.node_of(a) == t.group_of(g) && touches(s, a, g));
                }
            }
        }
        assert forall|a: int, b: int|
            0 <= a < s.nodes.len() && 0 <= b < s.nodes.len() && #[trigger] t.node_of(a)
                == #[trigger] t.node_of(b) && t.node_of(a) >= 0 implies connected(s, a, b) by {
            if a == b {
                lemma_connected_refl(s, a);
            } else if a != n && b != n {
                assert(self.node_of(a) == self.node_of(b));
            } else {
                let m = if a == n {
                    b
                } else {
                    a
                };
                assert(self.node_of(m) == c);
                assert(self.clusters[c].nodes.contains(m as usize));
                assert(self.anchored(s, cur));
                let w = choose|w: int|
                    0 <= w < s.nodes.len() && #[trigger] self.node_of(w) == self.group_of(cur)
                        && touches(s, w, cur);
                assert(adjacent(s, w, n));
                lemma_adjacent_connected(s, w, n);
                assert(connected(s, m, w));
                lemma_connected_trans(s, m, w, n);
                lemma_connected_sym(s, m, n);
            }
        }
    }

    pub proof fn lemma_enlisted(self, s: SurfaceView, cur: int, n: int, k: int, c: int)
        requires
            s.well_formed(),
            self.tracing(s, cur, n, k),
            s.has_socket(n, k),
            self.node_of(n) == c,
            c >= 0,
            self.group_of(s.nodes[n].sockets[k].group_id as int) == -1,
        ensures
            self.enlisted(c, s.nodes[n].sockets[k].group_id as int).tracing(s, cur, n, k + 1),
            self.enlisted(c, s.nodes[n].sockets[k].group_id as int).grown_from(self, s),
    {
        let g0 = s.nodes[n].sockets[k].group_id as int;
        let t = self.enlisted(c, g0);
        assert(binds(s, n, k, g0));
        assert(touches(s, n, g0));
        lemma_touched_captured(s, n, g0);
        assert(t.group_of(g0) == c);
        assert forall|g: int| 0 <= g < s.groups.len() && g != g0 implies #[trigger] t.group_of(g)
            == self.group_of(g) by {}
        assert forall|m: int| 0 <= m < s.nodes.len() implies #[trigger] t.node_of(m)
            == self.node_of(m) by {}
        assert forall|g: usize| t.queue.contains(g) <==> self.queue.contains(g) || g == g0 by {
            lemma_contains_after_push(self.queue, g0 as usize, g);
        }
        assert(!self.queue.contains(g0 as usize));
        lemma_contains_after_push(self.queue, g0 as usize, g0 as usize);
        assert(!is_seed(s, g0));
        assert(!is_source(s, g0)) by {
            if is_source(s, g0) {
                let (a, b) = choose|a: int, b: int| #[trigger]
                    seeds(s, a, b, g0) && s.nodes[a].sockets[b].value_written;
                assert(seeds(s, a, b, g0));
            }
        }
        assert(!is_destination(s, g0)) by {
            if is_destination(s, g0) {
                let (a, b) = choose|a: int, b: int| #[trigger]
                    seeds(s, a, b, g0) && s.nodes[a].sockets[b].value_read;
                assert(seeds(s, a, b, g0));
            }
        }
        assert(self.mirrors(s, c));
        assert(self.clusters[c].nodes.contains(n as usize));
        assert forall|d: int| 0 <= d < t.clusters.len() implies #[trigger] t.mirrors(s, d) by {
            assert(self.mirrors(s, d));
            let x = t.clusters[d];
            assert forall|m: usize| #[trigger]
                x.nodes.contains(m) <==> m < s.nodes.len() && t.node_of(m as int) == d by {
                if m < s.nodes.len() {
                    assert(t.node_of(m as int) == self.node_of(m as int));
                }
            }
            assert forall|g: usize| #[trigger]
                x.value_groups.contains(g) <==> g < s.groups.len() && t.group_of(g as int) == d
                    && !t.queue.contains(g) by {
                if g < s.groups.len() && g != g0 {
                    assert(t.group_of(g as int) == self.group_of(g as int));
                }
            }
            assert forall|g: usize| #[trigger]
                x.sources.contains(g) <==> g < s.groups.len() && t.group_of(g as int) == d
                    && is_source(s, g as int) by {
                if g < s.groups.len() && g != g0 {
                    assert(t.group_of(g as int) == self.group_of(g as int));
                }
            }
            assert forall|g: usize| #[trigger]
                x.destinations.contains(g) <==> g < s.groups.len() && t.group_of(g as int) == d
                    && is_destination(s, g as int) by {
                if g < s.groups.len() && g != g0 {
                    assert(t.group_of(g as int) == self.group_of(g as int));
                }
            }
        }
        assert forall|a: int, b: int| #[trigger]
            s.has_socket(a, b) && t.node_of(a) >= 0 && (a != n || b < k + 1) implies t.group_of(
            s.nodes[a].sockets[b].group_id as int,
        ) == t.node_of(a) by {
            assert(t.node_of(a) == self.node_of(a));
            let g = s.nodes[a].sockets[b].group_id as int;
            if a == n && b == k {
            } else {
                assert(self.group_of(g) == self.node_of(a));
                assert(g != g0);
            }
        }
        assert forall|g: int|
            0 <= g < s.groups.len() && #[trigger] t.group_of(g) >= 0 implies t.clusters[t.group_of(
            g,
        )].nodes.len() == 0 || t.anchored(s, g) by {
            if g == g0 {
                assert(t.node_of(n) == t.group_of(g) && touches(s, n, g));
            } else {
                assert(self.group_of(g) == t.group_of(g));
                if self.clusters[self.group_of(g)].nodes.len() != 0 {
                    let a = choose|a: int|
                        0 <= a < s.nodes.len() && #[trigger] self.node_of(a) == self.group_of(g)
                            && touches(s, a, g);
                    assert(t.node_of(a) == t.group_of(g) && touches(s, a, g));
                }
            }
        }
        assert forall|a: int, b: int|
            0 <= a < s.nodes.len() && 0 <= b < s.nodes.len() && #[trigger] t.node_of(a)
                == #[trigger] t.node_of(b) && t.node_of(a) >= 0 implies connected(s, a, b) by {
            assert(self.node_of(a) == self.node_of(b));
        }
        assert forall|a: int, b: int, g: int| #[trigger]
            draws(s, a, b, g) && t.group_of(g) >= 0 && !t.queue.contains(g as usize) && g
                != cur implies t.node_of(a) >= 0 by {
            assert(s.has_socket(a, b));
            assert(g != g0);
            assert(self.group_of(g) == t.group_of(g));
        }
    }

    /// The state after the first queued group has been taken from the queue
    /// and listed with its cluster.
    pub open spec fn taken(self) -> Search {
        let g = self.queue[0];
        let c = self.group_of(g as int);
        Search {
            clusters: self.clusters.update(
                c,
                ExtractGroupView {
                    value_groups: self.clusters[c].value_groups.push(g),
                    ..self.clusters[c]
                },
            ),
            queue: self.queue.subrange(1, self.queue.len() as int),
            ..self
        }
    }

    /// What has changed since the state was `before`: nothing lost its
    /// cluster, and only groups that had none have been queued.
    pub open spec fn grown_from(self, before: Search, s: SurfaceView) -> bool {
        &&& self.index == before.index
        &&& forall|n: int|
            0 <= n < s.nodes.len() && #[trigger] before.node_of(n) >= 0 ==> self.node_of(n) >= 0
        &&& forall|g: int|
            0 <= g < s.groups.len() && #[trigger] before.group_of(g) >= 0 ==> self.group_of(g)
                >= 0
        &&& forall|g: usize| #[trigger]
            self.queue.contains(g) ==> g < s.groups.len() && (before.queue.contains(g)
                || before.group_of(g as int) < 0)
    }

    /// What has grown from a state that has grown has grown.
    pub proof fn lemma_grown_on(self, middle: Search, before: Search, s: SurfaceView)
        requires
            middle.grown_from(before, s),
            self.grown_from(middle, s),
        ensures
            self.grown_from(before, s),
    {
        assert forall|n: int|
            0 <= n < s.nodes.len() && #[trigger] before.node_of(n) >= 0 implies self.node_of(n)
            >= 0 by {
            assert(middle.node_of(n) >= 0);
        }
        assert forall|g: int|
            0 <= g < s.groups.len() && #[trigger] before.group_of(g) >= 0 implies self.group_of(g)
            >= 0 by {
            assert(middle.group_of(g) >= 0);
        }
        assert forall|g: usize| #[trigger] self.queue.contains(g) implies g < s.groups.len() && (
        before.queue.contains(g) || before.group_of(g as int) < 0) by {
            if !middle.queue.contains(g) {
                if before.group_of(g as int) >= 0 {
                    assert(middle.group_of(g as int) >= 0);
                }
            }
        }
    }

    pub proof fn lemma_taken(self, s: SurfaceView)
        requires
            self.tracing(s, -1, -1, 0),
            self.queue.len() > 0,
        ensures
            self.taken().tracing(s, self.queue[0] as int, -1, 0),
            self.taken().group_of(self.queue[0] as int) == self.group_of(self.queue[0] as int),
            self.taken().grown_from(self, s),
            !self.taken().queue.contains(self.queue[0]),
    {
        let g0 = self.queue[0];
        let c = self.group_of(g0 as int);
        let t = self.taken();
        assert(self.queue.contains(g0));
        assert forall|g: int| 0 <= g < s.groups.len() implies #[trigger] t.group_of(g)
            == self.group_of(g) by {}
        assert forall|m: int| 0 <= m < s.nodes.len() implies #[trigger] t.node_of(m)
            == self.node_of(m) by {}
        assert forall|g: usize| #[trigger]
            t.queue.contains(g) <==> self.queue.contains(g) && g != g0 by {
            if t.queue.contains(g) {
                let j = choose|j: int| 0 <= j < t.queue.len() && t.queue[j] == g;
                assert(self.queue[j + 1] == g);
            }
            if self.queue.contains(g) && g != g0 {
                let j = choose|j: int| 0 <= j < self.queue.len() && self.queue[j] == g;
                assert(t.queue[j - 1] == g);
            }
        }
        assert(self.mirrors(s, c));
        lemma_contains_after_push(self.clusters[c].value_groups, g0, g0);
        assert forall|d: int| 0 <= d < t.clusters.len() implies #[trigger] t.mirrors(s, d) by {
            assert(self.mirrors(s, d));
            let x = t.clusters[d];
            assert forall|m: usize| #[trigger]
                x.nodes.contains(m) <==> m < s.nodes.len() && t.node_of(m as int) == d by {
                if m < s.nodes.len() {
                    assert(t.node_of(m as int) == self.node_of(m as int));
                }
            }
            assert forall|g: usize| #[trigger]
                x.value_groups.contains(g) <==> g < s.groups.len() && t.group_of(g as int) == d
                    && !t.queue.contains(g) by {
                if d == c {
                    lemma_contains_after_push(self.clusters[c].value_groups, g0, g);
                }
                if g < s.groups.len() {
                    assert(t.group_of(g as int) == self.group_of(g as int));
                }
            }
            assert forall|g: usize| #[trigger]
                x.sources.contains(g) <==> g < s.groups.len() && t.group_of(g as int) == d
                    && is_source(s, g as int) by {
                if g < s.groups.len() {
                    assert(t.group_of(g as int) == self.group_of(g as int));
                }
            }
            assert forall|g: usize| #[trigger]
                x.destinations.contains(g) <==> g < s.groups.len() && t.group_of(g as int) == d
                    && is_destination(s, g as int) by {
                if g < s.groups.len() {
                    assert(t.group_of(g as int) == self.group_of(g as int));
                }
            }
        }
        assert(t.queue.no_duplicates()) by {
            assert forall|i: int, j: int| 0 <= i < t.queue.len() && 0 <= j < t.queue.len() && i
                != j implies t.queue[i] != t.queue[j] by {
                assert(self.queue[i + 1] != self.queue[j + 1]);
            }
        }
        assert(t.ledger(s, g0 as int));
        assert(t.sound(s)) by {
            assert forall|g: int| 0 <= g < s.groups.len() && is_seed(s, g) implies #[trigger] t.group_of(
                g,
            ) >= 0 by {
                assert(self.group_of(g) >= 0);
            }
            assert forall|g: int|
                0 <= g < s.groups.len() && #[trigger] t.group_of(g) >= 0 implies captured_group(
                s,
                g,
            ) by {
                assert(self.group_of(g) >= 0);
            }
            assert forall|m: int|
                0 <= m < s.nodes.len() && #[trigger] t.node_of(m) >= 0 implies captured_node(
                s,
                m,
            ) by {
                assert(self.node_of(m) >= 0);
            }
        }
        assert(t.closed_off(s, g0 as int, -1, 0)) by {
            assert forall|a: int, b: int, g: int| #[trigger]
                draws(s, a, b, g) && t.group_of(g) >= 0 && !t.queue.contains(g as usize) && g
                    != g0 implies t.node_of(a) >= 0 by {
                assert(s.has_socket(a, b));
                assert(self.group_of(g) >= 0);
                assert(!self.queue.contains(g as usize));
                assert(self.node_of(a) >= 0);
            }
            assert forall|a: int, b: int| #[trigger]
                s.has_socket(a, b) && t.node_of(a) >= 0 implies t.group_of(
                s.nodes[a].sockets[b].group_id as int,
            ) == t.node_of(a) by {
                assert(self.node_of(a) >= 0);
            }
        }
        assert(t.anchors(s)) by {
            assert forall|g: int|
                0 <= g < s.groups.len() && #[trigger] t.group_of(g) >= 0 implies t.clusters[t.group_of(
                g,
            )].nodes.len() == 0 || t.anchored(s, g) by {
                assert(self.group_of(g) == t.group_of(g));
                if self.clusters[self.group_of(g)].nodes.len() != 0 {
                    assert(self.anchored(s, g));
                    let a = choose|a: int|
                        0 <= a < s.nodes.len() && #[trigger] self.node_of(a) == self.group_of(g)
                            && touches(s, a, g);
                    assert(t.node_of(a) == t.group_of(g) && touches(s, a, g));
                }
            }
            assert forall|g1: int, g2: int|
                0 <= g1 < s.groups.len() && 0 <= g2 < s.groups.len() && #[trigger] t.group_of(g1)
                    == #[trigger] t.group_of(g2) && t.group_of(g1) >= 0 && t.clusters[t.group_of(
                    g1,
                )].nodes.len() == 0 implies g1 == g2 by {
                assert(self.group_of(g1) == self.group_of(g2));
            }
        }
        assert(t.knit(s)) by {
            assert forall|a: int, b: int|
                0 <= a < s.nodes.len() && 0 <= b < s.nodes.len() && #[trigger] t.node_of(a)
                    == #[trigger] t.node_of(b) && t.node_of(a) >= 0 implies connected(s, a, b) by {
                assert(self.node_of(a) == self.node_of(b));
            }
        }
    }

    /// Once every reader of the group being looked at has a cluster, the
    /// search is through with the group.
    pub proof fn lemma_group_done(self, s: SurfaceView, cur: int)
        requires
            self.tracing(s, cur, -1, 0),
            forall|n: int, k: int| #[trigger] draws(s, n, k, cur) ==> self.node_of(n) >= 0,
        ensures
            self.tracing(s, -1, -1, 0),
    {
    }

    pub proof fn lemma_claim_done(self, s: SurfaceView, cur: int, n: int)
        requires
            0 <= n < s.nodes.len(),
            self.tracing(s, cur, n, s.nodes[n].sockets.len() as int),
        ensures
            self.tracing(s, cur, -1, 0),
    {
    }

    pub proof fn lemma_socket_done(self, s: SurfaceView, cur: int, n: int, k: int)
        requires
            self.tracing(s, cur, n, k),
            s.has_socket(n, k),
            self.node_of(n) >= 0,
            self.group_of(s.nodes[n].sockets[k].group_id as int) == self.node_of(n),
        ensures
            self.tracing(s, cur, n, k + 1),
    {
    }

    /// What the tables say after a merge: `dest` wherever they said `src`.
    pub proof fn lemma_merged_tables(self, s: SurfaceView, c: int, o: int)
        requires
            self.shaped(s),
            0 <= c < self.clusters.len(),
            0 <= o < self.clusters.len(),
        ensures
            forall|g: int|
                0 <= g < s.groups.len() ==> #[trigger] self.merged(c, o).group_of(g) == (if self.group_of(
                    g,
                ) == o {
                    c
                } else {
                    self.group_of(g)
                }),
            forall|m: int|
                0 <= m < s.nodes.len() ==> #[trigger] self.merged(c, o).node_of(m) == (if self.node_of(
                    m,
                ) == o {
                    c
                } else {
                    self.node_of(m)
                }),
            self.merged(c, o).shaped(s),
    {
        let t = self.merged(c, o);
        assert forall|g: int| 0 <= g < s.groups.len() implies #[trigger] t.group_of(g) == (if self.group_of(
            g,
        ) == o {
            c
        } else {
            self.group_of(g)
        }) by {}
        assert forall|m: int| 0 <= m < s.nodes.len() implies #[trigger] t.node_of(m) == (if self.node_of(
            m,
        ) == o {
            c
        } else {
            self.node_of(m)
        }) by {}
    }

    pub proof fn lemma_merged_ledger(self, s: SurfaceView, cur: int, c: int, o: int)
        requires
            self.ledger(s, cur),
            0 <= c < self.clusters.len(),
            0 <= o < self.clusters.len(),
            c != o,
        ensures
            self.merged(c, o).ledger(s, cur),
    {
        let t = self.merged(c, o);
        self.lemma_merged_tables(s, c, o);
        assert(self.mirrors(s, c));
        assert(self.mirrors(s, o));
        let xc = self.clusters[c];
        let xo = self.clusters[o];
        lemma_joined_lists(xc.nodes, xo.nodes);
        lemma_joined_lists(xc.value_groups, xo.value_groups);
        lemma_joined_lists(xc.sources, xo.sources);
        lemma_joined_lists(xc.destinations, xo.destinations);
        assert forall|d: int| 0 <= d < t.clusters.len() implies #[trigger] t.mirrors(s, d) by {
            assert(self.mirrors(s, d));
            let x = t.clusters[d];
            assert forall|m: usize| #[trigger]
                x.nodes.contains(m) <==> m < s.nodes.len() && t.node_of(m as int) == d by {
                if m < s.nodes.len() {
                    assert(t.node_of(m as int) == (if self.node_of(m as int) == o {
                        c
                    } else {
                        self.node_of(m as int)
                    }));
                }
            }
            assert forall|g: usize| #[trigger]
                x.value_groups.contains(g) <==> g < s.groups.len() && t.group_of(g as int) == d
                    && !t.queue.contains(g) by {
                if g < s.groups.len() {
                    assert(t.group_of(g as int) == (if self.group_of(g as int) == o {
                        c
                    } else {
                        self.group_of(g as int)
                    }));
                }
            }
            assert forall|g: usize| #[trigger]
                x.sources.contains(g) <==> g < s.groups.len() && t.group_of(g as int) == d
                    && is_source(s, g as int) by {
                if g < s.groups.len() {
                    assert(t.group_of(g as int) == (if self.group_of(g as int) == o {
                        c
                    } else {
                        self.group_of(g as int)
                    }));
                }
            }
            assert forall|g: usize| #[trigger]
                x.destinations.contains(g) <==> g < s.groups.len() && t.group_of(g as int) == d
                    && is_destination(s, g as int) by {
                if g < s.groups.len() {
                    assert(t.group_of(g as int) == (if self.group_of(g as int) == o {
                        c
                    } else {
                        self.group_of(g as int)
                    }));
                }
            }
        }
        assert forall|g: usize| #[trigger] t.queue.contains(g) implies g < s.groups.len()
            && t.group_of(g as int) >= 0 && g != cur by {
            assert(self.group_of(g as int) >= 0);
        }
    }

    pub proof fn lemma_merged_sound(self, s: SurfaceView, c: int, o: int)
        requires
            self.shaped(s),
            self.sound(s),
            0 <= c < self.clusters.len(),
            0 <= o < self.clusters.len(),
        ensures
            self.merged(c, o).sound(s),
    {
        let t = self.merged(c, o);
        self.lemma_merged_tables(s, c, o);
        assert forall|g: int| 0 <= g < s.groups.len() && is_seed(s, g) implies #[trigger] t.group_of(
            g,
        ) >= 0 by {
            assert(self.group_of(g) >= 0);
        }
        assert forall|g: int|
            0 <= g < s.groups.len() && #[trigger] t.group_of(g) >= 0 implies captured_group(
            s,
            g,
        ) by {
            assert(self.group_of(g) >= 0);
        }
        assert forall|m: int|
            0 <= m < s.nodes.len() && #[trigger] t.node_of(m) >= 0 implies captured_node(s, m) by {
            assert(self.node_of(m) >= 0);
        }
    }

    pub proof fn lemma_merged_closed_off(self, s: SurfaceView, cur: int, n: int, k: int)
        requires
            s.well_formed(),
            self.shaped(s),
            self.closed_off(s, cur, n, k),
            s.has_socket(n, k),
            self.node_of(n) >= 0,
            self.group_of(s.nodes[n].sockets[k].group_id as int) >= 0,
        ensures
            self.merged(
                self.node_of(n),
                self.group_of(s.nodes[n].sockets[k].group_id as int),
            ).closed_off(s, cur, n, k + 1),
    {
        let g0 = s.nodes[n].sockets[k].group_id as int;
        let c = self.node_of(n);
        let o = self.group_of(g0);
        let t = self.merged(c, o);
        self.lemma_merged_tables(s, c, o);
        assert forall|a: int, b: int| #[trigger]
            s.has_socket(a, b) && t.node_of(a) >= 0 && (a != n || b < k + 1) implies t.group_of(
            s.nodes[a].sockets[b].group_id as int,
        ) == t.node_of(a) by {
            let g = s.nodes[a].sockets[b].group_id as int;
            assert(self.node_of(a) >= 0);
            if a == n && b == k {
            } else {
                assert(self.group_of(g) == self.node_of(a));
            }
        }
        assert forall|a: int, b: int, g: int| #[trigger]
            draws(s, a, b, g) && t.group_of(g) >= 0 && !t.queue.contains(g as usize) && g
                != cur implies t.node_of(a) >= 0 by {
            assert(s.has_socket(a, b));
            assert(self.group_of(g) >= 0);
            assert(self.node_of(a) >= 0);
        }
    }

    pub proof fn lemma_merged_anchors(self, s: SurfaceView, n: int, k: int)
        requires
            s.well_formed(),
            self.shaped(s),
            self.anchors(s),
            s.has_socket(n, k),
            self.node_of(n) >= 0,
            self.group_of(s.nodes[n].sockets[k].group_id as int) >= 0,
            self.group_of(s.nodes[n].sockets[k].group_id as int) != self.node_of(n),
            self.mirrors(s, self.node_of(n)),
            self.mirrors(s, self.group_of(s.nodes[n].sockets[k].group_id as int)),
        ensures
            self.merged(
                self.node_of(n),
                self.group_of(s.nodes[n].sockets[k].group_id as int),
            ).anchors(s),
    {
        let g0 = s.nodes[n].sockets[k].group_id as int;
        let c = self.node_of(n);
        let o = self.group_of(g0);
        let t = self.merged(c, o);
        self.lemma_merged_tables(s, c, o);
        assert(binds(s, n, k, g0));
        assert(touches(s, n, g0));
        let xc = self.clusters[c];
        let xo = self.clusters[o];
        assert(xc.nodes.contains(n as usize));
        lemma_joined_lists(xc.nodes, xo.nodes);
        assert(t.clusters[c].nodes.contains(n as usize));
        assert forall|g: int|
            0 <= g < s.groups.len() && #[trigger] t.group_of(g) >= 0 implies t.clusters[t.group_of(
            g,
        )].nodes.len() == 0 || t.anchored(s, g) by {
            let d = self.group_of(g);
            assert(d >= 0);
            if d == o && xo.nodes.len() == 0 {
                assert(self.group_of(g) == self.group_of(g0));
                assert(g == g0);
                assert(t.node_of(n) == t.group_of(g) && touches(s, n, g));
            } else if d == c || d == o {
                assert(self.clusters[d].nodes.len() > 0);
                assert(self.anchored(s, g));
                let a = choose|a: int|
                    0 <= a < s.nodes.len() && #[trigger] self.node_of(a) == self.group_of(g)
                        && touches(s, a, g);
                assert(t.node_of(a) == t.group_of(g) && touches(s, a, g));
            } else {
                if self.clusters[d].nodes.len() != 0 {
                    assert(self.anchored(s, g));
                    let a = choose|a: int|
                        0 <= a < s.nodes.len() && #[trigger] self.node_of(a) == self.group_of(g)
                            && touches(s, a, g);
                    assert(t.node_of(a) == t.group_of(g) && touches(s, a, g));
                }
            }
        }
        assert forall|g1: int, g2: int|
            0 <= g1 < s.groups.len() && 0 <= g2 < s.groups.len() && #[trigger] t.group_of(g1)
                == #[trigger] t.group_of(g2) && t.group_of(g1) >= 0 && t.clusters[t.group_of(
                g1,
            )].nodes.len() == 0 implies g1 == g2 by {
            assert(self.group_of(g1) == self.group_of(g2));
        }
    }

    pub proof fn lemma_merged_knit(self, s: SurfaceView, n: int, k: int)
        requires
            s.well_formed(),
            self.shaped(s),
            self.sound(s),
            self.anchors(s),
            self.knit(s),
            s.has_socket(n, k),
            self.node_of(n) >= 0,
            self.group_of(s.nodes[n].sockets[k].group_id as int) >= 0,
            self.group_of(s.nodes[n].sockets[k].group_id as int) != self.node_of(n),
            self.mirrors(s, self.group_of(s.nodes[n].sockets[k].group_id as int)),
        ensures
            self.merged(
                self.node_of(n),
                self.group_of(s.nodes[n].sockets[k].group_id as int),
            ).knit(s),
    {
        let g0 = s.nodes[n].sockets[k].group_id as int;
        let c = self.node_of(n);
        let o = self.group_of(g0);
        let t = self.merged(c, o);
        self.lemma_merged_tables(s, c, o);
        assert(binds(s, n, k, g0));
        assert(touches(s, n, g0));
        let xo = self.clusters[o];
        assert forall|a: int, b: int|
            0 <= a < s.nodes.len() && 0 <= b < s.nodes.len() && #[trigger] t.node_of(a)
                == #[trigger] t.node_of(b) && t.node_of(a) >= 0 implies connected(s, a, b) by {
            let da = self.node_of(a);
            let db = self.node_of(b);
            if da == db {
            } else {
                // one of them is in `c`, the other in `o`
                assert(xo.nodes.len() > 0) by {
                    if da == o {
                        assert(xo.nodes.contains(a as usize));
                    } else {
                        assert(xo.nodes.contains(b as usize));
                    }
                }
                assert(self.anchored(s, g0));
                let w = choose|w: int|
                    0 <= w < s.nodes.len() && #[trigger] self.node_of(w) == self.group_of(g0)
                        && touches(s, w, g0);
                assert(adjacent(s, n, w));
                lemma_adjacent_connected(s, n, w);
                if da == c {
                    assert(connected(s, a, n));
                    assert(connected(s, w, b));
                    lemma_connected_trans(s, a, n, w);
                    lemma_connected_trans(s, a, w, b);
                } else {
                    assert(connected(s, b, n));
                    assert(connected(s, w, a));
                    lemma_connected_trans(s, b, n, w);
                    lemma_connected_trans(s, b, w, a);
                    lemma_connected_sym(s, b, a);
                }
            }
        }
    }

    pub proof fn lemma_merged(self, s: SurfaceView, cur: int, n: int, k: int)
        requires
            s.well_formed(),
            self.tracing(s, cur, n, k),
            s.has_socket(n, k),
            self.node_of(n) >= 0,
            self.group_of(s.nodes[n].sockets[k].group_id as int) >= 0,
            self.group_of(s.nodes[n].sockets[k].group_id as int) != self.node_of(n),
        ensures
            self.merged(
                self.node_of(n),
                self.group_of(s.nodes[n].sockets[k].group_id as int),
            ).tracing(s, cur, n, k + 1),
            self.merged(
                self.node_of(n),
                self.group_of(s.nodes[n].sockets[k].group_id as int),
            ).grown_from(self, s),
    {
        let g0 = s.nodes[n].sockets[k].group_id as int;
        let c = self.node_of(n);
        let o = self.group_of(g0);
        assert(binds(s, n, k, g0));
        assert(self.mirrors(s, c));
        assert(self.mirrors(s, o));
        self.lemma_merged_tables(s, c, o);
        self.lemma_merged_ledger(s, cur, c, o);
        self.lemma_merged_sound(s, c, o);
        self.lemma_merged_closed_off(s, cur, n, k);
        self.lemma_merged_anchors(s, n, k);
        self.lemma_merged_knit(s, n, k);
    }

    /// The search has come to its end: nothing is queued.
    pub open spec fn settled(self, s: SurfaceView) -> bool {
        self.tracing(s, -1, -1, 0) && self.queue.len() == 0
    }

    /// At the end, whatever is reached from a seed has a cluster.
    pub proof fn lemma_reached_owned(self, s: SurfaceView, seed: int, d: nat)
        requires
            s.well_formed(),
            self.settled(s),
            is_seed(s, seed),
        ensures
            forall|g: int| #[trigger]
                group_reached(s, seed, g, d) ==> 0 <= g < s.groups.len() && self.group_of(g) >= 0,
            forall|n: int| #[trigger]
                node_reached(s, seed, n, d) ==> 0 <= n < s.nodes.len() && self.node_of(n) >= 0,
        decreases d,
    {
        let (n0, k0) = choose|n: int, k: int| seeds(s, n, k, seed);
        assert(s.has_socket(n0, k0));
        if d > 0 {
            self.lemma_reached_owned(s, seed, (d - 1) as nat);
        }
        assert forall|g: int| #[trigger] group_reached(s, seed, g, d) implies 0 <= g
            < s.groups.len() && self.group_of(g) >= 0 by {
            if g != seed {
                let n = choose|n: int|
                    node_reached(s, seed, n, (d - 1) as nat) && touches(s, n, g);
                let k = choose|k: int| binds(s, n, k, g);
                assert(s.has_socket(n, k));
            }
        }
        assert forall|n: int| #[trigger] node_reached(s, seed, n, d) implies 0 <= n
            < s.nodes.len() && self.node_of(n) >= 0 by {
            let g = choose|g: int| group_reached(s, seed, g, d) && reads(s, n, g);
            let k = choose|k: int| draws(s, n, k, g);
            assert(!self.queue.contains(g as usize));
        }
    }

    /// At the end, every per-voice node has a cluster.
    pub proof fn lemma_captured_owned(self, s: SurfaceView, n: int)
        requires
            s.well_formed(),
            self.settled(s),
            captured_node(s, n),
        ensures
            0 <= n < s.nodes.len(),
            self.node_of(n) >= 0,
    {
        let seed = choose|seed: int| reachable_from(s, seed, n);
        let d = choose|d: nat| node_reached(s, seed, n, d);
        self.lemma_reached_owned(s, seed, d);
    }

    /// At the end, nodes that have to share their voices share a cluster.
    pub proof fn lemma_linked_together(self, s: SurfaceView, a: int, b: int, d: nat)
        requires
            s.well_formed(),
            self.settled(s),
            0 <= a < s.nodes.len(),
            self.node_of(a) >= 0,
            linked(s, a, b, d),
        ensures
            0 <= b < s.nodes.len(),
            self.node_of(b) == self.node_of(a),
        decreases d,
    {
        if d > 0 {
            let m = choose|m: int| linked(s, a, m, (d - 1) as nat) && adjacent(s, m, b);
            self.lemma_linked_together(s, a, m, (d - 1) as nat);
            let g = choose|g: int| touches(s, m, g) && touches(s, b, g);
            let km = choose|k: int| binds(s, m, k, g);
            let kb = choose|k: int| binds(s, b, k, g);
            self.lemma_captured_owned(s, b);
            assert(s.has_socket(m, km));
            assert(s.has_socket(b, kb));
        }
    }

    /// At the end, the clusters that have nodes, listed in any order and
    /// each with its nodes in increasing order, are what extraction finds.
    pub proof fn lemma_plan(self, s: SurfaceView, kept: Seq<int>, p: Seq<ExtractGroupView>)
        requires
            s.well_formed(),
            self.settled(s),
            kept.len() == p.len(),
            kept.no_duplicates(),
            forall|i: int| 0 <= i < kept.len() ==> 0 <= #[trigger] kept[i] < self.clusters.len(),
            forall|c: int|
                0 <= c < self.clusters.len() && (#[trigger] self.clusters[c]).nodes.len() > 0
                    ==> kept.contains(c),
            forall|i: int|
                0 <= i < p.len() ==> {
                    &&& (#[trigger] p[i]).value_groups == self.clusters[kept[i]].value_groups
                    &&& p[i].sources == self.clusters[kept[i]].sources
                    &&& p[i].destinations == self.clusters[kept[i]].destinations
                    &&& p[i].nodes.len() > 0
                    &&& strictly_increasing(p[i].nodes)
                    &&& forall|n: usize|
                        p[i].nodes.contains(n) <==> self.clusters[kept[i]].nodes.contains(n)
                },
        ensures
            is_extraction_plan(s, p),
    {
        assert forall|i: int, n: usize| 0 <= i < p.len() && #[trigger] p[i].nodes.contains(
            n,
        ) implies n < s.nodes.len() && self.node_of(n as int) == kept[i] by {
            assert(self.mirrors(s, kept[i]));
            assert(self.clusters[kept[i]].nodes.contains(n));
        }
        assert forall|i: int| 0 <= i < p.len() implies (#[trigger] p[i]).fits(s) by {
            let c = kept[i];
            let x = self.clusters[c];
            assert(self.mirrors(s, c));
            assert forall|j: int| 0 <= j < p[i].nodes.len() implies p[i].nodes[j]
                < s.nodes.len() by {
                assert(p[i].nodes.contains(p[i].nodes[j]));
            }
            assert forall|j: int| 0 <= j < p[i].value_groups.len() implies p[i].value_groups[j]
                < s.groups.len() by {
                assert(x.value_groups.contains(x.value_groups[j]));
            }
            assert forall|g: usize| #[trigger]
                p[i].value_groups.contains(g) <==> exists|n: usize| #[trigger]
                    p[i].nodes.contains(n) && touches(s, n as int, g as int) by {
                if p[i].value_groups.contains(g) {
                    assert(self.group_of(g as int) == c);
                    let m = p[i].nodes[0];
                    assert(p[i].nodes.contains(m));
                    assert(x.nodes.contains(m));
                    assert(self.anchored(s, g as int));
                    let a = choose|a: int|
                        0 <= a < s.nodes.len() && #[trigger] self.node_of(a) == self.group_of(
                            g as int,
                        ) && touches(s, a, g as int);
                    assert(x.nodes.contains(a as usize));
                    assert(p[i].nodes.contains(a as usize) && touches(
                        s,
                        a as usize as int,
                        g as int,
                    ));
                }
                if exists|n: usize| #[trigger]
                    p[i].nodes.contains(n) && touches(s, n as int, g as int) {
                    let n = choose|n: usize| #[trigger]
                        p[i].nodes.contains(n) && touches(s, n as int, g as int);
                    let k = choose|k: int| binds(s, n as int, k, g as int);
                    assert(s.has_socket(n as int, k));
                    assert(self.group_of(g as int) == c);
                    assert(!self.queue.contains(g));
                }
            }
            assert forall|j: int| 0 <= j < p[i].sources.len() implies p[i].value_groups.contains(
                #[trigger] p[i].sources[j],
            ) by {
                assert(x.sources.contains(x.sources[j]));
                assert(!self.queue.contains(x.sources[j]));
            }
            assert forall|j: int|
                0 <= j < p[i].destinations.len() implies p[i].value_groups.contains(
                #[trigger] p[i].destinations[j],
            ) by {
                assert(x.destinations.contains(x.destinations[j]));
                assert(!self.queue.contains(x.destinations[j]));
            }
            assert forall|g: usize| #[trigger]
                p[i].sources.contains(g) <==> p[i].value_groups.contains(g) && is_source(
                    s,
                    g as int,
                ) by {
                assert(!self.queue.contains(g));
            }
            assert forall|g: usize| #[trigger]
                p[i].destinations.contains(g) <==> p[i].value_groups.contains(g)
                    && is_destination(s, g as int) by {
                assert(!self.queue.contains(g));
            }
        }
        assert forall|n: usize| n < s.nodes.len() implies (captured_node(s, n as int)
            <==> exists|i: int| 0 <= i < p.len() && #[trigger] p[i].nodes.contains(n)) by {
            if captured_node(s, n as int) {
                self.lemma_captured_owned(s, n as int);
                let c = self.node_of(n as int);
                assert(self.mirrors(s, c));
                assert(self.clusters[c].nodes.contains(n));
                assert(kept.contains(c));
                let i = choose|i: int| 0 <= i < kept.len() && kept[i] == c;
                assert(p[i].nodes.contains(n));
            }
        }
        assert forall|i: int, j: int, a: usize, b: usize|
            0 <= i < p.len() && 0 <= j < p.len() && #[trigger] p[i].nodes.contains(a)
                && #[trigger] p[j].nodes.contains(b) implies (i == j <==> connected(
            s,
            a as int,
            b as int,
        )) by {
            assert(self.node_of(a as int) == kept[i]);
            assert(self.node_of(b as int) == kept[j]);
            if connected(s, a as int, b as int) {
                let d = choose|d: nat| linked(s, a as int, b as int, d);
                self.lemma_linked_together(s, a as int, b as int, d);
            }
        }
    }
}

/// What `a + b` holds: what `a` holds and what `b` holds. Where neither
/// repeats an element nor shares one with the other, `a + b` repeats none.
pub proof fn lemma_joined_lists<T>(a: Seq<T>, b: Seq<T>)
    ensures
        forall|x: T| #[trigger] (a + b).contains(x) <==> a.contains(x) || b.contains(x),
        a.no_duplicates() && b.no_duplicates() && (forall|x: T|
            !(a.contains(x) && b.contains(x))) ==> (a + b).no_duplicates(),
{
    assert forall|x: T| #[trigger] (a + b).contains(x) <==> a.contains(x) || b.contains(x) by {
        if a.contains(x) {
            let i = choose|i: int| 0 <= i < a.len() && a[i] == x;
            assert((a + b)[i] == x);
        }
        if b.contains(x) {
            let i = choose|i: int| 0 <= i < b.len() && b[i] == x;
            assert((a + b)[a.len() + i] == x);
        }
        if (a + b).contains(x) {
            let i = choose|i: int| 0 <= i < (a + b).len() && (a + b)[i] == x;
            if i < a.len() {
                assert(a[i] == x);
            } else {
                assert(b[i - a.len()] == x);
            }
        }
    }
    if a.no_duplicates() && b.no_duplicates() && (forall|x: T| !(a.contains(x) && b.contains(x))) {
        assert forall|i: int, j: int| 0 <= i < a.len() && 0 <= j < b.len() implies a[i]
            != b[j] by {
            assert(a.contains(a[i]));
            assert(b.contains(b[j]));
        }
        vstd::seq_lib::lemma_no_dup_in_concat(a, b);
    }
}

/// What `v.push(x)` holds: what `v` held, and `x`.
pub proof fn lemma_contains_after_push<T>(v: Seq<T>, x: T, y: T)
    ensures
        v.push(x).contains(y) <==> v.contains(y) || y == x,
        v.no_duplicates() && !v.contains(x) ==> v.push(x).no_duplicates(),
{
    if v.contains(y) {
        let j = choose|j: int| 0 <= j < v.len() && v[j] == y;
        assert(v.push(x)[j] == y);
    }
    assert(v.push(x)[v.len() as int] == x);
}

/// Which sockets come before the one after `(n0, k0)`: those before
/// `(n0, k0)`, and `(n0, k0)` itself.
pub proof fn lemma_next_socket(s: SurfaceView, n0: int, k0: int)
    requires
        s.has_socket(n0, k0),
    ensures
        forall|g: int|
            #![trigger seeded_before(s, g, n0, k0 + 1)]
            seeded_before(s, g, n0, k0 + 1) <==> seeded_before(s, g, n0, k0) || seeds(s, n0, k0, g),
        forall|g: int|
            #![trigger source_before(s, g, n0, k0 + 1)]
            source_before(s, g, n0, k0 + 1) <==> source_before(s, g, n0, k0) || (seeds(
                s,
                n0,
                k0,
                g,
            ) && s.nodes[n0].sockets[k0].value_written),
        forall|g: int|
            #![trigger destination_before(s, g, n0, k0 + 1)]
            destination_before(s, g, n0, k0 + 1) <==> destination_before(s, g, n0, k0) || (seeds(
                s,
                n0,
                k0,
                g,
            ) && s.nodes[n0].sockets[k0].value_read),
{
    assert forall|g: int|
        #![trigger seeded_before(s, g, n0, k0 + 1)]
        seeded_before(s, g, n0, k0 + 1) <==> seeded_before(s, g, n0, k0) || seeds(
            s,
            n0,
            k0,
            g,
        ) by {
        if seeded_before(s, g, n0, k0) {
            let (n, k) = choose|n: int, k: int| #[trigger]
                seeds(s, n, k, g) && before(n, k, n0, k0);
            assert(seeds(s, n, k, g) && before(n, k, n0, k0 + 1));
        }
        if seeds(s, n0, k0, g) {
            assert(before(n0, k0, n0, k0 + 1));
        }
    }
    assert forall|g: int|
        #![trigger source_before(s, g, n0, k0 + 1)]
        source_before(s, g, n0, k0 + 1) <==> source_before(s, g, n0, k0) || (seeds(s, n0, k0, g)
            && s.nodes[n0].sockets[k0].value_written) by {
        if source_before(s, g, n0, k0) {
            let (n, k) = choose|n: int, k: int|
                #[trigger] seeds(s, n, k, g) && s.nodes[n].sockets[k].value_written && before(
                    n,
                    k,
                    n0,
                    k0,
                );
            assert(seeds(s, n, k, g) && before(n, k, n0, k0 + 1));
        }
        if seeds(s, n0, k0, g) {
            assert(before(n0, k0, n0, k0 + 1));
        }
    }
    assert forall|g: int|
        #![trigger destination_before(s, g, n0, k0 + 1)]
        destination_before(s, g, n0, k0 + 1) <==> destination_before(s, g, n0, k0) || (seeds(
            s,
            n0,
            k0,
            g,
        ) && s.nodes[n0].sockets[k0].value_read) by {
        if destination_before(s, g, n0, k0) {
            let (n, k) = choose|n: int, k: int|
                #[trigger] seeds(s, n, k, g) && s.nodes[n].sockets[k].value_read && before(
                    n,
                    k,
                    n0,
                    k0,
                );
            assert(seeds(s, n, k, g) && before(n, k, n0, k0 + 1));
        }
        if seeds(s, n0, k0, g) {
            assert(before(n0, k0, n0, k0 + 1));
        }
    }
}

/// Which sockets come before the first one of the node after `n0`: those
/// before the end of `n0`.
pub proof fn lemma_next_node(s: SurfaceView, n0: int)
    requires
        0 <= n0 < s.nodes.len(),
    ensures
        forall|n: int, k: int| #[trigger]
            s.has_socket(n, k) ==> (before(n, k, n0 + 1, 0) <==> before(
                n,
                k,
                n0,
                s.nodes[n0].sockets.len() as int,
            )),
        forall|g: int|
            #![trigger seeded_before(s, g, n0 + 1, 0)]
            seeded_before(s, g, n0 + 1, 0) <==> seeded_before(
                s,
                g,
                n0,
                s.nodes[n0].sockets.len() as int,
            ),
        forall|g: int|
            #![trigger source_before(s, g, n0 + 1, 0)]
            source_before(s, g, n0 + 1, 0) <==> source_before(
                s,
                g,
                n0,
                s.nodes[n0].sockets.len() as int,
            ),
        forall|g: int|
            #![trigger destination_before(s, g, n0 + 1, 0)]
            destination_before(s, g, n0 + 1, 0) <==> destination_before(
                s,
                g,
                n0,
                s.nodes[n0].sockets.len() as int,
            ),
{
    let len = s.nodes[n0].sockets.len() as int;
    assert forall|g: int|
        #![trigger seeded_before(s, g, n0 + 1, 0)]
        seeded_before(s, g, n0 + 1, 0) <==> seeded_before(s, g, n0, len) by {
        if seeded_before(s, g, n0 + 1, 0) {
            let (n, k) = choose|n: int, k: int| #[trigger]
                seeds(s, n, k, g) && before(n, k, n0 + 1, 0);
            assert(seeds(s, n, k, g) && before(n, k, n0, len));
        }
        if seeded_before(s, g, n0, len) {
            let (n, k) = choose|n: int, k: int| #[trigger]
                seeds(s, n, k, g) && before(n, k, n0, len);
            assert(seeds(s, n, k, g) && before(n, k, n0 + 1, 0));
        }
    }
    assert forall|g: int|
        #![trigger source_before(s, g, n0 + 1, 0)]
        source_before(s, g, n0 + 1, 0) <==> source_before(s, g, n0, len) by {
        if source_before(s, g, n0 + 1, 0) {
            let (n, k) = choose|n: int, k: int|
                #[trigger] seeds(s, n, k, g) && s.nodes[n].sockets[k].value_written && before(
                    n,
                    k,
                    n0 + 1,
                    0,
                );
            assert(seeds(s, n, k, g) && before(n, k, n0, len));
        }
        if source_before(s, g, n0, len) {
            let (n, k) = choose|n: int, k: int|
                #[trigger] seeds(s, n, k, g) && s.nodes[n].sockets[k].value_written && before(
                    n,
                    k,
                    n0,
                    len,
                );
            assert(seeds(s, n, k, g) && before(n, k, n0 + 1, 0));
        }
    }
    assert forall|g: int|
        #![trigger destination_before(s, g, n0 + 1, 0)]
        destination_before(s, g, n0 + 1, 0) <==> destination_before(s, g, n0, len) by {
        if destination_before(s, g, n0 + 1, 0) {
            let (n, k) = choose|n: int, k: int|
                #[trigger] seeds(s, n, k, g) && s.nodes[n].sockets[k].value_read && before(
                    n,
                    k,
                    n0 + 1,
                    0,
                );
            assert(seeds(s, n, k, g) && before(n, k, n0, len));
        }
        if destination_before(s, g, n0, len) {
            let (n, k) = choose|n: int, k: int|
                #[trigger] seeds(s, n, k, g) && s.nodes[n].sockets[k].value_read && before(
                    n,
                    k,
                    n0,
                    len,
                );
            assert(seeds(s, n, k, g) && before(n, k, n0 + 1, 0));
        }
    }
}

/// A list of numbers below `bound`, none of them twice, has at most `bound`
/// entries.
pub proof fn lemma_distinct_bounded(v: Seq<usize>, bound: nat)
    requires
        v.no_duplicates(),
        forall|i: int| 0 <= i < v.len() ==> v[i] < bound,
    ensures
        v.len() <= bound,
    decreases bound,
{
    if v.len() > 0 {
        if bound == 0 {
            assert(v[0] < bound);
        } else {
            let top = (bound - 1) as usize;
            if v.contains(top) {
                let i = choose|i: int| 0 <= i < v.len() && v[i] == top;
                let w = v.remove(i);
                assert forall|j: int| 0 <= j < w.len() implies w[j] < bound - 1 by {
                    if j < i {
                        assert(w[j] == v[j]);
                    } else {
                        assert(w[j] == v[j + 1]);
                    }
                }
                assert(w.no_duplicates());
                lemma_distinct_bounded(w, (bound - 1) as nat);
            } else {
                assert forall|j: int| 0 <= j < v.len() implies v[j] < bound - 1 by {
                    assert(v.contains(v[j]));
                }
                lemma_distinct_bounded(v, (bound - 1) as nat);
            }
        }
    }
}

} // verus!
