//! The search for clusters, step by step.

use crate::mir::Surface;
use crate::pass::clusters::{binds, draws, reads, seeds};
use crate::pass::group_extracted::{
    is_extraction_plan, merge_extract_groups, plan_of, strictly_increasing, ExtractGroup,
    ExtractGroupView, ValueGroupData, ValueGroupRef,
};
use crate::pass::search::{
    before, destination_before, lemma_contains_after_push, lemma_next_socket, noted,
    seeded_before, source_before, Search,
};
use std::collections::VecDeque;
use vstd::prelude::*;

verus! {

/// Whether `x` occurs in `v`.
fn contains(v: &Vec<usize>, x: usize) -> (r: bool)
    ensures
        r == v@.contains(x),
{
    let mut i: usize = 0;
    while i < v.len()
        invariant
            i <= v.len(),
            forall|j: int| 0 <= j < i ==> v@[j] != x,
        decreases v.len() - i,
    {
        if v[i] == x {
            return true;
        }
        i += 1;
    }
    false
}

/// The bookkeeping of one search through a surface.
pub struct Tracer {
    extract_groups: Vec<ExtractGroup>,
    value_groups: Vec<ValueGroupData>,
    trace_queue: VecDeque<ValueGroupRef>,
    value_group_extracts: Vec<Option<usize>>,
    node_extracts: Vec<Option<usize>>,
}

impl View for Tracer {
    type V = Search;

    closed spec fn view(&self) -> Search {
        Search {
            clusters: self.extract_groups@.map_values(|x: ExtractGroup| x@),
            index: self.value_groups@.map_values(|d: ValueGroupData| d.sockets@),
            queue: self.trace_queue@,
            group_owner: self.value_group_extracts@,
            node_owner: self.node_extracts@,
        }
    }
}

impl Tracer {
    /// Empty tables for a surface of that size.
    pub fn new(surface: &Surface) -> (r: Self)
        requires
            surface@.well_formed(),
        ensures
            r@.seeding(surface@, 0, 0),
    {
        let mut value_groups: Vec<ValueGroupData> = Vec::new();
        let mut value_group_extracts: Vec<Option<usize>> = Vec::new();
        let mut g: usize = 0;
        while g < surface.groups.len()
            invariant
                g <= surface.groups.len(),
                value_groups.len() == g,
                value_group_extracts.len() == g,
                forall|i: int| 0 <= i < g ==> (#[trigger] value_groups@[i]).sockets@.len() == 0,
                forall|i: int| 0 <= i < g ==> (#[trigger] value_group_extracts@[i]).is_none(),
            decreases surface.groups.len() - g,
        {
            value_groups.push(ValueGroupData::new());
            value_group_extracts.push(None);
            g += 1;
        }
        let mut node_extracts: Vec<Option<usize>> = Vec::new();
        let mut n: usize = 0;
        while n < surface.nodes.len()
            invariant
                n <= surface.nodes.len(),
                node_extracts.len() == n,
                forall|i: int| 0 <= i < n ==> (#[trigger] node_extracts@[i]).is_none(),
            decreases surface.nodes.len() - n,
        {
            node_extracts.push(None);
            n += 1;
        }
        let r = Tracer {
            extract_groups: Vec::new(),
            value_groups,
            trace_queue: VecDeque::new(),
            value_group_extracts,
            node_extracts,
        };
        proof {
            let s = surface@;
            let t = r@;
            assert forall|n: int| 0 <= n < s.nodes.len() implies (#[trigger] s.nodes[n]).sockets.len()
                <= usize::MAX by {
                assert(s.nodes[n].sockets.len() == surface.nodes@[n].sockets.len());
            }
            assert forall|g: int| 0 <= g < s.groups.len() implies !seeded_before(s, g, 0, 0) by {}
            assert forall|g: int| 0 <= g < s.groups.len() implies #[trigger] t.group_of(g)
                == -1 by {}
        }
        r
    }

    /// Whether a group waits in the queue.
    pub fn has_queued(&self) -> (r: bool)
        ensures
            r == (self@.queue.len() > 0),
    {
        self.trace_queue.len() > 0
    }

    /// Looks at one socket for the first time: files it under its group and,
    /// if it is an extractor socket, makes sure the group has a cluster and
    /// is queued, and notes whether the group feeds or collects.
    pub fn index_socket(&mut self, surface: &Surface, node_index: usize, socket_index: usize)
        requires
            surface@.well_formed(),
            surface@.has_socket(node_index as int, socket_index as int),
            old(self)@.seeding(surface@, node_index as int, socket_index as int),
        ensures
            final(self)@.seeding(surface@, node_index as int, socket_index + 1),
    {
        let ghost s = surface@;
        let ghost t0 = self@;
        let socket = surface.nodes[node_index].sockets[socket_index];
        let group_id = socket.group_id;
        assert(socket == s.nodes[node_index as int].sockets[socket_index as int]);
        assert(binds(s, node_index as int, socket_index as int, group_id as int));
        proof {
            lemma_next_socket(s, node_index as int, socket_index as int);
        }
        self.value_groups[group_id].sockets.push((node_index, socket_index));
        assert(self@.index =~= t0.index.update(
            group_id as int,
            t0.index[group_id as int].push((node_index, socket_index)),
        ));
        assert(self@.indexed(s, node_index as int, socket_index + 1)) by {
            let t = self@;
            assert forall|n: int, k: int, g: int| #[trigger]
                binds(s, n, k, g) && before(
                    n,
                    k,
                    node_index as int,
                    socket_index + 1,
                ) implies t.index[g].contains((n as usize, k as usize)) by {
                if before(n, k, node_index as int, socket_index as int) {
                    let j = choose|j: int|
                        0 <= j < t0.index[g].len() && t0.index[g][j] == (n as usize, k as usize);
                    assert(t.index[g][j] == (n as usize, k as usize));
                } else {
                    assert(t.index[g][t0.index[g].len() as int] == (n as usize, k as usize));
                }
            }
        }
        if socket.is_extractor {
            assert(t0.group_of(group_id as int) < t0.clusters.len());
            let extract_group_index = match self.value_group_extracts[group_id] {
                Some(existing_group) => existing_group,
                None => {
                    let group_index = self.extract_groups.len();
                    self.value_group_extracts[group_id] = Some(group_index);
                    self.extract_groups.push(ExtractGroup::new());
                    self.trace_queue.push_back(group_id);
                    assert(self@.clusters =~= t0.clusters.push(ExtractGroupView::empty()));
                    group_index
                },
            };
            let ghost t1 = self@;
            let ghost c0 = extract_group_index as int;
            if socket.value_written {
                note(&mut self.extract_groups[extract_group_index].sources, group_id);
            }
            if socket.value_read {
                note(&mut self.extract_groups[extract_group_index].destinations, group_id);
            }
            proof {
                let t = self@;
                assert(t.clusters.len() == t1.clusters.len());
                assert(t.group_of(group_id as int) == c0);
                assert forall|g: int|
                    0 <= g < s.groups.len() && g != group_id implies #[trigger] t.group_of(g)
                    == t0.group_of(g) by {}
                assert forall|n: int| 0 <= n < s.nodes.len() implies #[trigger] t.node_of(n)
                    == t0.node_of(n) by {}
                assert forall|c: int| 0 <= c < t.clusters.len() && c != c0 implies t.clusters[c]
                    == t1.clusters[c] by {}
                assert(t.clusters[c0].nodes == t1.clusters[c0].nodes);
                assert(t.clusters[c0].value_groups == t1.clusters[c0].value_groups);
                assert(t.clusters[c0].sources == if socket.value_written {
                    noted(t1.clusters[c0].sources, group_id)
                } else {
                    t1.clusters[c0].sources
                });
                assert(t.clusters[c0].destinations == if socket.value_read {
                    noted(t1.clusters[c0].destinations, group_id)
                } else {
                    t1.clusters[c0].destinations
                });
                assert(seeds(s, node_index as int, socket_index as int, group_id as int));
                assert(t.clusters.len() == self.extract_groups.len());
                assert(t.shaped(s));
                assert forall|g: usize| #[trigger]
                    t.queue.contains(g) <==> g < s.groups.len() && t.group_of(g as int) >= 0 by {
                    if t0.group_of(group_id as int) < 0 {
                        lemma_contains_after_push(t0.queue, group_id, g);
                    }
                }
                assert(t.queue.no_duplicates()) by {
                    if t0.group_of(group_id as int) < 0 {
                        lemma_contains_after_push(t0.queue, group_id, group_id);
                    }
                }
                assert forall|c: int| 0 <= c < t.clusters.len() implies {
                    &&& (#[trigger] t.clusters[c]).nodes.len() == 0
                    &&& t.clusters[c].value_groups.len() == 0
                    &&& t.clusters[c].sources.no_duplicates()
                    &&& t.clusters[c].destinations.no_duplicates()
                } by {
                    if c == c0 {
                        lemma_contains_after_push(t1.clusters[c0].sources, group_id, group_id);
                        lemma_contains_after_push(
                            t1.clusters[c0].destinations,
                            group_id,
                            group_id,
                        );
                    }
                    if c < t0.clusters.len() {
                        assert(t1.clusters[c] == t0.clusters[c]);
                    }
                }
                assert forall|c: int, g: usize| 0 <= c < t.clusters.len() implies (
                #[trigger] t.clusters[c].sources.contains(g) <==> g < s.groups.len() && t.group_of(
                    g as int,
                ) == c && source_before(s, g as int, node_index as int, socket_index + 1)) by {
                    if c < t0.clusters.len() {
                        assert(t1.clusters[c] == t0.clusters[c]);
                    }
                    if c == c0 {
                        lemma_contains_after_push(t1.clusters[c0].sources, group_id, g);
                    }
                }
                assert forall|c: int, g: usize| 0 <= c < t.clusters.len() implies (
                #[trigger] t.clusters[c].destinations.contains(g) <==> g < s.groups.len()
                    && t.group_of(g as int) == c && destination_before(
                    s,
                    g as int,
                    node_index as int,
                    socket_index + 1,
                )) by {
                    if c < t0.clusters.len() {
                        assert(t1.clusters[c] == t0.clusters[c]);
                    }
                    if c == c0 {
                        lemma_contains_after_push(t1.clusters[c0].destinations, group_id, g);
                    }
                }
            }
        } else {
            proof {
                let t = self@;
                assert(!seeds(s, node_index as int, socket_index as int, group_id as int));
                assert(t.clusters =~= t0.clusters);
                assert(t.queue == t0.queue);
                assert forall|g: int| 0 <= g < s.groups.len() implies #[trigger] t.group_of(g)
                    == t0.group_of(g) by {}
                assert forall|n: int| 0 <= n < s.nodes.len() implies #[trigger] t.node_of(n)
                    == t0.node_of(n) by {}
            }
        }
    }

    /// Makes the node part of the cluster, and with it every group it is
    /// wired to: a group without a cluster joins this one and is queued, and
    /// a cluster that already has one of the groups is merged into this one.
    fn claim_node(
        &mut self,
        surface: &Surface,
        value_group_index: usize,
        extract_group_index: usize,
        node_index: usize,
    )
        requires
            surface@.well_formed(),
            old(self)@.tracing(surface@, value_group_index as int, -1, 0),
            value_group_index < surface.groups.len(),
            old(self)@.group_of(value_group_index as int) == extract_group_index,
            node_index < surface.nodes.len(),
            old(self)@.node_of(node_index as int) == -1,
            reads(surface@, node_index as int, value_group_index as int),
        ensures
            final(self)@.tracing(surface@, value_group_index as int, -1, 0),
            final(self)@.group_of(value_group_index as int) == extract_group_index,
            final(self)@.node_of(node_index as int) >= 0,
            final(self)@.grown_from(old(self)@, surface@),
    {
        let ghost s = surface@;
        let ghost cur = value_group_index as int;
        let ghost t0 = self@;
        proof {
            t0.lemma_tracing_basics(s, cur, -1, 0);
        }
        assert(t0.group_of(cur) < t0.clusters.len());
        self.extract_groups[extract_group_index].nodes.push(node_index);
        self.node_extracts[node_index] = Some(extract_group_index);
        proof {
            t0.lemma_claimed(s, cur, node_index as int);
            let t = t0.claimed(extract_group_index as int, node_index as int);
            assert(self@.clusters =~= t.clusters);
            assert(self@.node_owner =~= t.node_owner);
            assert(self@ == t);
        }
        let ghost t1 = self@;
        let socket_count = surface.nodes[node_index].sockets.len();
        let mut socket_index: usize = 0;
        while socket_index < socket_count
            invariant
                s == surface@,
                s.well_formed(),
                cur == value_group_index,
                node_index < surface.nodes.len(),
                socket_count == surface.nodes[node_index as int].sockets.len(),
                socket_index <= socket_count,
                self@.tracing(s, cur, node_index as int, socket_index as int),
                self@.group_of(cur) == extract_group_index,
                self@.node_of(node_index as int) == extract_group_index,
                self@.grown_from(t1, s),
            decreases socket_count - socket_index,
        {
            let ghost t = self@;
            proof {
                t.lemma_tracing_basics(s, cur, node_index as int, socket_index as int);
            }
            let group_id = surface.nodes[node_index].sockets[socket_index].group_id;
            assert(s.has_socket(node_index as int, socket_index as int));
            assert(group_id == s.nodes[node_index as int].sockets[socket_index as int].group_id);
            assert(t.group_of(group_id as int) < t.clusters.len());
            match self.value_group_extracts[group_id] {
                None => {
                    self.value_group_extracts[group_id] = Some(extract_group_index);
                    self.trace_queue.push_back(group_id);
                    proof {
                        t.lemma_enlisted(
                            s,
                            cur,
                            node_index as int,
                            socket_index as int,
                            extract_group_index as int,
                        );
                        let u = t.enlisted(extract_group_index as int, group_id as int);
                        assert(self@.clusters =~= u.clusters);
                        assert(self@ == u);
                        u.lemma_grown_on(t, t1, s);
                    }
                },
                Some(other_index) => {
                    if other_index != extract_group_index {
                        merge_extract_groups(
                            extract_group_index,
                            other_index,
                            &mut self.extract_groups,
                            &mut self.value_group_extracts,
                            &mut self.node_extracts,
                        );
                        proof {
                            t.lemma_merged(s, cur, node_index as int, socket_index as int);
                            let u = t.merged(extract_group_index as int, other_index as int);
                            t.lemma_merged_tables(
                                s,
                                extract_group_index as int,
                                other_index as int,
                            );
                            assert(self@.clusters =~= u.clusters);
                            assert(self@ == u);
                            u.lemma_grown_on(t, t1, s);
                        }
                    } else {
                        proof {
                            t.lemma_socket_done(s, cur, node_index as int, socket_index as int);
                        }
                    }
                },
            }
            socket_index += 1;
        }
        proof {
            self@.lemma_claim_done(s, cur, node_index as int);
            self@.lemma_grown_on(t1, t0, s);
        }
    }

    /// Takes the next group from the queue and spreads the search from it:
    /// every node that reads the group through an ordinary socket, and has
    /// no cluster yet, is claimed for the cluster of the group. What is left
    /// alone: nodes bound to the group by an extractor socket or one that only
    /// writes, and nodes that have a cluster. Such a node is in this cluster
    /// by then, since claiming it brought all its groups along.
    pub fn trace_next_group(&mut self, surface: &Surface) -> (value_group_index: usize)
        requires
            surface@.well_formed(),
            old(self)@.tracing(surface@, -1, -1, 0),
            old(self)@.queue.len() > 0,
        ensures
            final(self)@.tracing(surface@, -1, -1, 0),
            final(self)@.grown_from(old(self)@, surface@),
            value_group_index == old(self)@.queue[0],
            !final(self)@.queue.contains(value_group_index),
    {
        let ghost s = surface@;
        let ghost t0 = self@;
        proof {
            t0.lemma_tracing_basics(s, -1, -1, 0);
            t0.lemma_taken(s);
            assert(t0.queue.contains(t0.queue[0]));
        }
        let value_group_index = self.trace_queue.pop_front().unwrap();
        let ghost cur = value_group_index as int;
        assert(t0.group_of(cur) < t0.clusters.len());
        let extract_group_index = self.value_group_extracts[value_group_index].unwrap();
        self.extract_groups[extract_group_index].value_groups.push(value_group_index);
        proof {
            let t = t0.taken();
            assert(self@.clusters =~= t.clusters);
            assert(self@ == t);
        }
        let ghost t1 = self@;
        proof {
            t1.lemma_tracing_basics(s, cur, -1, 0);
        }
        let bound_count = self.value_groups[value_group_index].sockets.len();
        let mut bound_index: usize = 0;
        while bound_index < bound_count
            invariant
                s == surface@,
                s.well_formed(),
                cur == value_group_index,
                value_group_index < surface.groups.len(),
                bound_count == self@.index[cur].len(),
                bound_index <= bound_count,
                self@.tracing(s, cur, -1, 0),
                self@.group_of(cur) == extract_group_index,
                self@.grown_from(t1, s),
                forall|j: int|
                    0 <= j < bound_index && draws(
                        s,
                        (#[trigger] self@.index[cur][j]).0 as int,
                        self@.index[cur][j].1 as int,
                        cur,
                    ) ==> self@.node_of(self@.index[cur][j].0 as int) >= 0,
            decreases bound_count - bound_index,
        {
            let ghost t = self@;
            proof {
                t.lemma_tracing_basics(s, cur, -1, 0);
            }
            let (connected_node_index, connected_socket_index) =
                self.value_groups[value_group_index].sockets[bound_index];
            assert((connected_node_index, connected_socket_index) == t.index[cur][bound_index as int]);
            assert(binds(s, connected_node_index as int, connected_socket_index as int, cur));
            let connected_socket =
                surface.nodes[connected_node_index].sockets[connected_socket_index];
            assert(connected_socket == s.nodes[connected_node_index as int].sockets[connected_socket_index as int]);
            if self.node_extracts[connected_node_index].is_none() && !connected_socket.is_extractor
                && connected_socket.value_read {
                assert(draws(s, connected_node_index as int, connected_socket_index as int, cur));
                self.claim_node(
                    surface,
                    value_group_index,
                    extract_group_index,
                    connected_node_index,
                );
            }
            proof {
                let u = self@;
                u.lemma_tracing_basics(s, cur, -1, 0);
                u.lemma_grown_on(t, t1, s);
                assert forall|j: int|
                    0 <= j < bound_index + 1 && draws(
                        s,
                        (#[trigger] u.index[cur][j]).0 as int,
                        u.index[cur][j].1 as int,
                        cur,
                    ) implies u.node_of(u.index[cur][j].0 as int) >= 0 by {
                    let m = t.index[cur][j].0 as int;
                    assert(binds(s, m, t.index[cur][j].1 as int, cur));
                    if j < bound_index {
                        assert(t.node_of(m) >= 0);
                    }
                }
            }
            bound_index += 1;
        }
        proof {
            let u = self@;
            u.lemma_tracing_basics(s, cur, -1, 0);
            assert forall|n: int, k: int| #[trigger] draws(s, n, k, cur) implies u.node_of(n)
                >= 0 by {
                assert(binds(s, n, k, cur));
                assert(u.index[cur].contains((n as usize, k as usize)));
                let j = choose|j: int|
                    0 <= j < u.index[cur].len() && u.index[cur][j] == (n as usize, k as usize);
                assert(u.index[cur][j].0 == n && u.index[cur][j].1 == k);
            }
            u.lemma_group_done(s, cur);
            u.lemma_grown_on(t1, t0, s);
            assert(!u.queue.contains(value_group_index)) by {
                if u.queue.contains(value_group_index) {
                    assert(t1.group_of(cur) >= 0);
                }
            }
        }
        value_group_index
    }

    /// Ends the search: hands out the clusters that have nodes, in the order
    /// in which they were made, each with its nodes in increasing order.
    pub fn into_groups(self, surface: &Surface) -> (r: Vec<ExtractGroup>)
        requires
            surface@.well_formed(),
            self@.settled(surface@),
        ensures
            is_extraction_plan(surface@, plan_of(r@)),
    {
        let ghost s = surface@;
        let ghost t = self@;
        proof {
            t.lemma_tracing_basics(s, -1, -1, 0);
        }
        let mut extract_groups = self.extract_groups;
        let mut kept_groups: Vec<ExtractGroup> = Vec::new();
        let ghost mut kept: Seq<int> = Seq::empty();
        let mut index: usize = 0;
        while index < extract_groups.len()
            invariant
                index <= extract_groups.len(),
                extract_groups.len() == t.clusters.len(),
                forall|c: int| index <= c < extract_groups.len() ==> extract_groups[c]@ == t.clusters[c],
                forall|c: int| 0 <= c < t.clusters.len() ==> #[trigger] t.mirrors(s, c),
                kept.len() == kept_groups.len(),
                kept.no_duplicates(),
                forall|i: int| 0 <= i < kept.len() ==> 0 <= #[trigger] kept[i] < index,
                forall|c: int|
                    0 <= c < index && (#[trigger] t.clusters[c]).nodes.len() > 0 ==> kept.contains(
                        c,
                    ),
                forall|i: int|
                    0 <= i < kept_groups.len() ==> {
                        &&& (#[trigger] kept_groups[i])@.value_groups
                            == t.clusters[kept[i]].value_groups
                        &&& kept_groups[i]@.sources == t.clusters[kept[i]].sources
                        &&& kept_groups[i]@.destinations == t.clusters[kept[i]].destinations
                        &&& kept_groups[i]@.nodes.len() > 0
                        &&& strictly_increasing(kept_groups[i]@.nodes)
                        &&& forall|n: usize|
                            kept_groups[i]@.nodes.contains(n) <==> t.clusters[kept[i]].nodes.contains(
                                n,
                            )
                    },
            decreases extract_groups.len() - index,
        {
            assert(t.mirrors(s, index as int));
            if !extract_groups[index].nodes.is_empty() {
                let mut group = ExtractGroup::new();
                std::mem::swap(&mut extract_groups[index], &mut group);
                group.nodes = in_increasing_order(&group.nodes);
                kept_groups.push(group);
                proof {
                    let before_kept = kept;
                    kept = kept.push(index as int);
                    assert forall|c: int|
                        0 <= c < index + 1 && (#[trigger] t.clusters[c]).nodes.len()
                            > 0 implies kept.contains(c) by {
                        lemma_contains_after_push(before_kept, index as int, c);
                    }
                }
            }
            index += 1;
        }
        proof {
            let p = plan_of(kept_groups@);
            assert forall|i: int| 0 <= i < p.len() implies {
                &&& (#[trigger] p[i]).value_groups == t.clusters[kept[i]].value_groups
                &&& p[i].sources == t.clusters[kept[i]].sources
                &&& p[i].destinations == t.clusters[kept[i]].destinations
                &&& p[i].nodes.len() > 0
                &&& strictly_increasing(p[i].nodes)
                &&& forall|n: usize|
                    p[i].nodes.contains(n) <==> t.clusters[kept[i]].nodes.contains(n)
            } by {
                assert(p[i] == kept_groups[i]@);
            }
            t.lemma_plan(s, kept, p);
        }
        kept_groups
    }
}

/// Puts `x` where it belongs in an increasing list.
fn insert_in_order(list: &mut Vec<usize>, x: usize)
    requires
        strictly_increasing(old(list)@),
        !old(list)@.contains(x),
    ensures
        strictly_increasing(final(list)@),
        final(list)@.len() == old(list)@.len() + 1,
        forall|y: usize| final(list)@.contains(y) <==> old(list)@.contains(y) || y == x,
{
    let mut position: usize = 0;
    while position < list.len() && list[position] < x
        invariant
            position <= list.len(),
            list@ == old(list)@,
            forall|j: int| 0 <= j < position ==> list@[j] < x,
        decreases list.len() - position,
    {
        position += 1;
    }
    list.insert(position, x);
    proof {
        let a = old(list)@;
        let b = list@;
        assert forall|i: int, j: int| 0 <= i < j < b.len() implies b[i] < b[j] by {
            if position < a.len() {
                assert(a.contains(a[position as int]));
            }
        }
        assert forall|y: usize| b.contains(y) <==> a.contains(y) || y == x by {
            if a.contains(y) {
                let j = choose|j: int| 0 <= j < a.len() && a[j] == y;
                if j < position {
                    assert(b[j] == y);
                } else {
                    assert(b[j + 1] == y);
                }
            }
            assert(b[position as int] == x);
            if b.contains(y) && y != x {
                let j = choose|j: int| 0 <= j < b.len() && b[j] == y;
                if j < position {
                    assert(a[j] == y);
                } else {
                    assert(a[j - 1] == y);
                }
            }
        }
    }
}

/// The entries of the list in increasing order.
fn in_increasing_order(list: &Vec<usize>) -> (r: Vec<usize>)
    requires
        list@.no_duplicates(),
    ensures
        strictly_increasing(r@),
        r@.len() == list@.len(),
        forall|y: usize| r@.contains(y) <==> list@.contains(y),
{
    let mut ordered: Vec<usize> = Vec::new();
    let mut index: usize = 0;
    while index < list.len()
        invariant
            index <= list.len(),
            list@.no_duplicates(),
            strictly_increasing(ordered@),
            ordered@.len() == index,
            forall|y: usize|
                ordered@.contains(y) <==> exists|j: int| 0 <= j < index && list@[j] == y,
        decreases list.len() - index,
    {
        insert_in_order(&mut ordered, list[index]);
        index += 1;
    }
    ordered
}

/// Adds `x` to the list unless it is there.
fn note(list: &mut Vec<usize>, x: usize)
    ensures
        final(list)@ == noted(old(list)@, x),
{
    if !contains(list, x) {
        list.push(x);
    }
}

} // verus!
