//! Per-vertex degree trajectory tracking.
//!
//! For each tracked arrival time the tracker records which node is the
//! subject of that arrival and, once per elapsed step since the arrival,
//! that node's current degree.

use vstd::prelude::*;

use crate::graph::SimGraph;
use crate::graph::degree_of;
use crate::graph::index_limit;

verus! {

/// One tracked arrival: the time, the subject node, and the degree
/// observations recorded so far.
#[derive(Clone)]
pub struct TrackedVertex {
    arrival: usize,
    node: usize,
    trajectory: Vec<usize>,
}

/// A model that exposes recorded degree trajectories and accepts degree
/// observations from a graph.
pub trait TrackVertices {
    fn get_arrival_evolution(&self, arrival_time: &usize) -> Option<Vec<usize>>;

    fn update(&mut self, graph: &SimGraph, time: usize);
}

/// The trajectory the first entry registered under arrival time `a` holds,
/// or absence when no entry is registered under `a` or the registered entry
/// has no recorded observation yet.
pub open spec fn lookup_seq(es: Seq<(usize, usize, Seq<usize>)>, a: usize) -> Option<Seq<usize>>
    decreases es.len(),
{
    if es.len() == 0 {
        None
    } else if es.first().0 == a {
        if es.first().2.len() > 0 {
            Some(es.first().2)
        } else {
            None
        }
    } else {
        lookup_seq(es.drop_first(), a)
    }
}

/// Registry of tracked arrivals and their degree trajectories.
#[derive(Clone)]
pub struct VerticesEvolution {
    entries: Vec<TrackedVertex>,
}

impl VerticesEvolution {
    /// The tracked entries, each as (arrival time, node, trajectory).
    pub closed spec fn entry_seq(self) -> Seq<(usize, usize, Seq<usize>)> {
        self.entries@.map_values(|t: TrackedVertex| (t.arrival, t.node, t.trajectory@))
    }

    /// Some entry is registered under arrival time `a`.
    pub open spec fn has_arrival(self, a: usize) -> bool {
        exists|i: int| 0 <= i < self.entry_seq().len() && (#[trigger] self.entry_seq()[i]).0 == a
    }

    /// Some entry tracks node `v`.
    pub open spec fn has_node(self, v: usize) -> bool {
        exists|i: int| 0 <= i < self.entry_seq().len() && (#[trigger] self.entry_seq()[i]).1 == v
    }

    /// The trajectory of the entry registered under arrival time `a`; when
    /// `wf()` holds and the arrival is registered, this is that entry's
    /// recorded degree sequence.
    pub open spec fn traj_of(self, a: usize) -> Seq<usize> {
        let i = choose|i: int|
            0 <= i < self.entry_seq().len() && (#[trigger] self.entry_seq()[i]).0 == a;
        self.entry_seq()[i].2
    }

    /// What `get_arrival_evolution` reports for arrival time `a`.
    pub open spec fn lookup(self, a: usize) -> Option<Seq<usize>> {
        lookup_seq(self.entry_seq(), a)
    }

    /// Arrival times are registered once and a node is tracked under at most
    /// one arrival.
    pub open spec fn wf(self) -> bool {
        forall|i: int, j: int|
            0 <= i < j < self.entry_seq().len() ==> (#[trigger] self.entry_seq()[i]).0 != (
            #[trigger] self.entry_seq()[j]).0 && self.entry_seq()[i].1 != self.entry_seq()[j].1
    }

    pub fn new() -> (r: VerticesEvolution)
        ensures
            r.entry_seq().len() == 0,
    {
        VerticesEvolution { entries: Vec::new() }
    }

    /// Registers `vertex` as the subject of `arrival`. A second registration
    /// for an already-taken arrival time, or for a node that is already
    /// tracked under another arrival, is ignored, so registration is
    /// idempotent and no node is ever tracked twice.
    pub fn track_vertex(&mut self, arrival: usize, vertex: usize)
        ensures
            old(self).has_arrival(arrival) || old(self).has_node(vertex) ==> *final(self)
                == *old(self),
            !(old(self).has_arrival(arrival) || old(self).has_node(vertex))
                ==> final(self).entry_seq() == old(self).entry_seq().push(
                (arrival, vertex, Seq::<usize>::empty()),
            ),
    {
        let n = self.entries.len();
        let mut i: usize = 0;
        while i < n
            invariant
                i <= n,
                n == self.entry_seq().len(),
                forall|k: int|
                    0 <= k < i ==> (#[trigger] self.entry_seq()[k]).0 != arrival
                        && self.entry_seq()[k].1 != vertex,
            decreases n - i,
        {
            let hit = self.entries[i].arrival == arrival || self.entries[i].node == vertex;
            proof {
                assert(self.entry_seq()[i as int] == (
                    self.entries@[i as int].arrival,
                    self.entries@[i as int].node,
                    self.entries@[i as int].trajectory@,
                ));
            }
            if hit {
                return ;
            }
            i = i + 1;
        }
        let ghost pre = self.entry_seq();
        self.entries.push(TrackedVertex { arrival, node: vertex, trajectory: Vec::new() });
        proof {
            assert(self.entries@.drop_last() =~= old(self).entries@);
            assert(self.entry_seq() =~= pre.push((arrival, vertex, Seq::<usize>::empty())));
        }
    }

    /// Does some entry track node `v`?
    pub fn is_tracked(&self, v: usize) -> (r: bool)
        ensures
            r == self.has_node(v),
    {
        let n = self.entries.len();
        let mut i: usize = 0;
        while i < n
            invariant
                i <= n,
                n == self.entry_seq().len(),
                forall|k: int| 0 <= k < i ==> (#[trigger] self.entry_seq()[k]).1 != v,
            decreases n - i,
        {
            proof {
                assert(self.entry_seq()[i as int].1 == self.entries@[i as int].node);
            }
            if self.entries[i].node == v {
                return true;
            }
            i = i + 1;
        }
        false
    }

    /// Without a registered entry for `a`, the lookup reports absence.
    pub proof fn lemma_lookup_absent(self, a: usize)
        requires
            !self.has_arrival(a),
        ensures
            self.lookup(a) is None,
    {
        Self::lemma_lookup_seq_absent(self.entry_seq(), a);
    }

    proof fn lemma_lookup_seq_absent(es: Seq<(usize, usize, Seq<usize>)>, a: usize)
        requires
            forall|i: int| 0 <= i < es.len() ==> (#[trigger] es[i]).0 != a,
        ensures
            lookup_seq(es, a) is None,
        decreases es.len(),
    {
        if es.len() > 0 {
            assert(es[0].0 != a);
            assert(forall|i: int|
                0 <= i < es.drop_first().len() ==> (#[trigger] es.drop_first()[i]).0 != a);
            Self::lemma_lookup_seq_absent(es.drop_first(), a);
        }
    }

    /// Under well-formedness the lookup reports exactly the registered
    /// entry's trajectory, when that entry exists and is non-empty.
    pub proof fn lemma_lookup_traj(self, a: usize)
        requires
            self.wf(),
        ensures
            (self.lookup(a) is Some) == (self.has_arrival(a) && self.traj_of(a).len() > 0),
            self.lookup(a) is Some ==> self.lookup(a)->Some_0 == self.traj_of(a),
    {
        if self.has_arrival(a) {
            let i = choose|i: int|
                0 <= i < self.entry_seq().len() && (#[trigger] self.entry_seq()[i]).0 == a;
            assert forall|j: int|
                0 <= j < self.entry_seq().len() && (#[trigger] self.entry_seq()[j]).0
                    == a implies j == i by {}
            Self::lemma_lookup_seq_found(self.entry_seq(), a, i);
        } else {
            self.lemma_lookup_absent(a);
        }
    }

    proof fn lemma_lookup_seq_found(es: Seq<(usize, usize, Seq<usize>)>, a: usize, i: int)
        requires
            0 <= i < es.len(),
            es[i].0 == a,
            forall|j: int| 0 <= j < es.len() && (#[trigger] es[j]).0 == a ==> j == i,
        ensures
            lookup_seq(es, a) == (if es[i].2.len() > 0 {
                Some(es[i].2)
            } else {
                None::<Seq<usize>>
            }),
        decreases es.len(),
    {
        if i == 0 {
            assert(es.first() == es[0]);
        } else {
            assert(es[0].0 != a);
            let tail = es.drop_first();
            assert(tail[i - 1] == es[i]);
            assert forall|j: int|
                0 <= j < tail.len() && (#[trigger] tail[j]).0 == a implies j == i - 1 by {
                assert(tail[j] == es[j + 1]);
            }
            Self::lemma_lookup_seq_found(tail, a, i - 1);
        }
    }

    /// The trajectory recorded for node `v`, empty when `v` is not tracked.
    pub fn node_evolution(&self, v: usize) -> (r: Vec<usize>)
        ensures
            self.has_node(v) ==> exists|i: int|
                0 <= i < self.entry_seq().len() && (#[trigger] self.entry_seq()[i]).1 == v
                    && r@ == self.entry_seq()[i].2,
            !self.has_node(v) ==> r@ == Seq::<usize>::empty(),
    {
        let n = self.entries.len();
        let mut i: usize = 0;
        while i < n
            invariant
                i <= n,
                n == self.entry_seq().len(),
                forall|k: int| 0 <= k < i ==> (#[trigger] self.entry_seq()[k]).1 != v,
            decreases n - i,
        {
            proof {
                assert(self.entry_seq()[i as int] == (
                    self.entries@[i as int].arrival,
                    self.entries@[i as int].node,
                    self.entries@[i as int].trajectory@,
                ));
            }
            if self.entries[i].node == v {
                let r = copy_values(&self.entries[i].trajectory);
                return r;
            }
            i = i + 1;
        }
        Vec::new()
    }
}

impl TrackVertices for VerticesEvolution {
    /// The full trajectory for the node registered under `arrival_time`, or
    /// absence when that arrival was never registered or no observation has
    /// been recorded yet (the arrival was never reached within a run).
    fn get_arrival_evolution(&self, arrival_time: &usize) -> (r: Option<Vec<usize>>)
        ensures
            r is Some <==> self.lookup(*arrival_time) is Some,
            r is Some ==> r->Some_0@ == self.lookup(*arrival_time)->Some_0,
    {
        let n = self.entries.len();
        let mut i: usize = 0;
        proof {
            assert(self.entry_seq().skip(0) =~= self.entry_seq());
        }
        while i < n
            invariant
                i <= n,
                n == self.entry_seq().len(),
                forall|k: int| 0 <= k < i ==> (#[trigger] self.entry_seq()[k]).0 != *arrival_time,
                self.lookup(*arrival_time) == lookup_seq(
                    self.entry_seq().skip(i as int),
                    *arrival_time,
                ),
            decreases n - i,
        {
            proof {
                assert(self.entry_seq()[i as int] == (
                    self.entries@[i as int].arrival,
                    self.entries@[i as int].node,
                    self.entries@[i as int].trajectory@,
                ));
                assert(self.entry_seq().skip(i as int).first() == self.entry_seq()[i as int]);
            }
            if self.entries[i].arrival == *arrival_time {
                if self.entries[i].trajectory.len() == 0 {
                    return None;
                }
                let r = copy_values(&self.entries[i].trajectory);
                return Some(r);
            }
            proof {
                assert(self.entry_seq().skip(i as int).drop_first() =~= self.entry_seq().skip(
                    i + 1 as int,
                ));
            }
            i = i + 1;
        }
        proof {
            assert(self.entry_seq().skip(n as int) =~= Seq::<(usize, usize, Seq<usize>)>::empty());
        }
        None
    }

    /// Appends, for every entry whose arrival has occurred and whose node
    /// exists in `graph` (within the index range), that node's current
    /// degree.
    fn update(&mut self, graph: &SimGraph, time: usize)
        ensures
            final(self).entry_seq().len() == old(self).entry_seq().len(),
            forall|i: int|
                0 <= i < old(self).entry_seq().len() ==> (#[trigger] final(self).entry_seq()[i])
                    == (if old(self).entry_seq()[i].0 <= time && old(self).entry_seq()[i].1 < graph.nodes()
                    && old(self).entry_seq()[i].1 < index_limit() {
                    (
                        old(self).entry_seq()[i].0,
                        old(self).entry_seq()[i].1,
                        old(self).entry_seq()[i].2.push(
                            degree_of(graph.edges(), old(self).entry_seq()[i].1) as usize,
                        ),
                    )
                } else {
                    old(self).entry_seq()[i]
                }),
    {
        let n = self.entries.len();
        let mut i: usize = 0;
        while i < n
            invariant
                i <= n,
                n == self.entry_seq().len(),
                self.entry_seq().len() == old(self).entry_seq().len(),
                forall|k: int|
                    i <= k < n ==> (#[trigger] self.entry_seq()[k]) == old(self).entry_seq()[k],
                forall|k: int|
                    0 <= k < i ==> (#[trigger] self.entry_seq()[k]) == (if old(
                        self,
                    ).entry_seq()[k].0 <= time && old(self).entry_seq()[k].1 < graph.nodes()
                    && old(self).entry_seq()[k].1 < index_limit() {
                        (
                            old(self).entry_seq()[k].0,
                            old(self).entry_seq()[k].1,
                            old(self).entry_seq()[k].2.push(
                                degree_of(graph.edges(), old(self).entry_seq()[k].1) as usize,
                            ),
                        )
                    } else {
                        old(self).entry_seq()[k]
                    }),
            decreases n - i,
        {
            proof {
                assert(self.entry_seq()[i as int] == (
                    self.entries@[i as int].arrival,
                    self.entries@[i as int].node,
                    self.entries@[i as int].trajectory@,
                ));
            }
            let ghost pre = self.entries@;
            let ghost pre_seq = self.entry_seq();
            let arrival = self.entries[i].arrival;
            let node = self.entries[i].node;
            proof {
                assert(old(self).entry_seq()[i as int].0 == arrival);
                assert(old(self).entry_seq()[i as int].1 == node);
            }
            if arrival <= time && node < graph.node_count() && node < 0xffff_ffff {
                let d = graph.degree(node);
                self.entries[i].trajectory.push(d);
                proof {
                    assert(self.entries@[i as int].arrival == pre[i as int].arrival);
                    assert(self.entries@[i as int].node == pre[i as int].node);
                    assert(self.entries@[i as int].trajectory@ == pre[i as int].trajectory@.push(
                        d,
                    ));
                    assert forall|k: int| 0 <= k < n && k != i implies #[trigger] self.entry_seq()[k]
                        == pre_seq[k] by {
                        assert(self.entries@[k] == pre[k]);
                        assert(self.entry_seq()[k] == (
                            pre[k].arrival,
                            pre[k].node,
                            pre[k].trajectory@,
                        ));
                    }
                    assert(self.entry_seq()[i as int] == (arrival, node, pre_seq[i as int].2.push(
                        d,
                    )));
                    assert(degree_of(graph.edges(), node) as usize == d);
                }
            }
            i = i + 1;
        }
    }
}

impl Default for VerticesEvolution {
    fn default() -> (r: Self)
        ensures
            r.entry_seq().len() == 0,
    {
        VerticesEvolution::new()
    }
}

/// Element-by-element copy of a degree trajectory.
fn copy_values(v: &Vec<usize>) -> (r: Vec<usize>)
    ensures
        r@ == v@,
{
    let mut r: Vec<usize> = Vec::new();
    let mut i: usize = 0;
    while i < v.len()
        invariant
            i <= v@.len(),
            r@ == v@.subrange(0, i as int),
        decreases v@.len() - i,
    {
        r.push(v[i]);
        proof {
            assert(r@ =~= v@.subrange(0, i + 1 as int));
        }
        i = i + 1;
    }
    proof {
        assert(v@.subrange(0, v@.len() as int) =~= v@);
    }
    r
}

} // verus!
