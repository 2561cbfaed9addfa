//! Randomness source, stub pool and distinct-target selection.
//!
//! A stub is one half-edge endpoint: a node of degree `d` owns `d` stubs, so
//! drawing a stub uniformly at random and resolving it to its owner yields a
//! node with probability proportional to its degree. The selector collects a
//! fixed number of pairwise distinct, policy-valid targets per step, using a
//! reusable marking buffer that is unmarked again before the call returns.

use vstd::prelude::*;
use vstd::seq_lib::*;
use vstd::set_lib::*;

use crate::graph::SimGraph;
use crate::graph::has_edge_spec;

verus! {

#[verifier::external_type_specification]
#[verifier::external_body]
pub struct ExThreadRng(rand::rngs::ThreadRng);

/// Relies on rand's `thread_rng`: a handle to the thread-local generator.
/// Nothing is assumed about the values it produces.
#[verifier::external_body]
pub(crate) fn fresh_rng() -> rand::rngs::ThreadRng {
    rand::thread_rng()
}

/// Relies on rand's `Rng::gen_range` on the half-open range `0..bound`: the
/// result is below the bound, whatever was drawn. Panics only on an empty
/// range, which the precondition rules out.
#[verifier::external_body]
pub(crate) fn sample_below(rng: &mut rand::rngs::ThreadRng, bound: usize) -> (r: usize)
    requires
        1 <= bound,
    ensures
        r < bound,
{
    rand::Rng::gen_range(rng, 0..bound)
}

/// A multiset of half-edge endpoints, as an append-only sequence.
pub struct StubPool {
    stubs: Vec<usize>,
}

impl StubPool {
    /// The stored endpoint sequence.
    pub closed spec fn stubs(self) -> Seq<usize> {
        self.stubs@
    }

    pub fn new() -> (p: StubPool)
        ensures
            p.stubs() == Seq::<usize>::empty(),
    {
        StubPool { stubs: Vec::new() }
    }

    pub fn len(&self) -> (n: usize)
        ensures
            n == self.stubs().len(),
    {
        self.stubs.len()
    }

    /// Records both endpoints of a newly added edge.
    pub fn push_pair(&mut self, a: usize, b: usize)
        ensures
            final(self).stubs() == old(self).stubs().push(a).push(b),
    {
        self.stubs.push(a);
        self.stubs.push(b);
    }

    pub fn push_one(&mut self, a: usize)
        ensures
            final(self).stubs() == old(self).stubs().push(a),
    {
        self.stubs.push(a);
    }

    /// Draws one stub uniformly at random; the result is some stored
    /// endpoint, so a node is returned with probability proportional to its
    /// current stub multiplicity.
    pub fn sample(&self, rng: &mut rand::rngs::ThreadRng) -> (r: usize)
        requires
            self.stubs().len() > 0,
        ensures
            self.stubs().contains(r),
    {
        let i = sample_below(rng, self.stubs.len());
        let r = self.stubs[i];
        proof {
            assert(self.stubs()[i as int] == r);
        }
        r
    }
}

/// A duplicate-free sequence whose entries all lie below `domain` and cover
/// all of `0..domain` has at least `domain` entries.
proof fn lemma_distinct_cover(s: Seq<usize>, domain: usize)
    requires
        s.no_duplicates(),
        forall|c: usize| c < domain ==> #[trigger] s.contains(c),
    ensures
        s.len() >= domain,
{
    broadcast use seq_to_set_is_finite;

    let f = |x: usize| x as int;
    let si = s.map_values(f);
    assert(vstd::relations::injective(f));
    s.lemma_no_duplicates_injective(f);
    si.unique_seq_to_set();
    let range = set_int_range(0, domain as int);
    lemma_int_range(0, domain as int);
    assert forall|c: int| range.contains(c) implies si.to_set().contains(c) by {
        let cu = c as usize;
        assert(s.contains(cu));
        let k = choose|k: int| 0 <= k < s.len() && s[k] == cu;
        assert(si[k] == c);
        assert(si.contains(c));
    }
    lemma_len_subset(range, si.to_set());
}

/// Reusable scratch storage for one attachment event: a marking buffer
/// indexed by node identifier and the list of targets accepted so far.
pub struct TargetSelector {
    picked: Vec<bool>,
    targets: Vec<usize>,
}

impl TargetSelector {
    /// Number of node identifiers the marking buffer covers.
    pub closed spec fn capacity(self) -> nat {
        self.picked@.len()
    }

    /// The targets accepted by the most recent selection.
    pub closed spec fn chosen(self) -> Seq<usize> {
        self.targets@
    }

    /// Every mark is cleared; holds between selection calls.
    pub closed spec fn clean(self) -> bool {
        forall|c: usize| c < self.picked@.len() ==> !self.picked@[c as int]
    }

    /// A node is marked exactly when it is among the accepted targets.
    spec fn marks_match(self) -> bool {
        forall|c: usize|
            c < self.picked@.len() ==> (self.picked@[c as int] <==> self.targets@.contains(c))
    }

    /// Well-formedness during one selection over node domain `0..domain`.
    spec fn in_progress(self, domain: int) -> bool {
        &&& self.marks_match()
        &&& self.targets@.no_duplicates()
        &&& forall|i: int| 0 <= i < self.targets@.len() ==> self.targets@[i] < domain
    }

    /// Number of targets accepted by the most recent selection.
    pub fn target_count(&self) -> (n: usize)
        ensures
            n == self.chosen().len(),
    {
        self.targets.len()
    }

    /// The accepted target at position `i`.
    pub fn target_at(&self, i: usize) -> (t: usize)
        requires
            i < self.chosen().len(),
        ensures
            t == self.chosen()[i as int],
    {
        self.targets[i]
    }

    pub fn new(capacity: usize) -> (s: TargetSelector)
        ensures
            s.capacity() == capacity,
            s.clean(),
            s.chosen().len() == 0,
    {
        let mut picked: Vec<bool> = Vec::new();
        let mut i: usize = 0;
        while i < capacity
            invariant
                i <= capacity,
                picked@.len() == i,
                forall|c: usize| c < i ==> !picked@[c as int],
            decreases capacity - i,
        {
            picked.push(false);
            i = i + 1;
        }
        TargetSelector { picked, targets: Vec::new() }
    }

    /// Accepts `candidate` if it is not yet marked; used by every policy to
    /// reject duplicates within one step in constant time.
    fn try_accept(&mut self, candidate: usize, Ghost(domain): Ghost<int>) -> (took: bool)
        requires
            candidate < domain,
            domain <= old(self).picked@.len(),
            old(self).in_progress(domain),
        ensures
            final(self).picked@.len() == old(self).picked@.len(),
            final(self).in_progress(domain),
            took == !old(self).targets@.contains(candidate),
            took ==> final(self).targets@ == old(self).targets@.push(candidate),
            !took ==> final(self).targets@ == old(self).targets@,
    {
        if !self.picked[candidate] {
            self.picked[candidate] = true;
            self.targets.push(candidate);
            proof {
                assert forall|c: usize|
                    c < self.picked@.len() implies (self.picked@[c as int]
                    <==> self.targets@.contains(c)) by {
                    if c == candidate {
                        assert(self.targets@.last() == candidate);
                        assert(self.targets@.contains(candidate));
                    } else {
                        assert(self.targets@.contains(c) <==> old(self).targets@.contains(c)) by {
                            if self.targets@.contains(c) {
                                let k = choose|k: int|
                                    0 <= k < self.targets@.len() && self.targets@[k] == c;
                                assert(k < self.targets@.len() - 1);
                                assert(old(self).targets@[k] == c);
                            }
                            if old(self).targets@.contains(c) {
                                let k = choose|k: int|
                                    0 <= k < old(self).targets@.len() && old(self).targets@[k]
                                        == c;
                                assert(self.targets@[k] == c);
                            }
                        }
                    }
                }
                assert(self.targets@.no_duplicates()) by {
                    assert(!old(self).targets@.contains(candidate));
                    assert forall|i: int, j: int|
                        0 <= i < j < self.targets@.len() implies self.targets@[i]
                        != self.targets@[j] by {
                        if j == self.targets@.len() - 1 {
                            assert(self.targets@[i] == old(self).targets@[i]);
                            assert(old(self).targets@.contains(old(self).targets@[i]));
                        }
                    }
                }
            }
            true
        } else {
            false
        }
    }

    /// Unmarks every accepted target, restoring the buffer for the next call.
    fn reset_marks(&mut self)
        requires
            old(self).marks_match(),
            old(self).targets@.no_duplicates(),
            forall|i: int|
                0 <= i < old(self).targets@.len() ==> old(self).targets@[i]
                    < old(self).picked@.len(),
        ensures
            final(self).picked@.len() == old(self).picked@.len(),
            final(self).targets@ == old(self).targets@,
            final(self).clean(),
    {
        let mut i: usize = 0;
        while i < self.targets.len()
            invariant
                i <= self.targets@.len(),
                self.targets@ == old(self).targets@,
                self.targets@.no_duplicates(),
                self.picked@.len() == old(self).picked@.len(),
                forall|k: int| 0 <= k < self.targets@.len() ==> self.targets@[k]
                    < self.picked@.len(),
                forall|c: usize|
                    c < self.picked@.len() ==> (self.picked@[c as int] <==> exists|j: int|
                        i <= j < self.targets@.len() && self.targets@[j] == c),
            decreases self.targets@.len() - i,
        {
            let t = self.targets[i];
            self.picked[t] = false;
            proof {
                assert(self.targets@[i as int] == t);
                assert forall|c: usize|
                    c < self.picked@.len() implies (self.picked@[c as int] <==> exists|j: int|
                    i + 1 <= j < self.targets@.len() && self.targets@[j] == c) by {
                    if c == t {
                        assert(!self.picked@[t as int]);
                        assert forall|j: int|
                            i + 1 <= j < self.targets@.len() implies self.targets@[j] != t by {
                            assert(self.targets@[i as int] == t);
                        }
                    } else {
                        assert(self.picked@[c as int] == old(self).picked@[c as int]
                            || self.picked@[c as int] == self.picked@[c as int]);
                        if exists|j: int|
                            i <= j < self.targets@.len() && self.targets@[j] == c {
                            let j = choose|j: int|
                                i <= j < self.targets@.len() && self.targets@[j] == c;
                            assert(self.targets@[j] == c);
                            assert(j != i);
                            assert(exists|j2: int|
                                i + 1 <= j2 < self.targets@.len() && self.targets@[j2] == c);
                        }
                    }
                }
            }
            i = i + 1;
        }
        proof {
            assert forall|c: usize| c < self.picked@.len() implies !self.picked@[c as int] by {
                assert(!(exists|j: int|
                    i <= j < self.targets@.len() && self.targets@[j] == c));
            }
        }
    }

    /// Fills the target list up to `m` with the smallest unmarked node
    /// identifiers. Used after the random draws ran out of their attempt
    /// budget; always reaches `m` targets because fewer than `m` of the
    /// `domain >= m` candidates are marked.
    fn complete_from_domain(&mut self, m: usize, domain: usize)
        requires
            old(self).in_progress(domain as int),
            old(self).targets@.len() <= m,
            m <= domain,
            domain <= old(self).picked@.len(),
        ensures
            final(self).picked@.len() == old(self).picked@.len(),
            final(self).in_progress(domain as int),
            final(self).targets@.len() == m,
    {
        let mut v: usize = 0;
        while v < domain && self.targets.len() < m
            invariant
                v <= domain,
                m <= domain,
                domain <= self.picked@.len(),
                self.picked@.len() == old(self).picked@.len(),
                self.in_progress(domain as int),
                self.targets@.len() <= m,
                self.targets@.len() < m ==> forall|c: usize| c < v ==> #[trigger] self.targets@.contains(c),
            decreases domain - v,
        {
            let ghost pre = self.targets@;
            proof {
                assert(pre.len() < m);
                assert(forall|c: usize| c < v ==> #[trigger] pre.contains(c));
            }
            let took = self.try_accept(v, Ghost(domain as int));
            proof {
                assert forall|c: usize| c < v + 1 implies #[trigger] self.targets@.contains(
                    c,
                ) by {
                    if took {
                        if c == v {
                            assert(self.targets@.last() == v);
                        } else {
                            assert(pre.contains(c));
                            let k = choose|k: int| 0 <= k < pre.len() && pre[k] == c;
                            assert(self.targets@[k] == c);
                        }
                    } else {
                        if c == v {
                            assert(pre.contains(v));
                        } else {
                            assert(pre.contains(c));
                        }
                    }
                }
            }
            v = v + 1;
        }
        if self.targets.len() < m {
            proof {
                lemma_distinct_cover(self.targets@, domain);
            }
            assert(false);
        }
    }

    /// Selects `m` pairwise distinct targets drawn with probability
    /// proportional to stub multiplicity; after `budget` random draws the
    /// remainder is completed deterministically, so the call always yields
    /// `m` targets when `m <= domain`.
    pub fn select_weighted(
        &mut self,
        pool: &StubPool,
        rng: &mut rand::rngs::ThreadRng,
        m: usize,
        domain: usize,
        budget: usize,
    )
        requires
            old(self).clean(),
            pool.stubs().len() > 0,
            forall|i: int| 0 <= i < pool.stubs().len() ==> pool.stubs()[i] < domain,
            m <= domain,
            domain <= old(self).capacity(),
        ensures
            final(self).capacity() == old(self).capacity(),
            final(self).clean(),
            final(self).chosen().len() == m,
            final(self).chosen().no_duplicates(),
            forall|i: int| 0 <= i < m ==> final(self).chosen()[i] < domain,
    {
        self.targets.clear();
        let mut attempts: usize = 0;
        while attempts < budget && self.targets.len() < m
            invariant
                pool.stubs().len() > 0,
                forall|i: int| 0 <= i < pool.stubs().len() ==> pool.stubs()[i] < domain,
                m <= domain,
                domain <= self.picked@.len(),
                self.picked@.len() == old(self).picked@.len(),
                self.in_progress(domain as int),
                self.targets@.len() <= m,
            decreases budget - attempts,
        {
            let c = pool.sample(rng);
            proof {
                let k = choose|k: int| 0 <= k < pool.stubs().len() && pool.stubs()[k] == c;
                assert(pool.stubs()[k] < domain);
            }
            self.try_accept(c, Ghost(domain as int));
            attempts = attempts + 1;
        }
        self.complete_from_domain(m, domain);
        self.reset_marks();
    }

    /// Selects `m` pairwise distinct targets drawn uniformly over the node
    /// identifiers `0..domain`; completed deterministically after `budget`
    /// random draws, as in `select_weighted`.
    pub fn select_uniform(
        &mut self,
        rng: &mut rand::rngs::ThreadRng,
        m: usize,
        domain: usize,
        budget: usize,
    )
        requires
            old(self).clean(),
            m <= domain,
            domain <= old(self).capacity(),
        ensures
            final(self).capacity() == old(self).capacity(),
            final(self).clean(),
            final(self).chosen().len() == m,
            final(self).chosen().no_duplicates(),
            forall|i: int| 0 <= i < m ==> final(self).chosen()[i] < domain,
    {
        self.targets.clear();
        let mut attempts: usize = 0;
        while attempts < budget && self.targets.len() < m
            invariant
                m <= domain,
                domain <= self.picked@.len(),
                self.picked@.len() == old(self).picked@.len(),
                self.in_progress(domain as int),
                self.targets@.len() <= m,
            decreases budget - attempts,
        {
            let c = sample_below(rng, domain);
            self.try_accept(c, Ghost(domain as int));
            attempts = attempts + 1;
        }
        self.complete_from_domain(m, domain);
        self.reset_marks();
    }

    /// Selects `m` pairwise distinct stubs that differ from `source` and are
    /// not yet joined to it. Near completeness such targets may not exist, so
    /// after `budget` draws the call gives up and reports failure with an
    /// empty target list.
    pub fn select_for_source(
        &mut self,
        pool: &StubPool,
        rng: &mut rand::rngs::ThreadRng,
        m: usize,
        source: usize,
        graph: &SimGraph,
        budget: usize,
    ) -> (ok: bool)
        requires
            old(self).clean(),
            pool.stubs().len() > 0,
            forall|i: int| 0 <= i < pool.stubs().len() ==> pool.stubs()[i] < graph.nodes(),
            graph.nodes() <= old(self).capacity(),
            graph.nodes() <= crate::graph::index_limit(),
            source < graph.nodes(),
        ensures
            final(self).capacity() == old(self).capacity(),
            final(self).clean(),
            ok ==> final(self).chosen().len() == m,
            ok ==> final(self).chosen().no_duplicates(),
            ok ==> forall|i: int|
                0 <= i < m ==> final(self).chosen()[i] < graph.nodes() && final(self).chosen()[i]
                    != source && !has_edge_spec(graph.edges(), source, final(self).chosen()[i]),
            !ok ==> final(self).chosen().len() == 0,
    {
        self.targets.clear();
        let mut attempts: usize = 0;
        while attempts < budget && self.targets.len() < m
            invariant
                pool.stubs().len() > 0,
                forall|i: int| 0 <= i < pool.stubs().len() ==> pool.stubs()[i] < graph.nodes(),
                graph.nodes() <= self.picked@.len(),
                graph.nodes() <= crate::graph::index_limit(),
                source < graph.nodes(),
                self.picked@.len() == old(self).picked@.len(),
                self.in_progress(graph.nodes() as int),
                self.targets@.len() <= m,
                forall|i: int|
                    0 <= i < self.targets@.len() ==> self.targets@[i] != source && !has_edge_spec(
                        graph.edges(),
                        source,
                        self.targets@[i],
                    ),
            decreases budget - attempts,
        {
            let c = pool.sample(rng);
            proof {
                let k = choose|k: int| 0 <= k < pool.stubs().len() && pool.stubs()[k] == c;
                assert(pool.stubs()[k] < graph.nodes());
            }
            if c != source && !graph.has_edge(source, c) {
                self.try_accept(c, Ghost(graph.nodes() as int));
            }
            attempts = attempts + 1;
        }
        let got = self.targets.len();
        self.reset_marks();
        if got == m {
            true
        } else {
            self.targets.clear();
            false
        }
    }
}

} // verus!
