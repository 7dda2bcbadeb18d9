//! The ring cache: for each agent the newest samples, up to a fixed number.

use std::collections::VecDeque;
use vstd::prelude::*;
use crate::order::last_n;
use crate::sample::{views, Sample};
use crate::text::str_eq;

verus! {

/// The samples of one agent, oldest first.
#[derive(Debug)]
struct Ring {
    agent_id: String,
    samples: VecDeque<Sample>,
}

/// For each agent the newest samples, oldest first, never more than the
/// capacity. A new sample pushes the oldest one out.
#[derive(Debug)]
pub struct Cache {
    max_size: usize,
    rings: Vec<Ring>,
}

/// Index of the ring of the agent, or the number of rings if it has none.
spec fn ring_index(rings: Seq<Ring>, agent: Seq<char>) -> int
    decreases rings.len(),
{
    if rings.len() == 0 {
        0
    } else if rings[0].agent_id@ == agent {
        0
    } else {
        1 + ring_index(rings.drop_first(), agent)
    }
}

/// The index of a ring lies within the rings or just behind them; within
/// them it names the first ring of the agent.
proof fn lemma_ring_index(rings: Seq<Ring>, agent: Seq<char>)
    ensures
        0 <= ring_index(rings, agent) <= rings.len(),
        ring_index(rings, agent) < rings.len() ==> rings[ring_index(rings, agent)].agent_id@
            == agent,
        forall|i: int| 0 <= i < ring_index(rings, agent) ==> (#[trigger] rings[i]).agent_id@ != agent,
    decreases rings.len(),
{
    if rings.len() > 0 && rings[0].agent_id@ != agent {
        let rest = rings.drop_first();
        lemma_ring_index(rest, agent);
        assert forall|i: int| 0 <= i < ring_index(rings, agent) implies (#[trigger] rings[i]).agent_id@
            != agent by {
            if i > 0 {
                assert(rest[i - 1] == rings[i]);
            }
        }
        if ring_index(rings, agent) < rings.len() {
            assert(rest[ring_index(rest, agent)] == rings[ring_index(rings, agent)]);
        }
    }
}

/// An index that holds the agent and has no ring of the agent before it is
/// the index of the agent's ring.
proof fn lemma_ring_index_is(rings: Seq<Ring>, agent: Seq<char>, at: int)
    requires
        0 <= at <= rings.len(),
        at < rings.len() ==> rings[at].agent_id@ == agent,
        forall|i: int| 0 <= i < at ==> (#[trigger] rings[i]).agent_id@ != agent,
    ensures
        ring_index(rings, agent) == at,
{
    lemma_ring_index(rings, agent);
    let found = ring_index(rings, agent);
    if found < at {
        assert(rings[found].agent_id@ == agent);
    }
}

impl Cache {
    /// What holds of every cache: no agent has more samples than the
    /// capacity, and no agent has two rings.
    pub closed spec fn wf(&self) -> bool {
        &&& forall|i: int|
            0 <= i < self.rings@.len() ==> (#[trigger] self.rings@[i]).samples@.len()
                <= self.max_size
        &&& forall|i: int, j: int|
            0 <= i < j < self.rings@.len() ==> (#[trigger] self.rings@[i]).agent_id@ != (
            #[trigger] self.rings@[j]).agent_id@
    }

    /// Greatest number of samples kept for one agent.
    pub closed spec fn capacity(&self) -> nat {
        self.max_size as nat
    }

    /// The agents that the cache has met, in the order in which it met them.
    pub closed spec fn agents(&self) -> Seq<Seq<char>> {
        Seq::new(self.rings@.len(), |i: int| self.rings@[i].agent_id@)
    }

    /// Whether the cache has met the agent.
    pub open spec fn knows(&self, agent: Seq<char>) -> bool {
        self.agents().contains(agent)
    }

    /// The samples kept for the agent, oldest first; none for an agent that
    /// the cache has not met.
    pub closed spec fn history(&self, agent: Seq<char>) -> Seq<Sample> {
        let at = ring_index(self.rings@, agent);
        if at < self.rings@.len() {
            self.rings@[at].samples@
        } else {
            Seq::empty()
        }
    }

    /// No agent has more samples in the cache than the capacity.
    pub proof fn lemma_history_bounded(&self, agent: Seq<char>)
        requires
            self.wf(),
        ensures
            self.history(agent).len() <= self.capacity(),
    {
        lemma_ring_index(self.rings@, agent);
    }

    /// An empty cache that keeps `max_size` samples for each agent.
    pub fn new(max_size: usize) -> (cache: Cache)
        ensures
            cache.wf(),
            cache.capacity() == max_size,
            cache.agents() == Seq::<Seq<char>>::empty(),
            forall|agent: Seq<char>| (#[trigger] cache.history(agent)).len() == 0,
    {
        let cache = Cache { max_size, rings: Vec::new() };
        assert(cache.agents() =~= Seq::<Seq<char>>::empty());
        cache
    }

    /// Index of the ring of the agent, or the number of rings.
    fn find(&self, agent_id: &str) -> (at: usize)
        requires
            self.wf(),
        ensures
            at == ring_index(self.rings@, agent_id@),
            at <= self.rings@.len(),
            at < self.rings@.len() <==> self.knows(agent_id@),
    {
        let mut at: usize = 0;
        while at < self.rings.len() && !str_eq(self.rings[at].agent_id.as_str(), agent_id)
            invariant
                at <= self.rings@.len(),
                forall|i: int| 0 <= i < at ==> (#[trigger] self.rings@[i]).agent_id@ != agent_id@,
            decreases self.rings@.len() - at,
        {
            at += 1;
        }
        proof {
            lemma_ring_index_is(self.rings@, agent_id@, at as int);
            if at < self.rings@.len() {
                assert(self.agents()[at as int] == agent_id@);
            } else if self.knows(agent_id@) {
                let i = choose|i: int|
                    0 <= i < self.agents().len() && self.agents()[i] == agent_id@;
                assert(self.rings@[i].agent_id@ == agent_id@);
            }
        }
        at
    }

    /// Takes a sample in: it becomes the newest of its agent, and the oldest
    /// ones leave until no more than the capacity remain. Nothing changes
    /// for other agents.
    pub fn update(&mut self, metrics: Sample)
        requires
            old(self).wf(),
        ensures
            final(self).wf(),
            final(self).capacity() == old(self).capacity(),
            final(self).history(metrics.agent_id@) == last_n(
                old(self).history(metrics.agent_id@).push(metrics),
                old(self).capacity() as int,
            ),
            forall|agent: Seq<char>|
                agent != metrics.agent_id@ ==> #[trigger] final(self).history(agent) == old(
                    self,
                ).history(agent),
            final(self).agents() == if old(self).knows(metrics.agent_id@) {
                old(self).agents()
            } else {
                old(self).agents().push(metrics.agent_id@)
            },
    {
        let at = self.find(metrics.agent_id.as_str());
        let ghost before = self.rings@;
        let ghost agent = metrics.agent_id@;
        let mut ring = if at < self.rings.len() {
            self.rings.remove(at)
        } else {
            Ring { agent_id: metrics.agent_id.clone(), samples: VecDeque::new() }
        };
        let ghost kept = ring.samples@;
        if self.max_size == 0 {
            assert(last_n(kept.push(metrics), 0) =~= kept);
        } else {
            if ring.samples.len() == self.max_size {
                let _ = ring.samples.pop_front();
            }
            ring.samples.push_back(metrics);
            assert(ring.samples@ =~= last_n(kept.push(metrics), self.max_size as int));
        }
        self.rings.insert(at, ring);
        proof {
            let after = self.rings@;
            lemma_ring_index(before, agent);
            assert(after.len() == if at < before.len() {
                before.len()
            } else {
                before.len() + 1
            });
            assert forall|i: int| 0 <= i < after.len() && i != at implies #[trigger] after[i]
                == before[i] by {}
            assert(after[at as int].agent_id@ == agent);
            lemma_ring_index_is(after, agent, at as int);
            assert forall|other: Seq<char>| other != agent implies #[trigger] self.history(other)
                == old(self).history(other) by {
                lemma_ring_index(before, other);
                let found = ring_index(before, other);
                if found < before.len() {
                    assert(found != at);
                }
                lemma_ring_index_is(after, other, if found < before.len() {
                    found
                } else {
                    after.len() as int
                });
            }
            if at < before.len() {
                assert(self.agents() =~= old(self).agents());
            } else {
                assert(self.agents() =~= old(self).agents().push(agent));
            }
        }
    }

    /// The agents that the cache has met, in the order in which it met them.
    pub fn get_all_agents(&self) -> (ids: Vec<String>)
        requires
            self.wf(),
        ensures
            ids@.len() == self.agents().len(),
            forall|i: int| 0 <= i < ids@.len() ==> (#[trigger] ids@[i])@ == self.agents()[i],
    {
        let mut ids: Vec<String> = Vec::new();
        let mut i: usize = 0;
        while i < self.rings.len()
            invariant
                i <= self.rings@.len(),
                ids@.len() == i,
                forall|j: int| 0 <= j < i ==> (#[trigger] ids@[j])@ == self.rings@[j].agent_id@,
            decreases self.rings@.len() - i,
        {
            ids.push(self.rings[i].agent_id.clone());
            i += 1;
        }
        ids
    }

    /// The newest sample of the agent, if the cache holds one.
    pub fn get_latest(&self, agent_id: &str) -> (latest: Option<Sample>)
        requires
            self.wf(),
        ensures
            match latest {
                Some(sample) => self.history(agent_id@).len() > 0 && sample@ == self.history(
                    agent_id@,
                ).last()@,
                None => self.history(agent_id@).len() == 0,
            },
    {
        let at = self.find(agent_id);
        if at < self.rings.len() {
            let samples = &self.rings[at].samples;
            if samples.len() > 0 {
                Some(samples[samples.len() - 1].duplicate())
            } else {
                None
            }
        } else {
            None
        }
    }

    /// The newest `limit` samples of the agent, oldest first; fewer if the
    /// cache holds fewer, and never more than the capacity.
    pub fn get_history(&self, agent_id: &str, limit: usize) -> (history: Vec<Sample>)
        requires
            self.wf(),
        ensures
            views(history@) == views(last_n(self.history(agent_id@), limit as int)),
            history@.len() <= limit,
            history@.len() <= self.capacity(),
            self.history(agent_id@).len() <= self.capacity(),
    {
        let at = self.find(agent_id);
        let mut history: Vec<Sample> = Vec::new();
        if at < self.rings.len() {
            let samples = &self.rings[at].samples;
            let len = samples.len();
            let start = if len > limit {
                len - limit
            } else {
                0
            };
            let mut i: usize = start;
            while i < len
                invariant
                    start <= i <= len,
                    len == samples@.len(),
                    history@.len() == i - start,
                    forall|j: int|
                        0 <= j < i - start ==> (#[trigger] history@[j])@ == samples@[start + j]@,
                decreases len - i,
            {
                history.push(samples[i].duplicate());
                i += 1;
            }
            assert(views(history@) =~= views(last_n(samples@, limit as int)));
        } else {
            assert(views(history@) =~= views(last_n(self.history(agent_id@), limit as int)));
        }
        history
    }

    /// The samples kept for the first `count` agents, agent after agent in
    /// the order in which the cache met them, each agent's oldest first.
    pub open spec fn gathered(&self, count: nat) -> Seq<Sample>
        decreases count,
    {
        if count == 0 {
            Seq::empty()
        } else {
            self.gathered((count - 1) as nat) + self.history(self.agents()[count - 1])
        }
    }

    /// All samples that the cache keeps.
    pub open spec fn everything(&self) -> Seq<Sample> {
        self.gathered(self.agents().len())
    }

    /// Copies of all samples that the cache keeps, agent after agent.
    pub fn all_samples(&self) -> (samples: Vec<Sample>)
        requires
            self.wf(),
        ensures
            views(samples@) == views(self.everything()),
    {
        let mut samples: Vec<Sample> = Vec::new();
        let mut at: usize = 0;
        assert(views(samples@) =~= views(self.gathered(0)));
        while at < self.rings.len()
            invariant
                self.wf(),
                at <= self.rings@.len(),
                views(samples@) == views(self.gathered(at as nat)),
            decreases self.rings@.len() - at,
        {
            let ring = &self.rings[at].samples;
            let ghost before = samples@;
            proof {
                lemma_ring_index_is(self.rings@, self.rings@[at as int].agent_id@, at as int);
                assert(self.agents()[at as int] == self.rings@[at as int].agent_id@);
                assert(self.history(self.agents()[at as int]) == ring@);
            }
            let mut i: usize = 0;
            while i < ring.len()
                invariant
                    i <= ring@.len(),
                    samples@.len() == before.len() + i,
                    forall|j: int| 0 <= j < before.len() ==> samples@[j] == before[j],
                    forall|j: int|
                        0 <= j < i ==> (#[trigger] samples@[before.len() + j])@ == ring@[j]@,
                decreases ring@.len() - i,
            {
                samples.push(ring[i].duplicate());
                i += 1;
            }
            proof {
                assert forall|k: int| before.len() <= k < samples@.len() implies (
                #[trigger] samples@[k])@ == ring@[k - before.len()]@ by {
                    let j = k - before.len();
                    assert(samples@[before.len() + j]@ == ring@[j]@);
                }
                assert(views(samples@) =~= views(before) + views(ring@));
                assert(views(self.gathered((at + 1) as nat)) =~= views(self.gathered(at as nat))
                    + views(ring@));
            }
            at += 1;
        }
        proof {
            assert(self.agents().len() == self.rings@.len());
        }
        samples
    }

    /// Number of samples kept for the agent.
    pub fn len_of(&self, agent_id: &str) -> (len: usize)
        requires
            self.wf(),
        ensures
            len == self.history(agent_id@).len(),
            len <= self.capacity(),
    {
        let at = self.find(agent_id);
        if at < self.rings.len() {
            self.rings[at].samples.len()
        } else {
            0
        }
    }
}

} // verus!
