//! The ingest façade: what a save, a query and a shutdown do.
//!
//! The façade owns the ring cache and knows whether samples are also
//! persisted. It takes every sample into the cache at once. What it cannot
//! do itself, it hands back as a decision: whether to put the sample on the
//! write queue and whether to wait for the commit, whether a query has to
//! ask the store, and in which order the background tasks are stopped.

use vstd::prelude::*;
use vstd::utf8::encode_utf8;
use crate::cache::Cache;
use crate::config::StorageConfig;
use crate::order::{
    keep_last, last_n, lemma_stable_sort, lemma_stable_sort_map, rank_of, reversed, sort_by_rank,
    stable_sort_by,
};
use crate::sample::{view_of, view_rank, views, Sample};
use crate::text::{
    bytes_lt, lemma_encode_injective, lemma_lex_total, lemma_lex_transitive, lex_lt, str_eq,
};

verus! {

/// Longest wait for the retention cleaner at shutdown, in milliseconds.
pub const CLEANER_WAIT_MS: u64 = 5000;

/// Longest wait for the batch writer at shutdown, in milliseconds.
pub const WRITER_WAIT_MS: u64 = 10000;

/// Why a sample was not persisted.
#[derive(Debug, Clone, Copy, PartialEq, Eq, Structural)]
pub enum StorageError {
    /// The store failed to write; the batch writer tries again.
    TransientIo,
    /// A sample could not be encoded or a row could not be decoded.
    CorruptPayload,
    /// The write queue is full.
    Backpressure,
    /// The write queue is closed, or the writer stopped before it answered.
    Shutdown,
}

impl StorageError {
    /// The error in words.
    pub fn message(&self) -> (text: &'static str)
        ensures
            text@ == match *self {
                StorageError::TransientIo => "store write failed"@,
                StorageError::CorruptPayload => "corrupt payload"@,
                StorageError::Backpressure => "write queue is full"@,
                StorageError::Shutdown => "persistence queue is closed"@,
            },
    {
        match self {
            StorageError::TransientIo => "store write failed",
            StorageError::CorruptPayload => "corrupt payload",
            StorageError::Backpressure => "write queue is full",
            StorageError::Shutdown => "persistence queue is closed",
        }
    }
}

/// What to do with a sample after the cache has taken it.
#[derive(Debug, Clone, Copy, PartialEq, Eq, Structural)]
pub enum Enqueue {
    /// Nothing: in memory-only mode the cache is all there is.
    Stored,
    /// Offer the sample to the write queue without waiting; if the queue is
    /// full or closed the sample stays in memory only.
    TrySend,
    /// Put the sample on the write queue, waiting for room, and wait for
    /// the answer of the batch writer.
    SendAndWait,
    /// Nothing can be sent: the write queue is closed.
    Closed,
}

/// How an attempt to put a sample on the write queue ended.
#[derive(Debug, Clone, Copy, PartialEq, Eq, Structural)]
pub enum SendOutcome {
    Sent,
    Full,
    Closed,
}

/// What the batch writer answered to a sample that waits for its commit.
#[derive(Debug, Clone, Copy, PartialEq, Eq, Structural)]
pub enum AckOutcome {
    /// The batch of the sample is committed.
    Committed,
    /// The commit failed.
    Failed(StorageError),
    /// The writer went away without an answer.
    Lost,
}

/// What a query for the latest sample of an agent found in the cache.
#[derive(Debug)]
pub enum LatestLookup {
    /// The cache holds the latest sample.
    Found(Sample),
    /// The cache holds nothing of the agent: ask the store.
    AskStore,
    /// The cache holds nothing of the agent and there is no store.
    Absent,
}

/// What a query for the history of an agent found in the cache.
#[derive(Debug)]
pub enum HistoryLookup {
    /// The answer.
    Done(Vec<Sample>),
    /// The cache holds these samples, fewer than asked for: ask the store
    /// and merge.
    AskStore(Vec<Sample>),
}

/// One step of a shutdown.
#[derive(Debug, Clone, Copy, PartialEq, Eq, Structural)]
pub enum ShutdownStep {
    /// Tell the retention cleaner to stop and wait this long for it; stop
    /// it by force if it has not finished by then.
    StopCleaner { wait_ms: u64 },
    /// Close the sending side of the write queue, so that the batch writer
    /// sees the end of the stream.
    CloseQueue,
    /// Wait this long for the batch writer to write what is left; stop it
    /// by force if it has not finished by then.
    StopWriter { wait_ms: u64 },
}

/// Some id of the sequence is `id`.
pub open spec fn holds(ids: Seq<String>, id: Seq<char>) -> bool {
    exists|i: int| 0 <= i < ids.len() && (#[trigger] ids[i])@ == id
}

/// The ids stand in rising order of their bytes, so that none stands twice.
pub open spec fn rising(ids: Seq<String>) -> bool {
    forall|i: int, j: int|
        0 <= i < j < ids.len() ==> lex_lt(
            encode_utf8((#[trigger] ids[i])@),
            encode_utf8((#[trigger] ids[j])@),
        )
}

/// The samples without those that hold the same as the sample kept before
/// them.
pub open spec fn dedup(samples: Seq<Sample>) -> Seq<Sample>
    decreases samples.len(),
{
    if samples.len() == 0 {
        samples
    } else {
        let head = dedup(samples.drop_last());
        if head.len() > 0 && head.last()@ == samples.last()@ {
            head
        } else {
            head.push(samples.last())
        }
    }
}

/// The history of an agent from what the cache and the store hold of it.
///
/// Where the store gave nothing the cache is the answer. Otherwise the rows
/// of the store and after them the samples of the cache are put in the
/// order of their timestamps, a sample that holds the same as the one
/// before it is dropped, and the last `limit` are taken.
pub open spec fn merged(cache: Seq<Sample>, persisted: Option<Seq<Sample>>, limit: int) -> Seq<
    Sample,
> {
    match persisted {
        None => cache,
        Some(rows) => if rows.len() == 0 {
            cache
        } else {
            last_n(dedup(stable_sort_by(rows + cache, rank_of::<Sample>())), limit)
        },
    }
}

/// Samples that hold the same sort into sequences that hold the same.
pub proof fn lemma_sorted_views(a: Seq<Sample>, b: Seq<Sample>)
    requires
        views(a) == views(b),
    ensures
        views(stable_sort_by(a, rank_of::<Sample>())) == views(
            stable_sort_by(b, rank_of::<Sample>()),
        ),
{
    let sorted_a = stable_sort_by(a, rank_of::<Sample>());
    let sorted_b = stable_sort_by(b, rank_of::<Sample>());
    lemma_stable_sort_map(a, view_of(), rank_of::<Sample>(), view_rank());
    lemma_stable_sort_map(b, view_of(), rank_of::<Sample>(), view_rank());
    assert(a.map_values(view_of()) =~= views(a));
    assert(b.map_values(view_of()) =~= views(b));
    assert(views(sorted_a) =~= sorted_a.map_values(view_of()));
    assert(views(sorted_b) =~= sorted_b.map_values(view_of()));
}

/// Drops each sample that holds the same as the sample kept before it.
pub fn dedup_samples(samples: Vec<Sample>) -> (kept: Vec<Sample>)
    ensures
        kept@ == dedup(samples@),
{
    let ghost orig = samples@;
    let mut stack = reversed(samples);
    let mut kept: Vec<Sample> = Vec::new();
    assert(orig.take(0) =~= Seq::<Sample>::empty());
    while stack.len() > 0
        invariant
            stack@.len() <= orig.len(),
            forall|i: int| 0 <= i < stack@.len() ==> stack@[i] == orig[orig.len() - 1 - i],
            kept@ == dedup(orig.take(orig.len() - stack@.len())),
        decreases stack@.len(),
    {
        let ghost done = orig.len() - stack@.len();
        let sample = stack.pop().unwrap();
        proof {
            assert(sample == orig[done]);
            assert(orig.take(done + 1).drop_last() =~= orig.take(done));
            assert(orig.take(done + 1).last() == sample);
        }
        let repeat = kept.len() > 0 && kept[kept.len() - 1].same_as(&sample);
        if !repeat {
            kept.push(sample);
        }
    }
    assert(orig.take(orig.len() as int) =~= orig);
    kept
}

/// Merges what the cache and the store hold of an agent. `persisted` is
/// `None` where the store could not be read.
pub fn merge_history(cache_history: Vec<Sample>, persisted: Option<Vec<Sample>>, limit: usize)
    -> (history: Vec<Sample>)
    ensures
        history@ == merged(
            cache_history@,
            match persisted {
                Some(rows) => Some(rows@),
                None => None,
            },
            limit as int,
        ),
{
    match persisted {
        None => cache_history,
        Some(rows) => {
            if rows.len() == 0 {
                cache_history
            } else {
                let mut all = rows;
                let mut tail = cache_history;
                all.append(&mut tail);
                let sorted = sort_by_rank(all);
                let kept = dedup_samples(sorted);
                keep_last(kept, limit)
            }
        },
    }
}

/// Puts an id into a rising sequence, unless the sequence holds it.
fn insert_rising(ids: &mut Vec<String>, id: String)
    requires
        rising(old(ids)@),
    ensures
        rising(final(ids)@),
        forall|x: Seq<char>| #[trigger] holds(final(ids)@, x) <==> holds(old(ids)@, x) || x == id@,
{
    let ghost before = ids@;
    let ghost new_bytes = encode_utf8(id@);
    let mut at: usize = 0;
    while at < ids.len() && bytes_lt(ids[at].as_str().as_bytes(), id.as_str().as_bytes())
        invariant
            at <= ids@.len(),
            ids@ == before,
            new_bytes == encode_utf8(id@),
            forall|j: int| 0 <= j < at ==> lex_lt(encode_utf8((#[trigger] before[j])@), new_bytes),
        decreases ids@.len() - at,
    {
        at += 1;
    }
    if at < ids.len() && str_eq(ids[at].as_str(), id.as_str()) {
        proof {
            assert forall|x: Seq<char>| holds(before, x) || x == id@ implies holds(before, x) by {
                if x == id@ {
                    assert(before[at as int]@ == x);
                }
            }
        }
        return ;
    }
    ids.insert(at, id);
    proof {
        let after = ids@;
        assert(after.len() == before.len() + 1);
        assert(after[at as int]@ == id@);
        assert forall|j: int| 0 <= j < at implies #[trigger] after[j] == before[j] by {}
        assert forall|j: int| at < j < after.len() implies #[trigger] after[j] == before[j - 1] by {}
        if at < before.len() {
            let next_bytes = encode_utf8(before[at as int]@);
            lemma_lex_total(next_bytes, new_bytes);
            if next_bytes == new_bytes {
                lemma_encode_injective(before[at as int]@, id@);
            }
            assert(lex_lt(new_bytes, next_bytes));
        }
        assert forall|i: int, j: int| 0 <= i < j < after.len() implies lex_lt(
            encode_utf8((#[trigger] after[i])@),
            encode_utf8((#[trigger] after[j])@),
        ) by {
            if j < at {
                assert(after[i] == before[i] && after[j] == before[j]);
            } else if j == at {
                assert(after[i] == before[i]);
            } else if i == at {
                assert(after[j] == before[j - 1]);
                if j - 1 > at {
                    assert(lex_lt(
                        encode_utf8(before[at as int]@),
                        encode_utf8(before[j - 1]@),
                    ));
                    lemma_lex_transitive(
                        new_bytes,
                        encode_utf8(before[at as int]@),
                        encode_utf8(before[j - 1]@),
                    );
                }
            } else if i < at {
                assert(after[i] == before[i] && after[j] == before[j - 1]);
                if i < j - 1 {
                    assert(lex_lt(encode_utf8(before[i]@), encode_utf8(before[j - 1]@)));
                } else {
                    assert(false);
                }
            } else {
                assert(after[i] == before[i - 1] && after[j] == before[j - 1]);
            }
        }
        assert forall|x: Seq<char>| holds(after, x) <==> holds(before, x) || x == id@ by {
            if holds(after, x) {
                let i = choose|i: int| 0 <= i < after.len() && (#[trigger] after[i])@ == x;
                if i < at {
                    assert(before[i]@ == x);
                } else if i > at {
                    assert(before[i - 1]@ == x);
                }
            }
            if holds(before, x) {
                let i = choose|i: int| 0 <= i < before.len() && (#[trigger] before[i])@ == x;
                if i < at {
                    assert(after[i]@ == x);
                } else {
                    assert(after[i + 1]@ == x);
                }
            }
            if x == id@ {
                assert(after[at as int]@ == x);
            }
        }
    }
}

/// Some id of the sequence at or behind index `from` is `id`.
pub open spec fn holds_from(ids: Seq<String>, from: int, id: Seq<char>) -> bool {
    exists|i: int| from <= i < ids.len() && 0 <= i && (#[trigger] ids[i])@ == id
}

/// Puts all ids of a sequence into a rising sequence.
fn insert_all_rising(ids: &mut Vec<String>, more: Vec<String>)
    requires
        rising(old(ids)@),
    ensures
        rising(final(ids)@),
        forall|x: Seq<char>|
            #[trigger] holds(final(ids)@, x) <==> holds(old(ids)@, x) || holds(more@, x),
{
    let ghost orig = more@;
    let ghost before = ids@;
    let mut rest = more;
    assert(rest@ =~= orig.take(rest@.len() as int));
    while rest.len() > 0
        invariant
            rest@.len() <= orig.len(),
            rest@ == orig.take(rest@.len() as int),
            rising(ids@),
            forall|x: Seq<char>|
                #[trigger] holds(ids@, x) <==> holds(before, x) || holds_from(
                    orig,
                    rest@.len() as int,
                    x,
                ),
        decreases rest@.len(),
    {
        let ghost left = rest@.len() as int;
        let ghost prior = ids@;
        let id = rest.pop().unwrap();
        proof {
            assert(rest@ =~= orig.take(left - 1));
            assert(id == orig[left - 1]);
        }
        insert_rising(ids, id);
        proof {
            assert forall|x: Seq<char>|
                holds(ids@, x) <==> holds(before, x) || holds_from(orig, left - 1, x) by {
                assert(holds(ids@, x) <==> holds(prior, x) || x == id@);
                assert(holds(prior, x) <==> holds(before, x) || holds_from(orig, left, x));
                if holds_from(orig, left - 1, x) {
                    let i = choose|i: int|
                        left - 1 <= i < orig.len() && 0 <= i && (#[trigger] orig[i])@ == x;
                    if i >= left {
                        assert(holds_from(orig, left, x));
                    } else {
                        assert(x == id@);
                    }
                }
                if holds_from(orig, left, x) {
                    let i = choose|i: int|
                        left <= i < orig.len() && 0 <= i && (#[trigger] orig[i])@ == x;
                    assert(left - 1 <= i < orig.len() && orig[i]@ == x);
                }
                if x == id@ {
                    assert(orig[left - 1]@ == x);
                }
            }
        }
    }
    proof {
        assert forall|x: Seq<char>| holds(ids@, x) <==> holds(before, x) || holds(orig, x) by {
            if holds(orig, x) {
                let i = choose|i: int| 0 <= i < orig.len() && (#[trigger] orig[i])@ == x;
                assert(0 <= i < orig.len() && orig[i]@ == x);
                assert(holds_from(orig, 0, x));
            }
            if holds_from(orig, 0, x) {
                let i = choose|i: int| 0 <= i < orig.len() && 0 <= i && (#[trigger] orig[i])@ == x;
                assert(0 <= i < orig.len() && orig[i]@ == x);
            }
        }
    }
}

/// The agent ids of two lists, each once, in rising order of their bytes.
pub fn union_sorted(first: Vec<String>, second: Vec<String>) -> (ids: Vec<String>)
    ensures
        rising(ids@),
        forall|x: Seq<char>| #[trigger] holds(ids@, x) <==> holds(first@, x) || holds(second@, x),
{
    let mut ids: Vec<String> = Vec::new();
    insert_all_rising(&mut ids, first);
    insert_all_rising(&mut ids, second);
    ids
}

/// The ingest façade.
#[derive(Debug)]
pub struct Storage {
    cache: Cache,
    persist_enabled: bool,
    cleanup_enabled: bool,
    queue_open: bool,
}

impl Storage {
    /// What holds of every façade.
    pub closed spec fn wf(&self) -> bool {
        &&& self.cache.wf()
        &&& self.cleanup_enabled ==> self.persist_enabled
        &&& self.queue_open ==> self.persist_enabled
    }

    /// Whether samples are persisted as well as cached.
    pub closed spec fn persists(&self) -> bool {
        self.persist_enabled
    }

    /// Whether a retention cleaner runs.
    pub closed spec fn cleans(&self) -> bool {
        self.cleanup_enabled
    }

    /// Whether the write queue takes samples.
    pub closed spec fn queue_is_open(&self) -> bool {
        self.queue_open
    }

    /// Greatest number of samples cached for one agent.
    pub closed spec fn capacity(&self) -> nat {
        self.cache.capacity()
    }

    /// The samples cached for the agent, oldest first.
    pub closed spec fn cached(&self, agent: Seq<char>) -> Seq<Sample> {
        self.cache.history(agent)
    }

    /// The agents that the cache has met.
    pub closed spec fn cached_agents(&self) -> Seq<Seq<char>> {
        self.cache.agents()
    }

    /// All samples that the cache holds, agent after agent in the order in
    /// which the cache met them, each agent's oldest first.
    pub closed spec fn all_cached(&self) -> Seq<Sample> {
        self.cache.everything()
    }

    /// No agent has more samples in the cache than the capacity.
    pub proof fn lemma_cache_bounded(&self, agent: Seq<char>)
        requires
            self.wf(),
        ensures
            self.cached(agent).len() <= self.capacity(),
    {
        self.cache.lemma_history_bounded(agent);
    }

    /// A façade in memory-only mode with the default options.
    pub fn new() -> (storage: Storage)
        ensures
            storage.wf(),
            !storage.persists(),
            !storage.cleans(),
            !storage.queue_is_open(),
            storage.capacity() == 100,
            storage.cached_agents() == Seq::<Seq<char>>::empty(),
    {
        let config = StorageConfig::default();
        Storage::with_config(&config, false)
    }

    /// A façade with the given options. `store_opened` says whether the
    /// database at `db_path` could be opened; where it could not, or where
    /// no path is given, the façade runs in memory-only mode.
    ///
    /// In persistent mode a batch writer is to be started, and a retention
    /// cleaner where the options enable it; the options must then hold
    /// values that these can run with.
    pub fn with_config(config: &StorageConfig, store_opened: bool) -> (storage: Storage)
        requires
            config.db_path is Some && store_opened ==> config.batch_valid() && (
            config.enable_cleanup ==> config.cleanup_valid()),
        ensures
            storage.wf(),
            storage.persists() == (config.db_path is Some && store_opened),
            storage.cleans() == (storage.persists() && config.enable_cleanup),
            storage.queue_is_open() == storage.persists(),
            storage.capacity() == config.cache_size_per_agent,
            storage.cached_agents() == Seq::<Seq<char>>::empty(),
            forall|agent: Seq<char>| (#[trigger] storage.cached(agent)).len() == 0,
    {
        let persist_enabled = config.db_path.is_some() && store_opened;
        Storage {
            cache: Cache::new(config.cache_size_per_agent),
            persist_enabled,
            cleanup_enabled: persist_enabled && config.enable_cleanup,
            queue_open: persist_enabled,
        }
    }

    /// Whether samples are persisted as well as cached.
    pub fn is_persist_enabled(&self) -> (enabled: bool)
        ensures
            enabled == self.persists(),
    {
        self.persist_enabled
    }

    /// Whether a retention cleaner is to run.
    pub fn is_cleanup_enabled(&self) -> (enabled: bool)
        ensures
            enabled == self.cleans(),
    {
        self.cleanup_enabled
    }

    /// Takes a sample into the cache and says what the write queue gets.
    fn take_in(&mut self, metrics: &Sample)
        requires
            old(self).wf(),
        ensures
            final(self).wf(),
            final(self).persists() == old(self).persists(),
            final(self).cleans() == old(self).cleans(),
            final(self).queue_is_open() == old(self).queue_is_open(),
            final(self).capacity() == old(self).capacity(),
            views(final(self).cached(metrics.agent_id@)) == views(
                last_n(
                    old(self).cached(metrics.agent_id@).push(*metrics),
                    old(self).capacity() as int,
                ),
            ),
            forall|agent: Seq<char>|
                agent != metrics.agent_id@ ==> #[trigger] final(self).cached(agent) == old(
                    self,
                ).cached(agent),
            final(self).cached_agents() == if old(self).cached_agents().contains(
                metrics.agent_id@,
            ) {
                old(self).cached_agents()
            } else {
                old(self).cached_agents().push(metrics.agent_id@)
            },
    {
        let copy = metrics.duplicate();
        let ghost before = self.cache.history(metrics.agent_id@);
        let ghost cap = self.cache.capacity() as int;
        self.cache.update(copy);
        proof {
            assert(views(last_n(before.push(copy), cap)) =~= views(
                last_n(before.push(*metrics), cap),
            ));
        }
    }

    /// Saves a sample without waiting for the store. The cache takes the
    /// sample at once; in persistent mode the sample is to be offered to
    /// the write queue.
    pub fn save_metrics(&mut self, metrics: &Sample) -> (next: Enqueue)
        requires
            old(self).wf(),
        ensures
            final(self).wf(),
            final(self).persists() == old(self).persists(),
            final(self).cleans() == old(self).cleans(),
            final(self).queue_is_open() == old(self).queue_is_open(),
            final(self).capacity() == old(self).capacity(),
            views(final(self).cached(metrics.agent_id@)) == views(
                last_n(
                    old(self).cached(metrics.agent_id@).push(*metrics),
                    old(self).capacity() as int,
                ),
            ),
            forall|agent: Seq<char>|
                agent != metrics.agent_id@ ==> #[trigger] final(self).cached(agent) == old(
                    self,
                ).cached(agent),
            final(self).cached_agents() == if old(self).cached_agents().contains(
                metrics.agent_id@,
            ) {
                old(self).cached_agents()
            } else {
                old(self).cached_agents().push(metrics.agent_id@)
            },
            next == if !old(self).persists() {
                Enqueue::Stored
            } else if old(self).queue_is_open() {
                Enqueue::TrySend
            } else {
                Enqueue::Closed
            },
    {
        self.take_in(metrics);
        if !self.persist_enabled {
            Enqueue::Stored
        } else if self.queue_open {
            Enqueue::TrySend
        } else {
            Enqueue::Closed
        }
    }

    /// Saves a sample and asks for its commit. The cache takes the sample
    /// at once; in persistent mode the sample is to be put on the write
    /// queue and the answer of the batch writer awaited. In memory-only
    /// mode the cache is the commit.
    pub fn save_metrics_sync(&mut self, metrics: &Sample) -> (next: Enqueue)
        requires
            old(self).wf(),
        ensures
            final(self).wf(),
            final(self).persists() == old(self).persists(),
            final(self).cleans() == old(self).cleans(),
            final(self).queue_is_open() == old(self).queue_is_open(),
            final(self).capacity() == old(self).capacity(),
            views(final(self).cached(metrics.agent_id@)) == views(
                last_n(
                    old(self).cached(metrics.agent_id@).push(*metrics),
                    old(self).capacity() as int,
                ),
            ),
            forall|agent: Seq<char>|
                agent != metrics.agent_id@ ==> #[trigger] final(self).cached(agent) == old(
                    self,
                ).cached(agent),
            final(self).cached_agents() == if old(self).cached_agents().contains(
                metrics.agent_id@,
            ) {
                old(self).cached_agents()
            } else {
                old(self).cached_agents().push(metrics.agent_id@)
            },
            next == if !old(self).persists() {
                Enqueue::Stored
            } else if old(self).queue_is_open() {
                Enqueue::SendAndWait
            } else {
                Enqueue::Closed
            },
    {
        self.take_in(metrics);
        if !self.persist_enabled {
            Enqueue::Stored
        } else if self.queue_open {
            Enqueue::SendAndWait
        } else {
            Enqueue::Closed
        }
    }

    /// What a save that does not wait makes of the attempt to send: it
    /// reports nothing, and names the reason where the sample stays in
    /// memory only.
    pub fn async_result(sent: SendOutcome) -> (dropped: Option<StorageError>)
        ensures
            dropped == match sent {
                SendOutcome::Sent => None::<StorageError>,
                SendOutcome::Full => Some(StorageError::Backpressure),
                SendOutcome::Closed => Some(StorageError::Shutdown),
            },
    {
        match sent {
            SendOutcome::Sent => None,
            SendOutcome::Full => Some(StorageError::Backpressure),
            SendOutcome::Closed => Some(StorageError::Shutdown),
        }
    }

    /// What a save that waits returns: success where the sample was sent
    /// and its batch is committed, and otherwise the error of the commit or
    /// that of the queue.
    pub fn sync_result(sent: SendOutcome, answer: AckOutcome) -> (result: Result<(), StorageError>)
        ensures
            result == match sent {
                SendOutcome::Sent => match answer {
                    AckOutcome::Committed => Ok::<(), StorageError>(()),
                    AckOutcome::Failed(error) => Err(error),
                    AckOutcome::Lost => Err(StorageError::Shutdown),
                },
                SendOutcome::Full => Err(StorageError::Backpressure),
                SendOutcome::Closed => Err(StorageError::Shutdown),
            },
    {
        match sent {
            SendOutcome::Sent => match answer {
                AckOutcome::Committed => Ok(()),
                AckOutcome::Failed(error) => Err(error),
                AckOutcome::Lost => Err(StorageError::Shutdown),
            },
            SendOutcome::Full => Err(StorageError::Backpressure),
            SendOutcome::Closed => Err(StorageError::Shutdown),
        }
    }

    /// The ids of all agents, each once, in rising order: those that the
    /// cache has met and those that the store lists. `persisted` is `None`
    /// in memory-only mode and where the store could not be read.
    pub fn get_all_agents(&self, persisted: Option<Vec<String>>) -> (ids: Vec<String>)
        requires
            self.wf(),
        ensures
            rising(ids@),
            forall|x: Seq<char>|
                #[trigger] holds(ids@, x) <==> self.cached_agents().contains(x) || match persisted {
                    Some(listed) => holds(listed@, x),
                    None => false,
                },
    {
        let cached = self.cache.get_all_agents();
        let listed = match persisted {
            Some(listed) => listed,
            None => Vec::new(),
        };
        let ids = union_sorted(cached, listed);
        proof {
            assert forall|x: Seq<char>| holds(cached@, x) <==> self.cached_agents().contains(
                x,
            ) by {
                if holds(cached@, x) {
                    let i = choose|i: int| 0 <= i < cached@.len() && (#[trigger] cached@[i])@ == x;
                    assert(self.cached_agents()[i] == x);
                }
                if self.cached_agents().contains(x) {
                    let i = choose|i: int|
                        0 <= i < self.cached_agents().len() && self.cached_agents()[i] == x;
                    assert(cached@[i]@ == x);
                }
            }
        }
        ids
    }

    /// The newest `limit` samples of all agents together, oldest first, as
    /// far as the cache holds them; samples of one timestamp stand in the
    /// order in which the cache met their agents.
    pub fn get_latest(&self, limit: usize) -> (latest: Vec<Sample>)
        requires
            self.wf(),
        ensures
            views(latest@) == views(
                last_n(stable_sort_by(self.all_cached(), rank_of::<Sample>()), limit as int),
            ),
    {
        let copies = self.cache.all_samples();
        let ghost held = copies@;
        let sorted = sort_by_rank(copies);
        proof {
            lemma_sorted_views(held, self.all_cached());
        }
        let latest = keep_last(sorted, limit);
        proof {
            let wanted = stable_sort_by(self.all_cached(), rank_of::<Sample>());
            lemma_stable_sort(held, rank_of::<Sample>());
            lemma_stable_sort(self.all_cached(), rank_of::<Sample>());
            assert(views(sorted@).len() == views(wanted).len());
            assert forall|k: int| 0 <= k < sorted@.len() implies (#[trigger] sorted@[k])@
                == wanted[k]@ by {
                assert(views(sorted@)[k] == views(wanted)[k]);
            }
            assert(views(latest@) =~= views(last_n(wanted, limit as int)));
        }
        latest
    }

    /// Looks for the latest sample of an agent: the newest sample of the
    /// cache where the cache holds one of the agent; otherwise the store is
    /// to be asked, if there is one.
    pub fn get_agent_latest(&self, agent_id: &str) -> (found: LatestLookup)
        requires
            self.wf(),
        ensures
            match found {
                LatestLookup::Found(sample) => self.cached(agent_id@).len() > 0 && sample@
                    == self.cached(agent_id@).last()@,
                LatestLookup::AskStore => self.cached(agent_id@).len() == 0 && self.persists(),
                LatestLookup::Absent => self.cached(agent_id@).len() == 0 && !self.persists(),
            },
    {
        match self.cache.get_latest(agent_id) {
            Some(sample) => LatestLookup::Found(sample),
            None => if self.persist_enabled {
                LatestLookup::AskStore
            } else {
                LatestLookup::Absent
            },
        }
    }

    /// Looks for the newest `limit` samples of an agent, oldest first.
    ///
    /// A limit of zero gives nothing. In memory-only mode the cache
    /// answers. In persistent mode the cache answers where it holds `limit`
    /// samples of the agent; where it holds fewer, the store is to be asked
    /// for its latest `limit` rows and the two merged with `merge_history`.
    pub fn get_agent_history(&self, agent_id: &str, limit: usize) -> (found: HistoryLookup)
        requires
            self.wf(),
        ensures
            match found {
                HistoryLookup::Done(history) => views(history@) == views(
                    last_n(self.cached(agent_id@), limit as int),
                ) && (limit == 0 || !self.persists() || history@.len() >= limit),
                HistoryLookup::AskStore(history) => views(history@) == views(
                    last_n(self.cached(agent_id@), limit as int),
                ) && limit > 0 && self.persists() && history@.len() < limit,
            },
    {
        if limit == 0 {
            let nothing: Vec<Sample> = Vec::new();
            assert(views(nothing@) =~= views(last_n(self.cached(agent_id@), 0)));
            return HistoryLookup::Done(nothing);
        }
        let history = self.cache.get_history(agent_id, limit);
        if !self.persist_enabled || history.len() >= limit {
            HistoryLookup::Done(history)
        } else {
            HistoryLookup::AskStore(history)
        }
    }

    /// Begins a shutdown: the write queue takes no more samples, and the
    /// background tasks are to be stopped in the order given, the cleaner
    /// before the queue is closed and the writer after. In memory-only mode
    /// there is nothing to stop.
    pub fn shutdown(&mut self) -> (steps: Vec<ShutdownStep>)
        requires
            old(self).wf(),
        ensures
            final(self).wf(),
            !final(self).queue_is_open(),
            final(self).persists() == old(self).persists(),
            final(self).cleans() == old(self).cleans(),
            final(self).capacity() == old(self).capacity(),
            forall|agent: Seq<char>| #[trigger]
                final(self).cached(agent) == old(self).cached(agent),
            final(self).cached_agents() == old(self).cached_agents(),
            steps@ == if !old(self).persists() {
                Seq::<ShutdownStep>::empty()
            } else if old(self).cleans() {
                seq![
                    ShutdownStep::StopCleaner { wait_ms: CLEANER_WAIT_MS },
                    ShutdownStep::CloseQueue,
                    ShutdownStep::StopWriter { wait_ms: WRITER_WAIT_MS },
                ]
            } else {
                seq![ShutdownStep::CloseQueue, ShutdownStep::StopWriter { wait_ms: WRITER_WAIT_MS }]
            },
    {
        let mut steps: Vec<ShutdownStep> = Vec::new();
        if self.persist_enabled {
            if self.cleanup_enabled {
                steps.push(ShutdownStep::StopCleaner { wait_ms: CLEANER_WAIT_MS });
            }
            steps.push(ShutdownStep::CloseQueue);
            steps.push(ShutdownStep::StopWriter { wait_ms: WRITER_WAIT_MS });
        }
        self.queue_open = false;
        proof {
            if !self.persist_enabled {
                assert(steps@ =~= Seq::<ShutdownStep>::empty());
            } else if self.cleanup_enabled {
                assert(steps@ =~= seq![
                    ShutdownStep::StopCleaner { wait_ms: CLEANER_WAIT_MS },
                    ShutdownStep::CloseQueue,
                    ShutdownStep::StopWriter { wait_ms: WRITER_WAIT_MS },
                ]);
            } else {
                assert(steps@ =~= seq![
                    ShutdownStep::CloseQueue,
                    ShutdownStep::StopWriter { wait_ms: WRITER_WAIT_MS },
                ]);
            }
        }
        steps
    }
}

} // verus!
