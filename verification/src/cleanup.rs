//! The retention cleaner: one pass over the store, step by step.
//!
//! A pass deletes, for each agent, the rows beyond the row cap, and then,
//! where an age limit is set, the rows older than the limit. The caller
//! carries out each step against the store and reports what was deleted.

use std::sync::atomic::AtomicBool;
use std::sync::Arc;
use vstd::prelude::*;
use crate::clock::current_timestamp_secs;
use crate::config::StorageConfig;
use crate::flag::{new_flag, read_flag, share_flag, write_flag};

verus! {

/// Seconds between two looks at the stop flag while the cleaner waits.
pub const CHECK_INTERVAL_SECS: u64 = 10;

/// Seconds of a day.
pub const SECONDS_PER_DAY: u64 = 86400;

/// The timestamp below which the age pass deletes: the present less the
/// retention time, and the smallest timestamp where that lies below it.
pub open spec fn cutoff_of(now_secs: int, retention_days: nat) -> int {
    let cutoff = now_secs - retention_days * 86400;
    if cutoff < i64::MIN {
        i64::MIN as int
    } else {
        cutoff
    }
}

/// The sum of two counts, and the greatest count where the sum lies above
/// it.
pub open spec fn capped_sum(a: nat, b: nat) -> nat {
    if a + b > usize::MAX {
        usize::MAX as nat
    } else {
        a + b
    }
}

/// The timestamp below which the age pass deletes.
pub fn cutoff_for(now_secs: i64, retention_days: u64) -> (cutoff: i64)
    ensures
        cutoff == cutoff_of(now_secs as int, retention_days as nat),
{
    let span: i128 = (retention_days as i128) * 86400;
    let cutoff: i128 = (now_secs as i128) - span;
    if cutoff < i64::MIN as i128 {
        i64::MIN
    } else {
        cutoff as i64
    }
}

/// What a pass has done.
#[derive(Debug, Clone, Copy, PartialEq, Eq, Structural)]
pub struct CleanupReport {
    /// Number of agents that the pass went through.
    pub agents_total: usize,
    /// Number of agents that lost rows to the row cap.
    pub agents_cleaned: usize,
    /// Number of rows deleted for the row cap.
    pub deleted_by_count: usize,
    /// Number of rows deleted for their age.
    pub deleted_by_time: usize,
    /// The age limit in days; zero where there is none.
    pub retention_days: u64,
}

/// The next step of a pass.
#[derive(Debug)]
pub enum CleanupStep {
    /// Delete the rows of this agent beyond the row cap.
    DeleteOldest { agent_id: String, keep_count: usize },
    /// Delete the rows of all agents below this timestamp.
    DeleteBefore { cutoff: i64 },
    /// The pass is done.
    Finished(CleanupReport),
    /// The cleaner was told to stop; the pass ends here.
    Stopped,
}

/// One pass of the cleaner.
#[derive(Debug)]
pub struct CleanupPass {
    agents: Vec<String>,
    next: usize,
    keep_count: usize,
    retention_days: u64,
    age_done: bool,
    agents_cleaned: usize,
    deleted_by_count: usize,
    deleted_by_time: usize,
}

impl CleanupPass {
    /// What holds of every pass.
    pub closed spec fn wf(&self) -> bool {
        self.next <= self.agents@.len()
    }

    /// The agents of the pass.
    pub closed spec fn agents(&self) -> Seq<String> {
        self.agents@
    }

    /// Number of agents that the pass has dealt with.
    pub closed spec fn position(&self) -> nat {
        self.next as nat
    }

    /// The row cap.
    pub closed spec fn keep_count(&self) -> nat {
        self.keep_count as nat
    }

    /// The age limit in days.
    pub closed spec fn retention_days(&self) -> nat {
        self.retention_days as nat
    }

    /// Whether the age pass has been made.
    pub closed spec fn age_done(&self) -> bool {
        self.age_done
    }

    /// What the pass has done so far.
    pub closed spec fn report(&self) -> CleanupReport {
        CleanupReport {
            agents_total: self.agents@.len() as usize,
            agents_cleaned: self.agents_cleaned,
            deleted_by_count: self.deleted_by_count,
            deleted_by_time: self.deleted_by_time,
            retention_days: self.retention_days,
        }
    }

    /// A pass over the given agents that has done nothing yet.
    pub fn new(agents: Vec<String>, keep_count: usize, retention_days: u64) -> (pass: CleanupPass)
        ensures
            pass.wf(),
            pass.agents() == agents@,
            pass.position() == 0,
            pass.keep_count() == keep_count,
            pass.retention_days() == retention_days,
            !pass.age_done(),
            pass.report() == (CleanupReport {
                agents_total: agents@.len() as usize,
                agents_cleaned: 0,
                deleted_by_count: 0,
                deleted_by_time: 0,
                retention_days,
            }),
    {
        CleanupPass {
            agents,
            next: 0,
            keep_count,
            retention_days,
            age_done: false,
            agents_cleaned: 0,
            deleted_by_count: 0,
            deleted_by_time: 0,
        }
    }

    /// The next step of the pass, given whether the cleaner may go on and
    /// the present time in seconds.
    ///
    /// While agents are left, the next of them has its rows beyond the cap
    /// deleted, unless the cleaner was told to stop. After the last agent
    /// the age pass follows where an age limit is set. Then the pass is
    /// done.
    pub fn next_step(&self, running: bool, now_secs: i64) -> (step: CleanupStep)
        requires
            self.wf(),
        ensures
            match step {
                CleanupStep::DeleteOldest { agent_id, keep_count } => self.position()
                    < self.agents().len() && running && agent_id@
                    == self.agents()[self.position() as int]@ && keep_count == self.keep_count(),
                CleanupStep::Stopped => self.position() < self.agents().len() && !running,
                CleanupStep::DeleteBefore { cutoff } => self.position() == self.agents().len()
                    && self.retention_days() > 0 && !self.age_done() && cutoff == cutoff_of(
                    now_secs as int,
                    self.retention_days(),
                ),
                CleanupStep::Finished(report) => self.position() == self.agents().len() && (
                self.retention_days() == 0 || self.age_done()) && report == self.report(),
            },
    {
        if self.next < self.agents.len() {
            if running {
                CleanupStep::DeleteOldest {
                    agent_id: self.agents[self.next].clone(),
                    keep_count: self.keep_count,
                }
            } else {
                CleanupStep::Stopped
            }
        } else if self.retention_days > 0 && !self.age_done {
            CleanupStep::DeleteBefore { cutoff: cutoff_for(now_secs, self.retention_days) }
        } else {
            CleanupStep::Finished(
                CleanupReport {
                    agents_total: self.agents.len(),
                    agents_cleaned: self.agents_cleaned,
                    deleted_by_count: self.deleted_by_count,
                    deleted_by_time: self.deleted_by_time,
                    retention_days: self.retention_days,
                },
            )
        }
    }

    /// Records what the deletion beyond the row cap did for the present
    /// agent, and moves to the next agent. `deleted` is `None` where the
    /// store failed: the pass goes on and counts nothing for the agent.
    pub fn record_oldest(&mut self, deleted: Option<usize>)
        requires
            old(self).wf(),
        ensures
            final(self).wf(),
            final(self).agents() == old(self).agents(),
            final(self).keep_count() == old(self).keep_count(),
            final(self).retention_days() == old(self).retention_days(),
            final(self).age_done() == old(self).age_done(),
            final(self).position() == if old(self).position() < old(self).agents().len() {
                old(self).position() + 1
            } else {
                old(self).position()
            },
            final(self).report() == match deleted {
                Some(count) => if count > 0 && old(self).position() < old(self).agents().len() {
                    CleanupReport {
                        agents_cleaned: capped_sum(
                            old(self).report().agents_cleaned as nat,
                            1,
                        ) as usize,
                        deleted_by_count: capped_sum(
                            old(self).report().deleted_by_count as nat,
                            count as nat,
                        ) as usize,
                        ..old(self).report()
                    }
                } else {
                    old(self).report()
                },
                None => old(self).report(),
            },
    {
        if self.next < self.agents.len() {
            self.next = self.next + 1;
            match deleted {
                Some(count) => {
                    if count > 0 {
                        self.deleted_by_count = self.deleted_by_count.saturating_add(count);
                        self.agents_cleaned = self.agents_cleaned.saturating_add(1);
                    }
                },
                None => {},
            }
        }
    }

    /// Records what the age pass deleted. `deleted` is `None` where the
    /// store failed: nothing is counted.
    pub fn record_before(&mut self, deleted: Option<usize>)
        requires
            old(self).wf(),
        ensures
            final(self).wf(),
            final(self).agents() == old(self).agents(),
            final(self).position() == old(self).position(),
            final(self).keep_count() == old(self).keep_count(),
            final(self).retention_days() == old(self).retention_days(),
            final(self).age_done(),
            final(self).report() == (CleanupReport {
                deleted_by_time: match deleted {
                    Some(count) => count,
                    None => 0,
                },
                ..old(self).report()
            }),
    {
        self.age_done = true;
        self.deleted_by_time = match deleted {
            Some(count) => count,
            None => 0,
        };
    }
}

/// The retention cleaner: its options and the flag by which it is told to
/// stop.
pub struct CleanupTask {
    config: StorageConfig,
    running: Arc<AtomicBool>,
}

impl CleanupTask {
    /// The options of the cleaner.
    pub closed spec fn options(&self) -> StorageConfig {
        self.config
    }

    /// A cleaner with the given options, which must hold a positive
    /// interval and a positive row cap. The cleaner is not yet told to
    /// stop.
    pub fn new(config: StorageConfig) -> (task: CleanupTask)
        requires
            config.cleanup_valid(),
        ensures
            task.options() == config,
    {
        CleanupTask { config, running: new_flag(true) }
    }

    /// The flag by which the cleaner is told to stop. It is made with the
    /// cleaner and stays the same flag for as long as the cleaner lives.
    pub closed spec fn flag(&self) -> Arc<AtomicBool> {
        self.running
    }

    /// A handle to the flag by which the cleaner is told to stop: the
    /// cleaner's own flag, the one that `is_running` reads and `stop` sets,
    /// and not a flag of its own.
    pub fn running_flag(&self) -> (handle: Arc<AtomicBool>)
        ensures
            handle == self.flag(),
    {
        share_flag(&self.running)
    }

    /// Whether the cleaner may go on. Another task may tell it to stop at
    /// any time.
    pub fn is_running(&self) -> bool {
        read_flag(&self.running)
    }

    /// Tells the cleaner to stop.
    pub fn stop(&self) {
        write_flag(&self.running, false)
    }

    /// Seconds between two passes: the hours of the options, and the
    /// greatest number where the seconds lie above it.
    pub fn interval_secs(&self) -> (secs: u64)
        ensures
            secs == if self.options().cleanup_interval_hours * 3600 > u64::MAX {
                u64::MAX as int
            } else {
                self.options().cleanup_interval_hours * 3600
            },
    {
        if self.config.cleanup_interval_hours > u64::MAX / 3600 {
            u64::MAX
        } else {
            self.config.cleanup_interval_hours * 3600
        }
    }

    /// Begins a pass over the agents that the store lists. There is no pass
    /// where the store could not list them (`None`) or lists none.
    pub fn begin_pass(&self, agent_ids: Option<Vec<String>>) -> (pass: Option<CleanupPass>)
        ensures
            match pass {
                Some(pass) => agent_ids is Some && agent_ids->0@.len() > 0 && pass.wf()
                    && pass.agents() == agent_ids->0@ && pass.position() == 0
                    && pass.keep_count() == self.options().max_records_per_agent
                    && pass.retention_days() == self.options().retention_days && !pass.age_done()
                    && pass.report() == (CleanupReport {
                    agents_total: agent_ids->0@.len() as usize,
                    agents_cleaned: 0,
                    deleted_by_count: 0,
                    deleted_by_time: 0,
                    retention_days: self.options().retention_days,
                }),
                None => agent_ids is None || agent_ids->0@.len() == 0,
            },
    {
        match agent_ids {
            Some(ids) => {
                if ids.len() == 0 {
                    None
                } else {
                    Some(
                        CleanupPass::new(
                            ids,
                            self.config.max_records_per_agent,
                            self.config.retention_days,
                        ),
                    )
                }
            },
            None => None,
        }
    }

    /// The next step of a pass, by the stop flag and the wall clock as they
    /// are now.
    pub fn advance(&self, pass: &CleanupPass) -> (step: CleanupStep)
        requires
            pass.wf(),
        ensures
            match step {
                CleanupStep::DeleteOldest { agent_id, keep_count } => pass.position()
                    < pass.agents().len() && agent_id@ == pass.agents()[pass.position() as int]@
                    && keep_count == pass.keep_count(),
                CleanupStep::Stopped => pass.position() < pass.agents().len(),
                CleanupStep::DeleteBefore { cutoff } => pass.position() == pass.agents().len()
                    && pass.retention_days() > 0 && !pass.age_done(),
                CleanupStep::Finished(report) => pass.position() == pass.agents().len() && (
                pass.retention_days() == 0 || pass.age_done()) && report == pass.report(),
            },
    {
        let running = self.is_running();
        let now_secs = current_timestamp_secs();
        pass.next_step(running, now_secs)
    }
}

} // verus!
