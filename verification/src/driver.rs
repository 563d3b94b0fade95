//! The per-follower replication driver a leader owns.
//!
//! One driver per remote peer tracks `next_index` and `match_index`, builds
//! each `AppendEntries` ask (a heartbeat when there is nothing to ship), and
//! judges the answer: a higher term is handed up for step-down, success
//! advances the bookkeeping and reports the match upward, refusal backs off
//! one index for an immediate retry. The host paces the loop: it sleeps the
//! heartbeat interval after a successful round and wakes early when new
//! entries appear.

use vstd::prelude::*;

use crate::log::dup_entry;
use crate::types::{AppendEntriesAsk, AppendEntriesReply, LogEntry, PeerId};

verus! {

/// Bookkeeping a leader keeps for one remote follower.
pub struct DriverState {
    /// Next log index to ship; starts just past the leader's log.
    pub next_index: u64,
    /// Highest index known replicated on the follower; grows only.
    pub match_index: u64,
}

/// What one answered `AppendEntries` round means.
#[derive(Debug, PartialEq, Eq, Structural)]
pub enum DriverVerdict {
    /// The follower is in a later term: the peer core must step down to it.
    StepDown(u32),
    /// The suffix landed; report the follower's new match index upward so
    /// the leader can advance its commit index.
    Report { match_index: u64 },
    /// The follower refused the suffix: the driver backed `next_index` off
    /// by one and should retry at once.
    Retry,
}

/// Length of the batch shipped from a log of `loglen` entries when the next
/// index to ship is `next`: whatever is available, capped at `batch`.
pub open spec fn spec_batch_len(loglen: int, next: int, batch: int) -> int {
    if loglen - (next - 1) < batch {
        loglen - (next - 1)
    } else {
        batch
    }
}

impl DriverState {
    /// Fresh bookkeeping on winning an election: nothing known replicated,
    /// shipping resumes after the leader's last entry.
    pub fn new(last_log_index: u64) -> (r: DriverState)
        requires
            last_log_index < u64::MAX,
        ensures
            r.next_index == last_log_index + 1,
            r.match_index == 0,
    {
        DriverState { next_index: last_log_index + 1, match_index: 0 }
    }

    /// Builds the next ask from the leader's log and shared snapshot: the
    /// suffix of at most `batch_max` entries from `next_index` on, preceded
    /// by the index and term of the entry just before it (zeroes at the log's
    /// start), carrying the leader's term and commit index. An empty batch is
    /// the heartbeat.
    pub fn build_ask(
        &self,
        log: &Vec<LogEntry>,
        current_term: u32,
        commit_index: u64,
        leader_id: &PeerId,
        batch_max: usize,
    ) -> (ask: AppendEntriesAsk)
        requires
            1 <= self.next_index,
            self.next_index <= log@.len() + 1,
            1 <= batch_max,
        ensures
            ask.term == current_term,
            ask.leader_id@ == leader_id@,
            ask.leader_commit == commit_index,
            ask.prev_log_index == self.next_index - 1,
            ask.prev_log_term == (if self.next_index == 1 {
                0u32
            } else {
                log@[self.next_index - 2].term
            }),
            ask.entries@.len() == spec_batch_len(
                log@.len() as int,
                self.next_index as int,
                batch_max as int,
            ),
            forall|k: int|
                0 <= k < ask.entries@.len() ==> (#[trigger] ask.entries@[k]).term == log@[
                    self.next_index - 1 + k].term && ask.entries@[k].payload@ == log@[
                    self.next_index - 1 + k].payload@,
    {
        let loglen = log.len();
        let prev = self.next_index - 1;
        let prev_term: u32 = if prev == 0 {
            0
        } else {
            log[(prev - 1) as usize].term
        };
        let start = prev as usize;
        let avail = loglen - start;
        let count = if avail < batch_max {
            avail
        } else {
            batch_max
        };
        let mut entries: Vec<LogEntry> = Vec::new();
        let mut k: usize = 0;
        while k < count
            invariant
                k <= count,
                start + count <= loglen,
                loglen == log@.len(),
                entries@.len() == k,
                forall|i: int|
                    0 <= i < k ==> (#[trigger] entries@[i]).term == log@[start + i].term
                        && entries@[i].payload@ == log@[start + i].payload@,
            decreases count - k,
        {
            entries.push(dup_entry(&log[start + k]));
            k += 1;
        }
        AppendEntriesAsk {
            term: current_term,
            leader_id: leader_id.duplicate(),
            prev_log_index: prev,
            prev_log_term: prev_term,
            entries,
            leader_commit: commit_index,
        }
    }

    /// Judges the follower's answer to an ask that shipped `sent_count`
    /// entries after `sent_prev`. A later term is handed up unchanged;
    /// success records the shipped suffix as matched and reports it;
    /// refusal backs `next_index` off by one (never below one) for an
    /// immediate retry with a longer reach back.
    pub fn on_reply(
        &mut self,
        sent_prev: u64,
        sent_count: usize,
        reply: &AppendEntriesReply,
        current_term: u32,
    ) -> (v: DriverVerdict)
        requires
            sent_prev + sent_count < u64::MAX,
        ensures
            reply.term > current_term ==> (*final (self) == *old(self) && v == (
            DriverVerdict::StepDown(reply.term))),
            reply.term <= current_term && reply.success ==> {
                &&& final (self).match_index == sent_prev + sent_count
                &&& final (self).next_index == sent_prev + sent_count + 1
                &&& v == (DriverVerdict::Report {
                    match_index: ((sent_prev + sent_count) as u64),
                })
            },
            reply.term <= current_term && !reply.success ==> {
                &&& final (self).match_index == old(self).match_index
                &&& final (self).next_index == (if old(self).next_index > 1 {
                    (old(self).next_index - 1) as u64
                } else {
                    1u64
                })
                &&& v == DriverVerdict::Retry
            },
    {
        if reply.term > current_term {
            return DriverVerdict::StepDown(reply.term);
        }
        if reply.success {
            let matched = sent_prev + sent_count as u64;
            self.match_index = matched;
            self.next_index = matched + 1;
            DriverVerdict::Report { match_index: matched }
        } else {
            if self.next_index > 1 {
                self.next_index = self.next_index - 1;
            } else {
                self.next_index = 1;
            }
            DriverVerdict::Retry
        }
    }
}

} // verus!
