//! Core data types: peer identity, log entries, roles, wire messages, the
//! durable record, and the actions a handler asks its host process to run.

use vstd::prelude::*;

verus! {

/// Stable unique identity of a peer: the UTF-8 bytes of its short name.
/// The set of peers is fixed at startup and known to every peer.
pub struct PeerId {
    pub bytes: Vec<u8>,
}

impl View for PeerId {
    type V = Seq<u8>;

    open spec fn view(&self) -> Seq<u8> {
        self.bytes@
    }
}

impl PeerId {
    /// Byte-wise equality of two peer names.
    pub fn eq_id(&self, other: &PeerId) -> (r: bool)
        ensures
            r == (self@ == other@),
    {
        if self.bytes.len() != other.bytes.len() {
            assert(self@.len() != other@.len());
            return false;
        }
        let n = self.bytes.len();
        let mut i: usize = 0;
        while i < n
            invariant
                n == self.bytes.len() == other.bytes.len(),
                i <= n,
                forall|k: int| 0 <= k < i ==> self@[k] == other@[k],
            decreases n - i,
        {
            if self.bytes[i] != other.bytes[i] {
                return false;
            }
            i += 1;
        }
        proof {
            assert(self@ =~= other@);
        }
        true
    }

    /// A copy of this identity with the same name.
    pub fn duplicate(&self) -> (r: PeerId)
        ensures
            r@ == self@,
    {
        let mut bytes: Vec<u8> = Vec::new();
        let n = self.bytes.len();
        let mut i: usize = 0;
        while i < n
            invariant
                n == self.bytes.len(),
                bytes@ == self@.take(i as int),
                i <= n,
            decreases n - i,
        {
            bytes.push(self.bytes[i]);
            proof {
                assert(bytes@ =~= self@.take(i + 1));
            }
            i += 1;
        }
        proof {
            assert(self@.take(n as int) =~= self@);
        }
        PeerId { bytes }
    }
}

/// The name, if any, inside an optional peer identity.
pub open spec fn opt_peer(o: Option<PeerId>) -> Option<Seq<u8>> {
    match o {
        Some(p) => Some(p@),
        None => None,
    }
}

/// One log record: the term it was created in and an opaque payload.
/// Its index is implicit: the entry at position `i` of a log carries
/// index `i + 1`; indices are dense and start at 1.
pub struct LogEntry {
    pub term: u32,
    pub payload: Vec<u8>,
}

/// Role a peer currently plays.
#[derive(Clone, Copy, PartialEq, Eq, Structural, Debug)]
pub enum Role {
    Follower,
    Candidate,
    Leader,
}

/// The durable election record: highest term seen and the candidate this
/// peer granted its vote to in that term. It is flushed with full sync
/// before any message that depends on it is sent.
pub struct RaftSaved {
    pub current_term: u32,
    pub voted_for: Option<PeerId>,
}

/// Solicits a vote for `candidate_name` in `term`.
pub struct RequestVoteAsk {
    pub term: u32,
    pub candidate_name: PeerId,
    pub last_log_index: u64,
    pub last_log_term: u32,
}

/// Answer to a vote solicitation.
pub struct RequestVoteReply {
    pub term: u32,
    pub vote_granted: bool,
    pub vote_from: PeerId,
}

/// Ships log entries (or a heartbeat, when `entries` is empty) from the
/// leader of `term` to a follower.
pub struct AppendEntriesAsk {
    pub term: u32,
    pub leader_id: PeerId,
    pub prev_log_index: u64,
    pub prev_log_term: u32,
    pub entries: Vec<LogEntry>,
    pub leader_commit: u64,
}

/// Answer to an `AppendEntriesAsk`.
pub struct AppendEntriesReply {
    pub term: u32,
    pub success: bool,
}

/// What a handler asks the host process to do, in order. Durable writes
/// always precede the sends whose correctness depends on them.
pub enum Action {
    /// Write the election record to the restore partition and sync it.
    SaveState(RaftSaved),
    /// Replace the durable log from index `from` on (1-based) with `entries`
    /// and sync it.
    WriteLog { from: u64, entries: Vec<LogEntry> },
    /// Send a vote solicitation to `to`.
    SendRequestVote { to: PeerId, ask: RequestVoteAsk },
    /// Send a vote answer to `to`.
    SendVoteReply { to: PeerId, reply: RequestVoteReply },
    /// Arm (or re-arm) the election timer for `timeout_ms` milliseconds.
    ResetElectionTimer { timeout_ms: u64 },
    /// Disarm the election timer (on becoming leader).
    CancelElectionTimer,
    /// Spawn one replication driver per remote peer (on becoming leader).
    SpawnDrivers,
    /// Stop all replication drivers (on stepping down).
    StopDrivers,
    /// Push the shared `(current_term, commit_index)` snapshot to drivers.
    NotifyDrivers { current_term: u32, commit_index: u64 },
    /// Hand a committed entry to the application state machine.
    Deliver { index: u64, payload: Vec<u8> },
    /// The simulated-crash test hook fired: the host must panic here.
    Crash,
}

/// True of actions that write durable state.
pub open spec fn is_save(a: Action) -> bool {
    match a {
        Action::SaveState(_) => true,
        Action::WriteLog { .. } => true,
        _ => false,
    }
}

/// True of actions that send a message to another peer.
pub open spec fn is_send(a: Action) -> bool {
    match a {
        Action::SendRequestVote { .. } => true,
        Action::SendVoteReply { .. } => true,
        _ => false,
    }
}

/// Write-before-reply discipline over an action list: no durable write is
/// ordered after an outbound message, so once anything has been sent, the
/// durable record already holds its final value.
pub open spec fn saves_precede_sends(s: Seq<Action>) -> bool {
    forall|i: int, j: int| 0 <= i < j < s.len() && is_send(s[i]) ==> !is_save(s[j])
}

/// No action in the list sends a message.
pub open spec fn no_sends(s: Seq<Action>) -> bool {
    forall|i: int| 0 <= i < s.len() ==> !is_send(s[i])
}

/// No action in the list writes durable state.
pub open spec fn no_saves(s: Seq<Action>) -> bool {
    forall|i: int| 0 <= i < s.len() ==> !is_save(s[i])
}

/// No action in the list delivers to the application state machine.
pub open spec fn no_delivers(s: Seq<Action>) -> bool {
    forall|i: int| 0 <= i < s.len() ==> !(s[i] is Deliver)
}

/// An action list that writes in a first phase and sends in a second keeps
/// every durable write ahead of every send.
pub proof fn lemma_phases_ordered(s: Seq<Action>, k: int)
    requires
        0 <= k <= s.len(),
        forall|i: int| 0 <= i < k ==> !is_send(s[i]),
        forall|i: int| k <= i < s.len() ==> !is_save(s[i]),
    ensures
        saves_precede_sends(s),
{
}

/// The `(index, payload)` stream an action list hands to the application
/// state machine, in order.
pub open spec fn deliveries(acts: Seq<Action>) -> Seq<(u64, Seq<u8>)>
    decreases acts.len(),
{
    if acts.len() == 0 {
        Seq::empty()
    } else {
        match acts.last() {
            Action::Deliver { index, payload } => deliveries(acts.drop_last()).push(
                (index, payload@),
            ),
            _ => deliveries(acts.drop_last()),
        }
    }
}

pub proof fn lemma_deliveries_push(s: Seq<Action>, a: Action)
    ensures
        deliveries(s.push(a)) == match a {
            Action::Deliver { index, payload } => deliveries(s).push((index, payload@)),
            _ => deliveries(s),
        },
{
    assert(s.push(a).drop_last() =~= s);
    assert(s.push(a).last() == a);
}

/// Delivery streams concatenate as their action lists do.
pub proof fn lemma_deliveries_append(a: Seq<Action>, b: Seq<Action>)
    ensures
        deliveries(a + b) == deliveries(a) + deliveries(b),
    decreases b.len(),
{
    if b.len() == 0 {
        assert(a + b =~= a);
        assert(deliveries(a) + deliveries(b) =~= deliveries(a));
    } else {
        lemma_deliveries_append(a, b.drop_last());
        assert((a + b).drop_last() =~= a + b.drop_last());
        assert((a + b).last() == b.last());
        match b.last() {
            Action::Deliver { index, payload } => {
                assert(deliveries(b) == deliveries(b.drop_last()).push((index, payload@)));
                assert(deliveries(a) + deliveries(b.drop_last()).push((index, payload@)) =~= (
                deliveries(a) + deliveries(b.drop_last())).push((index, payload@)));
            },
            _ => {
                assert(deliveries(b) == deliveries(b.drop_last()));
            },
        }
    }
}

/// Error returned to a client that submits a command to a non-leader.
pub struct NotLeader {
    pub leader_hint: Option<PeerId>,
}

} // verus!
