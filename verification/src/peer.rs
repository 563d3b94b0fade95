//! The peer core: the consensus role state machine.
//!
//! A peer is a serial event loop. Each handler here takes the peer's state
//! and one event, mutates the state by the protocol's rules, and returns the
//! ordered list of actions the host process must run before it feeds the
//! peer its next event: durable writes come first, then outbound messages
//! (write-before-reply), then deliveries to the application state machine.
//! Where a handler also returns a reply value, the host sends it only after
//! running the returned actions.

use vstd::prelude::*;

use crate::log::{
    apply_entries, commit_safe, last_log_index, last_log_term, prev_ok, spec_apply,
    spec_commit_safe, spec_last_term, spec_prev_ok, spec_up_to_date, up_to_date,
};
use crate::quorum::{
    has_quorum, is_max_supported, max_quorum_supported, spec_has_quorum, spec_quorum,
};
use crate::rng::election_timeout_ms;
use crate::types::{
    deliveries, is_save, is_send, no_delivers, no_saves, no_sends, opt_peer,
    saves_precede_sends, Action,
    AppendEntriesAsk, AppendEntriesReply, LogEntry, NotLeader, PeerId, RaftSaved,
    RequestVoteAsk, RequestVoteReply, Role,
};

verus! {

/// Static cluster-wide configuration, fixed at process startup.
pub struct ClusterConfig {
    /// Ordered list of all member identities; quorum counts against its
    /// length, whatever the process group currently shows.
    pub servers: Vec<PeerId>,
    /// Lower bound of the random election timeout.
    pub min_election_ms: u64,
    /// Upper bound of the random election timeout.
    pub max_election_ms: u64,
    /// Pause between replication rounds; strictly under half the minimum
    /// election timeout, so a live leader always beats the timer.
    pub heartbeat_ms: u64,
    /// Most entries shipped in one `AppendEntries`.
    pub batch_max: usize,
    /// Enables the simulated-crash test hook in commit advancement.
    pub crash_gate: bool,
}

impl ClusterConfig {
    /// Well-formed configuration: at least one member, no duplicate names,
    /// a proper timeout range, and a heartbeat that outpaces it.
    pub open spec fn wf(&self) -> bool {
        &&& 1 <= self.servers@.len()
        &&& forall|i: int, j: int|
            0 <= i < j < self.servers@.len() ==> self.servers@[i]@ != self.servers@[j]@
        &&& self.min_election_ms < self.max_election_ms
        &&& self.heartbeat_ms < self.min_election_ms / 2
        &&& 1 <= self.batch_max
    }

    /// Number of members of the static membership.
    pub fn cluster_size(&self) -> (n: usize)
        ensures
            n == self.servers@.len(),
    {
        self.servers.len()
    }
}

/// Position of `id` in the membership list, if it is a member.
pub fn find_peer(servers: &Vec<PeerId>, id: &PeerId) -> (r: Option<usize>)
    ensures
        match r {
            Some(i) => i < servers@.len() && servers@[i as int]@ == id@,
            None => forall|j: int| 0 <= j < servers@.len() ==> servers@[j]@ != id@,
        },
{
    let n = servers.len();
    let mut i: usize = 0;
    while i < n
        invariant
            i <= n,
            n == servers@.len(),
            forall|j: int| 0 <= j < i ==> servers@[j]@ != id@,
        decreases n - i,
    {
        if servers[i].eq_id(id) {
            return Some(i);
        }
        i += 1;
    }
    None
}

/// The whole state of one consensus peer.
pub struct PeerState {
    pub config: ClusterConfig,
    /// Own position in `config.servers`.
    pub me: usize,
    pub role: Role,
    /// Highest term seen; durable (with `voted_for`) before any dependent
    /// message leaves.
    pub current_term: u32,
    /// Candidate granted this peer's vote in `current_term`, if any.
    pub voted_for: Option<PeerId>,
    /// Last recognised leader of `current_term`, if any.
    pub leader_id: Option<PeerId>,
    /// The replicated log; the entry at position `i` has index `i + 1`.
    pub log: Vec<LogEntry>,
    /// Highest index known committed; never exceeds the log, never shrinks.
    pub commit_index: u64,
    /// Highest index delivered to the application; never exceeds
    /// `commit_index`.
    pub last_applied: u64,
    /// Leader bookkeeping, one slot per member: next index to ship.
    pub next_index: Vec<u64>,
    /// Leader bookkeeping, one slot per member: highest index known
    /// replicated there.
    pub match_index: Vec<u64>,
    /// Candidate bookkeeping, one slot per member: vote granted in the
    /// current term.
    pub votes: Vec<bool>,
}

impl PeerState {
    /// Well-formedness, held by every constructor and handler: the
    /// bookkeeping vectors span the membership, and
    /// `last_applied <= commit_index <= lastLogIndex`.
    pub open spec fn wf(&self) -> bool {
        &&& self.config.wf()
        &&& (self.me as int) < self.config.servers@.len()
        &&& self.next_index@.len() == self.config.servers@.len()
        &&& self.match_index@.len() == self.config.servers@.len()
        &&& self.votes@.len() == self.config.servers@.len()
        &&& self.commit_index <= self.log@.len()
        &&& self.last_applied <= self.commit_index
        &&& self.log@.len() < u64::MAX
    }

    /// Own name.
    pub open spec fn my_id(&self) -> Seq<u8> {
        self.config.servers@[self.me as int]@
    }

    /// The volatile indices and the log did not move.
    pub open spec fn same_log(a: PeerState, b: PeerState) -> bool {
        &&& a.log == b.log
        &&& a.commit_index == b.commit_index
        &&& a.last_applied == b.last_applied
    }

    pub fn peer_id(&self) -> (r: PeerId)
        requires
            self.wf(),
        ensures
            r@ == self.my_id(),
    {
        self.config.servers[self.me].duplicate()
    }

    /// A fresh peer. It starts as Follower with empty state, or as Leader of
    /// term 0 when bootstrapped as the sole member of a cluster of one.
    pub fn new(config: ClusterConfig, me: usize, bootstrap: bool) -> (r: PeerState)
        requires
            config.wf(),
            (me as int) < config.servers@.len(),
        ensures
            r.wf(),
            r.config == config,
            r.me == me,
            r.current_term == 0,
            r.voted_for is None,
            r.leader_id is None,
            r.log@.len() == 0,
            r.commit_index == 0,
            r.last_applied == 0,
            r.role == if bootstrap && config.servers@.len() == 1 {
                Role::Leader
            } else {
                Role::Follower
            },
    {
        let n = config.servers.len();
        let role = if bootstrap && n == 1 {
            Role::Leader
        } else {
            Role::Follower
        };
        PeerState {
            config,
            me,
            role,
            current_term: 0,
            voted_for: None,
            leader_id: None,
            log: Vec::new(),
            commit_index: 0,
            last_applied: 0,
            next_index: zeroes(n),
            match_index: zeroes(n),
            votes: falses(n),
        }
    }

    /// A peer rebuilt after a restart, from the decoded election record and
    /// the durable log alone: volatile state starts over as Follower.
    pub fn recover(config: ClusterConfig, me: usize, saved: RaftSaved, log: Vec<LogEntry>) -> (r:
        PeerState)
        requires
            config.wf(),
            (me as int) < config.servers@.len(),
            log@.len() < u64::MAX,
        ensures
            r.wf(),
            r.config == config,
            r.me == me,
            r.role == Role::Follower,
            r.current_term == saved.current_term,
            opt_peer(r.voted_for) == opt_peer(saved.voted_for),
            r.leader_id is None,
            r.log == log,
            r.commit_index == 0,
            r.last_applied == 0,
    {
        let n = config.servers.len();
        PeerState {
            config,
            me,
            role: Role::Follower,
            current_term: saved.current_term,
            voted_for: saved.voted_for,
            leader_id: None,
            log,
            commit_index: 0,
            last_applied: 0,
            next_index: zeroes(n),
            match_index: zeroes(n),
            votes: falses(n),
        }
    }

    /// The durable record this peer's election state encodes to.
    pub fn saved_record(&self) -> (r: RaftSaved)
        ensures
            r.current_term == self.current_term,
            opt_peer(r.voted_for) == opt_peer(self.voted_for),
    {
        let voted_for = match &self.voted_for {
            None => None,
            Some(p) => Some(p.duplicate()),
        };
        RaftSaved { current_term: self.current_term, voted_for }
    }

    /// The snapshot pushed to replication drivers on every change.
    pub fn notify_state_change(&self) -> (a: Action)
        ensures
            a matches Action::NotifyDrivers { current_term, commit_index } && current_term
                == self.current_term && commit_index == self.commit_index,
    {
        Action::NotifyDrivers { current_term: self.current_term, commit_index: self.commit_index }
    }

    /// Forgets all replication progress (on winning an election).
    pub fn reset_match_index(&mut self)
        ensures
            final (self).match_index@ == (Seq::new(old(self).match_index@.len(), |i: int| 0u64)),
            *final (self) == (PeerState { match_index: final (self).match_index, ..*old(self) }),
    {
        let n = self.match_index.len();
        self.match_index = zeroes(n);
        proof {
            assert(final (self).match_index@ =~= Seq::new(
                old(self).match_index@.len(),
                |i: int| 0u64,
            ));
        }
    }

    /// Steps down to Follower in `new_term`. A grown term clears the vote
    /// and the recognised leader and is persisted before anything is sent;
    /// replication drivers stop; the election timer is re-armed.
    pub fn step_down(&mut self, new_term: u32) -> (acts: Vec<Action>)
        requires
            old(self).wf(),
            old(self).current_term <= new_term,
        ensures
            final (self).wf(),
            final (self).role == Role::Follower,
            final (self).current_term == new_term,
            final (self).config == old(self).config,
            final (self).me == old(self).me,
            PeerState::same_log(*old(self), *final (self)),
            final (self).votes == old(self).votes,
            final (self).next_index == old(self).next_index,
            final (self).match_index == old(self).match_index,
            new_term > old(self).current_term ==> (final (self).voted_for is None
                && final (self).leader_id is None),
            new_term == old(self).current_term ==> final (self).voted_for == old(self).voted_for
                && final (self).leader_id == old(self).leader_id,
            no_sends(acts@),
            no_delivers(acts@),
            deliveries(acts@) =~= Seq::<(u64, Seq<u8>)>::empty(),
            new_term > old(self).current_term ==> exists|i: int|
                0 <= i < acts@.len() && (#[trigger] acts@[i] matches Action::SaveState(s)
                    && s.current_term == new_term && s.voted_for is None),
            new_term == old(self).current_term ==> no_saves(acts@),
            exists|i: int| 0 <= i < acts@.len() && (#[trigger] acts@[i]) is ResetElectionTimer,
            exists|i: int|
                0 <= i < acts@.len() && (#[trigger] acts@[i] matches Action::ResetElectionTimer {
                    timeout_ms,
                } && old(self).config.min_election_ms <= timeout_ms
                    && timeout_ms <= old(self).config.max_election_ms),
    {
        let mut acts: Vec<Action> = Vec::new();
        if self.current_term < new_term {
            self.current_term = new_term;
            self.leader_id = None;
            self.voted_for = None;
            acts.push(Action::SaveState(self.saved_record()));
        }
        self.role = Role::Follower;
        acts.push(Action::StopDrivers);
        let timeout_ms = election_timeout_ms(
            self.config.min_election_ms,
            self.config.max_election_ms,
        );
        acts.push(Action::ResetElectionTimer { timeout_ms });
        proof {
            assert forall|i: int| 0 <= i < acts@.len() implies !is_send(acts@[i])
            && !(acts@[i] is Deliver) by {}
            lemma_no_deliver_stream(acts@);
            if new_term > old(self).current_term {
                assert(acts@[0] matches Action::SaveState(s) && s.current_term == new_term
                    && s.voted_for is None);
            }
            let t = acts@.len() - 1;
            assert(acts@[t] is ResetElectionTimer);
        }
        acts
    }

    /// A candidate that has gathered a quorum takes the leader role: the
    /// election timer stops, replication bookkeeping restarts at the end of
    /// the own log, and one driver per remote peer is spawned.
    pub fn become_leader(&mut self) -> (acts: Vec<Action>)
        requires
            old(self).wf(),
            old(self).role == Role::Candidate,
        ensures
            final (self).wf(),
            final (self).role == Role::Leader,
            final (self).current_term == old(self).current_term,
            final (self).voted_for == old(self).voted_for,
            final (self).leader_id == old(self).leader_id,
            final (self).votes == old(self).votes,
            final (self).config == old(self).config,
            final (self).me == old(self).me,
            PeerState::same_log(*old(self), *final (self)),
            final (self).next_index@ == (Seq::new(
                old(self).next_index@.len(),
                |i: int| ((old(self).log@.len() + 1) as u64),
            )),
            final (self).match_index@ == (Seq::new(old(self).match_index@.len(), |i: int| 0u64)),
            no_sends(acts@),
            no_saves(acts@),
            no_delivers(acts@),
            deliveries(acts@) =~= Seq::<(u64, Seq<u8>)>::empty(),
            exists|i: int| 0 <= i < acts@.len() && acts@[i] is CancelElectionTimer,
            exists|i: int| 0 <= i < acts@.len() && acts@[i] is SpawnDrivers,
    {
        let mut acts: Vec<Action> = Vec::new();
        self.role = Role::Leader;
        acts.push(Action::CancelElectionTimer);
        let n = self.next_index.len();
        let next = last_log_index(&self.log) + 1;
        self.next_index = fill(n, next);
        self.reset_match_index();
        acts.push(Action::SpawnDrivers);
        proof {
            assert(final (self).next_index@ =~= Seq::new(
                old(self).next_index@.len(),
                |i: int| (old(self).log@.len() + 1) as u64,
            ));
            assert(acts@[0] is CancelElectionTimer);
            assert(acts@[1] is SpawnDrivers);
            assert forall|i: int| 0 <= i < acts@.len() implies !(acts@[i] is Deliver) by {}
            lemma_no_deliver_stream(acts@);
        }
        acts
    }
}

/// The tally a fresh candidacy starts from: only the candidate's own slot.
pub open spec fn one_hot(n: int, me: int) -> Seq<bool> {
    Seq::new(n as nat, |i: int| i == me)
}

/// A vote solicitation carried to `to`, field for field.
pub open spec fn is_vote_ask_to(
    a: Action,
    to: Seq<u8>,
    term: u32,
    cand: Seq<u8>,
    lli: u64,
    llt: u32,
) -> bool {
    a matches Action::SendRequestVote { to: t, ask } && t@ == to && ask.term == term
        && ask.candidate_name@ == cand && ask.last_log_index == lli && ask.last_log_term == llt
}

impl PeerState {
    /// Hands every committed but not yet applied entry to the application
    /// state machine, in strict index order, exactly once, and records the
    /// progress.
    pub fn advance_applied(&mut self) -> (acts: Vec<Action>)
        requires
            old(self).wf(),
        ensures
            final (self).wf(),
            *final (self) == (PeerState {
                last_applied: final (self).last_applied,
                ..*old(self)
            }),
            final (self).last_applied == old(self).commit_index,
            no_sends(acts@),
            no_saves(acts@),
            deliveries(acts@) == (Seq::new(
                (old(self).commit_index - old(self).last_applied) as nat,
                |k: int|
                    (
                        (old(self).last_applied + 1 + k) as u64,
                        old(self).log@[old(self).last_applied + k].payload@,
                    ),
            )),
    {
        let mut acts: Vec<Action> = Vec::new();
        let ghost base = old(self).last_applied;
        while self.last_applied < self.commit_index
            invariant
                self.wf(),
                *self == (PeerState { last_applied: self.last_applied, ..*old(self) }),
                base <= self.last_applied <= self.commit_index,
                no_sends(acts@),
                no_saves(acts@),
                deliveries(acts@) == (Seq::new(
                    (self.last_applied - base) as nat,
                    |k: int| ((base + 1 + k) as u64, self.log@[base + k].payload@),
                )),
            decreases self.commit_index - self.last_applied,
        {
            let loglen = self.log.len();
            assert(self.last_applied < loglen as u64);
            let at = self.last_applied as usize;
            let idx = self.last_applied + 1;
            let payload = crate::codec::clone_bytes(&self.log[at].payload);
            let ghost before = acts@;
            acts.push(Action::Deliver { index: idx, payload });
            proof {
                crate::types::lemma_deliveries_push(
                    before,
                    Action::Deliver { index: idx, payload },
                );
                assert(deliveries(acts@) =~= Seq::new(
                    (idx - base) as nat,
                    |k: int| ((base + 1 + k) as u64, self.log@[base + k].payload@),
                ));
            }
            self.last_applied = idx;
        }
        acts
    }

    /// Accepts one opaque client command. A leader appends it to its log at
    /// the next index, to be replicated and committed; anyone else refuses
    /// with the last recognised leader as a redirection hint.
    pub fn submit(&mut self, payload: Vec<u8>) -> (r: (Result<u64, NotLeader>, Vec<Action>))
        requires
            old(self).wf(),
            old(self).log@.len() + 1 < u64::MAX,
        ensures
            final (self).wf(),
            old(self).role is Leader <==> r.0 is Ok,
            match r.0 {
                Ok(idx) => {
                    &&& idx == old(self).log@.len() + 1
                    &&& final (self).log@ == old(self).log@.push(
                        LogEntry { term: old(self).current_term, payload },
                    )
                    &&& *final (self) == (PeerState { log: final (self).log, ..*old(self) })
                    &&& no_sends(r.1@)
                    &&& deliveries(r.1@) =~= Seq::<(u64, Seq<u8>)>::empty()
                    &&& exists|i: int|
                        0 <= i < r.1@.len() && (#[trigger] r.1@[i] matches Action::WriteLog {
                            from,
                            entries,
                        } && from == idx && entries@.len() == 1 && entries@[0].term == old(self).current_term && entries@[0].payload@ == payload@)
                },
                Err(e) => {
                    &&& *final (self) == *old(self)
                    &&& opt_peer(e.leader_hint) == opt_peer(old(self).leader_id)
                    &&& r.1@.len() == 0
                },
            },
    {
        if !matches!(self.role, Role::Leader) {
            let leader_hint = match &self.leader_id {
                None => None,
                Some(p) => Some(p.duplicate()),
            };
            return (Err(NotLeader { leader_hint }), Vec::new());
        }
        let idx = last_log_index(&self.log) + 1;
        let entry_copy = LogEntry {
            term: self.current_term,
            payload: crate::codec::clone_bytes(&payload),
        };
        let entry = LogEntry { term: self.current_term, payload };
        self.log.push(entry);
        let mut shipped: Vec<LogEntry> = Vec::new();
        shipped.push(entry_copy);
        let mut acts: Vec<Action> = Vec::new();
        acts.push(Action::WriteLog { from: idx, entries: shipped });
        proof {
            assert(acts@[0] matches Action::WriteLog { from, entries } && from == idx);
            assert forall|i: int| 0 <= i < acts@.len() implies !(acts@[i] is Deliver) by {}
            lemma_no_deliver_stream(acts@);
        }
        (Ok(idx), acts)
    }

    /// The election timeout fired: the peer runs for election in the next
    /// term. It votes for itself, persists that before soliciting, re-arms
    /// its timer, and asks every other member for its vote; the sole member
    /// of a cluster of one wins at once. A leader ignores a stale timeout.
    pub fn start_new_election(&mut self) -> (acts: Vec<Action>)
        requires
            old(self).wf(),
            old(self).current_term < u32::MAX,
        ensures
            final (self).wf(),
            old(self).role is Leader ==> *final (self) == *old(self) && acts@.len() == 0,
            !(old(self).role is Leader) ==> {
                let n = old(self).config.servers@.len() as int;
                let became = spec_has_quorum(one_hot(n, old(self).me as int), n);
                &&& final (self).current_term == old(self).current_term + 1
                &&& opt_peer(final (self).voted_for) == Some(old(self).my_id())
                &&& final (self).leader_id is None
                &&& PeerState::same_log(*old(self), *final (self))
                &&& final (self).votes@ == one_hot(n, old(self).me as int)
                &&& final (self).role == (if became {
                    Role::Leader
                } else {
                    Role::Candidate
                })
                &&& saves_precede_sends(acts@)
                &&& deliveries(acts@) =~= Seq::<(u64, Seq<u8>)>::empty()
                &&& exists|i: int|
                    0 <= i < acts@.len() && (#[trigger] acts@[i] matches Action::SaveState(s)
                        && s.current_term == old(self).current_term + 1 && opt_peer(s.voted_for)
                        == Some(old(self).my_id()))
                &&& exists|i: int| 0 <= i < acts@.len() && acts@[i] is ResetElectionTimer
                &&& !became ==> (forall|j: int|
                    0 <= j < n && j != old(self).me as int ==> exists|k: int|
                        0 <= k < acts@.len() && is_vote_ask_to(
                            #[trigger] acts@[k],
                            (#[trigger] old(self).config.servers@[j])@,
                            (old(self).current_term + 1) as u32,
                            old(self).my_id(),
                            old(self).log@.len() as u64,
                            spec_last_term(old(self).log@),
                        ))
            },
    {
        if matches!(self.role, Role::Leader) {
            return Vec::new();
        }
        let n = self.config.servers.len();
        self.current_term += 1;
        self.role = Role::Candidate;
        self.leader_id = None;
        self.voted_for = Some(self.peer_id());
        self.votes = one_hot_vec(n, self.me);
        let mut acts: Vec<Action> = Vec::new();
        acts.push(Action::SaveState(self.saved_record()));
        let timeout_ms = election_timeout_ms(
            self.config.min_election_ms,
            self.config.max_election_ms,
        );
        acts.push(Action::ResetElectionTimer { timeout_ms });
        proof {
            assert(acts@[0] matches Action::SaveState(s) && s.current_term == old(self).current_term + 1 && opt_peer(s.voted_for) == Some(old(self).my_id()));
            assert(acts@[1] is ResetElectionTimer);
        }
        if has_quorum(&self.votes, n) {
            let mut more = self.become_leader();
            let ghost head = acts@;
            let ghost tail = more@;
            acts.append(&mut more);
            proof {
                assert(acts@ == head + tail);
                assert forall|i: int| 0 <= i < acts@.len() implies !is_send(acts@[i]) by {
                    if i < head.len() {
                        assert(acts@[i] == head[i]);
                    } else {
                        assert(acts@[i] == tail[i - head.len()]);
                    }
                }
                assert forall|i: int| 0 <= i < head.len() implies !(head[i] is Deliver) by {}
                lemma_no_deliver_stream(head);
                crate::types::lemma_deliveries_append(head, tail);
                assert(deliveries(acts@) =~= Seq::<(u64, Seq<u8>)>::empty());
                crate::types::lemma_phases_ordered(acts@, acts@.len() as int);
                assert(acts@[0] == head[0]);
                assert(acts@[1] == head[1]);
            }
            return acts;
        }
        let term = self.current_term;
        let lli = last_log_index(&self.log);
        let llt = last_log_term(&self.log);
        let ghost head = acts@;
        let ghost me = self.me as int;
        let ghost cand = self.my_id();
        let mut j: usize = 0;
        while j < n
            invariant
                j <= n,
                self.wf(),
                n == self.config.servers@.len(),
                (self.me as int) == me < n,
                cand == self.my_id(),
                acts@.len() >= 2,
                acts@.take(2) == head,
                forall|i: int| 2 <= i < acts@.len() ==> !is_save(#[trigger] acts@[i]),
                forall|i: int| 2 <= i < acts@.len() ==> !(#[trigger] acts@[i] is Deliver),
                forall|jj: int|
                    0 <= jj < j && jj != me ==> exists|k: int|
                        0 <= k < acts@.len() && is_vote_ask_to(
                            #[trigger] acts@[k],
                            (#[trigger] self.config.servers@[jj])@,
                            term,
                            cand,
                            lli,
                            llt,
                        ),
            decreases n - j,
        {
            if j != self.me {
                let ask = RequestVoteAsk {
                    term,
                    candidate_name: self.peer_id(),
                    last_log_index: lli,
                    last_log_term: llt,
                };
                let to = self.config.servers[j].duplicate();
                let ghost before = acts@;
                acts.push(Action::SendRequestVote { to, ask });
                proof {
                    assert(acts@.take(2) =~= before.take(2));
                    assert(is_vote_ask_to(
                        acts@[acts@.len() - 1],
                        self.config.servers@[j as int]@,
                        term,
                        cand,
                        lli,
                        llt,
                    ));
                    assert forall|jj: int| 0 <= jj < j && jj != me implies exists|k: int|
                        0 <= k < acts@.len() && is_vote_ask_to(
                            #[trigger] acts@[k],
                            (#[trigger] self.config.servers@[jj])@,
                            term,
                            cand,
                            lli,
                            llt,
                        ) by {
                        let k0 = choose|k: int|
                            0 <= k < before.len() && is_vote_ask_to(
                                #[trigger] before[k],
                                (self.config.servers@[jj])@,
                                term,
                                cand,
                                lli,
                                llt,
                            );
                        assert(acts@[k0] == before[k0]);
                    }
                }
            }
            j += 1;
        }
        proof {
            assert(acts@[0] == head[0]);
            assert(acts@[1] == head[1]);
            crate::types::lemma_phases_ordered(acts@, 2);
            assert forall|i: int| 0 <= i < acts@.len() implies !(acts@[i] is Deliver) by {
                if i < 2 {
                    assert(acts@[i] == head[i]);
                }
            }
            lemma_no_deliver_stream(acts@);
        }
        acts
    }
}

/// Whether a peer in state `s` grants the solicited vote: the ask's term is
/// current (once a higher one has been adopted), the vote in that term is
/// free or already the candidate's, and the candidate's log is at least as
/// up to date as the own log.
pub open spec fn spec_grants(s: PeerState, ask: RequestVoteAsk) -> bool {
    &&& ask.term >= s.current_term
    &&& (ask.term > s.current_term || opt_peer(s.voted_for) is None || opt_peer(s.voted_for)
        == Some(ask.candidate_name@))
    &&& spec_up_to_date(ask.last_log_term, ask.last_log_index, s.log@)
}

/// A vote answer carried to `to`, field for field.
pub open spec fn is_vote_reply_to(
    a: Action,
    to: Seq<u8>,
    term: u32,
    granted: bool,
    from: Seq<u8>,
) -> bool {
    a matches Action::SendVoteReply { to: t, reply } && t@ == to && reply.term == term
        && reply.vote_granted == granted && reply.vote_from@ == from
}

impl PeerState {
    /// Answers a vote solicitation: a higher term first steps this peer
    /// down; the vote is granted exactly under `spec_grants`, persisted
    /// before the answer leaves, and a granted vote re-arms the election
    /// timer. The answer always carries the updated term. Within one term
    /// the vote never moves once given.
    pub fn handle_request_vote(&mut self, ask: RequestVoteAsk) -> (acts: Vec<Action>)
        requires
            old(self).wf(),
        ensures
            final (self).wf(),
            final (self).config == old(self).config,
            final (self).me == old(self).me,
            PeerState::same_log(*old(self), *final (self)),
            final (self).votes == old(self).votes,
            final (self).next_index == old(self).next_index,
            final (self).match_index == old(self).match_index,
            final (self).current_term == (if ask.term > old(self).current_term {
                ask.term
            } else {
                old(self).current_term
            }),
            spec_grants(*old(self), ask) ==> opt_peer(final (self).voted_for) == Some(
                ask.candidate_name@,
            ),
            !spec_grants(*old(self), ask) && ask.term > old(self).current_term ==> final (self).voted_for is None,
            !spec_grants(*old(self), ask) && ask.term <= old(self).current_term ==> final (self).voted_for == old(self).voted_for,
            final (self).current_term == old(self).current_term && old(self).voted_for is Some
                ==> opt_peer(final (self).voted_for) == opt_peer(old(self).voted_for),
            final (self).role == (if spec_grants(*old(self), ask) || ask.term > old(self).current_term {
                Role::Follower
            } else {
                old(self).role
            }),
            saves_precede_sends(acts@),
            deliveries(acts@) =~= Seq::<(u64, Seq<u8>)>::empty(),
            exists|i: int|
                0 <= i < acts@.len() && is_vote_reply_to(
                    #[trigger] acts@[i],
                    ask.candidate_name@,
                    final (self).current_term,
                    spec_grants(*old(self), ask),
                    old(self).my_id(),
                ),
    {
        let mut acts: Vec<Action> = Vec::new();
        if ask.term > self.current_term {
            let mut a = self.step_down(ask.term);
            let ghost part = a@;
            acts.append(&mut a);
            proof {
                assert(acts@ =~= part);
            }
        }
        let grant = ask.term == self.current_term && (match &self.voted_for {
            None => true,
            Some(p) => p.eq_id(&ask.candidate_name),
        }) && up_to_date(ask.last_log_term, ask.last_log_index, &self.log);
        proof {
            assert(grant == spec_grants(*old(self), ask));
        }
        if grant {
            let term_now = self.current_term;
            let mut a = self.step_down(term_now);
            let ghost head = acts@;
            let ghost part = a@;
            acts.append(&mut a);
            proof {
                assert forall|i: int| 0 <= i < acts@.len() implies !is_send(acts@[i]) && !(
                acts@[i] is Deliver) by {
                    if i < head.len() {
                        assert(acts@[i] == head[i]);
                    } else {
                        assert(acts@[i] == part[i - head.len()]);
                    }
                }
            }
            self.voted_for = Some(ask.candidate_name.duplicate());
            acts.push(Action::SaveState(self.saved_record()));
        }
        let ghost pre = acts@;
        let reply = RequestVoteReply {
            term: self.current_term,
            vote_granted: grant,
            vote_from: self.peer_id(),
        };
        acts.push(Action::SendVoteReply { to: ask.candidate_name, reply });
        proof {
            assert forall|i: int| 0 <= i < pre.len() implies !is_send(pre[i]) && !(
            pre[i] is Deliver) by {}
            assert forall|i: int| 0 <= i < acts@.len() implies !(acts@[i] is Deliver) by {
                if i < pre.len() {
                    assert(acts@[i] == pre[i]);
                }
            }
            lemma_no_deliver_stream(acts@);
            assert forall|i: int| 0 <= i < acts@.len() - 1 implies !is_send(acts@[i]) by {
                assert(acts@[i] == pre[i]);
            }
            crate::types::lemma_phases_ordered(acts@, acts@.len() - 1);
            assert(is_vote_reply_to(
                acts@[acts@.len() - 1],
                ask.candidate_name@,
                final (self).current_term,
                spec_grants(*old(self), ask),
                old(self).my_id(),
            ));
        }
        acts
    }

    /// Counts an incoming vote answer. A higher term steps this peer down; a
    /// granted vote of the current term is tallied while still Candidate, and
    /// a tallied majority takes the leader role. Anything stale or out of
    /// role is dropped.
    pub fn received_vote(&mut self, reply: RequestVoteReply) -> (acts: Vec<Action>)
        requires
            old(self).wf(),
        ensures
            final (self).wf(),
            final (self).config == old(self).config,
            final (self).me == old(self).me,
            PeerState::same_log(*old(self), *final (self)),
            no_sends(acts@),
            deliveries(acts@) =~= Seq::<(u64, Seq<u8>)>::empty(),
            reply.term > old(self).current_term ==> {
                &&& final (self).current_term == reply.term
                &&& final (self).role == Role::Follower
                &&& final (self).voted_for is None
                &&& exists|i: int|
                    0 <= i < acts@.len() && (#[trigger] acts@[i] matches Action::SaveState(s)
                        && s.current_term == reply.term && s.voted_for is None)
            },
            reply.term <= old(self).current_term ==> final (self).current_term == old(self).current_term && final (self).voted_for == old(self).voted_for,
            (reply.term == old(self).current_term && old(self).role is Candidate
                && reply.vote_granted) ==> {
                let n = old(self).config.servers@.len() as int;
                if (exists|j: int|
                    0 <= j < n && (#[trigger] old(self).config.servers@[j])@ == reply.vote_from@) {
                    exists|j: int|
                        {
                            &&& 0 <= j < n
                            &&& (#[trigger] old(self).config.servers@[j])@ == reply.vote_from@
                            &&& final (self).votes@ == old(self).votes@.update(j, true)
                            &&& (spec_has_quorum(old(self).votes@.update(j, true), n) <==> final (
                            self).role is Leader)
                            &&& (final (self).role is Leader ==> final (self).next_index@
                                == (Seq::new(
                                old(self).next_index@.len(),
                                |i: int| ((old(self).log@.len() + 1) as u64),
                            )) && final (self).match_index@ == (Seq::new(
                                old(self).match_index@.len(),
                                |i: int| 0u64,
                            )))
                            &&& (!(final (self).role is Leader) ==> final (self).role == old(
                            self).role)
                        }
                } else {
                    *final (self) == *old(self)
                }
            },
            (reply.term < old(self).current_term || (reply.term == old(self).current_term && (
            !reply.vote_granted || !(old(self).role is Candidate)))) ==> *final (self) == *old(self) && acts@.len() == 0,
    {
        if reply.term > self.current_term {
            let acts = self.step_down(reply.term);
            proof {
                assert forall|i: int| 0 <= i < acts@.len() implies !(acts@[i] is Deliver) by {}
                lemma_no_deliver_stream(acts@);
            }
            return acts;
        }
        if reply.term < self.current_term || !reply.vote_granted || !matches!(
            self.role,
            Role::Candidate,
        ) {
            return Vec::new();
        }
        match find_peer(&self.config.servers, &reply.vote_from) {
            None => Vec::new(),
            Some(j) => {
                self.votes.set(j, true);
                proof {
                    assert(self.votes@ =~= old(self).votes@.update(j as int, true));
                }
                let n = self.config.servers.len();
                if has_quorum(&self.votes, n) {
                    let acts = self.become_leader();
                    proof {
                        assert forall|i: int| 0 <= i < acts@.len() implies !(
                        acts@[i] is Deliver) by {}
                        lemma_no_deliver_stream(acts@);
                    }
                    acts
                } else {
                    Vec::new()
                }
            },
        }
    }
}

/// The commit index an accepted suffix warrants: the leader's commit index
/// capped by the last shipped index, where that beats the present one.
pub open spec fn spec_new_commit(old_commit: u64, leader_commit: u64, last_new: u64) -> u64 {
    let cap = if leader_commit < last_new {
        leader_commit
    } else {
        last_new
    };
    if cap > old_commit {
        cap
    } else {
        old_commit
    }
}

/// What one commit-advancement attempt does to a leader, given the updated
/// match slots `m1`: the commit index moves to the largest quorum-supported
/// index, but only if that index carries the leader's own term (entries of
/// prior terms are never committed by counting replicas alone); on a move,
/// drivers learn the new snapshot and every newly committed entry is
/// delivered in order.
pub open spec fn spec_advance_outcome(
    pre: PeerState,
    post: PeerState,
    acts: Seq<Action>,
    m1: Seq<u64>,
    nn: u64,
) -> bool {
    let slots = m1.update(pre.me as int, pre.log@.len() as u64);
    let q = spec_quorum(pre.config.servers@.len() as int);
    {
            let adv = nn > pre.commit_index && nn <= pre.log@.len() && pre.log@[nn - 1].term
                == pre.current_term;
            &&& is_max_supported(slots, q, nn)
            &&& post.commit_index == (if adv {
                nn
            } else {
                pre.commit_index
            })
            &&& post.last_applied == (if adv {
                nn
            } else {
                pre.last_applied
            })
            &&& post.log == pre.log
            &&& post.role == pre.role
            &&& post.current_term == pre.current_term
            &&& post.voted_for == pre.voted_for
            &&& post.leader_id == pre.leader_id
            &&& post.votes == pre.votes
            &&& post.next_index == pre.next_index
            &&& (adv ==> exists|i: int|
                0 <= i < acts.len() && (#[trigger] acts[i] matches Action::NotifyDrivers {
                    current_term,
                    commit_index,
                } && current_term == pre.current_term && commit_index == nn))
            &&& (adv ==> deliveries(acts) == (Seq::new(
                (nn - pre.last_applied) as nat,
                |k: int|
                    (
                        (pre.last_applied + 1 + k) as u64,
                        pre.log@[pre.last_applied + k].payload@,
                    ),
            )))
            &&& (!adv ==> deliveries(acts) =~= Seq::<(u64, Seq<u8>)>::empty())
        }
}

impl PeerState {
    /// Receives a shipped suffix (or heartbeat) from a leader. A stale term
    /// is answered with the own term and nothing changes. Otherwise the peer
    /// serves as follower of the sender: it adopts term and leader, re-arms
    /// its timer, and accepts the suffix exactly when the entry before it
    /// matches and nothing shipped conflicts with its committed prefix. An
    /// accepted suffix is stored (first conflict truncates, the rest
    /// appends), made durable before the host may answer, and the commit
    /// index follows the leader's, delivering newly committed entries in
    /// order. The committed prefix is never rewritten.
    #[verifier::rlimit(100)]
    #[verifier::spinoff_prover]
    pub fn handle_append_entries(&mut self, ask: AppendEntriesAsk) -> (r: (
        AppendEntriesReply,
        Vec<Action>,
    ))
        requires
            old(self).wf(),
            ask.prev_log_index + ask.entries@.len() < u64::MAX,
            old(self).log@.len() + ask.entries@.len() < usize::MAX,
        ensures
            final (self).wf(),
            final (self).config == old(self).config,
            final (self).me == old(self).me,
            r.0.term == final (self).current_term,
            ask.term < old(self).current_term ==> (*final (self) == *old(self) && !r.0.success
                && r.1@.len() == 0),
            final (self).commit_index >= old(self).commit_index,
            final (self).last_applied >= old(self).last_applied,
            final (self).log@.take(old(self).commit_index as int) == (old(self).log@.take(
                old(self).commit_index as int,
            )),
            no_sends(r.1@),
            saves_precede_sends(r.1@),
            ask.term >= old(self).current_term ==> {
                let ok = spec_prev_ok(old(self).log@, ask.prev_log_index, ask.prev_log_term)
                    && spec_commit_safe(
                    old(self).log@,
                    ask.prev_log_index as int,
                    ask.entries@,
                    old(self).commit_index as int,
                );
                let last_new = (ask.prev_log_index + ask.entries@.len()) as u64;
                &&& final (self).current_term == ask.term
                &&& final (self).role == Role::Follower
                &&& opt_peer(final (self).leader_id) == Some(ask.leader_id@)
                &&& r.0.success == ok
                &&& (ok ==> final (self).log@ == spec_apply(
                    old(self).log@,
                    ask.prev_log_index as int,
                    ask.entries@,
                ))
                &&& (ok ==> final (self).commit_index == spec_new_commit(
                    old(self).commit_index,
                    ask.leader_commit,
                    last_new,
                ))
                &&& (ok ==> final (self).last_applied == final (self).commit_index)
                &&& (ok ==> deliveries(r.1@) == (Seq::new(
                    (final (self).commit_index - old(self).last_applied) as nat,
                    |k: int|
                        (
                            (old(self).last_applied + 1 + k) as u64,
                            final (self).log@[old(self).last_applied + k].payload@,
                        ),
                )))
                &&& (ok && ask.entries@.len() > 0 ==> exists|i: int|
                    0 <= i < r.1@.len() && (#[trigger] r.1@[i] matches Action::WriteLog {
                        from,
                        entries,
                    } && from == ask.prev_log_index + 1 && entries@.len() == final (
                    self).log@.len() - ask.prev_log_index && (forall|k: int|
                        0 <= k < entries@.len() ==> (#[trigger] entries@[k]).term == final (
                        self).log@[ask.prev_log_index + k].term && entries@[k].payload@ == final (
                        self).log@[ask.prev_log_index + k].payload@)))
                &&& (!ok ==> final (self).log == old(self).log && final (self).commit_index == old(
                self).commit_index && final (self).last_applied == old(self).last_applied
                    && deliveries(r.1@) =~= Seq::<(u64, Seq<u8>)>::empty())
                &&& exists|i: int| 0 <= i < r.1@.len() && (#[trigger] r.1@[i]) is ResetElectionTimer
            },
    {
        if ask.term < self.current_term {
            let reply = AppendEntriesReply { term: self.current_term, success: false };
            proof {
                assert(final (self).log@.take(old(self).commit_index as int) =~= old(
                    self,
                ).log@.take(old(self).commit_index as int));
            }
            return (reply, Vec::new());
        }
        let mut acts = self.step_down(ask.term);
        let ghost sd = acts@;
        self.leader_id = Some(ask.leader_id);
        let ok = prev_ok(&self.log, ask.prev_log_index, ask.prev_log_term) && commit_safe(
            &self.log,
            ask.prev_log_index,
            &ask.entries,
            self.commit_index,
        );
        if !ok {
            let reply = AppendEntriesReply { term: self.current_term, success: false };
            proof {
                assert(final (self).log@.take(old(self).commit_index as int) =~= old(
                    self,
                ).log@.take(old(self).commit_index as int));
                assert(!(spec_prev_ok(old(self).log@, ask.prev_log_index, ask.prev_log_term)
                    && spec_commit_safe(
                    old(self).log@,
                    ask.prev_log_index as int,
                    ask.entries@,
                    old(self).commit_index as int,
                )));
                assert(deliveries(acts@) =~= Seq::<(u64, Seq<u8>)>::empty());
                assert(exists|i: int|
                    0 <= i < acts@.len() && (#[trigger] acts@[i]) is ResetElectionTimer);
                assert(final (self).current_term == ask.term);
                assert(final (self).role == Role::Follower);
                assert(opt_peer(final (self).leader_id) == Some(ask.leader_id@));
                assert(no_sends(acts@));
            }
            return (reply, acts);
        }
        let loglen = self.log.len();
        let prev = ask.prev_log_index as usize;
        let n_entries = ask.entries.len();
        proof {
            crate::log::lemma_apply_shape(self.log@, prev as int, ask.entries@);
            crate::log::lemma_apply_preserves_commit(
                self.log@,
                prev as int,
                ask.entries@,
                self.commit_index as int,
            );
            crate::log::lemma_apply_preserves_commit(
                self.log@,
                prev as int,
                ask.entries@,
                old(self).commit_index as int,
            );
        }
        apply_entries(&mut self.log, prev, ask.entries);
        if n_entries > 0 {
            let suffix = crate::log::copy_log_suffix(&self.log, prev);
            let ghost before = acts@;
            acts.push(Action::WriteLog { from: ask.prev_log_index + 1, entries: suffix });
            proof {
                assert(acts@[acts@.len() - 1] matches Action::WriteLog { from, entries } && from
                    == ask.prev_log_index + 1);
            }
        }
        let ghost head = acts@;
        let last_new = ask.prev_log_index + n_entries as u64;
        let cap = if ask.leader_commit < last_new {
            ask.leader_commit
        } else {
            last_new
        };
        if cap > self.commit_index {
            self.commit_index = cap;
        }
        let mut dels = self.advance_applied();
        let ghost tail = dels@;
        acts.append(&mut dels);
        let reply = AppendEntriesReply { term: self.current_term, success: true };
        proof {
            assert(acts@ == head + tail);
            assert forall|i: int| 0 <= i < acts@.len() implies !is_send(acts@[i]) by {
                if i < head.len() {
                    assert(acts@[i] == head[i]);
                    if i < sd.len() {
                        assert(head[i] == sd[i]);
                    }
                } else {
                    assert(acts@[i] == tail[i - head.len()]);
                }
            }
            assert forall|i: int| 0 <= i < head.len() implies !(head[i] is Deliver) by {
                if i < sd.len() {
                    assert(head[i] == sd[i]);
                }
            }
            lemma_no_deliver_stream(head);
            crate::types::lemma_deliveries_append(head, tail);
            assert(deliveries(acts@) =~= deliveries(tail));
            let i0 = choose|i: int| 0 <= i < sd.len() && (#[trigger] sd[i]) is ResetElectionTimer;
            assert(acts@[i0] == sd[i0]);
            assert(acts@[i0] is ResetElectionTimer);
            if n_entries > 0 {
                let iw = sd.len() as int;
                assert(acts@[iw] == head[iw]);
                assert(head[iw] matches Action::WriteLog { from, entries } && from
                    == ask.prev_log_index + 1);
            }
            assert(final (self).log@.take(old(self).commit_index as int) == old(self).log@.take(
                old(self).commit_index as int,
            ));
        }
        (reply, acts)
    }
}

/// Two peers whose tallies both hold a majority of one membership share a
/// granting voter. This is the pillar of election safety: a peer takes the
/// leader role only on such a tally (the leader transitions require
/// `spec_has_quorum`), and within one term a granted vote never moves (the
/// vote handler's contract), so the shared voter rules out a second leader
/// of the same term.
pub proof fn lemma_one_leader_per_term(p: PeerState, q: PeerState)
    requires
        p.config.servers@.len() == q.config.servers@.len(),
        p.config.servers@.len() > 1,
        p.current_term == q.current_term,
        spec_has_quorum(p.votes@, p.config.servers@.len() as int),
        spec_has_quorum(q.votes@, q.config.servers@.len() as int),
        p.votes@.len() == p.config.servers@.len(),
        q.votes@.len() == q.config.servers@.len(),
    ensures
        exists|i: int| 0 <= i < p.votes@.len() && p.votes@[i] && q.votes@[i],
{
    let n = p.config.servers@.len() as int;
    crate::quorum::lemma_election_safety_core(p.votes@, q.votes@, n);
}

/// The delivery stream of newly committed entries is strictly ascending by
/// index, covers exactly the window `(applied, commit]`, and hands each
/// index the payload the log stores there: in-order, exactly-once delivery
/// per window.
pub proof fn lemma_delivery_stream_exact(
    applied: u64,
    commit: u64,
    log: Seq<LogEntry>,
    ds: Seq<(u64, Seq<u8>)>,
)
    requires
        applied <= commit <= log.len(),
        ds == (Seq::new(
            (commit - applied) as nat,
            |k: int| ((applied + 1 + k) as u64, log[applied + k].payload@),
        )),
    ensures
        ds.len() == commit - applied,
        forall|i: int, j: int| 0 <= i < j < ds.len() ==> ds[i].0 < ds[j].0,
        forall|i: int|
            0 <= i < ds.len() ==> applied < (#[trigger] ds[i]).0 <= commit && ds[i].1 == log[ds[i].0
                - 1].payload@,
{
    assert forall|i: int, j: int| 0 <= i < j < ds.len() implies ds[i].0 < ds[j].0 by {
        assert(ds[i].0 == applied + 1 + i);
        assert(ds[j].0 == applied + 1 + j);
    }
}

impl PeerState {
    /// One commit-advancement attempt on the leader, fed by a replication
    /// driver's report of a follower's match index (or by the leader's own
    /// progress, with no report). A known reporter's slot is recorded; then
    /// the commit index moves to the largest quorum-supported index, under
    /// the mandatory guard that the entry there carries the leader's own
    /// term. On a move, drivers get the fresh snapshot and every newly
    /// committed entry is delivered in order. A non-leader drops the report.
    /// With the test hook enabled, one attempt in many crashes the host
    /// instead (recovery must then rebuild the peer from durable state).
    pub fn try_advance_commit_index(&mut self, peer: Option<&PeerId>, peer_match: u64) -> (acts:
        Vec<Action>)
        requires
            old(self).wf(),
        ensures
            final (self).wf(),
            final (self).config == old(self).config,
            final (self).me == old(self).me,
            no_sends(acts@),
            no_saves(acts@),
            saves_precede_sends(acts@),
            final (self).commit_index >= old(self).commit_index,
            final (self).log == old(self).log,
            (old(self).config.crash_gate && *final (self) == *old(self) && acts@.len() == 1
                && acts@[0] is Crash) || {
                &&& (!(old(self).role is Leader) ==> *final (self) == *old(self) && acts@.len()
                    == 0)
                &&& (old(self).role is Leader ==> match peer {
                    Some(p) => {
                        if exists|j: int|
                            0 <= j < old(self).config.servers@.len() && (#[trigger] old(
                            self).config.servers@[j])@ == p@ {
                            exists|j: int|
                                {
                                    &&& 0 <= j < old(self).config.servers@.len()
                                    &&& (#[trigger] old(self).config.servers@[j])@ == p@
                                    &&& final (self).match_index@ == old(
                                    self).match_index@.update(j, peer_match)
                                    &&& exists|nn: u64| #[trigger] spec_advance_outcome(
                                        *old(self),
                                        *final (self),
                                        acts@,
                                        old(self).match_index@.update(j, peer_match),
                                        nn,
                                    )
                                }
                        } else {
                            final (self).match_index == old(self).match_index && (exists|nn: u64|
                                #[trigger] spec_advance_outcome(
                                    *old(self),
                                    *final (self),
                                    acts@,
                                    old(self).match_index@,
                                    nn,
                                ))
                        }
                    },
                    None => final (self).match_index == old(self).match_index && (exists|nn: u64|
                        #[trigger] spec_advance_outcome(
                            *old(self),
                            *final (self),
                            acts@,
                            old(self).match_index@,
                            nn,
                        )),
                })
            },
    {
        if self.config.crash_gate {
            if crate::rng::crash_lot() {
                let mut acts: Vec<Action> = Vec::new();
                acts.push(Action::Crash);
                return acts;
            }
        }
        if !matches!(self.role, Role::Leader) {
            return Vec::new();
        }
        let idx = match peer {
            Some(p) => find_peer(&self.config.servers, p),
            None => None,
        };
        if let Some(j) = idx {
            self.match_index.set(j, peer_match);
            proof {
                assert(self.match_index@ =~= old(self).match_index@.update(j as int, peer_match));
            }
        }
        let ghost m1 = self.match_index@;
        let mut slots = clone_u64_vec(&self.match_index);
        let lli = last_log_index(&self.log);
        slots.set(self.me, lli);
        proof {
            assert(slots@ =~= m1.update(self.me as int, self.log@.len() as u64));
        }
        let n = self.config.servers.len();
        let q = n / 2 + 1;
        let nn = max_quorum_supported(&slots, q);
        let mut adv = false;
        if nn > self.commit_index && nn <= lli {
            let loglen = self.log.len();
            assert(nn - 1 < loglen as u64);
            let at = (nn - 1) as usize;
            if self.log[at].term == self.current_term {
                adv = true;
            }
        }
        if adv {
            self.commit_index = nn;
            let mut acts: Vec<Action> = Vec::new();
            acts.push(self.notify_state_change());
            let ghost head = acts@;
            let mut dels = self.advance_applied();
            let ghost tail = dels@;
            acts.append(&mut dels);
            proof {
                assert(acts@ == head + tail);
                assert(acts@[0] == head[0]);
                assert(acts@[0] matches Action::NotifyDrivers { current_term, commit_index }
                    && current_term == old(self).current_term && commit_index == nn);
                assert forall|i: int| 0 <= i < acts@.len() implies !is_send(acts@[i]) && !is_save(
                    acts@[i],
                ) by {
                    if i < head.len() {
                        assert(acts@[i] == head[i]);
                    } else {
                        assert(acts@[i] == tail[i - head.len()]);
                    }
                }
                assert forall|i: int| 0 <= i < head.len() implies !(head[i] is Deliver) by {}
                lemma_no_deliver_stream(head);
                crate::types::lemma_deliveries_append(head, tail);
                assert(deliveries(acts@) =~= deliveries(tail));
                assert(q as int == spec_quorum(self.config.servers@.len() as int));
                assert(is_max_supported(
                    m1.update(old(self).me as int, old(self).log@.len() as u64),
                    spec_quorum(old(self).config.servers@.len() as int),
                    nn,
                ));
                assert(deliveries(acts@) =~= Seq::new(
                    (nn - old(self).last_applied) as nat,
                    |k: int|
                        (
                            (old(self).last_applied + 1 + k) as u64,
                            old(self).log@[old(self).last_applied + k].payload@,
                        ),
                ));
                assert(spec_advance_outcome(*old(self), *self, acts@, m1, nn));
            }
            return acts;
        }
        let r: Vec<Action> = Vec::new();
        proof {
            assert(q as int == spec_quorum(self.config.servers@.len() as int));
            assert(is_max_supported(
                m1.update(old(self).me as int, old(self).log@.len() as u64),
                spec_quorum(old(self).config.servers@.len() as int),
                nn,
            ));
            assert(deliveries(r@) =~= Seq::<(u64, Seq<u8>)>::empty());
            assert(spec_advance_outcome(*old(self), *self, r@, m1, nn));
        }
        r
    }
}

/// A fresh copy of a slot vector.
fn clone_u64_vec(v: &Vec<u64>) -> (r: Vec<u64>)
    ensures
        r@ == v@,
{
    let n = v.len();
    let mut r: Vec<u64> = Vec::new();
    let mut i: usize = 0;
    while i < n
        invariant
            i <= n,
            n == v@.len(),
            r@ =~= v@.take(i as int),
        decreases n - i,
    {
        r.push(v[i]);
        i += 1;
    }
    proof {
        assert(v@.take(n as int) =~= v@);
    }
    r
}

/// A tally with only slot `me` granted.
fn one_hot_vec(n: usize, me: usize) -> (r: Vec<bool>)
    ensures
        r@ == one_hot(n as int, me as int),
{
    let mut r: Vec<bool> = Vec::new();
    let mut i: usize = 0;
    while i < n
        invariant
            i <= n,
            r@ =~= one_hot(i as int, me as int).take(i as int),
        decreases n - i,
    {
        r.push(i == me);
        i += 1;
    }
    proof {
        assert(r@ =~= one_hot(n as int, me as int));
    }
    r
}

/// An action list without deliveries has an empty delivery stream.
pub proof fn lemma_no_deliver_stream(s: Seq<Action>)
    requires
        forall|i: int| 0 <= i < s.len() ==> !(s[i] is Deliver),
    ensures
        deliveries(s) =~= Seq::<(u64, Seq<u8>)>::empty(),
    decreases s.len(),
{
    if s.len() > 0 {
        lemma_no_deliver_stream(s.drop_last());
    }
}

/// A vector of `n` zero slots.
fn zeroes(n: usize) -> (r: Vec<u64>)
    ensures
        r@ == Seq::new(n as nat, |i: int| 0u64),
{
    fill(n, 0)
}

/// A vector of `n` slots, all `x`.
fn fill(n: usize, x: u64) -> (r: Vec<u64>)
    ensures
        r@ == Seq::new(n as nat, |i: int| x),
{
    let mut r: Vec<u64> = Vec::new();
    let mut i: usize = 0;
    while i < n
        invariant
            i <= n,
            r@ =~= Seq::new(i as nat, |k: int| x),
        decreases n - i,
    {
        r.push(x);
        i += 1;
    }
    r
}

/// A vector of `n` false slots.
fn falses(n: usize) -> (r: Vec<bool>)
    ensures
        r@ == Seq::new(n as nat, |i: int| false),
{
    let mut r: Vec<bool> = Vec::new();
    let mut i: usize = 0;
    while i < n
        invariant
            i <= n,
            r@ =~= Seq::new(i as nat, |k: int| false),
        decreases n - i,
    {
        r.push(false);
        i += 1;
    }
    r
}

} // verus!
