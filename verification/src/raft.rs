//! The per-node consensus state machine: leader election and log
//! replication.
//!
//! A node is a follower, candidate or leader. It reacts to timer and peer
//! events through the handlers below, each a pure step of the state machine:
//! the handler mutates the node and hands back the messages to send, and the
//! host program carries those messages to the peers. Terms and the commit
//! and apply indices only ever grow, a node grants at most one vote per
//! term, and entries at or below the commit index are never rewritten.

use vstd::prelude::*;

use crate::command::{
    apply_one, apply_bytes, engine_state, is_encoding, spec_decode, CommandState, EngineState,
};
use crate::error::Error;
use crate::log::{entries_state, entry_state, EntryState, LogEntry, RaftLog};
use crate::mvcc::{no_dup_versions, MvccStore};

verus! {

/// The node's role, with the role-specific state: a candidate carries the
/// votes gathered so far, a leader the replication progress per peer.
pub enum Role {
    Follower { leader: Option<u64> },
    Candidate { votes: Vec<u64> },
    Leader { match_index: Vec<u64> },
}

/// A peer-to-peer protocol message.
pub enum Message {
    RequestVote { term: u64, last_log_index: u64, last_log_term: u64 },
    RequestVoteResponse { term: u64, granted: bool },
    AppendEntries {
        term: u64,
        prev_log_index: u64,
        prev_log_term: u64,
        entries: Vec<LogEntry>,
        leader_commit: u64,
    },
    AppendEntriesResponse { term: u64, success: bool, match_index: u64 },
}

/// A message together with its sender and addressee.
pub struct Envelope {
    pub from: u64,
    pub to: u64,
    pub message: Message,
}

/// One consensus node.
pub struct RaftNode {
    pub id: u64,
    pub peers: Vec<u64>,
    pub term: u64,
    pub voted_for: Option<u64>,
    pub log: RaftLog,
    pub apply_index: u64,
    pub role: Role,
}

/// The number of nodes in the cluster.
pub open spec fn cluster_size(n: RaftNode) -> int {
    n.peers@.len() as int + 1
}

/// The votes a candidate has gathered (0 otherwise).
pub open spec fn votes_count(r: Role) -> int {
    match r {
        Role::Candidate { votes } => votes@.len() as int,
        _ => 0,
    }
}

/// The candidate's gathered vote list (empty otherwise).
pub open spec fn candidate_votes(r: Role) -> Seq<u64> {
    match r {
        Role::Candidate { votes } => votes@,
        _ => Seq::<u64>::empty(),
    }
}

/// The leader's per-peer replication progress (empty otherwise).
pub open spec fn leader_matches(r: Role) -> Seq<u64> {
    match r {
        Role::Leader { match_index } => match_index@,
        _ => Seq::<u64>::empty(),
    }
}

/// A peer's replication progress after one acknowledgment: on success it
/// advances to the reported match index, capped at the leader's last index
/// and never moving backwards; on failure it resets, so the next
/// replication restarts the peer from the beginning of the log.
pub open spec fn progress_after(prior: u64, success: bool, match_index: u64, last: u64) -> u64 {
    if success {
        let capped = if match_index < last {
            match_index
        } else {
            last
        };
        if capped > prior {
            capped
        } else {
            prior
        }
    } else {
        0
    }
}

/// The replicated suffix is internally consistent: contiguous indices
/// above `prev_log_index`, and terms that never decrease, starting at or
/// above the term before the suffix (`base_term`) and never passing the
/// leader's (`term`).
pub open spec fn entries_well_formed(
    entries: Seq<LogEntry>,
    prev_log_index: u64,
    base_term: u64,
    term: u64,
) -> bool {
    forall|j: int|
        0 <= j < entries.len() ==> (#[trigger] entries[j]).index == prev_log_index + 1 + j
            && entries[j].term <= term && entries[j].term >= (if j == 0 {
            base_term
        } else {
            entries[j - 1].term
        })
}

/// The length of the longest prefix of `entries` that the log already holds
/// with matching terms at the indices after `prev`.
pub open spec fn agree_len(log: Seq<LogEntry>, entries: Seq<LogEntry>, prev: int) -> int
    decreases entries.len(),
{
    if entries.len() == 0 {
        0
    } else if prev + 1 <= log.len() && log[prev].term == entries[0].term {
        1 + agree_len(log, entries.drop_first(), prev + 1)
    } else {
        0
    }
}

/// `agree_len` is the unique cut: every position before it matches and the
/// one at it (if any) does not.
proof fn lemma_agree_len_char(log: Seq<LogEntry>, entries: Seq<LogEntry>, prev: int, m: int)
    requires
        0 <= prev,
        0 <= m <= entries.len(),
        prev + m <= log.len(),
        forall|j: int|
            0 <= j < m ==> log[prev + j].term == (#[trigger] entries[j]).term,
        m < entries.len() ==> !(prev + 1 + m <= log.len() && log[prev + m].term == entries[
            m
        ].term),
    ensures
        agree_len(log, entries, prev) == m,
    decreases entries.len(),
{
    if entries.len() == 0 {
    } else if m == 0 {
    } else {
        assert(log[prev + 0].term == entries[0].term);
        assert forall|j: int|
            0 <= j < m - 1 implies log[(prev + 1) + j].term == (
            #[trigger] entries.drop_first()[j]).term by {
            assert(entries.drop_first()[j] == entries[j + 1]);
            assert(log[prev + (j + 1)].term == entries[j + 1].term);
            assert((prev + 1) + j == prev + (j + 1));
        }
        if m - 1 < entries.drop_first().len() {
            assert(entries.drop_first()[m - 1] == entries[m as int]);
        }
        lemma_agree_len_char(log, entries.drop_first(), prev + 1, m - 1);
    }
}

/// A replication message is accepted exactly when the leader's term is
/// current, the entry before the suffix matches this node's log (the
/// consistency check), the suffix itself is well formed, and the suffix
/// does not contradict an entry at or below the commit index.
pub open spec fn append_acceptable(
    n: RaftNode,
    term: u64,
    prev_log_index: u64,
    prev_log_term: u64,
    entries: Seq<LogEntry>,
) -> bool {
    &&& term >= n.term
    &&& prev_log_index <= n.log.spec_last_index()
    &&& (prev_log_index > 0 ==> n.log.spec_term_at(prev_log_index) == prev_log_term)
    &&& entries_well_formed(entries, prev_log_index, n.log.spec_term_at(prev_log_index), term)
    &&& (agree_len(n.log.entries@, entries, prev_log_index as int) == entries.len()
        || prev_log_index + 1 + agree_len(n.log.entries@, entries, prev_log_index as int)
        > n.log.commit_index)
}

/// The candidate's log is at least as up to date as this node's: a higher
/// last term, or the same last term and at least the same last index. Only
/// such candidates get this node's vote, which keeps committed entries from
/// being lost across leader changes.
pub open spec fn log_up_to_date(n: RaftNode, last_log_term: u64, last_log_index: u64) -> bool {
    ||| last_log_term > n.log.spec_last_term()
    ||| (last_log_term == n.log.spec_last_term() && last_log_index >= n.log.spec_last_index())
}

impl RaftNode {
    /// The node invariant: a well-formed log whose terms never pass the
    /// node's own, apply index at or below commit index, distinct peers not
    /// including the node itself, and role-specific state that fits the
    /// cluster.
    pub open spec fn wf(self) -> bool {
        &&& self.log.wf()
        &&& self.apply_index <= self.log.commit_index
        &&& self.log.spec_last_term() <= self.term
        &&& no_dup_versions(self.peers@)
        &&& !self.peers@.contains(self.id)
        &&& self.peers@.len() + 1 < usize::MAX
        &&& match self.role {
            Role::Follower { .. } => true,
            Role::Candidate { votes } => {
                &&& votes@.contains(self.id)
                &&& no_dup_versions(votes@)
                &&& forall|i: int|
                    0 <= i < votes@.len() ==> #[trigger] votes@[i] == self.id
                        || self.peers@.contains(votes@[i])
                &&& self.voted_for == Some(self.id)
            },
            Role::Leader { match_index } => {
                &&& match_index@.len() == self.peers@.len()
                &&& forall|i: int|
                    0 <= i < match_index@.len() ==> #[trigger] match_index@[i]
                        <= self.log.entries@.len()
            },
        }
    }

    /// A fresh node: a follower at term 0 with an empty log.
    pub fn new(id: u64, peers: Vec<u64>) -> (n: Self)
        requires
            no_dup_versions(peers@),
            !peers@.contains(id),
            peers@.len() + 1 < usize::MAX,
        ensures
            n.wf(),
            n.id == id,
            n.peers == peers,
            n.term == 0,
            n.voted_for is None,
            n.log.entries@.len() == 0,
            n.log.commit_index == 0,
            n.apply_index == 0,
            n.role == (Role::Follower { leader: None::<u64> }),
    {
        RaftNode {
            id,
            peers,
            term: 0,
            voted_for: None,
            log: RaftLog::new(),
            apply_index: 0,
            role: Role::Follower { leader: None },
        }
    }

    /// Steps down to follower at `term`, forgetting the vote when the term
    /// is new.
    fn step_down(&mut self, term: u64, leader: Option<u64>)
        requires
            old(self).wf(),
            term >= old(self).term,
        ensures
            final(self).wf(),
            final(self).term == term,
            final(self).voted_for == if term > old(self).term {
                None::<u64>
            } else {
                old(self).voted_for
            },
            final(self).role == (Role::Follower { leader }),
            final(self).log == old(self).log,
            final(self).apply_index == old(self).apply_index,
            final(self).id == old(self).id,
            final(self).peers == old(self).peers,
    {
        if term > self.term {
            self.voted_for = None;
        }
        self.term = term;
        self.role = Role::Follower { leader };
    }

    /// A candidate with votes from a majority of the cluster becomes leader,
    /// with no replication progress assumed for any peer.
    fn maybe_become_leader(&mut self) -> (became: bool)
        requires
            old(self).wf(),
        ensures
            final(self).wf(),
            final(self).term == old(self).term,
            final(self).voted_for == old(self).voted_for,
            final(self).log == old(self).log,
            final(self).apply_index == old(self).apply_index,
            final(self).id == old(self).id,
            final(self).peers == old(self).peers,
            became <==> ((old(self).role is Candidate) && 2 * votes_count(old(self).role)
                > cluster_size(*old(self))),
            became ==> (final(self).role is Leader) && leader_matches(final(self).role)
                == Seq::<u64>::new(old(self).peers@.len(), |i: int| 0u64),
            !became ==> *final(self) == *old(self),
    {
        let won: bool = match &self.role {
            Role::Candidate { votes } => votes.len() > (self.peers.len() + 1) / 2,
            _ => false,
        };
        if won {
            let m = zero_vec(self.peers.len());
            proof {
                assert(m@ =~= Seq::<u64>::new(self.peers@.len(), |i: int| 0u64));
            }
            self.role = Role::Leader { match_index: m };
            true
        } else {
            false
        }
    }

    /// An election timeout fired: the node becomes a candidate for the next
    /// term, votes for itself, and asks every peer for its vote. (In a
    /// single-node cluster its own vote is already a majority and it becomes
    /// leader outright.)
    #[verifier::loop_isolation(false)]
    pub fn tick_election(&mut self) -> (msgs: Vec<Envelope>)
        requires
            old(self).wf(),
            old(self).term < u64::MAX,
        ensures
            final(self).wf(),
            final(self).term == old(self).term + 1,
            final(self).voted_for == Some(old(self).id),
            final(self).log == old(self).log,
            final(self).apply_index == old(self).apply_index,
            final(self).id == old(self).id,
            final(self).peers == old(self).peers,
            (final(self).role is Leader) ==> 2 > cluster_size(*old(self)),
            (final(self).role is Candidate) ==> votes_count(final(self).role) == 1,
            msgs@.len() == old(self).peers@.len(),
            forall|i: int|
                0 <= i < msgs@.len() ==> #[trigger] msgs@[i] == (Envelope {
                    from: old(self).id,
                    to: old(self).peers@[i],
                    message: Message::RequestVote {
                        term: (old(self).term + 1) as u64,
                        last_log_index: old(self).log.spec_last_index(),
                        last_log_term: old(self).log.spec_last_term(),
                    },
                }),
    {
        self.term = self.term + 1;
        self.voted_for = Some(self.id);
        let mut votes: Vec<u64> = Vec::new();
        votes.push(self.id);
        proof {
            assert(votes@[0] == self.id);
        }
        self.role = Role::Candidate { votes };
        let _ = self.maybe_become_leader();
        let last_log_index = self.log.last_index();
        let last_log_term = self.log.last_term();
        let mut msgs: Vec<Envelope> = Vec::new();
        let mut i: usize = 0;
        while i < self.peers.len()
            invariant
                i <= self.peers@.len(),
                msgs@.len() == i,
                last_log_index == self.log.spec_last_index(),
                last_log_term == self.log.spec_last_term(),
                forall|j: int|
                    0 <= j < i ==> #[trigger] msgs@[j] == (Envelope {
                        from: self.id,
                        to: self.peers@[j],
                        message: Message::RequestVote {
                            term: self.term,
                            last_log_index: self.log.spec_last_index(),
                            last_log_term: self.log.spec_last_term(),
                        },
                    }),
            decreases self.peers@.len() - i,
        {
            msgs.push(
                Envelope {
                    from: self.id,
                    to: self.peers[i],
                    message: Message::RequestVote { term: self.term, last_log_index, last_log_term },
                },
            );
            i += 1;
        }
        msgs
    }

    /// Answers a vote request. The vote is granted exactly when the
    /// candidate's term is current, its log is at least as up to date as
    /// ours, and we have not yet voted for anyone else this term — so a node
    /// grants at most one vote per term.
    pub fn handle_request_vote(
        &mut self,
        from: u64,
        term: u64,
        last_log_index: u64,
        last_log_term: u64,
    ) -> (reply: Envelope)
        requires
            old(self).wf(),
        ensures
            final(self).wf(),
            final(self).term == if term > old(self).term {
                term
            } else {
                old(self).term
            },
            final(self).log == old(self).log,
            final(self).apply_index == old(self).apply_index,
            final(self).id == old(self).id,
            final(self).peers == old(self).peers,
            reply.from == old(self).id && reply.to == from,
            reply.message matches Message::RequestVoteResponse { term: rt, granted } && rt
                == final(self).term && (granted <==> (term == final(self).term && log_up_to_date(
                *old(self),
                last_log_term,
                last_log_index,
            ) && (term > old(self).term || old(self).voted_for is None || old(self).voted_for
                == Some(from)))),
            reply.message matches Message::RequestVoteResponse { term: rt, granted } && (granted
                ==> final(self).voted_for == Some(from)),
            reply.message matches Message::RequestVoteResponse { term: rt, granted } && (!granted
                && term <= old(self).term ==> final(self).voted_for == old(self).voted_for),
    {
        if term > self.term {
            self.step_down(term, None);
        }
        let lt = self.log.last_term();
        let li = self.log.last_index();
        let up_to_date = last_log_term > lt || (last_log_term == lt && last_log_index >= li);
        let can_vote = match self.voted_for {
            None => true,
            Some(v) => v == from,
        };
        let granted = term == self.term && up_to_date && can_vote;
        if granted {
            self.voted_for = Some(from);
            if !matches!(self.role, Role::Follower { .. }) {
                // A candidate votes for itself, so it only reaches here when
                // asked by itself; keep the role consistent regardless.
                self.role = Role::Follower { leader: None };
            }
        }
        Envelope {
            from: self.id,
            to: from,
            message: Message::RequestVoteResponse { term: self.term, granted },
        }
    }

    /// Records a vote. When the votes gathered reach a majority of the
    /// cluster, the candidate becomes leader.
    pub fn handle_request_vote_response(&mut self, from: u64, term: u64, granted: bool) -> (became:
        bool)
        requires
            old(self).wf(),
        ensures
            final(self).wf(),
            final(self).term == if term > old(self).term {
                term
            } else {
                old(self).term
            },
            final(self).log == old(self).log,
            final(self).apply_index == old(self).apply_index,
            final(self).id == old(self).id,
            final(self).peers == old(self).peers,
            became <==> (term == old(self).term && granted && (old(self).role is Candidate)
                && !candidate_votes(old(self).role).contains(from) && (from == old(self).id
                || old(self).peers@.contains(from)) && 2 * (votes_count(old(self).role) + 1)
                > cluster_size(*old(self))),
            became ==> final(self).role is Leader,
            (term == old(self).term && granted && (old(self).role is Candidate)
                && !candidate_votes(old(self).role).contains(from) && (from == old(self).id
                || old(self).peers@.contains(from)) && !became) ==> (final(self).role
                is Candidate) && candidate_votes(final(self).role) == candidate_votes(
                old(self).role,
            ).push(from),
            term > old(self).term ==> (final(self).role is Follower) && !became,
            (term < old(self).term || (term == old(self).term && !granted)) ==> *final(self)
                == *old(self) && !became,
            (term == old(self).term && granted && !(old(self).role is Candidate))
                ==> *final(self) == *old(self) && !became,
            (term == old(self).term && granted && (old(self).role is Candidate)
                && (candidate_votes(old(self).role).contains(from) || !(from == old(self).id
                || old(self).peers@.contains(from)))) ==> *final(self) == *old(self) && !became,
    {
        if term > self.term {
            self.step_down(term, None);
            return false;
        }
        if term < self.term || !granted {
            return false;
        }
        let votes_opt: Option<Vec<u64>> = match &self.role {
            Role::Candidate { votes } => Some(crate::mvcc::copy_versions(votes)),
            _ => None,
        };
        match votes_opt {
            Some(mut votes) => {
                let already = contains_id(&votes, from);
                let known = from == self.id || contains_id(&self.peers, from);
                if !already && known {
                    let ghost before = votes@;
                    votes.push(from);
                    proof {
                        assert(votes@.len() == votes_count(old(self).role) + 1);
                        let k = choose|k: int| 0 <= k < before.len() && before[k] == old(self).id;
                        assert(votes@[k] == old(self).id);
                        assert(votes@.contains(old(self).id));
                        assert forall|p: int, q: int|
                            0 <= p < votes@.len() && 0 <= q < votes@.len() && p != q implies votes@[p]
                            != votes@[q] by {
                            if p < votes@.len() - 1 && q < votes@.len() - 1 {
                                assert(votes@[p] == before[p] && votes@[q] == before[q]);
                            } else if p == votes@.len() - 1 {
                                assert(votes@[q] == before[q]);
                                assert(!before.contains(from));
                            } else {
                                assert(votes@[p] == before[p]);
                                assert(!before.contains(from));
                            }
                        }
                    }
                    self.role = Role::Candidate { votes };
                    self.maybe_become_leader()
                } else {
                    false
                }
            },
            None => false,
        }
    }
}

impl RaftNode {
    /// Advances the leader's commit index to the highest index that is
    /// durable on a majority of the cluster (the leader itself plus the
    /// peers whose acknowledged progress reaches it) and that carries the
    /// leader's own current term — never an entry of a prior term by count
    /// alone.
    #[verifier::loop_isolation(false)]
    fn advance_commit(&mut self)
        requires
            old(self).wf(),
            old(self).role is Leader,
        ensures
            final(self).wf(),
            final(self).term == old(self).term,
            final(self).voted_for == old(self).voted_for,
            final(self).role == old(self).role,
            final(self).id == old(self).id,
            final(self).peers == old(self).peers,
            final(self).apply_index == old(self).apply_index,
            final(self).log.entries@ == old(self).log.entries@,
            final(self).log.commit_index >= old(self).log.commit_index,
            final(self).log.commit_index > old(self).log.commit_index ==> final(self).log.spec_term_at(final(self).log.commit_index) == final(self).term && 2 * (1
                + count_ge(leader_matches(final(self).role), final(self).log.commit_index))
                > cluster_size(*final(self)),
            forall|m: u64|
                final(self).log.commit_index < m <= final(self).log.spec_last_index() ==> !(
                final(self).log.spec_term_at(m) == final(self).term && 2 * (1 + count_ge(
                    leader_matches(final(self).role),
                    m,
                )) > cluster_size(*final(self))),
    {
        let len = self.log.last_index();
        let mut n = len;
        while n > self.log.commit_index
            invariant
                n <= len,
                *self == *old(self),
                forall|m: u64|
                    n < m <= len ==> !(self.log.spec_term_at(m) == self.term && 2 * (1
                        + count_ge(leader_matches(self.role), m)) > cluster_size(*self)),
            decreases n,
        {
            let committable: bool = if self.log.term_at(n) == self.term {
                let acks = match &self.role {
                    Role::Leader { match_index } => count_at_least(match_index, n),
                    _ => 0,
                };
                1 + acks > (self.peers.len() + 1) / 2
            } else {
                false
            };
            if committable {
                proof {
                    assert(2 * (1 + count_ge(leader_matches(self.role), n)) > cluster_size(
                        *self,
                    ));
                }
                self.log.commit_to(n);
                proof {
                    assert forall|m: u64|
                        self.log.commit_index < m <= self.log.spec_last_index() implies !(
                        self.log.spec_term_at(m) == self.term && 2 * (1 + count_ge(
                            leader_matches(self.role),
                            m,
                        )) > cluster_size(*self)) by {
                        assert(m > n);
                        assert(self.role == old(self).role);
                        assert(self.log.entries@ == old(self).log.entries@);
                        assert(!(old(self).log.spec_term_at(m) == old(self).term && 2 * (1
                            + count_ge(leader_matches(old(self).role), m)) > cluster_size(
                            *old(self),
                        )));
                        assert(self.log.spec_term_at(m) == old(self).log.spec_term_at(m));
                        assert(leader_matches(self.role) == leader_matches(old(self).role));
                        assert(cluster_size(*self) == cluster_size(*old(self)));
                    }
                }
                return ;
            }
            proof {
                assert(!(self.log.spec_term_at(n) == self.term && 2 * (1 + count_ge(
                    leader_matches(self.role),
                    n,
                )) > cluster_size(*self)));
            }
            n = n - 1;
        }
    }

    /// Submits a client command. Fails with `Unavailable` exactly when this
    /// node is not the leader. The leader appends the command to its own log
    /// under its current term and sends each peer the log suffix it has not
    /// yet acknowledged, with the entry before that suffix named for the
    /// follower's consistency check.
    #[verifier::loop_isolation(false)]
    pub fn client_command(&mut self, command: Vec<u8>) -> (r: Result<(u64, Vec<Envelope>), Error>)
        requires
            old(self).wf(),
            old(self).log.entries@.len() < u64::MAX,
        ensures
            final(self).wf(),
            final(self).id == old(self).id,
            final(self).peers == old(self).peers,
            final(self).term == old(self).term,
            final(self).apply_index == old(self).apply_index,
            final(self).log.commit_index >= old(self).log.commit_index,
            !(old(self).role is Leader) ==> r == Err::<(u64, Vec<Envelope>), Error>(
                Error::Unavailable,
            ) && *final(self) == *old(self),
            (old(self).role is Leader) ==> match r {
                Ok((index, msgs)) => {
                    &&& index == old(self).log.spec_last_index() + 1
                    &&& final(self).log.entries@.len() == old(self).log.entries@.len() + 1
                    &&& final(self).log.entries@.drop_last() == old(self).log.entries@
                    &&& entry_state(final(self).log.entries@.last()) == (EntryState {
                        term: old(self).term,
                        index,
                        command: command@,
                    })
                    &&& msgs@.len() == old(self).peers@.len()
                    &&& forall|i: int|
                        0 <= i < msgs@.len() ==> (#[trigger] msgs@[i]).to == old(self).peers@[i]
                            && msgs@[i].from == old(self).id
                            && (msgs@[i].message matches Message::AppendEntries {
                            term,
                            prev_log_index,
                            prev_log_term,
                            entries,
                            leader_commit,
                        } && term == old(self).term && prev_log_index == leader_matches(
                            old(self).role,
                        )[i] && prev_log_term == final(self).log.spec_term_at(prev_log_index)
                            && leader_commit == final(self).log.commit_index && entries_state(
                            entries@,
                        ) == entries_state(final(self).log.entries@).subrange(
                            prev_log_index as int,
                            final(self).log.entries@.len() as int,
                        ))
                },
                Err(_) => false,
            },
    {
        let match_copy: Vec<u64> = match &self.role {
            Role::Leader { match_index } => crate::mvcc::copy_versions(match_index),
            _ => { return Err(Error::Unavailable) },
        };
        let index = self.log.append(self.term, command);
        self.advance_commit();
        let mut msgs: Vec<Envelope> = Vec::new();
        let mut i: usize = 0;
        while i < self.peers.len()
            invariant
                i <= self.peers@.len(),
                msgs@.len() == i,
                forall|j: int|
                    0 <= j < i ==> (#[trigger] msgs@[j]).to == self.peers@[j] && msgs@[j].from
                        == self.id && (msgs@[j].message matches Message::AppendEntries {
                        term,
                        prev_log_index,
                        prev_log_term,
                        entries,
                        leader_commit,
                    } && term == self.term && prev_log_index == match_copy@[j] && prev_log_term
                        == self.log.spec_term_at(prev_log_index) && leader_commit
                        == self.log.commit_index && entries_state(entries@) == entries_state(
                        self.log.entries@,
                    ).subrange(prev_log_index as int, self.log.entries@.len() as int)),
            decreases self.peers@.len() - i,
        {
            let prev = match_copy[i];
            let prev_term = self.log.term_at(prev);
            let entries = self.copy_entries_from(prev);
            msgs.push(
                Envelope {
                    from: self.id,
                    to: self.peers[i],
                    message: Message::AppendEntries {
                        term: self.term,
                        prev_log_index: prev,
                        prev_log_term: prev_term,
                        entries,
                        leader_commit: self.log.commit_index,
                    },
                },
            );
            i += 1;
        }
        Ok((index, msgs))
    }

    /// A copy of the log entries above `from_index`, in order.
    #[verifier::loop_isolation(false)]
    fn copy_entries_from(&self, from_index: u64) -> (r: Vec<LogEntry>)
        requires
            self.wf(),
            from_index <= self.log.entries@.len(),
        ensures
            entries_state(r@) == entries_state(self.log.entries@).subrange(
                from_index as int,
                self.log.entries@.len() as int,
            ),
    {
        let mut r: Vec<LogEntry> = Vec::new();
        let len = self.log.last_index();
        let mut idx = from_index;
        while idx < len
            invariant
                from_index <= idx <= len,
                entries_state(r@) == entries_state(self.log.entries@).subrange(
                    from_index as int,
                    idx as int,
                ),
            decreases len - idx,
        {
            let e = self.log.entry_at(idx + 1);
            r.push(e);
            proof {
                assert(entries_state(r@) =~= entries_state(self.log.entries@).subrange(
                    from_index as int,
                    idx + 1,
                ));
            }
            idx = idx + 1;
        }
        proof {
            assert(entries_state(r@) =~= entries_state(self.log.entries@).subrange(
                from_index as int,
                self.log.entries@.len() as int,
            ));
        }
        r
    }

    /// The leader's periodic heartbeat: an empty replication message to each
    /// peer, naming the peer's acknowledged progress for the consistency
    /// check and carrying the leader's commit index. Heartbeats suppress
    /// followers' election timers.
    #[verifier::loop_isolation(false)]
    pub fn heartbeat(&self) -> (msgs: Vec<Envelope>)
        requires
            self.wf(),
            self.role is Leader,
        ensures
            msgs@.len() == self.peers@.len(),
            forall|i: int|
                0 <= i < msgs@.len() ==> (#[trigger] msgs@[i]).to == self.peers@[i]
                    && msgs@[i].from == self.id && (msgs@[i].message
                    matches Message::AppendEntries {
                    term,
                    prev_log_index,
                    prev_log_term,
                    entries,
                    leader_commit,
                } && term == self.term && prev_log_index == leader_matches(self.role)[i]
                    && prev_log_term == self.log.spec_term_at(prev_log_index) && leader_commit
                    == self.log.commit_index && entries@.len() == 0),
    {
        let match_copy: Vec<u64> = match &self.role {
            Role::Leader { match_index } => crate::mvcc::copy_versions(match_index),
            _ => { return Vec::new() },
        };
        let mut msgs: Vec<Envelope> = Vec::new();
        let mut i: usize = 0;
        while i < self.peers.len()
            invariant
                i <= self.peers@.len(),
                msgs@.len() == i,
                forall|j: int|
                    0 <= j < i ==> (#[trigger] msgs@[j]).to == self.peers@[j] && msgs@[j].from
                        == self.id && (msgs@[j].message matches Message::AppendEntries {
                        term,
                        prev_log_index,
                        prev_log_term,
                        entries,
                        leader_commit,
                    } && term == self.term && prev_log_index == leader_matches(self.role)[j]
                        && prev_log_term == self.log.spec_term_at(prev_log_index) && leader_commit
                        == self.log.commit_index && entries@.len() == 0),
            decreases self.peers@.len() - i,
        {
            let prev = match_copy[i];
            let prev_term = self.log.term_at(prev);
            msgs.push(
                Envelope {
                    from: self.id,
                    to: self.peers[i],
                    message: Message::AppendEntries {
                        term: self.term,
                        prev_log_index: prev,
                        prev_log_term: prev_term,
                        entries: Vec::new(),
                        leader_commit: self.log.commit_index,
                    },
                },
            );
            i += 1;
        }
        msgs
    }
}

/// Whether the replicated suffix is internally consistent (the
/// `entries_well_formed` condition, both directions).
#[verifier::loop_isolation(false)]
fn suffix_valid(prev_log_index: u64, base_term: u64, term: u64, entries: &Vec<LogEntry>) -> (valid:
    bool)
    requires
        prev_log_index + entries@.len() < u64::MAX,
    ensures
        valid == entries_well_formed(entries@, prev_log_index, base_term, term),
{
    let n_entries = entries.len();
    let mut v: usize = 0;
    while v < n_entries
        invariant
            v <= n_entries,
            forall|j: int|
                0 <= j < v ==> (#[trigger] entries@[j]).index == prev_log_index + 1 + j && (
                #[trigger] entries@[j]).term <= term && entries@[j].term >= (if j == 0 {
                    base_term
                } else {
                    entries@[j - 1].term
                }),
        decreases n_entries - v,
    {
        let want = entries[v].index == prev_log_index + 1 + (v as u64) && entries[v].term <= term
            && (if v == 0 {
            entries[v].term >= base_term
        } else {
            entries[v].term >= entries[v - 1].term
        });
        if !want {
            proof {
                assert(!((entries@[v as int]).index == prev_log_index + 1 + v && (entries@[v
                    as int]).term <= term && entries@[v as int].term >= (if v == 0 {
                    base_term
                } else {
                    entries@[v - 1].term
                })));
            }
            return false;
        }
        v += 1;
    }
    true
}

impl RaftNode {
    /// The length of the prefix of `entries` that this node's log already
    /// holds with matching terms at the corresponding indices.
    #[verifier::loop_isolation(false)]
    fn matched_prefix(&self, prev_log_index: u64, entries: &Vec<LogEntry>) -> (k: usize)
        requires
            self.wf(),
            prev_log_index <= self.log.entries@.len(),
            prev_log_index + entries@.len() < u64::MAX,
        ensures
            k <= entries@.len(),
            prev_log_index + k <= self.log.entries@.len(),
            k == agree_len(self.log.entries@, entries@, prev_log_index as int),
            forall|j: int|
                0 <= j < k ==> (#[trigger] self.log.entries@[prev_log_index + j]).term
                    == entries@[j].term,
    {
        let len = self.log.last_index();
        let n_entries = entries.len();
        let mut k: usize = 0;
        let mut diverged = false;
        while k < n_entries && !diverged
            invariant
                k <= n_entries,
                prev_log_index + k <= self.log.entries@.len(),
                diverged ==> k < n_entries && !(prev_log_index + 1 + k
                    <= self.log.entries@.len() && self.log.entries@[prev_log_index + k].term
                    == entries@[k as int].term),
                forall|j: int|
                    0 <= j < k ==> (#[trigger] self.log.entries@[prev_log_index + j]).term
                        == entries@[j].term,
            decreases n_entries - k + if diverged {
                0int
            } else {
                1int
            },
        {
            let idx = prev_log_index + 1 + (k as u64);
            if idx <= len && self.log.term_at(idx) == entries[k].term {
                proof {
                    assert(self.log.entries@[prev_log_index + k].term == entries@[k as int].term);
                }
                k += 1;
            } else {
                diverged = true;
            }
        }
        proof {
            lemma_agree_len_char(self.log.entries@, entries@, prev_log_index as int, k as int);
        }
        k
    }

    /// Handles a replication message from a leader. The entries are
    /// accepted exactly when the leader's term is current and the entry
    /// before them matches this node's log (the consistency check); a
    /// divergent suffix above the commit index is truncated and replaced by
    /// the leader's entries, while entries at or below the commit index are
    /// never rewritten. On success the commit index advances to the
    /// leader's, as far as the matched prefix reaches.
    #[verifier::loop_isolation(false)]
    #[verifier::rlimit(100)]
    pub fn handle_append_entries(
        &mut self,
        from: u64,
        term: u64,
        prev_log_index: u64,
        prev_log_term: u64,
        entries: Vec<LogEntry>,
        leader_commit: u64,
    ) -> (reply: Envelope)
        requires
            old(self).wf(),
            old(self).log.entries@.len() + entries@.len() < u64::MAX,
        ensures
            final(self).wf(),
            final(self).term == if term > old(self).term {
                term
            } else {
                old(self).term
            },
            final(self).id == old(self).id,
            final(self).peers == old(self).peers,
            final(self).apply_index == old(self).apply_index,
            final(self).log.commit_index >= old(self).log.commit_index,
            final(self).log.entries@.len() >= old(self).log.commit_index,
            forall|i: int|
                0 <= i < old(self).log.commit_index ==> final(self).log.entries@[i] == old(
                    self,
                ).log.entries@[i],
            reply.from == old(self).id && reply.to == from,
            reply.message matches Message::AppendEntriesResponse { term: rt, success, match_index }
                && rt == final(self).term && (success <==> append_acceptable(
                *old(self),
                term,
                prev_log_index,
                prev_log_term,
                entries@,
            )) && (success ==> term == final(self).term && match_index
                == prev_log_index + entries@.len() && final(self).log.entries@.len()
                >= match_index && (forall|k: int|
                0 <= k < entries@.len() ==> (#[trigger] final(self).log.entries@[prev_log_index
                    + k]).term == entries@[k].term) && (forall|k: int|
                0 <= k < entries@.len() ==> (#[trigger] final(self).log.entries@[prev_log_index
                    + k]).command@ == entries@[k].command@ || final(self).log.entries@[
                prev_log_index + k] == old(self).log.entries@[prev_log_index + k])
                && final(self).log.commit_index >= (
            if leader_commit < match_index {
                leader_commit
            } else {
                match_index
            })) && (!success ==> final(self).log.entries@ == old(self).log.entries@),
    {
        if term > self.term {
            self.step_down(term, Some(from));
        }
        if term < self.term {
            return Envelope {
                from: self.id,
                to: from,
                message: Message::AppendEntriesResponse {
                    term: self.term,
                    success: false,
                    match_index: 0,
                },
            };
        }
        self.step_down(term, Some(from));
        let len = self.log.last_index();
        // The consistency check: the entry before the suffix must match.
        if prev_log_index > len || (prev_log_index > 0 && self.log.term_at(prev_log_index)
            != prev_log_term) {
            return Envelope {
                from: self.id,
                to: from,
                message: Message::AppendEntriesResponse {
                    term: self.term,
                    success: false,
                    match_index: 0,
                },
            };
        }
        let base_term = self.log.term_at(prev_log_index);
        let n_entries = entries.len();
        let valid = suffix_valid(prev_log_index, base_term, term, &entries);
        if !valid {
            return Envelope {
                from: self.id,
                to: from,
                message: Message::AppendEntriesResponse {
                    term: self.term,
                    success: false,
                    match_index: 0,
                },
            };
        }
        // Skip the prefix of the suffix that the log already holds.
        let mut k = self.matched_prefix(prev_log_index, &entries);
        let m = prev_log_index + (n_entries as u64);
        if k == n_entries {
            // Nothing new: everything is already in the log.
            proof {
                if n_entries > 0 {
                    assert(self.log.entries@[prev_log_index + (n_entries - 1)].term == entries@[
                        n_entries - 1].term);
                }
                assert(m <= self.log.entries@.len());
            }
            let lc = if leader_commit < m {
                leader_commit
            } else {
                m
            };
            self.log.commit_to(lc);
            return Envelope {
                from: self.id,
                to: from,
                message: Message::AppendEntriesResponse {
                    term: self.term,
                    success: true,
                    match_index: m,
                },
            };
        }
        let idx0 = prev_log_index + 1 + (k as u64);
        if idx0 <= self.log.commit_index {
            // The leader's suffix would rewrite a committed entry; a
            // correct leader never sends this, so refuse it outright.
            return Envelope {
                from: self.id,
                to: from,
                message: Message::AppendEntriesResponse {
                    term: self.term,
                    success: false,
                    match_index: 0,
                },
            };
        }
        self.splice_suffix(prev_log_index, k, &entries, base_term);
        self.log.commit_to(
            if leader_commit < m {
                leader_commit
            } else {
                m
            },
        );
        Envelope {
            from: self.id,
            to: from,
            message: Message::AppendEntriesResponse {
                term: self.term,
                success: true,
                match_index: m,
            },
        }
    }

    /// Replaces the log suffix above the matched prefix with the leader's
    /// entries: the divergent tail is truncated — never at or below the
    /// commit index — and the leader's remaining entries are appended.
    #[verifier::loop_isolation(false)]
    #[verifier::rlimit(100)]
    fn splice_suffix(&mut self, prev_log_index: u64, k0: usize, entries: &Vec<LogEntry>, base_term: u64)
        requires
            old(self).wf(),
            old(self).role is Follower,
            base_term == old(self).log.spec_term_at(prev_log_index),
            prev_log_index <= old(self).log.entries@.len(),
            old(self).log.entries@.len() + entries@.len() < u64::MAX,
            k0 < entries@.len(),
            prev_log_index + k0 <= old(self).log.entries@.len(),
            prev_log_index + 1 + k0 > old(self).log.commit_index,
            forall|j: int|
                0 <= j < entries@.len() ==> (#[trigger] entries@[j]).term <= old(self).term
                    && entries@[j].term >= (if j == 0 {
                    base_term
                } else {
                    entries@[j - 1].term
                }),
            forall|j: int|
                0 <= j < k0 ==> (#[trigger] old(self).log.entries@[prev_log_index + j]).term
                    == entries@[j].term,
        ensures
            final(self).wf(),
            final(self).term == old(self).term,
            final(self).id == old(self).id,
            final(self).peers == old(self).peers,
            final(self).role == old(self).role,
            final(self).voted_for == old(self).voted_for,
            final(self).apply_index == old(self).apply_index,
            final(self).log.commit_index == old(self).log.commit_index,
            final(self).log.entries@.len() == prev_log_index + entries@.len(),
            forall|i: int|
                0 <= i < prev_log_index + k0 ==> #[trigger] final(self).log.entries@[i] == old(
                    self,
                ).log.entries@[i],
            forall|j: int|
                0 <= j < entries@.len() ==> (#[trigger] final(self).log.entries@[prev_log_index
                    + j]).term == entries@[j].term,
            forall|j: int|
                k0 <= j < entries@.len() ==> (#[trigger] final(self).log.entries@[prev_log_index
                    + j]).command@ == entries@[j].command@,
    {
        let n_entries = entries.len();
        let mut k = k0;
        let idx0 = prev_log_index + 1 + (k0 as u64);
        proof {
            assert(idx0 - 1 <= self.log.entries@.len());
        }
        self.log.truncate_to(idx0 - 1);
        proof {
            assert(self.log.entries@.len() == idx0 - 1);
            if k0 > 0 {
                assert(old(self).log.entries@[prev_log_index + (k0 - 1)].term == entries@[k0
                    - 1].term);
                assert(self.log.entries@[prev_log_index + (k0 - 1)] == old(
                    self,
                ).log.entries@[prev_log_index + (k0 - 1)]);
            } else if prev_log_index > 0 {
                assert(self.log.entries@[prev_log_index - 1] == old(
                    self,
                ).log.entries@[prev_log_index - 1]);
            }
        }
        let ghost mid = self.log.entries@;
        self.log.append_suffix(entries, k0, prev_log_index, self.term);
        proof {
            assert forall|j: int| 0 <= j < entries@.len() implies (
            #[trigger] self.log.entries@[prev_log_index + j]).term == entries@[j].term by {
                if j < k0 {
                    assert(mid[prev_log_index + j] == old(self).log.entries@[prev_log_index + j]);
                    assert(self.log.entries@[prev_log_index + j] == mid[prev_log_index + j]);
                }
            }
            assert forall|i: int| 0 <= i < prev_log_index + k0 implies (
            #[trigger] self.log.entries@[i]) == old(self).log.entries@[i] by {
                assert(mid[i] == old(self).log.entries@[i]);
                assert(self.log.entries@[i] == mid[i]);
            }
        }
    }
}

/// The state a store reaches by decoding and applying log entries in order.
pub open spec fn spec_apply_entries(st: EngineState, es: Seq<EntryState>) -> EngineState
    decreases es.len(),
{
    if es.len() == 0 {
        st
    } else {
        match spec_decode(es[0].command) {
            Some(c) => spec_apply_entries(apply_one(st, c), es.drop_first()),
            None => st,
        }
    }
}

/// Extending the applied slice by one decodable entry applies that entry
/// last.
proof fn lemma_spec_apply_entries_snoc(st: EngineState, es: Seq<EntryState>, e: EntryState)
    requires
        forall|j: int| 0 <= j < es.len() ==> spec_decode((#[trigger] es[j]).command) is Some,
        spec_decode(e.command) is Some,
    ensures
        spec_apply_entries(st, es.push(e)) == apply_one(
            spec_apply_entries(st, es),
            spec_decode(e.command).unwrap(),
        ),
    decreases es.len(),
{
    if es.len() == 0 {
        assert(es.push(e)[0] == e);
        assert(es.push(e).drop_first() =~= Seq::<EntryState>::empty());
        assert(spec_apply_entries(st, es.push(e)) == spec_apply_entries(
            apply_one(st, spec_decode(e.command).unwrap()),
            es.push(e).drop_first(),
        ));
        assert(spec_apply_entries(st, es) == st);
    } else {
        assert(es.push(e)[0] == es[0]);
        assert(spec_decode(es[0].command) is Some);
        let c0 = spec_decode(es[0].command).unwrap();
        assert(es.push(e).drop_first() =~= es.drop_first().push(e));
        assert(spec_apply_entries(st, es.push(e)) == spec_apply_entries(
            apply_one(st, c0),
            es.drop_first().push(e),
        ));
        assert(spec_apply_entries(st, es) == spec_apply_entries(apply_one(st, c0), es.drop_first()));
        assert forall|j: int| 0 <= j < es.drop_first().len() implies spec_decode(
            (#[trigger] es.drop_first()[j]).command,
        ) is Some by {
            assert(es.drop_first()[j] == es[j + 1]);
        }
        lemma_spec_apply_entries_snoc(apply_one(st, c0), es.drop_first(), e);
    }
}

impl RaftNode {
    /// Handles a follower's answer to a replication message. On success the
    /// peer's acknowledged progress advances to the reported match index
    /// (never past the log, never backwards); on failure it is reset, so
    /// the next replication restarts the peer from the beginning of the
    /// log. Afterwards the commit index is advanced as far as the majority
    /// rule allows.
    #[verifier::loop_isolation(false)]
    pub fn handle_append_entries_response(
        &mut self,
        from: u64,
        term: u64,
        success: bool,
        match_index: u64,
    )
        requires
            old(self).wf(),
        ensures
            final(self).wf(),
            final(self).term == if term > old(self).term {
                term
            } else {
                old(self).term
            },
            final(self).id == old(self).id,
            final(self).peers == old(self).peers,
            final(self).apply_index == old(self).apply_index,
            final(self).log.entries@ == old(self).log.entries@,
            final(self).log.commit_index >= old(self).log.commit_index,
            final(self).log.commit_index > old(self).log.commit_index ==> (final(self).role
                is Leader) && final(self).log.spec_term_at(final(self).log.commit_index)
                == final(self).term && 2 * (1 + count_ge(
                leader_matches(final(self).role),
                final(self).log.commit_index,
            )) > cluster_size(*final(self)),
            term > old(self).term ==> final(self).role is Follower,
            term < old(self).term ==> *final(self) == *old(self),
            (term == old(self).term && !(old(self).role is Leader)) ==> *final(self) == *old(
                self,
            ),
            (term == old(self).term && (old(self).role is Leader) && !old(self).peers@.contains(
                from,
            )) ==> *final(self) == *old(self),
            (term == old(self).term && (old(self).role is Leader) && old(self).peers@.contains(
                from,
            )) ==> (final(self).role is Leader) && leader_matches(final(self).role).len() == old(
                self,
            ).peers@.len() && (forall|p: int|
                0 <= p < old(self).peers@.len() ==> #[trigger] leader_matches(
                    final(self).role,
                )[p] == (if old(self).peers@[p] == from {
                    progress_after(
                        leader_matches(old(self).role)[p],
                        success,
                        match_index,
                        old(self).log.spec_last_index(),
                    )
                } else {
                    leader_matches(old(self).role)[p]
                })) && (forall|m: u64|
                final(self).log.commit_index < m <= final(self).log.spec_last_index() ==> !(
                final(self).log.spec_term_at(m) == final(self).term && 2 * (1 + count_ge(
                    leader_matches(final(self).role),
                    m,
                )) > cluster_size(*final(self)))),
    {
        if term > self.term {
            self.step_down(term, None);
            return ;
        }
        if term < self.term {
            return ;
        }
        let mut mm: Vec<u64> = match &self.role {
            Role::Leader { match_index: m } => crate::mvcc::copy_versions(m),
            _ => { return ; },
        };
        let ghost mm0 = mm@;
        let mut pos: usize = 0;
        let mut found = false;
        let mut i: usize = 0;
        while i < self.peers.len()
            invariant
                i <= self.peers@.len(),
                found ==> pos < i && self.peers@[pos as int] == from,
                !found ==> forall|j: int| 0 <= j < i ==> self.peers@[j] != from,
            decreases self.peers@.len() - i,
        {
            if self.peers[i] == from && !found {
                pos = i;
                found = true;
            }
            i += 1;
        }
        if !found {
            proof {
                if self.peers@.contains(from) {
                    let k = choose|k: int| 0 <= k < self.peers@.len() && self.peers@[k] == from;
                    assert(false);
                }
            }
            return ;
        }
        proof {
            assert(self.peers@.contains(from)) by {
                assert(self.peers@[pos as int] == from);
            }
            assert forall|p: int|
                0 <= p < self.peers@.len() && p != pos implies self.peers@[p] != from by {}
        }
        let len = self.log.last_index();
        if success {
            let capped = if match_index < len {
                match_index
            } else {
                len
            };
            if capped > mm[pos] {
                set_at(&mut mm, pos, capped);
            }
        } else {
            set_at(&mut mm, pos, 0);
        }
        proof {
            assert forall|p: int| 0 <= p < old(self).peers@.len() implies #[trigger] mm@[p] == (
            if old(self).peers@[p] == from {
                progress_after(
                    mm0[p],
                    success,
                    match_index,
                    old(self).log.spec_last_index(),
                )
            } else {
                mm0[p]
            }) by {}
        }
        self.role = Role::Leader { match_index: mm };
        self.advance_commit();
    }

    /// Applies every committed but not yet applied log entry, in order, to
    /// the local store. The store reached is a pure function of the store
    /// before and the applied slice of the log — the same on every node.
    /// Fails with `Internal`, applying nothing further, when an entry's
    /// bytes are corrupt.
    #[verifier::loop_isolation(false)]
    pub fn apply_ready(&mut self, store: &mut MvccStore) -> (r: Result<(), Error>)
        requires
            old(self).wf(),
            old(store).wf(),
            old(store).next_version + (old(self).log.commit_index - old(self).apply_index)
                <= u64::MAX,
        ensures
            final(self).wf(),
            final(store).wf(),
            final(self).log == old(self).log,
            final(self).term == old(self).term,
            final(self).role == old(self).role,
            final(self).id == old(self).id,
            final(self).peers == old(self).peers,
            final(self).voted_for == old(self).voted_for,
            old(self).apply_index <= final(self).apply_index <= final(self).log.commit_index,
            match r {
                Ok(()) => final(self).apply_index == old(self).log.commit_index && engine_state(
                    *final(store),
                ) == spec_apply_entries(
                    engine_state(*old(store)),
                    entries_state(old(self).log.entries@).subrange(
                        old(self).apply_index as int,
                        old(self).log.commit_index as int,
                    ),
                ) && (forall|j: int|
                    old(self).apply_index <= j < old(self).log.commit_index ==> spec_decode(
                        entries_state(old(self).log.entries@)[j].command,
                    ) is Some),
                Err(e) => e == Error::Internal && old(self).apply_index
                    <= final(self).apply_index < old(self).log.commit_index && spec_decode(
                    entries_state(old(self).log.entries@)[final(self).apply_index as int].command,
                ) is None && engine_state(*final(store)) == spec_apply_entries(
                    engine_state(*old(store)),
                    entries_state(old(self).log.entries@).subrange(
                        old(self).apply_index as int,
                        final(self).apply_index as int,
                    ),
                ),
            },
    {
        proof {
            assert(entries_state(self.log.entries@).subrange(
                self.apply_index as int,
                self.apply_index as int,
            ) =~= Seq::<EntryState>::empty());
        }
        while self.apply_index < self.log.commit_index
            invariant
                self.wf(),
                store.wf(),
                self.log == old(self).log,
                self.term == old(self).term,
                self.role == old(self).role,
                self.id == old(self).id,
                self.peers == old(self).peers,
                self.voted_for == old(self).voted_for,
                old(self).apply_index <= self.apply_index <= self.log.commit_index,
                store.next_version == old(store).next_version + (self.apply_index
                    - old(self).apply_index),
                forall|j: int|
                    old(self).apply_index <= j < self.apply_index ==> spec_decode(
                        entries_state(self.log.entries@)[j].command,
                    ) is Some,
                engine_state(*store) == spec_apply_entries(
                    engine_state(*old(store)),
                    entries_state(self.log.entries@).subrange(
                        old(self).apply_index as int,
                        self.apply_index as int,
                    ),
                ),
                spec_apply_entries(
                    engine_state(*store),
                    entries_state(self.log.entries@).subrange(
                        self.apply_index as int,
                        self.log.commit_index as int,
                    ),
                ) == spec_apply_entries(
                    engine_state(*old(store)),
                    entries_state(old(self).log.entries@).subrange(
                        old(self).apply_index as int,
                        old(self).log.commit_index as int,
                    ),
                ),
            decreases self.log.commit_index - self.apply_index,
        {
            let idx = self.apply_index + 1;
            let cmd = self.log.command_at(idx);
            let ghost pre_store = *store;
            let ghost sub = entries_state(self.log.entries@).subrange(
                self.apply_index as int,
                self.log.commit_index as int,
            );
            let ghost prefix = entries_state(self.log.entries@).subrange(
                old(self).apply_index as int,
                self.apply_index as int,
            );
            match apply_bytes(store, &cmd) {
                Ok(_) => {
                    proof {
                        let c = choose|c: CommandState|
                            is_encoding(cmd@, c) && engine_state(*store) == apply_one(
                                engine_state(pre_store),
                                c,
                            );
                        assert(sub[0].command == cmd@);
                        assert(spec_decode(cmd@) is Some);
                        let c2 = choose|c2: CommandState| is_encoding(cmd@, c2);
                        crate::command::lemma_encoding_unique(cmd@, c, c2);
                        assert(sub.drop_first() =~= entries_state(self.log.entries@).subrange(
                            self.apply_index + 1,
                            self.log.commit_index as int,
                        ));
                        let entry = entries_state(self.log.entries@)[self.apply_index as int];
                        assert(entry.command == cmd@);
                        lemma_spec_apply_entries_snoc(engine_state(*old(store)), prefix, entry);
                        assert(entries_state(self.log.entries@).subrange(
                            old(self).apply_index as int,
                            self.apply_index + 1,
                        ) =~= prefix.push(entry));
                        assert(spec_decode(entry.command).unwrap() == c);
                    }
                    self.apply_index = idx;
                },
                Err(_) => {
                    proof {
                        assert(entries_state(self.log.entries@)[self.apply_index as int].command
                            == cmd@);
                        assert(spec_decode(cmd@) is None);
                    }
                    return Err(Error::Internal);
                },
            }
        }
        proof {
            assert(entries_state(self.log.entries@).subrange(
                self.apply_index as int,
                self.log.commit_index as int,
            ).len() == 0);
        }
        Ok(())
    }
}

/// A report on the consensus side of a node: the known leader, the term,
/// the last log index acknowledged per node (this node's own first), the
/// commit and apply indices, and the log storage report.
pub struct RaftStatus {
    pub leader: Option<u64>,
    pub term: u64,
    pub last_index: Vec<(u64, u64)>,
    pub commit_index: u64,
    pub apply_index: u64,
    pub storage: crate::mvcc::StorageStatus,
}

/// A node's full status report: its id, the consensus report, and the
/// transactional store's report.
pub struct NodeStatus {
    pub server: u64,
    pub raft: RaftStatus,
    pub mvcc: crate::mvcc::MvccStatus,
}

impl RaftNode {
    /// Assembles the consensus status report. A leader reports the
    /// acknowledged progress of every peer; any other node knows only its
    /// own log.
    #[verifier::loop_isolation(false)]
    pub fn status(&self) -> (st: RaftStatus)
        requires
            self.wf(),
        ensures
            st.term == self.term,
            st.commit_index == self.log.commit_index,
            st.apply_index == self.apply_index,
            st.leader == (match self.role {
                Role::Leader { .. } => Some(self.id),
                Role::Follower { leader } => leader,
                Role::Candidate { .. } => None::<u64>,
            }),
            st.last_index@.len() >= 1,
            st.last_index@[0] == (self.id, self.log.spec_last_index()),
            (self.role is Leader) ==> st.last_index@.len() == self.peers@.len() + 1 && (forall|
                i: int,
            |
                1 <= i < st.last_index@.len() ==> #[trigger] st.last_index@[i] == (
                self.peers@[i - 1],
                leader_matches(self.role)[i - 1],
            )),
            !(self.role is Leader) ==> st.last_index@.len() == 1,
            st.storage.key_count == self.log.entries@.len(),
            st.storage.logical_size == crate::mvcc::size_capped(
                crate::log::entries_size(self.log.entries@),
            ),
    {
        let leader: Option<u64> = match &self.role {
            Role::Leader { .. } => Some(self.id),
            Role::Follower { leader } => *leader,
            Role::Candidate { .. } => None,
        };
        let mut last_index: Vec<(u64, u64)> = Vec::new();
        last_index.push((self.id, self.log.last_index()));
        match &self.role {
            Role::Leader { match_index } => {
                let mut i: usize = 0;
                while i < self.peers.len()
                    invariant
                        i <= self.peers@.len(),
                        match_index@ == leader_matches(self.role),
                        last_index@.len() == i + 1,
                        last_index@[0] == (self.id, self.log.spec_last_index()),
                        forall|j: int|
                            1 <= j < last_index@.len() ==> #[trigger] last_index@[j] == (
                            self.peers@[j - 1],
                            match_index@[j - 1],
                        ),
                    decreases self.peers@.len() - i,
                {
                    last_index.push((self.peers[i], match_index[i]));
                    i += 1;
                }
            },
            _ => {},
        }
        RaftStatus {
            leader,
            term: self.term,
            last_index,
            commit_index: self.log.commit_index,
            apply_index: self.apply_index,
            storage: crate::mvcc::StorageStatus {
                name: "memory".to_string(),
                key_count: self.log.entries.len() as u64,
                logical_size: self.log_size(),
            },
        }
    }

    /// The payload bytes held by the log: the command bytes summed, capped
    /// at the largest reportable value.
    #[verifier::loop_isolation(false)]
    fn log_size(&self) -> (r: u64)
        requires
            self.wf(),
        ensures
            r == crate::mvcc::size_capped(crate::log::entries_size(self.log.entries@)),
    {
        let mut size: u64 = 0;
        let mut i: usize = 0;
        while i < self.log.entries.len()
            invariant
                i <= self.log.entries@.len(),
                size == crate::mvcc::size_capped(
                    crate::log::entries_size(self.log.entries@.take(i as int)),
                ),
            decreases self.log.entries@.len() - i,
        {
            proof {
                crate::log::lemma_entries_size_nonneg(self.log.entries@.take(i as int));
                assert(self.log.entries@.take(i + 1).drop_last() =~= self.log.entries@.take(
                    i as int,
                ));
                assert(self.log.entries@.take(i + 1).last() == self.log.entries@[i as int]);
            }
            size = crate::mvcc::sat_add(size, self.log.entries[i].command.len() as u64);
            i += 1;
        }
        proof {
            assert(self.log.entries@.take(self.log.entries@.len() as int) =~= self.log.entries@);
        }
        size
    }
}

/// Assembles a node's full status report from its consensus state and its
/// local store.
pub fn node_status(node: &RaftNode, store: &MvccStore) -> (st: NodeStatus)
    requires
        node.wf(),
        store.wf(),
    ensures
        st.server == node.id,
        st.raft.term == node.term,
        st.raft.commit_index == node.log.commit_index,
        st.raft.apply_index == node.apply_index,
        st.raft.leader == (match node.role {
            Role::Leader { .. } => Some(node.id),
            Role::Follower { leader } => leader,
            Role::Candidate { .. } => None::<u64>,
        }),
        st.raft.last_index@.len() >= 1,
        st.raft.last_index@[0] == (node.id, node.log.spec_last_index()),
        (node.role is Leader) ==> st.raft.last_index@.len() == node.peers@.len() + 1 && (forall|
            i: int,
        |
            1 <= i < st.raft.last_index@.len() ==> #[trigger] st.raft.last_index@[i] == (
            node.peers@[i - 1],
            leader_matches(node.role)[i - 1],
        )),
        !(node.role is Leader) ==> st.raft.last_index@.len() == 1,
        st.raft.storage.key_count == node.log.entries@.len(),
        st.raft.storage.logical_size == crate::mvcc::size_capped(
            crate::log::entries_size(node.log.entries@),
        ),
        st.mvcc.versions == store.latest(),
        st.mvcc.active_txns == store.active@.len(),
        st.mvcc.storage.key_count == store.records@.len(),
        st.mvcc.storage.logical_size == crate::mvcc::size_capped(
            crate::mvcc::records_size(store.records@),
        ),
{
    NodeStatus { server: node.id, raft: node.status(), mvcc: store.status() }
}

/// Overwrites the element of `v` at `i`.
fn set_at(v: &mut Vec<u64>, i: usize, x: u64)
    requires
        i < old(v)@.len(),
    ensures
        final(v)@ == old(v)@.update(i as int, x),
{
    let _ = v.remove(i);
    v.insert(i, x);
    proof {
        assert(final(v)@ =~= old(v)@.update(i as int, x));
    }
}

/// How many elements of `s` are at least `n`.
pub open spec fn count_ge(s: Seq<u64>, n: u64) -> int
    decreases s.len(),
{
    if s.len() == 0 {
        0int
    } else {
        count_ge(s.drop_last(), n) + if s.last() >= n {
            1int
        } else {
            0int
        }
    }
}

/// Counts the elements of `m` that are at least `n`.
fn count_at_least(m: &Vec<u64>, n: u64) -> (r: usize)
    ensures
        r == count_ge(m@, n),
        r <= m@.len(),
{
    proof {
        lemma_count_ge_bound(m@, n);
    }
    let mut r: usize = 0;
    let mut i: usize = 0;
    while i < m.len()
        invariant
            i <= m@.len(),
            r == count_ge(m@.take(i as int), n),
            r <= i,
        decreases m@.len() - i,
    {
        proof {
            assert(m@.take(i + 1).drop_last() =~= m@.take(i as int));
            assert(m@.take(i + 1).last() == m@[i as int]);
            lemma_count_ge_bound(m@.take(i as int), n);
        }
        if m[i] >= n {
            r = r + 1;
        }
        i += 1;
    }
    proof {
        assert(m@.take(m@.len() as int) =~= m@);
    }
    r
}

/// A count over a sequence never exceeds its length.
proof fn lemma_count_ge_bound(s: Seq<u64>, n: u64)
    ensures
        0 <= count_ge(s, n) <= s.len(),
    decreases s.len(),
{
    if s.len() > 0 {
        lemma_count_ge_bound(s.drop_last(), n);
    }
}

/// Whether the id sequence `a` holds `v`.
fn contains_id(a: &Vec<u64>, v: u64) -> (r: bool)
    ensures
        r == a@.contains(v),
{
    let mut i: usize = 0;
    while i < a.len()
        invariant
            i <= a@.len(),
            forall|j: int| 0 <= j < i ==> a@[j] != v,
        decreases a@.len() - i,
    {
        if a[i] == v {
            assert(a@.contains(v)) by {
                assert(a@[i as int] == v);
            }
            return true;
        }
        i += 1;
    }
    false
}

/// A sequence of `n` zeroes.
fn zero_vec(n: usize) -> (r: Vec<u64>)
    ensures
        r@.len() == n,
        forall|i: int| 0 <= i < n ==> #[trigger] r@[i] == 0,
{
    let mut r: Vec<u64> = Vec::new();
    let mut i: usize = 0;
    while i < n
        invariant
            i <= n,
            r@.len() == i,
            forall|j: int| 0 <= j < i ==> #[trigger] r@[j] == 0,
        decreases n - i,
    {
        r.push(0);
        i += 1;
    }
    r
}

} // verus!
