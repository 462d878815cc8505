//! The consensus log: a durable, ordered sequence of commands, each tagged
//! with the term of the leader that appended it. Indices are 1-based and
//! contiguous; entries at or below the commit index are agreed on by a
//! majority and are never rewritten.

use vstd::prelude::*;

use crate::mvcc::copy_bytes;

verus! {

/// One log entry: the term it was appended under, its 1-based index, and the
/// opaque command bytes.
pub struct LogEntry {
    pub term: u64,
    pub index: u64,
    pub command: Vec<u8>,
}

/// The abstract value of a log entry.
pub struct EntryState {
    pub term: u64,
    pub index: u64,
    pub command: Seq<u8>,
}

pub open spec fn entry_state(e: LogEntry) -> EntryState {
    EntryState { term: e.term, index: e.index, command: e.command@ }
}

pub open spec fn entries_state(es: Seq<LogEntry>) -> Seq<EntryState> {
    es.map_values(|e: LogEntry| entry_state(e))
}

/// The payload bytes of the log: the command bytes of every entry summed.
pub open spec fn entries_size(es: Seq<LogEntry>) -> int
    decreases es.len(),
{
    if es.len() == 0 {
        0
    } else {
        entries_size(es.drop_last()) + es.last().command@.len()
    }
}

/// The payload size is never negative.
pub proof fn lemma_entries_size_nonneg(es: Seq<LogEntry>)
    ensures
        entries_size(es) >= 0,
    decreases es.len(),
{
    if es.len() > 0 {
        lemma_entries_size_nonneg(es.drop_last());
    }
}

/// The replicated log with its commit index.
pub struct RaftLog {
    pub entries: Vec<LogEntry>,
    pub commit_index: u64,
}

impl RaftLog {
    /// The log invariant: indices are 1-based and contiguous, terms never
    /// decrease along the log, and the commit index never passes the end.
    pub open spec fn wf(self) -> bool {
        &&& self.entries@.len() <= u64::MAX
        &&& forall|i: int|
            0 <= i < self.entries@.len() ==> (#[trigger] self.entries@[i]).index == i + 1
        &&& forall|i: int, j: int|
            0 <= i <= j < self.entries@.len() ==> (#[trigger] self.entries@[i]).term <= (
            #[trigger] self.entries@[j]).term
        &&& self.commit_index <= self.entries@.len()
    }

    /// The index of the last entry, 0 for an empty log.
    pub open spec fn spec_last_index(self) -> u64 {
        self.entries@.len() as u64
    }

    /// The term of the entry at `index`, with 0 standing for the empty
    /// prefix before index 1.
    pub open spec fn spec_term_at(self, index: u64) -> u64 {
        if index == 0 || index > self.entries@.len() {
            0
        } else {
            self.entries@[index - 1].term
        }
    }

    /// The term of the last entry, 0 for an empty log.
    pub open spec fn spec_last_term(self) -> u64 {
        self.spec_term_at(self.spec_last_index())
    }

    /// An empty log with nothing committed.
    pub fn new() -> (log: Self)
        ensures
            log.wf(),
            log.entries@.len() == 0,
            log.commit_index == 0,
    {
        RaftLog { entries: Vec::new(), commit_index: 0 }
    }

    /// The index of the last entry.
    pub fn last_index(&self) -> (r: u64)
        requires
            self.wf(),
        ensures
            r == self.spec_last_index(),
    {
        self.entries.len() as u64
    }

    /// The term of the entry at `index` (0 for index 0 or past the end).
    pub fn term_at(&self, index: u64) -> (r: u64)
        requires
            self.wf(),
        ensures
            r == self.spec_term_at(index),
    {
        if index == 0 || index > self.entries.len() as u64 {
            0
        } else {
            self.entries[(index - 1) as usize].term
        }
    }

    /// The term of the last entry.
    pub fn last_term(&self) -> (r: u64)
        requires
            self.wf(),
        ensures
            r == self.spec_last_term(),
    {
        let n = self.entries.len();
        if n == 0 {
            0
        } else {
            self.entries[n - 1].term
        }
    }

    /// Appends a command under `term` at the next index.
    pub fn append(&mut self, term: u64, command: Vec<u8>) -> (index: u64)
        requires
            old(self).wf(),
            old(self).entries@.len() < u64::MAX,
            term >= old(self).spec_last_term(),
        ensures
            final(self).wf(),
            index == old(self).spec_last_index() + 1,
            final(self).spec_last_index() == index,
            final(self).commit_index == old(self).commit_index,
            final(self).entries@.len() == old(self).entries@.len() + 1,
            final(self).entries@.drop_last() == old(self).entries@,
            final(self).entries@.last().term == term,
            final(self).entries@.last().index == index,
            final(self).entries@.last().command@ == command@,
            final(self).spec_last_term() == term,
    {
        let index = self.entries.len() as u64 + 1;
        self.entries.push(LogEntry { term, index, command });
        proof {
            assert(self.entries@.drop_last() =~= old(self).entries@);
        }
        index
    }

    /// Drops every entry above `keep`: the follower-side truncation of a
    /// divergent suffix. Never cuts below the commit index.
    pub fn truncate_to(&mut self, keep: u64)
        requires
            old(self).wf(),
            keep >= old(self).commit_index,
        ensures
            final(self).wf(),
            final(self).commit_index == old(self).commit_index,
            keep >= old(self).entries@.len() ==> final(self).entries@ == old(self).entries@,
            keep < old(self).entries@.len() ==> final(self).entries@ == old(
                self,
            ).entries@.subrange(0, keep as int),
            final(self).entries@.len() == if keep < old(self).entries@.len() {
                keep as int
            } else {
                old(self).entries@.len() as int
            },
    {
        let n = self.entries.len();
        if keep < n as u64 {
            self.entries.truncate(keep as usize);
        }
    }

    /// A copy of the command bytes of the entry at `index`.
    pub fn command_at(&self, index: u64) -> (r: Vec<u8>)
        requires
            self.wf(),
            1 <= index <= self.entries@.len(),
        ensures
            r@ == self.entries@[index - 1].command@,
    {
        let n = self.entries.len();
        let i = (index - 1) as usize;
        assert(i < n);
        copy_bytes(&self.entries[i].command)
    }

    /// A copy of the entry at `index`.
    pub fn entry_at(&self, index: u64) -> (r: LogEntry)
        requires
            self.wf(),
            1 <= index <= self.entries@.len(),
        ensures
            entry_state(r) == entry_state(self.entries@[index - 1]),
    {
        let n = self.entries.len();
        let i = (index - 1) as usize;
        assert(i < n);
        let e = &self.entries[i];
        LogEntry { term: e.term, index: e.index, command: copy_bytes(&e.command) }
    }

    /// Appends `entries[k0..]` at the end of the log, which must sit exactly
    /// at the index before the first of them.
    #[verifier::loop_isolation(false)]
    pub fn append_suffix(
        &mut self,
        entries: &Vec<LogEntry>,
        k0: usize,
        prev_log_index: u64,
        max_term: u64,
    )
        requires
            old(self).wf(),
            k0 <= entries@.len(),
            old(self).entries@.len() == prev_log_index + k0,
            old(self).entries@.len() + entries@.len() < u64::MAX,
            forall|j: int|
                0 <= j < entries@.len() ==> (#[trigger] entries@[j]).term <= max_term && (j > 0
                    ==> entries@[j].term >= entries@[j - 1].term),
            k0 < entries@.len() ==> old(self).spec_last_term() <= entries@[k0 as int].term,
            old(self).spec_last_term() <= max_term,
        ensures
            final(self).wf(),
            final(self).commit_index == old(self).commit_index,
            final(self).entries@.len() == prev_log_index + entries@.len(),
            forall|i: int|
                0 <= i < old(self).entries@.len() ==> #[trigger] final(self).entries@[i] == old(
                    self,
                ).entries@[i],
            forall|j: int|
                k0 <= j < entries@.len() ==> (#[trigger] final(self).entries@[prev_log_index
                    + j]).term == entries@[j].term && final(self).entries@[prev_log_index
                    + j].command@ == entries@[j].command@,
            final(self).spec_last_term() <= max_term,
    {
        let n_entries = entries.len();
        let mut k = k0;
        while k < n_entries
            invariant
                k0 <= k <= n_entries,
                self.wf(),
                self.commit_index == old(self).commit_index,
                self.entries@.len() == prev_log_index + k,
                k < n_entries ==> self.spec_last_term() <= entries@[k as int].term,
                self.spec_last_term() <= max_term,
                forall|i: int|
                    0 <= i < old(self).entries@.len() ==> #[trigger] self.entries@[i] == old(
                        self,
                    ).entries@[i],
                forall|j: int|
                    k0 <= j < k ==> (#[trigger] self.entries@[prev_log_index + j]).term
                        == entries@[j].term && self.entries@[prev_log_index + j].command@
                        == entries@[j].command@,
            decreases n_entries - k,
        {
            let e = &entries[k];
            let ghost cur = self.entries@;
            let _ = self.append(e.term, copy_bytes(&e.command));
            proof {
                assert(self.entries@.drop_last() == cur);
                assert forall|i: int| 0 <= i < cur.len() implies (#[trigger] self.entries@[i])
                    == cur[i] by {
                    assert(self.entries@.drop_last()[i] == cur[i]);
                }
            }
            k += 1;
        }
    }

    /// Advances the commit index to `index`; it never moves backwards.
    pub fn commit_to(&mut self, index: u64)
        requires
            old(self).wf(),
            index <= old(self).entries@.len(),
        ensures
            final(self).wf(),
            final(self).entries@ == old(self).entries@,
            final(self).commit_index == if index > old(self).commit_index {
                index
            } else {
                old(self).commit_index
            },
    {
        if index > self.commit_index {
            self.commit_index = index;
        }
    }
}

} // verus!
