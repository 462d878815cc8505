//! Multi-version concurrency control: a versioned key-value store with
//! snapshot-isolated transactions and key-level write-conflict detection.
//!
//! Records live in an append-only arena; every record carries the version of
//! the write transaction that produced it, and a reader sees, for each key,
//! the record with the highest version that is both at or below its snapshot
//! and not excluded by its view of the active transactions. A rolled-back
//! version's records are discarded; its version number is never reused.

use vstd::prelude::*;

use crate::error::Error;

verus! {

/// One versioned record: a logical key, the version of the write transaction
/// that produced it, and the value (`None` is a tombstone).
pub struct Record {
    pub key: Vec<u8>,
    pub version: u64,
    pub value: Option<Vec<u8>>,
}

/// A transaction handle.
///
/// For a read-write transaction `version` is the version its writes carry and
/// equals `snapshot`. For a read-only or time-travel transaction `version`
/// equals the borrowed `snapshot` and no writes are allowed. `active` is the
/// set of write-transaction versions that were still open when the snapshot
/// was fixed; records carrying those versions are never visible to this
/// transaction (except its own).
pub struct Transaction {
    pub version: u64,
    pub read_only: bool,
    pub snapshot: u64,
    pub active: Vec<u64>,
}

/// The multi-version store: the record arena, the set of open write
/// transaction versions, the next version to allocate, and the highest
/// version that has committed.
pub struct MvccStore {
    pub records: Vec<Record>,
    pub active: Vec<u64>,
    pub next_version: u64,
    pub latest_committed: u64,
}

/// The abstract value of an optional byte string.
pub open spec fn opt_bytes(v: Option<Vec<u8>>) -> Option<Seq<u8>> {
    match v {
        Some(b) => Some(b@),
        None => None,
    }
}

/// Whether a record written at version `rv` is visible to transaction `t`:
/// it must be at or below the snapshot and not belong to a transaction that
/// was still open when the snapshot was fixed.
pub open spec fn entry_visible(t: Transaction, rv: u64) -> bool {
    rv <= t.snapshot && !t.active@.contains(rv)
}

/// The record visible to `t` under logical key `key`: among the records of
/// that key whose version is visible, the one with the highest version.
pub open spec fn visible_record(recs: Seq<Record>, t: Transaction, key: Seq<u8>) -> Option<Record>
    decreases recs.len(),
{
    if recs.len() == 0 {
        None::<Record>
    } else {
        let rest = visible_record(recs.drop_last(), t, key);
        let last = recs.last();
        if last.key@ == key && entry_visible(t, last.version) {
            match rest {
                None => Some(last),
                Some(r) => if last.version > r.version {
                    Some(last)
                } else {
                    Some(r)
                },
            }
        } else {
            rest
        }
    }
}

/// The value transaction `t` reads under `key`: the visible record's value,
/// where a tombstone or an absent key reads as `None`.
pub open spec fn read_value(recs: Seq<Record>, t: Transaction, key: Seq<u8>) -> Option<Seq<u8>> {
    match visible_record(recs, t, key) {
        None => None,
        Some(r) => opt_bytes(r.value),
    }
}

/// A sequence of versions with no repetitions.
pub open spec fn no_dup_versions(a: Seq<u64>) -> bool {
    forall|i: int, j: int| 0 <= i < a.len() && 0 <= j < a.len() && i != j ==> a[i] != a[j]
}

/// `recs` with every record of version `v` removed, order preserved.
pub open spec fn without_version(recs: Seq<Record>, v: u64) -> Seq<Record>
    decreases recs.len(),
{
    if recs.len() == 0 {
        recs
    } else if recs.last().version == v {
        without_version(recs.drop_last(), v)
    } else {
        without_version(recs.drop_last(), v).push(recs.last())
    }
}

/// `recs` with the record of key `key` and version `v` removed, order
/// preserved.
pub open spec fn without_key_version(recs: Seq<Record>, key: Seq<u8>, v: u64) -> Seq<Record>
    decreases recs.len(),
{
    if recs.len() == 0 {
        recs
    } else if recs.last().key@ == key && recs.last().version == v {
        without_key_version(recs.drop_last(), key, v)
    } else {
        without_key_version(recs.drop_last(), key, v).push(recs.last())
    }
}

/// A write to `key` by `t` collides with some other write: a record of the
/// same key exists whose version is not visible to `t`, that is, a record by
/// a transaction open when `t`'s snapshot was fixed, or one with a version
/// above `t`'s snapshot.
pub open spec fn write_conflict(recs: Seq<Record>, t: Transaction, key: Seq<u8>) -> bool {
    exists|i: int|
        0 <= i < recs.len() && (#[trigger] recs[i]).key@ == key && !entry_visible(
            t,
            recs[i].version,
        )
}

/// Every version open in the store but distinct from `t`'s own is excluded
/// from `t`'s view: it is in `t`'s active snapshot or above `t`'s snapshot.
pub open spec fn concurrent_excluded(t: Transaction, s: MvccStore) -> bool {
    forall|v: u64|
        s.active@.contains(v) && v != t.version ==> t.active@.contains(v) || v > t.snapshot
}

/// The handle `t` is consistent with store `s`: its snapshot is fixed below
/// the allocation frontier, a read-write transaction is registered and does
/// not exclude its own version, and every concurrent open version is
/// excluded from its view.
pub open spec fn txn_ok(t: Transaction, s: MvccStore) -> bool {
    &&& t.snapshot == t.version
    &&& t.snapshot < s.next_version
    &&& (!t.read_only ==> s.active@.contains(t.version) && !t.active@.contains(t.version))
    &&& (t.read_only ==> (s.active@.contains(t.version) ==> t.active@.contains(t.version)))
    &&& concurrent_excluded(t, s)
}

impl MvccStore {
    /// The store's internal invariant: versions are allocated below
    /// `next_version`, the open set holds no repetitions, and at most one
    /// record exists per (key, version) pair.
    pub open spec fn wf(self) -> bool {
        &&& 1 <= self.next_version
        &&& self.latest_committed < self.next_version
        &&& !self.active@.contains(self.latest_committed)
        &&& forall|i: int|
            0 <= i < self.records@.len() ==> 1 <= (#[trigger] self.records@[i]).version
                < self.next_version
        &&& forall|i: int|
            0 <= i < self.active@.len() ==> 1 <= #[trigger] self.active@[i] < self.next_version
        &&& no_dup_versions(self.active@)
        &&& forall|i: int, j: int|
            0 <= i < self.records@.len() && 0 <= j < self.records@.len() && i != j ==> !((
            #[trigger] self.records@[i]).key@ == (#[trigger] self.records@[j]).key@
                && self.records@[i].version == self.records@[j].version)
    }

    /// The latest allocated version; every committed version is at or below
    /// it.
    pub open spec fn latest(self) -> u64 {
        (self.next_version - 1) as u64
    }
}

/// Whether the version sequence `a` holds `v`.
fn contains_version(a: &Vec<u64>, v: u64) -> (r: bool)
    ensures
        r == a@.contains(v),
{
    let mut i: usize = 0;
    while i < a.len()
        invariant
            i <= a@.len(),
            forall|j: int| 0 <= j < i ==> a@[j] != v,
        decreases a@.len() - i,
    {
        if a[i] == v {
            assert(a@.contains(v)) by {
                assert(a@[i as int] == v);
            }
            return true;
        }
        i += 1;
    }
    false
}

/// An element-wise copy of a version sequence.
pub fn copy_versions(a: &Vec<u64>) -> (r: Vec<u64>)
    ensures
        r@ == a@,
{
    let mut r: Vec<u64> = Vec::new();
    let mut i: usize = 0;
    while i < a.len()
        invariant
            i <= a@.len(),
            r@ == a@.take(i as int),
        decreases a@.len() - i,
    {
        r.push(a[i]);
        proof {
            assert(a@.take(i + 1) =~= a@.take(i as int).push(a@[i as int]));
        }
        i += 1;
    }
    proof {
        assert(a@.take(a@.len() as int) =~= a@);
    }
    r
}

/// An element-wise copy of a byte string.
pub fn copy_bytes(a: &Vec<u8>) -> (r: Vec<u8>)
    ensures
        r@ == a@,
{
    let mut r: Vec<u8> = Vec::new();
    let mut i: usize = 0;
    while i < a.len()
        invariant
            i <= a@.len(),
            r@ == a@.take(i as int),
        decreases a@.len() - i,
    {
        r.push(a[i]);
        proof {
            assert(a@.take(i + 1) =~= a@.take(i as int).push(a@[i as int]));
        }
        i += 1;
    }
    proof {
        assert(a@.take(a@.len() as int) =~= a@);
    }
    r
}

/// An element-wise copy of an optional byte string.
fn copy_opt_bytes(a: &Option<Vec<u8>>) -> (r: Option<Vec<u8>>)
    ensures
        opt_bytes(r) == opt_bytes(*a),
{
    match a {
        Some(b) => Some(copy_bytes(b)),
        None => None,
    }
}

/// Whether two byte strings are equal.
fn bytes_eq(a: &Vec<u8>, b: &Vec<u8>) -> (r: bool)
    ensures
        r == (a@ == b@),
{
    if a.len() != b.len() {
        return false;
    }
    let mut i: usize = 0;
    while i < a.len()
        invariant
            i <= a@.len(),
            a@.len() == b@.len(),
            forall|j: int| 0 <= j < i ==> a@[j] == b@[j],
        decreases a@.len() - i,
    {
        if a[i] != b[i] {
            return false;
        }
        i += 1;
    }
    proof {
        assert(a@ =~= b@);
    }
    true
}

/// The visible record is a record of the arena, carries the requested key, is
/// visible, and has the highest version among such records; when there is
/// none, no record of the key is visible.
pub proof fn lemma_visible_record_props(recs: Seq<Record>, t: Transaction, key: Seq<u8>)
    ensures
        match visible_record(recs, t, key) {
            Some(r) => (exists|i: int| 0 <= i < recs.len() && recs[i] == r) && r.key@ == key
                && entry_visible(t, r.version) && (forall|i: int|
                0 <= i < recs.len() && (#[trigger] recs[i]).key@ == key && entry_visible(
                    t,
                    recs[i].version,
                ) ==> recs[i].version <= r.version),
            None => forall|i: int|
                0 <= i < recs.len() ==> !((#[trigger] recs[i]).key@ == key && entry_visible(
                    t,
                    recs[i].version,
                )),
        },
    decreases recs.len(),
{
    if recs.len() > 0 {
        let rest = visible_record(recs.drop_last(), t, key);
        let last = recs.last();
        lemma_visible_record_props(recs.drop_last(), t, key);
        assert(forall|i: int| 0 <= i < recs.len() - 1 ==> recs[i] == recs.drop_last()[i]);
        assert(recs[recs.len() - 1] == last);
        match rest {
            Some(r) => {
                let i = choose|i: int|
                    0 <= i < recs.drop_last().len() && recs.drop_last()[i] == r;
                assert(recs[i] == r);
                match visible_record(recs, t, key) {
                    Some(w) => {
                        assert(w == r || w == last);
                        assert forall|j: int|
                            0 <= j < recs.len() && (#[trigger] recs[j]).key@ == key
                                && entry_visible(t, recs[j].version) implies recs[j].version
                            <= w.version by {
                            if j < recs.len() - 1 {
                                assert(recs.drop_last()[j] == recs[j]);
                            }
                        }
                    },
                    None => {
                        assert(false);
                    },
                }
            },
            None => {
                match visible_record(recs, t, key) {
                    Some(w) => {
                        assert(w == last);
                        assert forall|j: int|
                            0 <= j < recs.len() && (#[trigger] recs[j]).key@ == key
                                && entry_visible(t, recs[j].version) implies recs[j].version
                            <= w.version by {
                            if j < recs.len() - 1 {
                                assert(recs.drop_last()[j] == recs[j]);
                            }
                        }
                    },
                    None => {},
                }
            },
        }
    }
}

/// Two transactions that agree on the visibility of every record's version
/// read the same records.
pub proof fn lemma_read_agree(recs: Seq<Record>, t1: Transaction, t2: Transaction, key: Seq<u8>)
    requires
        forall|i: int|
            0 <= i < recs.len() ==> entry_visible(t1, (#[trigger] recs[i]).version)
                == entry_visible(t2, recs[i].version),
    ensures
        visible_record(recs, t1, key) == visible_record(recs, t2, key),
    decreases recs.len(),
{
    if recs.len() > 0 {
        lemma_read_agree(recs.drop_last(), t1, t2, key);
    }
}

/// No record of version `v` remains after `without_version`.
pub proof fn lemma_without_version_elems(recs: Seq<Record>, v: u64)
    ensures
        forall|i: int|
            0 <= i < without_version(recs, v).len() ==> (#[trigger] without_version(
                recs,
                v,
            )[i]).version != v,
    decreases recs.len(),
{
    if recs.len() > 0 {
        lemma_without_version_elems(recs.drop_last(), v);
    }
}

/// Discarding every record of a version that transaction `t` cannot see
/// changes nothing `t` reads.
pub proof fn lemma_read_without_version(recs: Seq<Record>, v: u64, t: Transaction, key: Seq<u8>)
    requires
        !entry_visible(t, v),
    ensures
        visible_record(without_version(recs, v), t, key) == visible_record(recs, t, key),
        read_value(without_version(recs, v), t, key) == read_value(recs, t, key),
    decreases recs.len(),
{
    if recs.len() > 0 {
        lemma_read_without_version(recs.drop_last(), v, t, key);
        if recs.last().version == v {
        } else {
            let w = without_version(recs.drop_last(), v);
            assert(w.push(recs.last()).drop_last() =~= w);
            assert(w.push(recs.last()).last() == recs.last());
        }
    }
}

/// Discarding the record of one key and a version that transaction `t`
/// cannot see changes nothing `t` reads.
pub proof fn lemma_read_without_key_version(
    recs: Seq<Record>,
    key0: Seq<u8>,
    v: u64,
    t: Transaction,
    key: Seq<u8>,
)
    requires
        !entry_visible(t, v),
    ensures
        visible_record(without_key_version(recs, key0, v), t, key) == visible_record(
            recs,
            t,
            key,
        ),
        read_value(without_key_version(recs, key0, v), t, key) == read_value(recs, t, key),
    decreases recs.len(),
{
    if recs.len() > 0 {
        lemma_read_without_key_version(recs.drop_last(), key0, v, t, key);
        if recs.last().key@ == key0 && recs.last().version == v {
        } else {
            let w = without_key_version(recs.drop_last(), key0, v);
            assert(w.push(recs.last()).drop_last() =~= w);
            assert(w.push(recs.last()).last() == recs.last());
        }
    }
}

/// Appending a record that transaction `t` cannot see, or one of another
/// key, changes nothing `t` reads under `key`.
pub proof fn lemma_read_push(recs: Seq<Record>, rec: Record, t: Transaction, key: Seq<u8>)
    requires
        rec.key@ != key || !entry_visible(t, rec.version),
    ensures
        visible_record(recs.push(rec), t, key) == visible_record(recs, t, key),
        read_value(recs.push(rec), t, key) == read_value(recs, t, key),
{
    assert(recs.push(rec).drop_last() =~= recs);
    assert(recs.push(rec).last() == rec);
}

/// When no record of `recs` carries `key0` and `v`, discarding that pair is
/// the identity.
pub proof fn lemma_without_key_version_absent(recs: Seq<Record>, key0: Seq<u8>, v: u64)
    requires
        forall|i: int|
            0 <= i < recs.len() ==> !((#[trigger] recs[i]).key@ == key0 && recs[i].version == v),
    ensures
        without_key_version(recs, key0, v) == recs,
    decreases recs.len(),
{
    if recs.len() > 0 {
        lemma_without_key_version_absent(recs.drop_last(), key0, v);
        assert(recs.drop_last().push(recs.last()) =~= recs);
    }
}

/// When index `i` holds the only record of `key0` and `v`, discarding that
/// pair removes exactly index `i`.
pub proof fn lemma_without_key_version_remove(recs: Seq<Record>, i: int, key0: Seq<u8>, v: u64)
    requires
        0 <= i < recs.len(),
        recs[i].key@ == key0,
        recs[i].version == v,
        forall|j: int|
            0 <= j < recs.len() && j != i ==> !((#[trigger] recs[j]).key@ == key0
                && recs[j].version == v),
    ensures
        without_key_version(recs, key0, v) == recs.remove(i),
    decreases recs.len(),
{
    if i == recs.len() - 1 {
        lemma_without_key_version_absent(recs.drop_last(), key0, v);
        assert(recs.remove(i) =~= recs.drop_last());
    } else {
        lemma_without_key_version_remove(recs.drop_last(), i, key0, v);
        assert(recs.remove(i) =~= recs.drop_last().remove(i).push(recs.last()));
    }
}

/// Appending a record of version `v` leaves the arena-without-`v` unchanged.
pub proof fn lemma_without_version_push_same(recs: Seq<Record>, rec: Record, v: u64)
    requires
        rec.version == v,
    ensures
        without_version(recs.push(rec), v) == without_version(recs, v),
{
    assert(recs.push(rec).drop_last() =~= recs);
    assert(recs.push(rec).last() == rec);
}

/// Discarding one (key, version) pair and then every record of that version
/// is the same as discarding every record of the version outright.
pub proof fn lemma_without_version_of_without_key_version(recs: Seq<Record>, key0: Seq<u8>, v: u64)
    ensures
        without_version(without_key_version(recs, key0, v), v) == without_version(recs, v),
    decreases recs.len(),
{
    if recs.len() > 0 {
        lemma_without_version_of_without_key_version(recs.drop_last(), key0, v);
        let last = recs.last();
        if last.key@ == key0 && last.version == v {
        } else {
            let w = without_key_version(recs.drop_last(), key0, v);
            assert(w.push(last).drop_last() =~= w);
            assert(w.push(last).last() == last);
        }
    }
}

/// A freshly written record whose version equals the writer's snapshot is
/// what the writer reads back under its key, provided no record of the same
/// key and version remains beneath it.
pub proof fn lemma_read_own_write(recs: Seq<Record>, rec: Record, t: Transaction)
    requires
        entry_visible(t, rec.version),
        rec.version == t.snapshot,
        forall|i: int|
            0 <= i < recs.len() ==> !((#[trigger] recs[i]).key@ == rec.key@ && recs[i].version
                == rec.version),
    ensures
        read_value(recs.push(rec), t, rec.key@) == opt_bytes(rec.value),
{
    lemma_visible_record_props(recs, t, rec.key@);
    assert(recs.push(rec).drop_last() =~= recs);
    assert(recs.push(rec).last() == rec);
    match visible_record(recs, t, rec.key@) {
        Some(r) => {
            let i = choose|i: int| 0 <= i < recs.len() && recs[i] == r;
            assert(r.version != rec.version);
        },
        None => {},
    }
}

impl Transaction {
    /// Whether a record written at `version` is visible to this transaction.
    pub fn sees(&self, version: u64) -> (r: bool)
        ensures
            r == entry_visible(*self, version),
    {
        version <= self.snapshot && !contains_version(&self.active, version)
    }
}

impl MvccStore {
    /// An empty store: no records, no open transactions, and version 1 as
    /// the next to allocate.
    pub fn new() -> (s: Self)
        ensures
            s.wf(),
            s.records@.len() == 0,
            s.active@.len() == 0,
            s.next_version == 1,
            s.latest_committed == 0,
    {
        MvccStore { records: Vec::new(), active: Vec::new(), next_version: 1, latest_committed: 0 }
    }

    /// Begins a read-write transaction: allocates a fresh version, fixes the
    /// snapshot at it, registers it as open, and hands back the set of
    /// versions that were open before it.
    pub fn begin(&mut self) -> (txn: Transaction)
        requires
            old(self).wf(),
            old(self).next_version < u64::MAX,
        ensures
            final(self).wf(),
            txn_ok(txn, *final(self)),
            !txn.read_only,
            txn.version == old(self).next_version,
            txn.snapshot == txn.version,
            txn.active@ == old(self).active@,
            final(self).records@ == old(self).records@,
            final(self).next_version == old(self).next_version + 1,
            final(self).latest_committed == old(self).latest_committed,
            final(self).active@ == old(self).active@.push(txn.version),
            forall|u: Transaction| txn_ok(u, *old(self)) ==> txn_ok(u, *final(self)),
    {
        let version = self.next_version;
        let active_snapshot = copy_versions(&self.active);
        self.active.push(version);
        self.next_version = self.next_version + 1;
        proof {
            assert forall|x: u64| #[trigger] self.active@.contains(x) implies old(
                self,
            ).active@.contains(x) || x == version by {
                let k = choose|k: int| 0 <= k < self.active@.len() && self.active@[k] == x;
                if k < old(self).active@.len() {
                    assert(old(self).active@[k] == x);
                }
            }
            assert(self.active@.contains(version)) by {
                assert(self.active@[self.active@.len() - 1] == version);
            }
            assert forall|x: u64| old(self).active@.contains(x) implies self.active@.contains(
                x,
            ) by {
                let k = choose|k: int| 0 <= k < old(self).active@.len() && old(self).active@[k]
                    == x;
                assert(self.active@[k] == x);
            }
        }
        Transaction { version, read_only: false, snapshot: version, active: active_snapshot }
    }

    /// Begins a read-only transaction: borrows the latest committed version
    /// as its snapshot, excluding every write transaction still open, and
    /// registers nothing.
    pub fn begin_read_only(&self) -> (txn: Transaction)
        requires
            self.wf(),
        ensures
            txn_ok(txn, *self),
            txn.read_only,
            txn.snapshot == self.latest_committed,
            txn.version == txn.snapshot,
            txn.active@ == self.active@,
    {
        let snapshot = self.latest_committed;
        Transaction {
            version: snapshot,
            read_only: true,
            snapshot,
            active: copy_versions(&self.active),
        }
    }

    /// Begins a time-travel transaction pinned to the requested historical
    /// version. Fails with `OutOfRange` exactly when the requested version
    /// lies beyond the latest committed one.
    pub fn begin_as_of(&self, version: u64) -> (r: Result<Transaction, Error>)
        requires
            self.wf(),
        ensures
            version <= self.latest_committed ==> (match r {
                Ok(txn) => txn_ok(txn, *self) && txn.read_only && txn.snapshot == version
                    && txn.version == version && txn.active@ == self.active@,
                Err(_) => false,
            }),
            version > self.latest_committed ==> r == Err::<Transaction, Error>(Error::OutOfRange),
    {
        if version <= self.latest_committed {
            Ok(
                Transaction {
                    version,
                    read_only: true,
                    snapshot: version,
                    active: copy_versions(&self.active),
                },
            )
        } else {
            Err(Error::OutOfRange)
        }
    }

    /// Reads the value visible to `txn` under `key`. Never blocks and never
    /// fails; an absent key or a visible tombstone reads as `None`.
    pub fn get(&self, txn: &Transaction, key: &Vec<u8>) -> (r: Option<Vec<u8>>)
        ensures
            opt_bytes(r) == read_value(self.records@, *txn, key@),
    {
        let ghost recs = self.records@;
        let mut found: bool = false;
        let mut best: usize = 0;
        let mut i: usize = 0;
        while i < self.records.len()
            invariant
                recs == self.records@,
                i <= recs.len(),
                found ==> best < i,
                visible_record(recs.take(i as int), *txn, key@) == (if found {
                    Some(recs[best as int])
                } else {
                    None::<Record>
                }),
            decreases recs.len() - i,
        {
            let rec = &self.records[i];
            proof {
                assert(recs.take(i + 1).drop_last() =~= recs.take(i as int));
                assert(recs.take(i + 1).last() == recs[i as int]);
            }
            if bytes_eq(&rec.key, key) && txn.sees(rec.version) {
                if !found || rec.version > self.records[best].version {
                    best = i;
                    found = true;
                }
            }
            i += 1;
        }
        proof {
            assert(recs.take(recs.len() as int) =~= recs);
        }
        if found {
            copy_opt_bytes(&self.records[best].value)
        } else {
            None
        }
    }

    /// Writes `value` under `key` on behalf of `txn` (`None` writes a
    /// tombstone). Fails with `ReadOnly` for read-only transactions, and
    /// with `Serialization` exactly when some other transaction's write to
    /// the same key is not visible to `txn` — a record of a transaction
    /// still open when `txn`'s snapshot was fixed, or one with a version
    /// above the snapshot. On success the record carrying (`key`,
    /// `txn.version`) is replaced, so the transaction reads its own write
    /// back, while records of other versions are untouched.
    #[verifier::loop_isolation(false)]
    pub fn set(&mut self, txn: &Transaction, key: Vec<u8>, value: Option<Vec<u8>>) -> (r: Result<
        (),
        Error,
    >)
        requires
            old(self).wf(),
            txn_ok(*txn, *old(self)),
        ensures
            final(self).wf(),
            final(self).active@ == old(self).active@,
            final(self).next_version == old(self).next_version,
            final(self).latest_committed == old(self).latest_committed,
            txn_ok(*txn, *final(self)),
            txn.read_only ==> r == Err::<(), Error>(Error::ReadOnly) && *final(self) == *old(
                self,
            ),
            (!txn.read_only && write_conflict(old(self).records@, *txn, key@)) ==> r == Err::<
                (),
                Error,
            >(Error::Serialization) && *final(self) == *old(self),
            (!txn.read_only && !write_conflict(old(self).records@, *txn, key@)) ==> r == Ok::<
                (),
                Error,
            >(()) && (exists|nr: Record|
                final(self).records@ == without_key_version(
                    old(self).records@,
                    key@,
                    txn.version,
                ).push(nr) && (#[trigger] nr.key)@ == key@ && nr.version == txn.version
                    && opt_bytes(nr.value) == opt_bytes(value)) && read_value(
                final(self).records@,
                *txn,
                key@,
            ) == opt_bytes(value) && without_version(final(self).records@, txn.version)
                == without_version(old(self).records@, txn.version),
            forall|u: Transaction| txn_ok(u, *old(self)) ==> txn_ok(u, *final(self)),
    {
        if txn.read_only {
            return Err(Error::ReadOnly);
        }
        let ghost recs = self.records@;
        // Conflict check: any record of this key whose version txn cannot
        // see was written by a conflicting transaction.
        let mut i: usize = 0;
        while i < self.records.len()
            invariant
                recs == self.records@,
                i <= recs.len(),
                forall|j: int|
                    0 <= j < i ==> !((#[trigger] recs[j]).key@ == key@ && !entry_visible(
                        *txn,
                        recs[j].version,
                    )),
            decreases recs.len() - i,
        {
            let rec = &self.records[i];
            if bytes_eq(&rec.key, &key) && !txn.sees(rec.version) {
                proof {
                    assert(recs[i as int].key@ == key@ && !entry_visible(
                        *txn,
                        recs[i as int].version,
                    ));
                }
                return Err(Error::Serialization);
            }
            i += 1;
        }
        assert(!write_conflict(recs, *txn, key@));
        // Replace this transaction's own prior record of the key, if any.
        let mut own: usize = 0;
        let mut has_own: bool = false;
        let mut j: usize = 0;
        while j < self.records.len()
            invariant
                recs == self.records@,
                j <= recs.len(),
                has_own ==> own < j && recs[own as int].key@ == key@ && recs[own as int].version
                    == txn.version,
                !has_own ==> forall|k: int|
                    0 <= k < j ==> !((#[trigger] recs[k]).key@ == key@ && recs[k].version
                        == txn.version),
            decreases recs.len() - j,
        {
            if !has_own {
                let rec = &self.records[j];
                if bytes_eq(&rec.key, &key) && rec.version == txn.version {
                    own = j;
                    has_own = true;
                }
            }
            j += 1;
        }
        proof {
            if has_own {
                assert forall|k: int|
                    0 <= k < recs.len() && k != own implies !((#[trigger] recs[k]).key@ == key@
                        && recs[k].version == txn.version) by {
                    assert(old(self).wf());
                }
                lemma_without_key_version_remove(recs, own as int, key@, txn.version);
            } else {
                lemma_without_key_version_absent(recs, key@, txn.version);
            }
        }
        if has_own {
            self.records.remove(own);
        }
        let ghost base = self.records@;
        assert(base == without_key_version(recs, key@, txn.version));
        let rec = Record { key, version: txn.version, value };
        let ghost grec = rec;
        self.records.push(rec);
        proof {
            assert(self.records@ == base.push(grec));
            assert forall|k: int|
                0 <= k < base.len() implies !((#[trigger] base[k]).key@ == grec.key@
                && base[k].version == grec.version) by {
                if has_own {
                    if k < own {
                        assert(base[k] == recs[k]);
                    } else {
                        assert(base[k] == recs[k + 1]);
                    }
                } else {
                    assert(base[k] == recs[k]);
                }
            }
            // The writer's own version is visible to it.
            assert(entry_visible(*txn, txn.version));
            lemma_read_own_write(base, grec, *txn);
            lemma_without_version_push_same(base, grec, txn.version);
            lemma_without_version_of_without_key_version(recs, key@, txn.version);
            // Well-formedness: version bounds and (key, version) uniqueness.
            let ghost n = self.records@.len();
            assert(old(self).active@.contains(txn.version));
            let ghost a = choose|a: int|
                0 <= a < old(self).active@.len() && old(self).active@[a] == txn.version;
            assert(1 <= txn.version < old(self).next_version);
            assert forall|p: int, q: int|
                0 <= p < n && 0 <= q < n && p != q implies !((
            #[trigger] self.records@[p]).key@ == (#[trigger] self.records@[q]).key@
                && self.records@[p].version == self.records@[q].version) by {
                if p < n - 1 && q < n - 1 {
                    if has_own {
                        let p0 = if p < own {
                            p
                        } else {
                            p + 1
                        };
                        let q0 = if q < own {
                            q
                        } else {
                            q + 1
                        };
                        assert(self.records@[p] == recs[p0]);
                        assert(self.records@[q] == recs[q0]);
                    } else {
                        assert(self.records@[p] == recs[p]);
                        assert(self.records@[q] == recs[q]);
                    }
                }
            }
        }
        Ok(())
    }

    /// Removes version `v` from the set of open transactions.
    #[verifier::loop_isolation(false)]
    fn remove_active(&mut self, v: u64)
        requires
            old(self).wf(),
            old(self).active@.contains(v),
        ensures
            final(self).wf(),
            final(self).records@ == old(self).records@,
            final(self).next_version == old(self).next_version,
            final(self).latest_committed == old(self).latest_committed,
            forall|x: u64|
                final(self).active@.contains(x) <==> (old(self).active@.contains(x) && x != v),
    {
        let ghost act = self.active@;
        let mut i: usize = 0;
        while i < self.active.len()
            invariant
                act == self.active@,
                self.records@ == old(self).records@,
                self.next_version == old(self).next_version,
                self.latest_committed == old(self).latest_committed,
                i <= act.len(),
                forall|j: int| 0 <= j < i ==> act[j] != v,
                act.contains(v),
            decreases act.len() - i,
        {
            if self.active[i] == v {
                self.active.remove(i);
                proof {
                    assert forall|p: int, q: int|
                        0 <= p < self.active@.len() && 0 <= q < self.active@.len() && p
                            != q implies self.active@[p] != self.active@[q] by {
                        let p0 = if p < i {
                            p
                        } else {
                            p + 1
                        };
                        let q0 = if q < i {
                            q
                        } else {
                            q + 1
                        };
                        assert(self.active@[p] == act[p0]);
                        assert(self.active@[q] == act[q0]);
                    }
                    assert forall|x: u64| #[trigger]
                        self.active@.contains(x) implies (act.contains(x) && x != v) by {
                        let k = choose|k: int|
                            0 <= k < self.active@.len() && self.active@[k] == x;
                        if k < i {
                            assert(act[k] == x);
                        } else {
                            assert(act[k + 1] == x);
                        }
                    }
                    assert forall|x: u64| act.contains(x) && x != v implies self.active@.contains(
                        x,
                    ) by {
                        let k = choose|k: int| 0 <= k < act.len() && act[k] == x;
                        if k < i {
                            assert(self.active@[k] == x);
                        } else {
                            assert(act[i as int] == v);
                            assert(k != i);
                            assert(self.active@[k - 1] == x);
                        }
                    }
                }
                return ;
            }
            i += 1;
        }
        proof {
            let k = choose|k: int| 0 <= k < act.len() && act[k] == v;
            assert(false);
        }
    }

    /// Commits `txn` and returns its version. A read-write transaction's
    /// version leaves the open set, which makes all its writes visible to
    /// every snapshot fixed at or above it, and the latest committed
    /// version rises to it; for a read-only transaction this is a no-op
    /// returning the snapshot.
    pub fn commit(&mut self, txn: &Transaction) -> (version: u64)
        requires
            old(self).wf(),
            txn_ok(*txn, *old(self)),
        ensures
            final(self).wf(),
            version == txn.version,
            final(self).records@ == old(self).records@,
            final(self).next_version == old(self).next_version,
            txn.read_only ==> *final(self) == *old(self),
            !txn.read_only ==> (forall|x: u64|
                final(self).active@.contains(x) <==> (old(self).active@.contains(x) && x
                    != txn.version)),
            !txn.read_only ==> final(self).latest_committed == (if txn.version > old(
                self,
            ).latest_committed {
                txn.version
            } else {
                old(self).latest_committed
            }),
            forall|u: Transaction|
                txn_ok(u, *old(self)) && u.version != txn.version ==> txn_ok(u, *final(self)),
    {
        if !txn.read_only {
            self.remove_active(txn.version);
            if txn.version > self.latest_committed {
                self.latest_committed = txn.version;
            }
        }
        txn.version
    }

    /// Rolls `txn` back: discards every record it wrote and removes its
    /// version from the open set without making anything visible; the
    /// version number is never reused. A no-op for read-only transactions.
    #[verifier::loop_isolation(false)]
    pub fn rollback(&mut self, txn: &Transaction)
        requires
            old(self).wf(),
            txn_ok(*txn, *old(self)),
        ensures
            final(self).wf(),
            final(self).next_version == old(self).next_version,
            final(self).latest_committed == old(self).latest_committed,
            txn.read_only ==> *final(self) == *old(self),
            !txn.read_only ==> final(self).records@ == without_version(
                old(self).records@,
                txn.version,
            ),
            !txn.read_only ==> (forall|x: u64|
                final(self).active@.contains(x) <==> (old(self).active@.contains(x) && x
                    != txn.version)),
            forall|u: Transaction|
                txn_ok(u, *old(self)) && u.version != txn.version ==> txn_ok(u, *final(self)),
    {
        if txn.read_only {
            return ;
        }
        let ghost recs0 = self.records@;
        let mut i: usize = 0;
        while i < self.records.len()
            invariant
                self.active@ == old(self).active@,
                self.next_version == old(self).next_version,
                self.latest_committed == old(self).latest_committed,
                i <= self.records@.len(),
                forall|j: int| 0 <= j < i ==> (#[trigger] self.records@[j]).version != txn.version,
                without_version(self.records@, txn.version) == without_version(
                    recs0,
                    txn.version,
                ),
                forall|p: int|
                    0 <= p < self.records@.len() ==> 1 <= (#[trigger] self.records@[p]).version
                        < self.next_version,
                forall|p: int, q: int|
                    0 <= p < self.records@.len() && 0 <= q < self.records@.len() && p != q ==> !((
                    #[trigger] self.records@[p]).key@ == (#[trigger] self.records@[q]).key@
                        && self.records@[p].version == self.records@[q].version),
            decreases self.records@.len() - i,
        {
            if self.records[i].version == txn.version {
                let ghost cur = self.records@;
                self.records.remove(i);
                proof {
                    lemma_without_version_remove(cur, i as int, txn.version);
                    assert forall|p: int, q: int|
                        0 <= p < self.records@.len() && 0 <= q < self.records@.len() && p
                            != q implies !((#[trigger] self.records@[p]).key@ == (
                    #[trigger] self.records@[q]).key@ && self.records@[p].version
                        == self.records@[q].version) by {
                        let p0 = if p < i {
                            p
                        } else {
                            p + 1
                        };
                        let q0 = if q < i {
                            q
                        } else {
                            q + 1
                        };
                        assert(self.records@[p] == cur[p0]);
                        assert(self.records@[q] == cur[q0]);
                    }
                }
            } else {
                i += 1;
            }
        }
        proof {
            lemma_without_version_absent(self.records@, txn.version);
        }
        self.remove_active(txn.version);
    }

    /// The garbage-collection watermark: the lowest open version, or the
    /// latest committed version when no transaction is open. Every version
    /// strictly below it is superseded for every possible reader and may be
    /// compacted away.
    pub fn gc_watermark(&self) -> (v: u64)
        requires
            self.wf(),
        ensures
            v == (if self.active@.len() == 0 {
                self.latest_committed
            } else {
                seq_min(self.active@, u64::MAX)
            }),
    {
        if self.active.len() == 0 {
            return self.latest_committed;
        }
        let mut v: u64 = u64::MAX;
        let mut i: usize = 0;
        while i < self.active.len()
            invariant
                i <= self.active@.len(),
                v == seq_min(self.active@.take(i as int), u64::MAX),
            decreases self.active@.len() - i,
        {
            proof {
                assert(self.active@.take(i + 1).drop_last() =~= self.active@.take(i as int));
                assert(self.active@.take(i + 1).last() == self.active@[i as int]);
            }
            if self.active[i] < v {
                v = self.active[i];
            }
            i += 1;
        }
        proof {
            assert(self.active@.take(self.active@.len() as int) =~= self.active@);
        }
        v
    }
}

/// The least element of `a`, or `dflt` when `a` is empty.
pub open spec fn seq_min(a: Seq<u64>, dflt: u64) -> u64
    decreases a.len(),
{
    if a.len() == 0 {
        dflt
    } else {
        let m = seq_min(a.drop_last(), dflt);
        if a.last() < m {
            a.last()
        } else {
            m
        }
    }
}

/// A concurrent open version — any version open in the store other than the
/// transaction's own write version — is never visible to the transaction.
pub proof fn lemma_concurrent_invisible(t: Transaction, s: MvccStore, w: u64)
    requires
        txn_ok(t, s),
        s.active@.contains(w),
        t.read_only || w != t.version,
    ensures
        !entry_visible(t, w),
{
}

/// Law: snapshot isolation. A write by any transaction whose version is not
/// visible to reader `t` — in particular by any transaction open when `t`'s
/// snapshot was fixed, or begun after it — changes nothing `t` reads, under
/// any key. The new arena has exactly the shape `set` ensures: the writer's
/// prior record of the key replaced by the new one.
pub proof fn lemma_snapshot_isolation(recs: Seq<Record>, nr: Record, t: Transaction, key: Seq<u8>)
    requires
        !entry_visible(t, nr.version),
    ensures
        read_value(without_key_version(recs, nr.key@, nr.version).push(nr), t, key) == read_value(
            recs,
            t,
            key,
        ),
{
    lemma_read_without_key_version(recs, nr.key@, nr.version, t, key);
    lemma_read_push(without_key_version(recs, nr.key@, nr.version), nr, t, key);
}

/// Law: committing another transaction rewrites no records, and what a
/// transaction reads is a function of the record arena and its own fixed
/// snapshot alone — so nothing committed after the snapshot was fixed ever
/// becomes visible to it.
pub proof fn lemma_commit_preserves_reads(
    s1: MvccStore,
    s2: MvccStore,
    t: Transaction,
    key: Seq<u8>,
)
    requires
        s1.records@ == s2.records@,
    ensures
        read_value(s1.records@, t, key) == read_value(s2.records@, t, key),
{
}

/// Law: a read-only transaction never observes an uncommitted write. Any
/// version open in the store is invisible to it, and its reads are exactly
/// the reads over the arena with that version's records discarded.
pub proof fn lemma_read_only_ignores_uncommitted(
    s: MvccStore,
    t: Transaction,
    w: u64,
    key: Seq<u8>,
)
    requires
        txn_ok(t, s),
        t.read_only,
        s.active@.contains(w),
    ensures
        !entry_visible(t, w),
        read_value(without_version(s.records@, w), t, key) == read_value(s.records@, t, key),
{
    lemma_concurrent_invisible(t, s, w);
    lemma_read_without_version(s.records@, w, t, key);
}

/// Law: first writer wins. While a record by another overlapping write
/// transaction exists under a key — its version open now, open when `t`
/// began, or above `t`'s snapshot (committed after `t` began) — a write by
/// `t` to that key is a write conflict, so by `set`'s contract it fails with
/// `Serialization`: of two concurrent writers to one key, at most one ever
/// installs its write.
pub proof fn lemma_first_writer_wins(s: MvccStore, t: Transaction, i: int, key: Seq<u8>)
    requires
        txn_ok(t, s),
        !t.read_only,
        0 <= i < s.records@.len(),
        s.records@[i].key@ == key,
        s.records@[i].version != t.version,
        s.active@.contains(s.records@[i].version) || t.active@.contains(s.records@[i].version)
            || s.records@[i].version > t.snapshot,
    ensures
        write_conflict(s.records@, t, key),
{
    let w = s.records@[i].version;
    if s.active@.contains(w) {
        lemma_concurrent_invisible(t, s, w);
    }
    assert(!entry_visible(t, w));
    assert(s.records@[i].key@ == key && !entry_visible(t, s.records@[i].version));
}

/// Law: rollback leaves no visible trace. Once the records of version `w`
/// are discarded, any reader `r` reads exactly what a reader `excl` with
/// the same snapshot but with `w` excluded read before the discard: the
/// pre-transaction values.
pub proof fn lemma_rollback_no_trace(
    recs: Seq<Record>,
    w: u64,
    r: Transaction,
    excl: Transaction,
    key: Seq<u8>,
)
    requires
        excl.snapshot == r.snapshot,
        forall|v: u64| #[trigger] excl.active@.contains(v) <==> r.active@.contains(v) || v == w,
    ensures
        read_value(without_version(recs, w), r, key) == read_value(recs, excl, key),
{
    lemma_without_version_elems(recs, w);
    lemma_read_agree(without_version(recs, w), r, excl, key);
    assert(!entry_visible(excl, w));
    lemma_read_without_version(recs, w, excl, key);
}

/// Law: time travel is stable. A reader pinned at a historical snapshot
/// never reflects a write carrying a higher version, even after that write
/// commits: appending such a record changes nothing the reader sees, and a
/// commit rewrites no records at all.
pub proof fn lemma_time_travel_stable(recs: Seq<Record>, rec: Record, t: Transaction, key: Seq<u8>)
    requires
        rec.version > t.snapshot,
    ensures
        read_value(recs.push(rec), t, key) == read_value(recs, t, key),
{
    lemma_read_push(recs, rec, t, key);
}

/// Strict lexicographic order on byte strings: a proper prefix comes first,
/// otherwise the first differing byte decides. Opaque: callers reason
/// through `bytes_less`, `lemma_bytes_lt_total` and `lemma_bytes_lt_trans`.
#[verifier::opaque]
pub open spec fn bytes_lt(a: Seq<u8>, b: Seq<u8>) -> bool
    decreases a.len(),
{
    if b.len() == 0 {
        false
    } else if a.len() == 0 {
        true
    } else if a[0] < b[0] {
        true
    } else if a[0] > b[0] {
        false
    } else {
        bytes_lt(a.drop_first(), b.drop_first())
    }
}

/// The order is total: two byte strings are equal or one comes first.
pub proof fn lemma_bytes_lt_total(a: Seq<u8>, b: Seq<u8>)
    ensures
        a == b || bytes_lt(a, b) || bytes_lt(b, a),
    decreases a.len(),
{
    reveal(bytes_lt);
    if b.len() == 0 || a.len() == 0 {
        if a.len() == b.len() {
            assert(a =~= b);
        }
    } else if a[0] == b[0] {
        lemma_bytes_lt_total(a.drop_first(), b.drop_first());
        if a.drop_first() == b.drop_first() {
            assert(a.drop_first().len() == b.drop_first().len());
            assert(a.len() == b.len());
            assert forall|i: int| 0 <= i < a.len() implies a[i] == b[i] by {
                if i > 0 {
                    assert(a.drop_first()[i - 1] == b.drop_first()[i - 1]);
                } else {
                    assert(a[0] == b[0]);
                }
            }
            assert(a =~= b);
        }
    }
}

/// Whether `a` comes strictly before `b` in lexicographic order.
#[verifier::loop_isolation(false)]
pub fn bytes_less(a: &Vec<u8>, b: &Vec<u8>) -> (r: bool)
    ensures
        r == bytes_lt(a@, b@),
{
    let n = if a.len() < b.len() {
        a.len()
    } else {
        b.len()
    };
    let mut i: usize = 0;
    proof {
        reveal(bytes_lt);
        assert(a@.skip(0) =~= a@);
        assert(b@.skip(0) =~= b@);
    }
    while i < n
        invariant
            i <= n,
            bytes_lt(a@, b@) == bytes_lt(a@.skip(i as int), b@.skip(i as int)),
        decreases n - i,
    {
        if a[i] < b[i] {
            proof {
                reveal(bytes_lt);
                assert(a@.skip(i as int)[0] == a@[i as int]);
                assert(b@.skip(i as int)[0] == b@[i as int]);
            }
            return true;
        }
        if a[i] > b[i] {
            proof {
                reveal(bytes_lt);
                assert(a@.skip(i as int)[0] == a@[i as int]);
                assert(b@.skip(i as int)[0] == b@[i as int]);
            }
            return false;
        }
        proof {
            reveal(bytes_lt);
            assert(a@.skip(i as int)[0] == a@[i as int]);
            assert(b@.skip(i as int)[0] == b@[i as int]);
            assert(a@.skip(i as int).drop_first() =~= a@.skip(i + 1));
            assert(b@.skip(i as int).drop_first() =~= b@.skip(i + 1));
        }
        i += 1;
    }
    proof {
        reveal(bytes_lt);
        assert(a@.skip(n as int).len() == a@.len() - n);
        assert(b@.skip(n as int).len() == b@.len() - n);
    }
    a.len() < b.len()
}

/// The order is transitive.
pub proof fn lemma_bytes_lt_trans(a: Seq<u8>, b: Seq<u8>, c: Seq<u8>)
    requires
        bytes_lt(a, b),
        bytes_lt(b, c),
    ensures
        bytes_lt(a, c),
    decreases a.len(),
{
    reveal(bytes_lt);
    if a.len() > 0 && b.len() > 0 && c.len() > 0 {
        if a[0] == b[0] && b[0] == c[0] {
            lemma_bytes_lt_trans(a.drop_first(), b.drop_first(), c.drop_first());
        }
    }
}

/// The keys of `out` are strictly ascending neighbour by neighbour.
pub open spec fn keys_sorted(out: Seq<(Vec<u8>, Vec<u8>)>) -> bool {
    forall|i: int| 0 <= i < out.len() - 1 ==> bytes_lt((#[trigger] out[i]).0@, out[i + 1].0@)
}

/// Whether some pair of `out` carries the key `key`.
fn result_has_key(out: &Vec<(Vec<u8>, Vec<u8>)>, key: &Vec<u8>) -> (r: bool)
    ensures
        r == exists|j: int| 0 <= j < out@.len() && (#[trigger] out@[j]).0@ == key@,
{
    let mut i: usize = 0;
    while i < out.len()
        invariant
            i <= out@.len(),
            forall|j: int| 0 <= j < i ==> (#[trigger] out@[j]).0@ != key@,
        decreases out@.len() - i,
    {
        if bytes_eq(&out[i].0, key) {
            proof {
                assert((out@[i as int]).0@ == key@);
            }
            return true;
        }
        i += 1;
    }
    false
}

/// Inserts a pair with a fresh key at its ordered position.
#[verifier::loop_isolation(false)]
fn insert_sorted(out: &mut Vec<(Vec<u8>, Vec<u8>)>, key: Vec<u8>, value: Vec<u8>)
    requires
        keys_sorted(old(out)@),
        forall|j: int| 0 <= j < old(out)@.len() ==> (#[trigger] old(out)@[j]).0@ != key@,
    ensures
        keys_sorted(final(out)@),
        final(out)@.len() == old(out)@.len() + 1,
        forall|q: int|
            0 <= q < old(out)@.len() ==> exists|q2: int|
                0 <= q2 < final(out)@.len() && final(out)@[q2] == #[trigger] old(out)@[q],
        forall|q2: int|
            0 <= q2 < final(out)@.len() ==> (exists|q: int|
                0 <= q < old(out)@.len() && #[trigger] final(out)@[q2] == old(out)@[q])
                || final(out)@[q2] == (key, value),
        exists|p: int| 0 <= p < final(out)@.len() && #[trigger] final(out)@[p] == (key, value),
        final(out)@[0].0@ == key@ || final(out)@[0] == old(out)@[0],
{
    let mut p: usize = 0;
    while p < out.len() && !bytes_less(&key, &out[p].0)
        invariant
            p <= out@.len(),
            forall|j: int| 0 <= j < p ==> bytes_lt((#[trigger] out@[j]).0@, key@),
        decreases out@.len() - p,
    {
        proof {
            lemma_bytes_lt_total(key@, out@[p as int].0@);
        }
        p += 1;
    }
    let ghost pre = out@;
    let ghost pair = (key, value);
    out.insert(p, (key, value));
    proof {
        assert(out@ == pre.insert(p as int, pair));
        assert(out@[p as int] == pair);
        assert forall|j: int| 0 <= j < out@.len() - 1 implies bytes_lt(
            (#[trigger] out@[j]).0@,
            out@[j + 1].0@,
        ) by {
            if j + 1 < p {
                assert(out@[j] == pre[j] && out@[j + 1] == pre[j + 1]);
            } else if j + 1 == p {
                assert(out@[j] == pre[j]);
            } else if j == p {
                assert(out@[j + 1] == pre[j]);
            } else {
                assert(out@[j] == pre[j - 1] && out@[j + 1] == pre[j]);
            }
        }
        assert forall|q: int| 0 <= q < pre.len() implies exists|q2: int|
            0 <= q2 < out@.len() && out@[q2] == #[trigger] pre[q] by {
            if q < p {
                assert(out@[q] == pre[q]);
            } else {
                assert(out@[q + 1] == pre[q]);
            }
        }
        assert forall|q2: int| 0 <= q2 < out@.len() implies (exists|q: int|
            0 <= q < pre.len() && #[trigger] out@[q2] == pre[q]) || out@[q2] == pair by {
            if q2 < p {
                assert(out@[q2] == pre[q2]);
            } else if q2 > p {
                assert(out@[q2] == pre[q2 - 1]);
            }
        }
    }
}

impl MvccStore {
    /// Scans the whole visible state of `txn`: every key with a visible,
    /// non-deleted value, paired with that value, in strictly ascending key
    /// order; sound and complete for the transaction's snapshot.
    #[verifier::loop_isolation(false)]
    pub fn scan(&self, txn: &Transaction) -> (out: Vec<(Vec<u8>, Vec<u8>)>)
        ensures
            keys_sorted(out@),
            forall|j: int|
                0 <= j < out@.len() ==> read_value(self.records@, *txn, (#[trigger] out@[j]).0@)
                    == Some(out@[j].1@),
            forall|k: Seq<u8>|
                (#[trigger] read_value(self.records@, *txn, k)) is Some ==> exists|j: int|
                    0 <= j < out@.len() && (#[trigger] out@[j]).0@ == k,
    {
        let ghost recs = self.records@;
        let mut out: Vec<(Vec<u8>, Vec<u8>)> = Vec::new();
        let mut i: usize = 0;
        while i < self.records.len()
            invariant
                i <= recs.len(),
                recs == self.records@,
                keys_sorted(out@),
                forall|j: int|
                    0 <= j < out@.len() ==> read_value(recs, *txn, (#[trigger] out@[j]).0@)
                        == Some(out@[j].1@),
                forall|r: int|
                    0 <= r < i && (read_value(recs, *txn, (#[trigger] recs[r]).key@) is Some)
                        ==> exists|j: int| 0 <= j < out@.len() && (#[trigger] out@[j]).0@
                        == recs[r].key@,
            decreases recs.len() - i,
        {
            let key = &self.records[i].key;
            if !result_has_key(&out, key) {
                match self.get(txn, key) {
                    Some(v) => {
                        let kc = copy_bytes(key);
                        let ghost pre = out@;
                        insert_sorted(&mut out, kc, v);
                        proof {
                            assert forall|j: int|
                                0 <= j < out@.len() implies read_value(
                                recs,
                                *txn,
                                (#[trigger] out@[j]).0@,
                            ) == Some(out@[j].1@) by {
                                if !(exists|q: int| 0 <= q < pre.len() && out@[j] == pre[q]) {
                                    assert(out@[j].0@ == recs[i as int].key@);
                                }
                            }
                            assert forall|r: int|
                                0 <= r < i + 1 && (read_value(
                                    recs,
                                    *txn,
                                    (#[trigger] recs[r]).key@,
                                ) is Some) implies exists|j: int|
                                0 <= j < out@.len() && (#[trigger] out@[j]).0@
                                    == recs[r].key@ by {
                                if r < i {
                                    let j0 = choose|j0: int|
                                        0 <= j0 < pre.len() && (#[trigger] pre[j0]).0@
                                            == recs[r].key@;
                                    let j1 = choose|j1: int|
                                        0 <= j1 < out@.len() && out@[j1] == pre[j0];
                                    assert(out@[j1].0@ == recs[r].key@);
                                } else {
                                    let p = choose|p: int|
                                        0 <= p < out@.len() && out@[p].1@ == out@[p].1@ && out@[p]
                                            == (kc, v);
                                    assert(out@[p].0@ == recs[i as int].key@);
                                }
                            }
                        }
                    },
                    None => {},
                }
            }
            i += 1;
        }
        proof {
            assert forall|k: Seq<u8>|
                (#[trigger] read_value(recs, *txn, k)) is Some implies exists|j: int|
                0 <= j < out@.len() && (#[trigger] out@[j]).0@ == k by {
                lemma_visible_record_props(recs, *txn, k);
                let r = choose|r: int|
                    0 <= r < recs.len() && recs[r] == visible_record(recs, *txn, k).unwrap();
                assert(recs[r].key@ == k);
            }
        }
        out
    }
}

/// Neighbour-by-neighbour ascent gives the global order.
pub proof fn lemma_keys_sorted_global(s: Seq<(Vec<u8>, Vec<u8>)>, i: int, j: int)
    requires
        keys_sorted(s),
        0 <= i < j < s.len(),
    ensures
        bytes_lt(s[i].0@, s[j].0@),
    decreases j - i,
{
    if j > i + 1 {
        lemma_keys_sorted_global(s, i, j - 1);
        lemma_bytes_lt_trans(s[i].0@, s[j - 1].0@, s[j].0@);
    }
}

/// Whether `key` lies in the half-open range from `from` (inclusive) up to
/// `to` (exclusive).
pub open spec fn key_in_range(key: Seq<u8>, from: Seq<u8>, to: Seq<u8>) -> bool {
    !bytes_lt(key, from) && bytes_lt(key, to)
}

/// Keeps the pairs of a sorted listing whose keys lie in the half-open
/// range from `from` (inclusive) up to `to` (exclusive).
#[verifier::loop_isolation(false)]
fn filter_range(all: &Vec<(Vec<u8>, Vec<u8>)>, from: &Vec<u8>, to: &Vec<u8>) -> (out: Vec<
    (Vec<u8>, Vec<u8>),
>)
    requires
        keys_sorted(all@),
    ensures
        keys_sorted(out@),
        forall|j: int|
            0 <= j < out@.len() ==> (exists|q: int|
                0 <= q < all@.len() && (#[trigger] out@[j]).0@ == all@[q].0@ && out@[j].1@
                    == all@[q].1@) && key_in_range(out@[j].0@, from@, to@),
        forall|q: int|
            0 <= q < all@.len() && key_in_range((#[trigger] all@[q]).0@, from@, to@) ==> exists|
                j: int,
            | 0 <= j < out@.len() && (#[trigger] out@[j]).0@ == all@[q].0@,
{
    let mut out: Vec<(Vec<u8>, Vec<u8>)> = Vec::new();
    let ghost mut last_kept: int = 0;
    let mut i: usize = 0;
    while i < all.len()
        invariant
            i <= all@.len(),
            keys_sorted(out@),
            out@.len() > 0 ==> 0 <= last_kept < i && out@.last().0@ == all@[last_kept].0@,
            forall|j: int|
                0 <= j < out@.len() ==> (exists|q: int|
                    0 <= q < all@.len() && (#[trigger] out@[j]).0@ == all@[q].0@ && out@[j].1@
                        == all@[q].1@) && key_in_range(out@[j].0@, from@, to@),
            forall|q: int|
                0 <= q < i && key_in_range((#[trigger] all@[q]).0@, from@, to@) ==> exists|j: int|
                    0 <= j < out@.len() && (#[trigger] out@[j]).0@ == all@[q].0@,
        decreases all@.len() - i,
    {
        let pair = &all[i];
        if !bytes_less(&pair.0, from) && bytes_less(&pair.0, to) {
            let kc = copy_bytes(&pair.0);
            let vc = copy_bytes(&pair.1);
            let ghost pre = out@;
            proof {
                if pre.len() > 0 {
                    lemma_keys_sorted_global(all@, last_kept, i as int);
                }
            }
            out.push((kc, vc));
            proof {
                assert(out@.last().0@ == all@[i as int].0@ && out@.last().1@ == all@[i
                    as int].1@);
                assert forall|j: int| 0 <= j < out@.len() - 1 implies bytes_lt(
                    (#[trigger] out@[j]).0@,
                    out@[j + 1].0@,
                ) by {
                    assert(out@[j] == pre[j]);
                    if j + 1 < out@.len() - 1 {
                        assert(out@[j + 1] == pre[j + 1]);
                    }
                }
                assert forall|j: int| 0 <= j < out@.len() implies (exists|q: int|
                    0 <= q < all@.len() && (#[trigger] out@[j]).0@ == all@[q].0@ && out@[j].1@
                        == all@[q].1@) && key_in_range(out@[j].0@, from@, to@) by {
                    if j < out@.len() - 1 {
                        assert(out@[j] == pre[j]);
                    } else {
                        assert(out@[j].0@ == all@[i as int].0@ && out@[j].1@ == all@[i
                            as int].1@);
                    }
                }
                assert forall|q: int|
                    0 <= q < i + 1 && key_in_range((#[trigger] all@[q]).0@, from@, to@) implies exists|
                    j: int,
                | 0 <= j < out@.len() && (#[trigger] out@[j]).0@ == all@[q].0@ by {
                    if q < i {
                        let j0 = choose|j0: int|
                            0 <= j0 < pre.len() && (#[trigger] pre[j0]).0@ == all@[q].0@;
                        assert(out@[j0].0@ == all@[q].0@);
                    } else {
                        assert(out@[out@.len() - 1].0@ == all@[q].0@);
                    }
                }
                last_kept = i as int;
            }
        }
        i += 1;
    }
    out
}

impl MvccStore {
    /// Scans the keys of the half-open range from `from` (inclusive) up to
    /// `to` (exclusive): every key of the range with a visible, non-deleted
    /// value, paired with that value, in strictly ascending key order;
    /// sound and complete for the transaction's snapshot.
    pub fn scan_range(&self, txn: &Transaction, from: &Vec<u8>, to: &Vec<u8>) -> (out: Vec<
        (Vec<u8>, Vec<u8>),
    >)
        ensures
            keys_sorted(out@),
            forall|j: int|
                0 <= j < out@.len() ==> read_value(self.records@, *txn, (#[trigger] out@[j]).0@)
                    == Some(out@[j].1@) && key_in_range(out@[j].0@, from@, to@),
            forall|k: Seq<u8>|
                (#[trigger] read_value(self.records@, *txn, k)) is Some && key_in_range(
                    k,
                    from@,
                    to@,
                ) ==> exists|j: int| 0 <= j < out@.len() && (#[trigger] out@[j]).0@ == k,
    {
        let all = self.scan(txn);
        let out = filter_range(&all, from, to);
        proof {
            assert forall|j: int| 0 <= j < out@.len() implies read_value(
                self.records@,
                *txn,
                (#[trigger] out@[j]).0@,
            ) == Some(out@[j].1@) && key_in_range(out@[j].0@, from@, to@) by {
                let q = choose|q: int|
                    0 <= q < all@.len() && (#[trigger] out@[j]).0@ == all@[q].0@ && out@[j].1@
                        == all@[q].1@;
                assert(read_value(self.records@, *txn, all@[q].0@) == Some(all@[q].1@));
            }
            assert forall|k: Seq<u8>|
                (#[trigger] read_value(self.records@, *txn, k)) is Some && key_in_range(
                    k,
                    from@,
                    to@,
                ) implies exists|j: int| 0 <= j < out@.len() && (#[trigger] out@[j]).0@ == k by {
                let q = choose|q: int| 0 <= q < all@.len() && (#[trigger] all@[q]).0@ == k;
                assert(key_in_range(all@[q].0@, from@, to@));
            }
        }
        out
    }
}

/// A report on one storage instance: a backend label, how many entries it
/// holds, and the logical size of its payload in bytes.
pub struct StorageStatus {
    pub name: String,
    pub key_count: u64,
    pub logical_size: u64,
}

/// A report on the transactional store: how many versions have been
/// allocated, how many write transactions are open, and the storage report.
pub struct MvccStatus {
    pub versions: u64,
    pub active_txns: u64,
    pub storage: StorageStatus,
}

/// The payload bytes of the record arena: key and value lengths summed.
pub open spec fn records_size(recs: Seq<Record>) -> int
    decreases recs.len(),
{
    if recs.len() == 0 {
        0
    } else {
        records_size(recs.drop_last()) + recs.last().key@.len() + (match recs.last().value {
            Some(v) => v@.len() as int,
            None => 0,
        })
    }
}

/// The payload size is never negative.
pub proof fn lemma_records_size_nonneg(recs: Seq<Record>)
    ensures
        records_size(recs) >= 0,
    decreases recs.len(),
{
    if recs.len() > 0 {
        lemma_records_size_nonneg(recs.drop_last());
    }
}

/// A byte count capped at the largest reportable value.
pub open spec fn size_capped(x: int) -> u64 {
    if x <= u64::MAX {
        x as u64
    } else {
        u64::MAX
    }
}

/// Saturating addition for size accounting.
pub fn sat_add(a: u64, b: u64) -> (r: u64)
    ensures
        a + b <= u64::MAX ==> r == a + b,
        a + b > u64::MAX ==> r == u64::MAX,
{
    if a <= u64::MAX - b {
        a + b
    } else {
        u64::MAX
    }
}

impl MvccStore {
    /// Assembles the store's status report.
    #[verifier::loop_isolation(false)]
    pub fn status(&self) -> (st: MvccStatus)
        requires
            self.wf(),
        ensures
            st.versions == self.latest(),
            st.active_txns == self.active@.len(),
            st.storage.key_count == self.records@.len(),
            st.storage.logical_size == size_capped(records_size(self.records@)),
    {
        let mut size: u64 = 0;
        let mut i: usize = 0;
        while i < self.records.len()
            invariant
                i <= self.records@.len(),
                size == size_capped(records_size(self.records@.take(i as int))),
            decreases self.records@.len() - i,
        {
            let rec = &self.records[i];
            size = sat_add(size, rec.key.len() as u64);
            match &rec.value {
                Some(v) => {
                    size = sat_add(size, v.len() as u64);
                },
                None => {},
            }
            proof {
                lemma_records_size_nonneg(self.records@.take(i as int));
                let pre = records_size(self.records@.take(i as int));
                let klen = self.records@[i as int].key@.len() as int;
                let vlen: int = match self.records@[i as int].value {
                    Some(v) => v@.len() as int,
                    None => 0,
                };
                assert(self.records@.take(i + 1).drop_last() =~= self.records@.take(i as int));
                assert(self.records@.take(i + 1).last() == self.records@[i as int]);
                assert(records_size(self.records@.take(i + 1)) == pre + klen + vlen);
                if pre + klen + vlen <= u64::MAX {
                    assert(size == pre + klen + vlen);
                } else {
                    assert(size == u64::MAX);
                }
                assert(size == size_capped(pre + klen + vlen));
            }
            i += 1;
        }
        proof {
            assert(self.records@.take(self.records@.len() as int) =~= self.records@);
        }
        MvccStatus {
            versions: self.next_version - 1,
            active_txns: self.active.len() as u64,
            storage: StorageStatus {
                name: "memory".to_string(),
                key_count: self.records.len() as u64,
                logical_size: size,
            },
        }
    }
}

/// When no record of `recs` carries version `v`, discarding `v` is the
/// identity.
pub proof fn lemma_without_version_absent(recs: Seq<Record>, v: u64)
    requires
        forall|i: int| 0 <= i < recs.len() ==> (#[trigger] recs[i]).version != v,
    ensures
        without_version(recs, v) == recs,
    decreases recs.len(),
{
    if recs.len() > 0 {
        lemma_without_version_absent(recs.drop_last(), v);
        assert(recs.drop_last().push(recs.last()) =~= recs);
    }
}

/// Removing one record of version `v` commutes with discarding the whole
/// version.
pub proof fn lemma_without_version_remove(recs: Seq<Record>, i: int, v: u64)
    requires
        0 <= i < recs.len(),
        recs[i].version == v,
    ensures
        without_version(recs.remove(i), v) == without_version(recs, v),
    decreases recs.len(),
{
    if i == recs.len() - 1 {
        assert(recs.remove(i) =~= recs.drop_last());
    } else {
        lemma_without_version_remove(recs.drop_last(), i, v);
        assert(recs.remove(i) =~= recs.drop_last().remove(i).push(recs.last()));
        let w = recs.drop_last().remove(i);
        assert(w.push(recs.last()).drop_last() =~= w);
        assert(w.push(recs.last()).last() == recs.last());
    }
}

} // verus!
