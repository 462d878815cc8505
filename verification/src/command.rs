//! The replicated state-machine commands.
//!
//! The consensus log carries opaque bytes; this module gives them meaning:
//! a command is a single-key write (`Put`) or deletion (`Delete`), encoded in
//! a fixed byte layout. Every node decodes the committed bytes and applies
//! them, in log order, to its local store; applying a command installs one
//! committed record at the next version and advances the version counter, so
//! the store a node reaches is a pure function of the initial state and the
//! command sequence.

use vstd::prelude::*;

use crate::error::Error;
use crate::mvcc::{copy_bytes, opt_bytes, txn_ok, MvccStore, Record, Transaction};

verus! {

/// A state-machine command: write a value under a key, or delete the key.
pub enum Command {
    Put { key: Vec<u8>, value: Vec<u8> },
    Delete { key: Vec<u8> },
}

/// The abstract value of a command.
pub enum CommandState {
    Put { key: Seq<u8>, value: Seq<u8> },
    Delete { key: Seq<u8> },
}

/// The abstract value of one record.
pub struct RecordState {
    pub key: Seq<u8>,
    pub version: u64,
    pub value: Option<Seq<u8>>,
}

/// The abstract state a node's store reaches by applying commands: the
/// record arena and the version counter.
pub struct EngineState {
    pub records: Seq<RecordState>,
    pub next_version: int,
    pub latest_committed: int,
}

pub open spec fn command_state(c: Command) -> CommandState {
    match c {
        Command::Put { key, value } => CommandState::Put { key: key@, value: value@ },
        Command::Delete { key } => CommandState::Delete { key: key@ },
    }
}

pub open spec fn record_state(r: Record) -> RecordState {
    RecordState { key: r.key@, version: r.version, value: opt_bytes(r.value) }
}

pub open spec fn engine_state(s: MvccStore) -> EngineState {
    EngineState {
        records: s.records@.map_values(|r: Record| record_state(r)),
        next_version: s.next_version as int,
        latest_committed: s.latest_committed as int,
    }
}

/// Applying one command appends one committed record at the next version and
/// advances the counter.
pub open spec fn apply_one(st: EngineState, c: CommandState) -> EngineState {
    let rec = match c {
        CommandState::Put { key, value } => RecordState {
            key,
            version: st.next_version as u64,
            value: Some(value),
        },
        CommandState::Delete { key } => RecordState {
            key,
            version: st.next_version as u64,
            value: None,
        },
    };
    EngineState {
        records: st.records.push(rec),
        next_version: st.next_version + 1,
        latest_committed: st.next_version,
    }
}

/// The state reached by applying a command sequence in order.
pub open spec fn apply_all(st: EngineState, cmds: Seq<CommandState>) -> EngineState
    decreases cmds.len(),
{
    if cmds.len() == 0 {
        st
    } else {
        apply_all(apply_one(st, cmds[0]), cmds.drop_first())
    }
}

/// Law: state-machine determinism. The state a node reaches is a function of
/// the initial state and the applied command prefix alone, so any two nodes
/// that start equal and apply the same committed prefix — which `apply`'s
/// contract pins to exactly this function — hold identical stores.
pub proof fn lemma_state_machine_determinism(
    s1: EngineState,
    s2: EngineState,
    cmds: Seq<CommandState>,
)
    requires
        s1 == s2,
    ensures
        apply_all(s1, cmds) == apply_all(s2, cmds),
{
}

/// Applies one committed command to the local store: installs one record at
/// the next version — immediately committed, since it arrived through the
/// committed log, so the latest committed version rises to it — and
/// advances the version counter. The store reached is
/// exactly `apply_one` of the store before, which together with
/// `lemma_state_machine_determinism` makes every node's store a function of
/// the applied command prefix.
pub fn apply(store: &mut MvccStore, c: &Command) -> (version: u64)
    requires
        old(store).wf(),
        old(store).next_version < u64::MAX,
    ensures
        final(store).wf(),
        version == old(store).next_version,
        engine_state(*final(store)) == apply_one(engine_state(*old(store)), command_state(*c)),
        final(store).active@ == old(store).active@,
        final(store).next_version == old(store).next_version + 1,
        final(store).latest_committed == old(store).next_version,
        final(store).records@.len() == old(store).records@.len() + 1,
        final(store).records@.drop_last() == old(store).records@,
        final(store).records@.last().version == old(store).next_version,
        forall|u: Transaction| txn_ok(u, *old(store)) ==> txn_ok(u, *final(store)),
{
    let version = store.next_version;
    let rec = match c {
        Command::Put { key, value } => Record {
            key: copy_bytes(key),
            version,
            value: Some(copy_bytes(value)),
        },
        Command::Delete { key } => Record {
            key: copy_bytes(key),
            version,
            value: None,
        },
    };
    let ghost grec = rec;
    store.records.push(rec);
    store.next_version = store.next_version + 1;
    store.latest_committed = version;
    proof {
        assert(store.records@.drop_last() =~= old(store).records@);
        assert(engine_state(*store).records =~= engine_state(*old(store)).records.push(
            record_state(grec),
        ));
        assert forall|p: int, q: int|
            0 <= p < store.records@.len() && 0 <= q < store.records@.len() && p != q implies !((
        #[trigger] store.records@[p]).key@ == (#[trigger] store.records@[q]).key@
            && store.records@[p].version == store.records@[q].version) by {
            if p < store.records@.len() - 1 && q < store.records@.len() - 1 {
                assert(store.records@[p] == old(store).records@[p]);
                assert(store.records@[q] == old(store).records@[q]);
            }
        }
    }
    version
}

/// Decodes and applies one committed log command. Fails with `Internal`,
/// leaving the store untouched, exactly when the bytes are corrupt; the
/// node must then stop applying.
pub fn apply_bytes(store: &mut MvccStore, b: &Vec<u8>) -> (r: Result<u64, Error>)
    requires
        old(store).wf(),
        old(store).next_version < u64::MAX,
    ensures
        final(store).wf(),
        match r {
            Ok(version) => version == old(store).next_version && (exists|c: CommandState|
                is_encoding(b@, c) && engine_state(*final(store)) == apply_one(
                    engine_state(*old(store)),
                    c,
                )),
            Err(e) => e == Error::Internal && *final(store) == *old(store) && (forall|
                c: CommandState,
            | !is_encoding(b@, c)),
        },
{
    match decode_command(b) {
        Ok(c) => {
            let ghost cs = command_state(c);
            let version = apply(store, &c);
            proof {
                assert(is_encoding(b@, cs) && engine_state(*store) == apply_one(
                    engine_state(*old(store)),
                    cs,
                ));
            }
            Ok(version)
        },
        Err(e) => Err(e),
    }
}

/// Applies a sequence of committed commands in order; the store reached is
/// `apply_all` of the initial state, the same on every node that applies the
/// same prefix.
pub fn apply_batch(store: &mut MvccStore, cmds: &Vec<Command>)
    requires
        old(store).wf(),
        old(store).next_version + cmds@.len() <= u64::MAX,
    ensures
        final(store).wf(),
        engine_state(*final(store)) == apply_all(
            engine_state(*old(store)),
            cmds@.map_values(|c: Command| command_state(c)),
        ),
{
    let ghost all = cmds@.map_values(|c: Command| command_state(c));
    proof {
        assert(all.skip(0) =~= all);
    }
    let mut i: usize = 0;
    while i < cmds.len()
        invariant
            i <= cmds@.len(),
            store.wf(),
            old(store).next_version + cmds@.len() <= u64::MAX,
            store.next_version == old(store).next_version + i,
            all == cmds@.map_values(|c: Command| command_state(c)),
            apply_all(engine_state(*store), all.skip(i as int)) == apply_all(
                engine_state(*old(store)),
                all,
            ),
        decreases cmds@.len() - i,
    {
        let ghost pre = engine_state(*store);
        let _ = apply(store, &cmds[i]);
        proof {
            assert(all.skip(i as int)[0] == all[i as int]);
            assert(all.skip(i as int).drop_first() =~= all.skip(i + 1));
        }
        i += 1;
    }
    proof {
        assert(all.skip(all.len() as int) =~= Seq::<CommandState>::empty());
    }
}

/// The little-endian value of four bytes.
pub open spec fn from_le4(b: Seq<u8>) -> int {
    b[0] + 256 * b[1] + 65536 * b[2] + 16777216 * b[3]
}

/// The byte layout of a command: a tag byte (0 delete, 1 put), then each
/// field as a four-byte little-endian length followed by the field's bytes.
pub open spec fn is_encoding(b: Seq<u8>, c: CommandState) -> bool {
    match c {
        CommandState::Delete { key } => {
            &&& key.len() < 4294967296
            &&& b.len() == 5 + key.len()
            &&& b[0] == 0u8
            &&& from_le4(b.subrange(1, 5)) == key.len()
            &&& b.subrange(5, b.len() as int) == key
        },
        CommandState::Put { key, value } => {
            &&& key.len() < 4294967296
            &&& value.len() < 4294967296
            &&& b.len() == 9 + key.len() + value.len()
            &&& b[0] == 1u8
            &&& from_le4(b.subrange(1, 5)) == key.len()
            &&& b.subrange(5, 5 + key.len() as int) == key
            &&& from_le4(b.subrange(5 + key.len() as int, 9 + key.len() as int)) == value.len()
            &&& b.subrange(9 + key.len() as int, b.len() as int) == value
        },
    }
}

/// The command a byte string encodes, when it encodes one; well defined
/// because encodings are unambiguous (`lemma_encoding_unique`).
pub open spec fn spec_decode(b: Seq<u8>) -> Option<CommandState> {
    if exists|c: CommandState| is_encoding(b, c) {
        Some(choose|c: CommandState| is_encoding(b, c))
    } else {
        None::<CommandState>
    }
}

/// Law: the layout is unambiguous — one byte string is the encoding of at
/// most one command, so decoding an encoding gives back exactly what was
/// encoded.
pub proof fn lemma_encoding_unique(b: Seq<u8>, c1: CommandState, c2: CommandState)
    requires
        is_encoding(b, c1),
        is_encoding(b, c2),
    ensures
        c1 == c2,
{
    match (c1, c2) {
        (CommandState::Delete { key: k1 }, CommandState::Delete { key: k2 }) => {
            assert(k1 =~= k2);
        },
        (
            CommandState::Put { key: k1, value: v1 },
            CommandState::Put { key: k2, value: v2 },
        ) => {
            assert(k1.len() == k2.len());
            assert(k1 =~= k2);
            assert(v1 =~= v2);
        },
        _ => {},
    }
}

/// The four little-endian digits of a value below 2^32 reassemble to it.
proof fn lemma_le4_roundtrip(n: u64)
    requires
        n < 4294967296,
    ensures
        n % 256 + 256 * ((n / 256) % 256) + 65536 * ((n / 65536) % 256) + 16777216 * ((n
            / 16777216) % 256) == n,
{
    assert(n % 256 + 256 * ((n / 256) % 256) + 65536 * ((n / 65536) % 256) + 16777216 * ((n
        / 16777216) % 256) == n) by (bit_vector)
        requires
            n < 4294967296,
    ;
}

/// Appends the four little-endian digits of `n`.
fn push_le4(out: &mut Vec<u8>, n: u64)
    requires
        n < 4294967296,
    ensures
        final(out)@.len() == old(out)@.len() + 4,
        final(out)@.subrange(0, old(out)@.len() as int) == old(out)@,
        from_le4(final(out)@.subrange(old(out)@.len() as int, final(out)@.len() as int)) == n,
{
    let b0 = (n % 256) as u8;
    let b1 = ((n / 256) % 256) as u8;
    let b2 = ((n / 65536) % 256) as u8;
    let b3 = ((n / 16777216) % 256) as u8;
    out.push(b0);
    out.push(b1);
    out.push(b2);
    out.push(b3);
    proof {
        lemma_le4_roundtrip(n);
        assert(out@.subrange(0, old(out)@.len() as int) =~= old(out)@);
        let tail = out@.subrange(old(out)@.len() as int, out@.len() as int);
        assert(tail.len() == 4);
        assert(tail[0] == b0 && tail[1] == b1 && tail[2] == b2 && tail[3] == b3);
    }
}

/// Appends every byte of `b`.
fn push_all(out: &mut Vec<u8>, b: &Vec<u8>)
    ensures
        final(out)@ == old(out)@ + b@,
{
    let mut i: usize = 0;
    while i < b.len()
        invariant
            i <= b@.len(),
            out@ == old(out)@ + b@.take(i as int),
        decreases b@.len() - i,
    {
        out.push(b[i]);
        proof {
            assert(old(out)@ + b@.take(i + 1) =~= (old(out)@ + b@.take(i as int)).push(
                b@[i as int],
            ));
        }
        i += 1;
    }
    proof {
        assert(old(out)@ + b@.take(b@.len() as int) =~= old(out)@ + b@);
    }
}

/// A copy of the bytes of `b` from `start` to `end`.
fn copy_range(b: &Vec<u8>, start: usize, end: usize) -> (r: Vec<u8>)
    requires
        start <= end <= b@.len(),
    ensures
        r@ == b@.subrange(start as int, end as int),
{
    let mut r: Vec<u8> = Vec::new();
    let mut i: usize = start;
    while i < end
        invariant
            start <= i <= end <= b@.len(),
            r@ == b@.subrange(start as int, i as int),
        decreases end - i,
    {
        r.push(b[i]);
        proof {
            assert(b@.subrange(start as int, i + 1) =~= b@.subrange(start as int, i as int).push(
                b@[i as int],
            ));
        }
        i += 1;
    }
    r
}

/// Whether a command fits the fixed byte layout: each field shorter than
/// 2^32 bytes.
pub open spec fn encodable(c: CommandState) -> bool {
    match c {
        CommandState::Put { key, value } => key.len() < 4294967296 && value.len() < 4294967296,
        CommandState::Delete { key } => key.len() < 4294967296,
    }
}

/// Encodes a command in the fixed byte layout.
pub fn encode_command(c: &Command) -> (r: Vec<u8>)
    requires
        encodable(command_state(*c)),
    ensures
        is_encoding(r@, command_state(*c)),
{
    let mut out: Vec<u8> = Vec::new();
    match c {
        Command::Delete { key } => {
            out.push(0u8);
            let ghost p1 = out@;
            push_le4(&mut out, key.len() as u64);
            let ghost p2 = out@;
            push_all(&mut out, key);
            proof {
                assert(p1[0] == 0u8);
                assert(p2.subrange(0, 1)[0] == p1[0]);
                assert(out@[0] == p2[0]);
                assert(out@.subrange(1, 5) =~= p2.subrange(1, 5));
                assert(out@.subrange(5, out@.len() as int) =~= key@);
            }
        },
        Command::Put { key, value } => {
            out.push(1u8);
            let ghost p1 = out@;
            push_le4(&mut out, key.len() as u64);
            let ghost p2 = out@;
            push_all(&mut out, key);
            let ghost p3 = out@;
            push_le4(&mut out, value.len() as u64);
            let ghost p4 = out@;
            push_all(&mut out, value);
            proof {
                assert(p1[0] == 1u8);
                assert(p2.subrange(0, 1)[0] == p1[0]);
                assert(p3[0] == p2[0]);
                assert(p4.subrange(0, p3.len() as int)[0] == p3[0]);
                assert(out@[0] == p4[0]);
                assert forall|i: int| 0 <= i < p3.len() implies p4[i] == p3[i] by {
                    assert(p4.subrange(0, p3.len() as int)[i] == p3[i]);
                }
                assert(out@.subrange(1, 5) =~= p2.subrange(1, 5));
                assert(out@.subrange(5, 5 + key@.len() as int) =~= key@);
                assert(out@.subrange(5 + key@.len() as int, 9 + key@.len() as int) =~= p4.subrange(
                    p3.len() as int,
                    p4.len() as int,
                ));
                assert(out@.subrange(9 + key@.len() as int, out@.len() as int) =~= value@);
            }
        },
    }
    out
}

/// Reads the four-byte little-endian length at `at`.
fn read_le4(b: &Vec<u8>, at: usize) -> (n: u64)
    requires
        at + 4 <= b@.len(),
        b@.len() <= usize::MAX,
    ensures
        n == from_le4(b@.subrange(at as int, at + 4)),
        n < 4294967296,
{
    let n = b[at] as u64 + 256 * (b[at + 1] as u64) + 65536 * (b[at + 2] as u64) + 16777216 * (b[at
        + 3] as u64);
    proof {
        let sub = b@.subrange(at as int, at + 4);
        assert(sub[0] == b@[at as int] && sub[1] == b@[at as int + 1] && sub[2] == b@[at as int
            + 2] && sub[3] == b@[at as int + 3]);
    }
    n
}

/// Decodes a command from the fixed byte layout. Fails with `Internal`
/// exactly when the bytes are the encoding of no command — a corrupt log
/// entry.
pub fn decode_command(b: &Vec<u8>) -> (r: Result<Command, Error>)
    ensures
        match r {
            Ok(c) => is_encoding(b@, command_state(c)),
            Err(e) => e == Error::Internal && (forall|c: CommandState| !is_encoding(b@, c)),
        },
{
    let n = b.len();
    if n < 5 {
        return Err(Error::Internal);
    }
    let tag = b[0];
    if tag == 0 {
        let klen = read_le4(b, 1);
        if (n as u64) != 5 + klen {
            return Err(Error::Internal);
        }
        let key = copy_range(b, 5, n);
        return Ok(Command::Delete { key });
    }
    if tag == 1 {
        let klen = read_le4(b, 1);
        if (n as u64) < 9 + klen {
            return Err(Error::Internal);
        }
        let koff: usize = 5;
        let kend: usize = koff + (klen as usize);
        let vlen = read_le4(b, kend);
        if (n as u64) != 9 + klen + vlen {
            return Err(Error::Internal);
        }
        let voff: usize = kend + 4;
        let key = copy_range(b, koff, kend);
        let value = copy_range(b, voff, n);
        return Ok(Command::Put { key, value });
    }
    Err(Error::Internal)
}

} // verus!
