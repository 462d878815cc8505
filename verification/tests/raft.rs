use radb_core::command::{encode_command, Command};
use radb_core::error::Error;
use radb_core::log::LogEntry;
use radb_core::mvcc::MvccStore;
use radb_core::raft::{node_status, Envelope, Message, RaftNode, Role};

fn b(s: &str) -> Vec<u8> {
    s.as_bytes().to_vec()
}

fn cluster(n: u64) -> Vec<RaftNode> {
    let mut nodes = Vec::new();
    for id in 1..=n {
        let peers: Vec<u64> = (1..=n).filter(|p| *p != id).collect();
        nodes.push(RaftNode::new(id, peers));
    }
    nodes
}

fn is_leader(node: &RaftNode) -> bool {
    matches!(node.role, Role::Leader { .. })
}

/// Hands one envelope to its addressee, unless the addressee is down, and
/// returns whatever it sends back.
fn deliver(nodes: &mut Vec<RaftNode>, down: &[u64], env: Envelope) -> Vec<Envelope> {
    if down.contains(&env.to) {
        return Vec::new();
    }
    let to = (env.to - 1) as usize;
    match env.message {
        Message::RequestVote { term, last_log_index, last_log_term } => {
            vec![nodes[to].handle_request_vote(env.from, term, last_log_index, last_log_term)]
        },
        Message::RequestVoteResponse { term, granted } => {
            nodes[to].handle_request_vote_response(env.from, term, granted);
            Vec::new()
        },
        Message::AppendEntries { term, prev_log_index, prev_log_term, entries, leader_commit } => {
            vec![nodes[to].handle_append_entries(
                env.from,
                term,
                prev_log_index,
                prev_log_term,
                entries,
                leader_commit,
            )]
        },
        Message::AppendEntriesResponse { term, success, match_index } => {
            nodes[to].handle_append_entries_response(env.from, term, success, match_index);
            Vec::new()
        },
    }
}

fn deliver_all(nodes: &mut Vec<RaftNode>, down: &[u64], mut queue: Vec<Envelope>) {
    while let Some(env) = queue.pop() {
        let more = deliver(nodes, down, env);
        queue.extend(more);
    }
}

#[test]
fn single_node_commits() {
    let mut nodes = cluster(1);
    let mut store = MvccStore::new();
    let msgs = nodes[0].tick_election();
    assert!(msgs.is_empty());
    assert!(is_leader(&nodes[0]));
    let (index, msgs) = nodes[0]
        .client_command(encode_command(&Command::Put { key: b("k"), value: b("v") }))
        .unwrap();
    assert_eq!(index, 1);
    assert!(msgs.is_empty());
    assert_eq!(nodes[0].log.commit_index, 1);
    assert!(nodes[0].apply_ready(&mut store).is_ok());
    assert_eq!(nodes[0].apply_index, 1);
    let r = store.begin_read_only();
    assert_eq!(store.get(&r, &b("k")), Some(b("v")));
}

#[test]
fn write_without_leader_unavailable() {
    let mut nodes = cluster(3);
    assert_eq!(nodes[0].client_command(b("cmd")).err(), Some(Error::Unavailable));
}

#[test]
fn vote_granted_once_per_term() {
    let mut nodes = cluster(3);
    let reply = nodes[0].handle_request_vote(2, 1, 0, 0);
    assert!(matches!(
        reply.message,
        Message::RequestVoteResponse { term: 1, granted: true }
    ));
    // The same term's vote is spent: another candidate is refused.
    let reply = nodes[0].handle_request_vote(3, 1, 0, 0);
    assert!(matches!(
        reply.message,
        Message::RequestVoteResponse { term: 1, granted: false }
    ));
    // A later term gets a fresh vote.
    let reply = nodes[0].handle_request_vote(3, 2, 0, 0);
    assert!(matches!(
        reply.message,
        Message::RequestVoteResponse { term: 2, granted: true }
    ));
}

#[test]
fn vote_requires_up_to_date_log() {
    let mut nodes = cluster(3);
    // Give node 1 a log entry through replication from a leader at term 1.
    let entry = LogEntry { term: 1, index: 1, command: b("x") };
    let reply = nodes[0].handle_append_entries(2, 1, 0, 0, vec![entry], 0);
    assert!(matches!(
        reply.message,
        Message::AppendEntriesResponse { success: true, match_index: 1, .. }
    ));
    // A candidate with an empty log is behind and is refused...
    let reply = nodes[0].handle_request_vote(3, 2, 0, 0);
    assert!(matches!(
        reply.message,
        Message::RequestVoteResponse { term: 2, granted: false }
    ));
    // ...while one whose log is as up to date is granted.
    let reply = nodes[0].handle_request_vote(3, 3, 1, 1);
    assert!(matches!(
        reply.message,
        Message::RequestVoteResponse { term: 3, granted: true }
    ));
}

#[test]
fn follower_rejects_inconsistent_append() {
    let mut nodes = cluster(3);
    // The entry before the suffix is missing: the consistency check fails.
    let entry = LogEntry { term: 1, index: 6, command: b("x") };
    let reply = nodes[0].handle_append_entries(2, 1, 5, 1, vec![entry], 0);
    assert!(matches!(
        reply.message,
        Message::AppendEntriesResponse { success: false, .. }
    ));
    assert_eq!(nodes[0].log.entries.len(), 0);
}

#[test]
fn committed_entries_never_rewritten() {
    let mut nodes = cluster(3);
    let e1 = LogEntry { term: 1, index: 1, command: b("one") };
    let reply = nodes[0].handle_append_entries(2, 1, 0, 0, vec![e1], 1);
    assert!(matches!(
        reply.message,
        Message::AppendEntriesResponse { success: true, .. }
    ));
    assert_eq!(nodes[0].log.commit_index, 1);
    // A suffix contradicting the committed entry is refused outright.
    let bad = LogEntry { term: 2, index: 1, command: b("other") };
    let reply = nodes[0].handle_append_entries(3, 2, 0, 0, vec![bad], 0);
    assert!(matches!(
        reply.message,
        Message::AppendEntriesResponse { success: false, .. }
    ));
    assert_eq!(nodes[0].log.entries.len(), 1);
    assert_eq!(nodes[0].log.entries[0].term, 1);
    assert_eq!(nodes[0].log.commit_index, 1);
}

#[test]
fn five_nodes_elect_and_survive_leader_loss() {
    let mut nodes = cluster(5);
    let mut stores: Vec<MvccStore> = (0..5).map(|_| MvccStore::new()).collect();

    // Node 1 times out and wins the election for term 1.
    let msgs = nodes[0].tick_election();
    deliver_all(&mut nodes, &[], msgs);
    assert!(is_leader(&nodes[0]));
    assert_eq!(nodes[0].term, 1);

    // The leader replicates a command; a majority acknowledges and the
    // commit index advances.
    let cmd = encode_command(&Command::Put { key: b("k"), value: b("v1") });
    let (index, msgs) = nodes[0].client_command(cmd).unwrap();
    assert_eq!(index, 1);
    deliver_all(&mut nodes, &[], msgs);
    assert_eq!(nodes[0].log.commit_index, 1);

    // Heartbeats carry the commit index to the followers.
    let beats = nodes[0].heartbeat();
    deliver_all(&mut nodes, &[], beats);
    for i in 0..5 {
        assert_eq!(nodes[i].log.commit_index, 1, "node {} commit", i + 1);
        assert!(nodes[i].apply_ready(&mut stores[i]).is_ok());
        let r = stores[i].begin_read_only();
        assert_eq!(stores[i].get(&r, &b("k")), Some(b("v1")));
    }

    // The leader dies. Node 2 times out and wins the election for term 2
    // within one timeout round: its log is as up to date as any voter's.
    let down = [1u64];
    let msgs = nodes[1].tick_election();
    deliver_all(&mut nodes, &down, msgs);
    assert!(is_leader(&nodes[1]));
    assert_eq!(nodes[1].term, 2);

    // The new leader keeps committing; the commit index resumes advancing
    // and the previously committed entry is lost on no node.
    let cmd = encode_command(&Command::Put { key: b("k"), value: b("v2") });
    let (index, msgs) = nodes[1].client_command(cmd).unwrap();
    assert_eq!(index, 2);
    deliver_all(&mut nodes, &down, msgs);
    assert!(nodes[1].log.commit_index >= 1);
    assert_eq!(nodes[1].log.commit_index, 2);
    let beats = nodes[1].heartbeat();
    deliver_all(&mut nodes, &down, beats);
    for i in 1..5 {
        assert_eq!(nodes[i].log.entries[0].term, 1, "node {} lost a committed entry", i + 1);
        assert_eq!(nodes[i].log.commit_index, 2);
        assert!(nodes[i].apply_ready(&mut stores[i]).is_ok());
        let r = stores[i].begin_read_only();
        assert_eq!(stores[i].get(&r, &b("k")), Some(b("v2")));
    }
}

#[test]
fn status_reports_cluster_state() {
    let mut nodes = cluster(1);
    let mut store = MvccStore::new();
    nodes[0].tick_election();
    let cmd = encode_command(&Command::Put { key: b("k"), value: b("v") });
    nodes[0].client_command(cmd).unwrap();
    nodes[0].apply_ready(&mut store).unwrap();
    let st = node_status(&nodes[0], &store);
    assert_eq!(st.server, 1);
    assert_eq!(st.raft.term, 1);
    assert_eq!(st.raft.leader, Some(1));
    assert_eq!(st.raft.commit_index, 1);
    assert_eq!(st.raft.apply_index, 1);
    assert_eq!(st.raft.last_index, vec![(1, 1)]);
    assert_eq!(st.mvcc.versions, 1);
    assert_eq!(st.mvcc.active_txns, 0);
    assert_eq!(st.mvcc.storage.key_count, 1);
}

#[test]
fn apply_ready_stops_at_corrupt_entry() {
    // A single-node leader commits one sound command and then corrupt
    // bytes. Applying stops exactly at the corrupt entry: the sound prefix
    // is applied, the error is fatal, and nothing beyond it is touched.
    let mut nodes = cluster(1);
    let mut store = MvccStore::new();
    nodes[0].tick_election();
    let good = encode_command(&Command::Put { key: b("k"), value: b("v") });
    nodes[0].client_command(good).unwrap();
    nodes[0].client_command(vec![9u8, 9, 9]).unwrap();
    assert_eq!(nodes[0].log.commit_index, 2);
    assert_eq!(nodes[0].apply_ready(&mut store).err(), Some(Error::Internal));
    assert_eq!(nodes[0].apply_index, 1);
    let r = store.begin_read_only();
    assert_eq!(store.get(&r, &b("k")), Some(b("v")));
}
