use epaxos::coordinator::{
    after_accept, after_pre_accept, receive_commit, tally_accept, tally_pre_accept, QuorumConfig,
    RoundStep,
};
use epaxos::logic::{
    Accept, Commit, EpaxosLogic, Instance, Payload, PreAccept, ReadRequest, ReplicaId, State,
    WriteRequest,
};
use epaxos::store::{EpaxosError, Store};

struct Cluster {
    config: QuorumConfig,
    replicas: Vec<EpaxosLogic>,
    stores: Vec<Store>,
}

fn cluster(fault_tolerance: u32) -> Cluster {
    let config = QuorumConfig { fault_tolerance };
    let n = config.replica_count();
    Cluster {
        config,
        replicas: (0..n).map(|i| EpaxosLogic::init(ReplicaId(i))).collect(),
        stores: (0..n).map(|_| Store::new()).collect(),
    }
}

fn commit_everywhere(c: &mut Cluster, leader: usize, peers: &[usize], down: &[usize], q: &Payload) {
    for &i in peers {
        if !down.contains(&i) {
            receive_commit(&mut c.replicas[i], &mut c.stores[i], Commit(q.clone()));
        }
    }
    c.stores[leader].apply(&q.write_req);
}

/// Sends the proposal's PreAccepts, then (on the slow path) its Accepts, to
/// the leader's fast quorum; replicas in `down` do not answer.
fn finish_round(c: &mut Cluster, leader: usize, payload: Payload, down: &[usize]) -> bool {
    let peers: Vec<usize> =
        c.replicas[leader].fast_quorum(&c.config).iter().map(|r| r.0 as usize).collect();
    let mut replies = Vec::new();
    for &i in &peers {
        if down.contains(&i) {
            replies.push(None);
        } else {
            replies.push(Some(c.replicas[i].pre_accept_(PreAccept(payload.clone())).0));
        }
    }
    let config = c.config;
    match after_pre_accept(&mut c.replicas[leader], &config, &payload, replies) {
        RoundStep::Commit(q) => {
            commit_everywhere(c, leader, &peers, down, &q);
            true
        }
        RoundStep::Accept(q) => {
            let mut acks = Vec::new();
            for &i in &peers {
                if down.contains(&i) {
                    acks.push(None);
                } else {
                    acks.push(Some(c.replicas[i].accept_(Accept(q.clone())).0));
                }
            }
            match after_accept(&mut c.replicas[leader], &config, &q, acks) {
                RoundStep::Commit(q) => {
                    commit_everywhere(c, leader, &peers, down, &q);
                    true
                }
                _ => false,
            }
        }
        RoundStep::Abandon => false,
    }
}

fn write(key: &str, value: i32) -> WriteRequest {
    WriteRequest { key: key.to_string(), value }
}

fn read(key: &str) -> ReadRequest {
    ReadRequest { key: key.to_string() }
}

#[test]
fn fast_path_on_empty_log() {
    let mut c = cluster(2);
    let payload = c.replicas[0].lead_consensus(write("pi", 1));
    assert_eq!(payload.seq, 1);
    assert!(payload.deps.is_empty());
    let peers: Vec<usize> = c.replicas[0].fast_quorum(&c.config).iter().map(|r| r.0 as usize).collect();
    let replies: Vec<Option<Payload>> =
        peers.iter().map(|&i| Some(c.replicas[i].pre_accept_(PreAccept(payload.clone())).0)).collect();
    for r in replies.iter() {
        let r = r.as_ref().unwrap();
        assert_eq!(r.seq, 1);
        assert!(r.deps.is_empty());
    }
    let config = c.config;
    match after_pre_accept(&mut c.replicas[0], &config, &payload, replies) {
        RoundStep::Commit(q) => commit_everywhere(&mut c, 0, &peers, &[], &q),
        _ => panic!("expected a fast commit"),
    }
    for i in [0usize, 1, 2, 3] {
        assert_eq!(c.stores[i].read(&read("pi")).unwrap().value, 1);
        assert_eq!(c.replicas[i].entry(&Instance { replica: 0, slot: 0 }).unwrap().state, State::Committed);
    }
    assert_eq!(c.stores[4].read(&read("pi")).unwrap_err(), EpaxosError::KeyNotFound);
    assert_eq!(c.replicas[0].instance_number, 1);
}

#[test]
fn concurrent_writes_on_one_key_depend_on_each_other() {
    let mut c = cluster(2);
    c.replicas[0].instance_number = 5;
    c.replicas[1].instance_number = 3;
    let a = c.replicas[0].lead_consensus(write("x", 10));
    let b = c.replicas[1].lead_consensus(write("x", 20));
    assert_eq!(a.instance, Instance { replica: 0, slot: 5 });
    assert_eq!(b.instance, Instance { replica: 1, slot: 3 });
    assert!(finish_round(&mut c, 0, a, &[]));
    assert!(finish_round(&mut c, 1, b, &[]));
    let ia = Instance { replica: 0, slot: 5 };
    let ib = Instance { replica: 1, slot: 3 };
    let ea = c.replicas[0].entry(&ia).unwrap();
    let eb = c.replicas[1].entry(&ib).unwrap();
    assert_eq!(ea.state, State::Committed);
    assert_eq!(eb.state, State::Committed);
    assert!(ea.deps.contains(&ib));
    assert!(eb.deps.contains(&ia));
    assert_ne!(ea.seq, eb.seq);
}

#[test]
fn one_unreachable_peer_still_commits() {
    let mut c = cluster(2);
    let payload = c.replicas[0].lead_consensus(write("k", 7));
    assert!(finish_round(&mut c, 0, payload, &[1]));
    assert_eq!(c.stores[0].read(&read("k")).unwrap().value, 7);
    assert_eq!(c.replicas[0].entry(&Instance { replica: 0, slot: 0 }).unwrap().state, State::Committed);
}

#[test]
fn too_many_unreachable_peers_fail_the_round() {
    let mut c = cluster(2);
    let payload = c.replicas[0].lead_consensus(write("k", 7));
    assert!(!finish_round(&mut c, 0, payload, &[2, 3]));
    assert_eq!(c.stores[0].read(&read("k")).unwrap_err(), EpaxosError::KeyNotFound);
    assert_eq!(c.replicas[0].instance_number, 0);
    let w = c.stores[0].write(&write("k", 7), false);
    assert!(!w.commit);
    assert_eq!(c.stores[0].read(&read("k")).unwrap_err(), EpaxosError::KeyNotFound);
}

#[test]
fn malformed_replies_do_not_vote() {
    let mut c = cluster(2);
    let payload = c.replicas[0].lead_consensus(write("k", 1));
    let mut other = payload.clone();
    other.instance = Instance { replica: 4, slot: 9 };
    let config = c.config;
    let step = after_pre_accept(&mut c.replicas[0], &config, &payload, vec![Some(other.clone()), Some(other), None]);
    assert!(matches!(step, RoundStep::Abandon));
    assert_eq!(c.replicas[0].entry(&payload.instance).unwrap().state, State::PreAccepted);
}

#[test]
fn slow_quorum_without_dissent_goes_to_accept_unchanged() {
    let mut c = cluster(2);
    let payload = c.replicas[0].lead_consensus(write("k", 1));
    let config = c.config;
    let step = after_pre_accept(
        &mut c.replicas[0],
        &config,
        &payload,
        vec![Some(payload.clone()), Some(payload.clone()), None],
    );
    match step {
        RoundStep::Accept(q) => {
            assert_eq!(q.seq, payload.seq);
            assert_eq!(q.deps, payload.deps);
        }
        _ => panic!("expected the accept phase"),
    }
    assert_eq!(c.replicas[0].entry(&payload.instance).unwrap().state, State::Accepted);
}

#[test]
fn accept_needs_a_slow_quorum_of_acks() {
    let mut c = cluster(2);
    let payload = c.replicas[0].lead_consensus(write("k", 1));
    let ack = c.replicas[1].accept_(Accept(payload.clone())).0;
    let config = c.config;
    let step = after_accept(&mut c.replicas[0], &config, &payload, vec![Some(ack.clone()), None, None]);
    assert!(matches!(step, RoundStep::Abandon));
    let step = after_accept(&mut c.replicas[0], &config, &payload, vec![Some(ack.clone()), Some(ack), None]);
    assert!(matches!(step, RoundStep::Commit(_)));
    assert_eq!(c.replicas[0].instance_number, 1);
}

#[test]
fn store_write_and_read() {
    let mut s = Store::new();
    assert_eq!(s.read(&read("a")).unwrap_err(), EpaxosError::KeyNotFound);
    assert!(s.write(&write("a", 1), true).commit);
    s.insert("b".to_string(), 2);
    s.insert("a".to_string(), 3);
    assert_eq!(s.get(&"a".to_string()), Ok(3));
    assert_eq!(s.get(&"b".to_string()), Ok(2));
    assert_eq!(s.read(&read("b")).unwrap().value, 2);
}

#[test]
fn pre_accept_settles_early() {
    let c = QuorumConfig { fault_tolerance: 2 };
    assert!(c.pre_accept_resolved(3, false, 0));
    assert!(!c.pre_accept_resolved(2, false, 1));
    assert!(c.pre_accept_resolved(2, true, 1));
    assert!(c.pre_accept_resolved(0, false, 1));
    assert!(!c.pre_accept_resolved(1, true, 2));
}

#[test]
fn accept_settles_early() {
    let c = QuorumConfig { fault_tolerance: 2 };
    assert!(c.accept_resolved(2, 1));
    assert!(!c.accept_resolved(1, 2));
    assert!(c.accept_resolved(0, 1));
    assert!(!c.accept_resolved(0, 2));
}

#[test]
fn tallies_count_only_matching_replies() {
    let mut c = cluster(2);
    let payload = c.replicas[0].lead_consensus(write("k", 1));
    let mut dissent = payload.clone();
    dissent.seq = 9;
    let mut stray = payload.clone();
    stray.instance = Instance { replica: 3, slot: 3 };
    let replies = vec![Some(payload.clone()), None, Some(stray)];
    assert_eq!(tally_pre_accept(&replies, &payload), (1, false));
    let replies = vec![Some(payload.clone()), Some(dissent)];
    assert_eq!(tally_pre_accept(&replies, &payload), (2, true));
    let ack = c.replicas[1].accept_(Accept(payload.clone())).0;
    let mut stray_ack = ack.clone();
    stray_ack.instance = Instance { replica: 2, slot: 0 };
    assert_eq!(tally_accept(&vec![Some(ack), None, Some(stray_ack)], payload.instance), 1);
}

#[test]
fn repeated_commit_leaves_store_alone() {
    let mut logic = EpaxosLogic::init(ReplicaId(1));
    let mut store = Store::new();
    let p = Payload {
        write_req: write("k", 1),
        seq: 1,
        deps: vec![],
        instance: Instance { replica: 0, slot: 0 },
    };
    receive_commit(&mut logic, &mut store, Commit(p.clone()));
    assert_eq!(store.read(&read("k")).unwrap().value, 1);
    store.insert("k".to_string(), 5);
    let mut changed = p.clone();
    changed.write_req.value = 9;
    receive_commit(&mut logic, &mut store, Commit(changed));
    assert_eq!(store.read(&read("k")).unwrap().value, 5);
    assert_eq!(logic.entry(&p.instance).unwrap().value, 1);
}
