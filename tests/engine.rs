use epaxos::coordinator::QuorumConfig;
use epaxos::logic::{
    sort_instances, Accept, Commit, EpaxosLogic, Instance, Path, Payload, PreAccept, ReplicaId, State,
    WriteRequest,
};
use std::cmp::Ordering;

fn inst(replica: u32, slot: u32) -> Instance {
    Instance { replica, slot }
}

fn write(key: &str, value: i32) -> WriteRequest {
    WriteRequest { key: key.to_string(), value }
}

fn payload(key: &str, value: i32, seq: u32, deps: Vec<Instance>, instance: Instance) -> Payload {
    Payload { write_req: write(key, value), seq, deps, instance }
}

#[test]
fn sort_instances_orders_by_replica_then_slot() {
    assert_eq!(sort_instances(&inst(0, 9), &inst(1, 0)), Ordering::Less);
    assert_eq!(sort_instances(&inst(2, 0), &inst(1, 9)), Ordering::Greater);
    assert_eq!(sort_instances(&inst(1, 3), &inst(1, 4)), Ordering::Less);
    assert_eq!(sort_instances(&inst(1, 4), &inst(1, 3)), Ordering::Greater);
    assert_eq!(sort_instances(&inst(1, 4), &inst(1, 4)), Ordering::Equal);
    assert_eq!(sort_instances(&inst(0, 0), &inst(0, 0)), Ordering::Equal);
}

#[test]
fn union_deps_sorts_and_removes_repeats() {
    let logic = EpaxosLogic::init(ReplicaId(0));
    let r = logic.union_deps(vec![inst(2, 1), inst(0, 5), inst(2, 1)], vec![inst(0, 5), inst(1, 0)]);
    assert_eq!(r, vec![inst(0, 5), inst(1, 0), inst(2, 1)]);
    assert_eq!(logic.union_deps(vec![], vec![]), vec![]);
}

#[test]
fn lead_on_empty_log() {
    let mut logic = EpaxosLogic::init(ReplicaId(0));
    let p = logic.lead_consensus(write("pi", 1));
    assert_eq!(p.seq, 1);
    assert!(p.deps.is_empty());
    assert_eq!(p.instance, inst(0, 0));
    let e = logic.entry(&inst(0, 0)).unwrap();
    assert_eq!(e.state, State::PreAccepted);
    assert_eq!(e.seq, 1);
    assert_eq!(logic.instance_number, 0);
}

#[test]
fn lead_depends_on_same_key_only() {
    let mut logic = EpaxosLogic::init(ReplicaId(1));
    logic.update_log(
        epaxos::logic::LogEntry { key: "x".to_string(), value: 1, seq: 4, deps: vec![], state: State::Committed },
        &inst(3, 2),
    );
    logic.update_log(
        epaxos::logic::LogEntry { key: "y".to_string(), value: 1, seq: 9, deps: vec![], state: State::Committed },
        &inst(0, 7),
    );
    logic.update_log(
        epaxos::logic::LogEntry { key: "x".to_string(), value: 2, seq: 2, deps: vec![], state: State::Accepted },
        &inst(0, 1),
    );
    let interf = logic.find_interference(&"x".to_string());
    assert_eq!(interf, vec![inst(0, 1), inst(3, 2)]);
    assert_eq!(logic.find_max_seq(&interf), 4);
    assert_eq!(logic.find_max_seq(&vec![]), 0);
    let p = logic.lead_consensus(write("x", 3));
    assert_eq!(p.deps, vec![inst(0, 1), inst(3, 2)]);
    assert_eq!(p.seq, 5);
}

#[test]
fn pre_accept_merges_local_interference() {
    let mut logic = EpaxosLogic::init(ReplicaId(2));
    logic.update_log(
        epaxos::logic::LogEntry { key: "x".to_string(), value: 1, seq: 7, deps: vec![], state: State::PreAccepted },
        &inst(2, 0),
    );
    let reply = logic.pre_accept_(PreAccept(payload("x", 5, 3, vec![inst(4, 4)], inst(0, 1)))).0;
    assert_eq!(reply.seq, 8);
    assert_eq!(reply.deps, vec![inst(2, 0), inst(4, 4)]);
    assert_eq!(reply.instance, inst(0, 1));
    let e = logic.entry(&inst(0, 1)).unwrap();
    assert_eq!(e.seq, 8);
    assert_eq!(e.deps, vec![inst(2, 0), inst(4, 4)]);
    assert_eq!(e.state, State::PreAccepted);
}

#[test]
fn pre_accept_keeps_larger_leader_seq() {
    let mut logic = EpaxosLogic::init(ReplicaId(2));
    let reply = logic.pre_accept_(PreAccept(payload("z", 5, 10, vec![], inst(0, 1)))).0;
    assert_eq!(reply.seq, 10);
    assert!(reply.deps.is_empty());
}

#[test]
fn decide_path_fast_when_all_agree() {
    let logic = EpaxosLogic::init(ReplicaId(0));
    let p = payload("pi", 1, 1, vec![], inst(0, 0));
    let replies = vec![p.clone(), p.clone(), p.clone()];
    match logic.decide_path(replies, &p) {
        Path::Fast(q) => {
            assert_eq!(q.seq, 1);
            assert!(q.deps.is_empty());
        }
        Path::Slow(_) => panic!("expected the fast path"),
    }
}

#[test]
fn decide_path_slow_merges_every_reply() {
    let logic = EpaxosLogic::init(ReplicaId(0));
    let p = payload("x", 1, 2, vec![inst(1, 1)], inst(0, 3));
    let r1 = payload("x", 1, 2, vec![inst(1, 1)], inst(0, 3));
    let r2 = payload("x", 1, 6, vec![inst(1, 1), inst(2, 0)], inst(0, 3));
    let r3 = payload("x", 1, 4, vec![inst(3, 9)], inst(0, 3));
    match logic.decide_path(vec![r1, r2, r3], &p) {
        Path::Slow(q) => {
            assert_eq!(q.seq, 6);
            assert_eq!(q.deps, vec![inst(1, 1), inst(2, 0), inst(3, 9)]);
            assert_eq!(q.instance, inst(0, 3));
            assert_eq!(q.write_req.key, "x");
        }
        Path::Fast(_) => panic!("expected the slow path"),
    }
}

#[test]
fn decide_path_single_dissent_forces_slow() {
    let logic = EpaxosLogic::init(ReplicaId(0));
    let p = payload("x", 1, 1, vec![], inst(0, 0));
    let dissent = payload("x", 1, 1, vec![inst(4, 0)], inst(0, 0));
    match logic.decide_path(vec![p.clone(), dissent, p.clone()], &p) {
        Path::Slow(q) => {
            assert_eq!(q.seq, 1);
            assert_eq!(q.deps, vec![inst(4, 0)]);
        }
        Path::Fast(_) => panic!("expected the slow path"),
    }
}

#[test]
fn decide_path_no_replies_is_fast() {
    let logic = EpaxosLogic::init(ReplicaId(0));
    let p = payload("x", 1, 1, vec![], inst(0, 0));
    assert!(matches!(logic.decide_path(vec![], &p), Path::Fast(_)));
}

#[test]
fn accept_records_and_acknowledges() {
    let mut logic = EpaxosLogic::init(ReplicaId(3));
    let ok = logic.accept_(Accept(payload("k", 9, 2, vec![inst(1, 1)], inst(0, 4)))).0;
    assert_eq!(ok.instance, inst(0, 4));
    assert_eq!(ok.write_req.value, 9);
    let e = logic.entry(&inst(0, 4)).unwrap();
    assert_eq!(e.state, State::Accepted);
    assert_eq!(e.seq, 2);
}

#[test]
fn commit_of_own_instance_moves_counter() {
    let mut logic = EpaxosLogic::init(ReplicaId(0));
    let p = logic.lead_consensus(write("a", 1));
    logic.committed(p.clone());
    assert_eq!(logic.instance_number, 1);
    assert_eq!(logic.entry(&inst(0, 0)).unwrap().state, State::Committed);
    let q = logic.lead_consensus(write("a", 2));
    assert_eq!(q.instance, inst(0, 1));
    assert_eq!(q.deps, vec![inst(0, 0)]);
    assert_eq!(q.seq, 2);
}

#[test]
fn commit_of_other_instance_keeps_counter() {
    let mut logic = EpaxosLogic::init(ReplicaId(0));
    logic.commit_(Commit(payload("a", 1, 1, vec![], inst(3, 0))));
    assert_eq!(logic.instance_number, 0);
    assert_eq!(logic.entry(&inst(3, 0)).unwrap().state, State::Committed);
}

#[test]
fn commit_redelivery_is_a_no_op() {
    let mut logic = EpaxosLogic::init(ReplicaId(0));
    let p = logic.lead_consensus(write("a", 1));
    logic.commit_(Commit(p.clone()));
    logic.commit_(Commit(p.clone()));
    assert_eq!(logic.instance_number, 1);
    let e = logic.entry(&inst(0, 0)).unwrap();
    assert_eq!(e.state, State::Committed);
    assert_eq!(e.value, 1);
}

#[test]
fn committed_record_is_final() {
    let mut logic = EpaxosLogic::init(ReplicaId(1));
    logic.commit_(Commit(payload("a", 1, 3, vec![], inst(0, 0))));
    logic.pre_accept_(PreAccept(payload("a", 7, 9, vec![inst(2, 2)], inst(0, 0))));
    logic.accept_(Accept(payload("a", 8, 9, vec![], inst(0, 0))));
    logic.commit_(Commit(payload("a", 9, 9, vec![], inst(0, 0))));
    let e = logic.entry(&inst(0, 0)).unwrap();
    assert_eq!(e.state, State::Committed);
    assert_eq!(e.value, 1);
    assert_eq!(e.seq, 3);
}

#[test]
fn accepted_record_does_not_go_back() {
    let mut logic = EpaxosLogic::init(ReplicaId(1));
    logic.accepted(payload("a", 1, 3, vec![], inst(0, 0)));
    logic.pre_accept_(PreAccept(payload("a", 7, 9, vec![], inst(0, 0))));
    let e = logic.entry(&inst(0, 0)).unwrap();
    assert_eq!(e.state, State::Accepted);
    assert_eq!(e.value, 1);
}

#[test]
fn fast_quorum_takes_following_replicas() {
    let config = QuorumConfig { fault_tolerance: 2 };
    let logic = EpaxosLogic::init(ReplicaId(0));
    assert_eq!(logic.fast_quorum(&config), vec![ReplicaId(1), ReplicaId(2), ReplicaId(3)]);
    let logic = EpaxosLogic::init(ReplicaId(3));
    assert_eq!(logic.fast_quorum(&config), vec![ReplicaId(4), ReplicaId(0), ReplicaId(1)]);
}

#[test]
fn quorum_sizes() {
    let c = QuorumConfig { fault_tolerance: 2 };
    assert_eq!(c.replica_count(), 5);
    assert_eq!(c.fast_quorum_size(), 4);
    assert_eq!(c.slow_quorum_size(), 3);
    let c = QuorumConfig { fault_tolerance: 1 };
    assert_eq!(c.fast_quorum_size(), 2);
    assert_eq!(c.slow_quorum_size(), 2);
    let c = QuorumConfig { fault_tolerance: 3 };
    assert_eq!(c.fast_quorum_size(), 5);
    assert_eq!(c.slow_quorum_size(), 4);
    let c = QuorumConfig { fault_tolerance: 0 };
    assert_eq!(c.fast_quorum_size(), 1);
    assert_eq!(c.slow_quorum_size(), 1);
}

#[test]
fn redelivered_pre_accept_does_not_depend_on_itself() {
    let mut logic = EpaxosLogic::init(ReplicaId(2));
    logic.update_log(
        epaxos::logic::LogEntry { key: "x".to_string(), value: 1, seq: 2, deps: vec![], state: State::PreAccepted },
        &inst(1, 0),
    );
    let p = payload("x", 5, 1, vec![], inst(0, 4));
    let first = logic.pre_accept_(PreAccept(p.clone())).0;
    assert_eq!(first.deps, vec![inst(1, 0)]);
    assert_eq!(first.seq, 3);
    let again = logic.pre_accept_(PreAccept(p)).0;
    assert_eq!(again.deps, vec![inst(1, 0)]);
    assert_eq!(again.seq, 3);
    assert_eq!(logic.entry(&inst(0, 4)).unwrap().seq, 3);
}

#[test]
fn reused_slot_does_not_depend_on_itself() {
    let mut logic = EpaxosLogic::init(ReplicaId(0));
    let first = logic.lead_consensus(write("x", 1));
    let again = logic.lead_consensus(write("x", 2));
    assert_eq!(first.instance, again.instance);
    assert!(again.deps.is_empty());
    assert_eq!(again.seq, 1);
    assert_eq!(logic.entry(&inst(0, 0)).unwrap().value, 2);
}

#[test]
fn find_conflicts_leaves_out_own_instance() {
    let mut logic = EpaxosLogic::init(ReplicaId(0));
    logic.update_log(
        epaxos::logic::LogEntry { key: "x".to_string(), value: 1, seq: 2, deps: vec![], state: State::PreAccepted },
        &inst(1, 0),
    );
    logic.update_log(
        epaxos::logic::LogEntry { key: "x".to_string(), value: 1, seq: 5, deps: vec![], state: State::PreAccepted },
        &inst(2, 7),
    );
    assert_eq!(logic.find_conflicts(&"x".to_string(), &inst(2, 7)), vec![inst(1, 0)]);
    assert_eq!(logic.find_conflicts(&"x".to_string(), &inst(3, 3)), vec![inst(1, 0), inst(2, 7)]);
}

#[test]
fn can_record_follows_state_order() {
    let mut logic = EpaxosLogic::init(ReplicaId(0));
    assert!(logic.can_record(&inst(1, 1), State::PreAccepted));
    logic.accepted(payload("a", 1, 1, vec![], inst(1, 1)));
    assert!(!logic.can_record(&inst(1, 1), State::PreAccepted));
    assert!(logic.can_record(&inst(1, 1), State::Accepted));
    assert!(logic.can_record(&inst(1, 1), State::Committed));
    logic.commit_(Commit(payload("a", 1, 1, vec![], inst(1, 1))));
    assert!(!logic.can_record(&inst(1, 1), State::Committed));
}
