//! What the consensus engine guarantees, stated over the contracts of its
//! operations.

use crate::logic::{
    conflicts, counter_after_commit, deps_seen, interf_seq, lead_post, may_record, merged, pre_accept_post,
    seq_seen, Payload, rank, recorded, Instance, LogEntryView, PayloadView, ReplicaId, State,
    WriteRequestView,
};
use vstd::prelude::*;

verus! {

/// Interference completeness at a PreAccept: another command `c1` on the
/// same key that the replica's log holds when it processes the PreAccept of
/// `p` is among the dependencies of the reply, and of the record the replica
/// keeps when it records the PreAccept.
pub proof fn lemma_pre_accept_sees_interference(
    log: Map<Instance, LogEntryView>,
    p: PayloadView,
    q: PayloadView,
    new_log: Map<Instance, LogEntryView>,
    c1: Instance,
)
    requires
        pre_accept_post(log, p, q, new_log),
        log.contains_key(c1),
        log[c1].key == p.write_req.key,
        c1 != p.instance,
    ensures
        q.deps.contains(c1),
        may_record(log, p.instance, State::PreAccepted) ==> new_log[p.instance].deps.contains(c1),
{
    assert(conflicts(log, p.write_req.key, p.instance, c1));
}

/// Interference completeness at the leader: another command `c1` on the
/// same key that the leader's log holds when it proposes `w` is among the
/// proposal's dependencies, and of the record the leader keeps.
pub proof fn lemma_lead_sees_interference(
    log: Map<Instance, LogEntryView>,
    inst: Instance,
    w: WriteRequestView,
    q: PayloadView,
    new_log: Map<Instance, LogEntryView>,
    c1: Instance,
)
    requires
        lead_post(log, inst, w, q, new_log),
        log.contains_key(c1),
        log[c1].key == w.key,
        c1 != inst,
    ensures
        q.deps.contains(c1),
        new_log[inst].deps.contains(c1),
{
    assert(conflicts(log, w.key, inst, c1));
}

/// Sequencing at the leader: a proposal never depends on itself, and every
/// dependency has a smaller `seq` than the proposal. The one case left out
/// is a key whose largest `seq` is already the largest `u32`, where `seq`
/// cannot grow.
pub proof fn lemma_lead_orders_after_deps(
    log: Map<Instance, LogEntryView>,
    inst: Instance,
    w: WriteRequestView,
    q: PayloadView,
    new_log: Map<Instance, LogEntryView>,
)
    requires
        lead_post(log, inst, w, q, new_log),
        interf_seq(log, w.key, inst) < u32::MAX,
    ensures
        !q.deps.contains(inst),
        forall|i: Instance|
            #[trigger] q.deps.contains(i) ==> new_log.contains_key(i) && new_log[i].seq
                < new_log[inst].seq,
{
    assert forall|i: Instance| #[trigger] q.deps.contains(i) implies new_log.contains_key(i)
        && new_log[i].seq < new_log[inst].seq by {
        assert(conflicts(log, w.key, inst, i));
    }
}

/// Sequencing at a PreAccept: the reply never makes the command depend on
/// itself (unless the leader already listed it), keeps the leader's `seq` or
/// raises it, and orders the command after every other local instance on
/// the same key; when the replica records the PreAccept, its record carries
/// that `seq`. Dependencies that only the leader knew carry no local `seq`;
/// the case of a key whose largest `seq` is already the largest `u32` is
/// left out.
pub proof fn lemma_pre_accept_orders_after_deps(
    log: Map<Instance, LogEntryView>,
    p: PayloadView,
    q: PayloadView,
    new_log: Map<Instance, LogEntryView>,
)
    requires
        pre_accept_post(log, p, q, new_log),
        interf_seq(log, p.write_req.key, p.instance) < u32::MAX,
    ensures
        p.seq <= q.seq,
        !p.deps.contains(p.instance) ==> !q.deps.contains(p.instance),
        may_record(log, p.instance, State::PreAccepted) ==> new_log[p.instance].seq == q.seq,
        forall|i: Instance|
            #[trigger] q.deps.contains(i) && log.contains_key(i) && log[i].key == p.write_req.key
                && i != p.instance ==> new_log.contains_key(i) && new_log[i] == log[i] && log[i].seq
                < q.seq,
{
    assert forall|i: Instance|
        #[trigger] q.deps.contains(i) && log.contains_key(i) && log[i].key == p.write_req.key && i
            != p.instance implies new_log.contains_key(i) && new_log[i] == log[i] && log[i].seq
        < q.seq by {
        assert(conflicts(log, p.write_req.key, p.instance, i));
    }
}

/// A committed record is final: no PreAccept, Accept or Commit changes the
/// log or moves the slot counter.
pub proof fn lemma_committed_is_final(
    log: Map<Instance, LogEntryView>,
    p: PayloadView,
    state: State,
    id: ReplicaId,
    counter: u32,
)
    requires
        log.contains_key(p.instance),
        log[p.instance].state == State::Committed,
    ensures
        recorded(log, p, state) == log,
        counter_after_commit(log, id, counter, p) == counter,
{
}

/// Delivering the same Commit a second time changes nothing.
pub proof fn lemma_commit_redelivery(
    log: Map<Instance, LogEntryView>,
    p: PayloadView,
    id: ReplicaId,
    counter: u32,
)
    ensures
        recorded(recorded(log, p, State::Committed), p, State::Committed) == recorded(
            log,
            p,
            State::Committed,
        ),
        counter_after_commit(recorded(log, p, State::Committed), id, counter, p) == counter,
{
}

/// States only move forward: after any message, every recorded instance is
/// still recorded, in the same state or a later one.
pub proof fn lemma_state_forward(
    log: Map<Instance, LogEntryView>,
    p: PayloadView,
    state: State,
    i: Instance,
)
    requires
        log.contains_key(i),
    ensures
        recorded(log, p, state).contains_key(i),
        rank(recorded(log, p, state)[i].state) >= rank(log[i].state),
        log[i].state == State::Committed ==> recorded(log, p, state)[i] == log[i],
{
}


proof fn lemma_seen_bounds(rs: Seq<Payload>, base_seq: u32, base_deps: Set<Instance>)
    ensures
        base_seq <= seq_seen(rs, base_seq),
        base_deps.subset_of(deps_seen(rs, base_deps)),
        forall|k: int|
            0 <= k < rs.len() ==> (#[trigger] rs[k]).seq <= seq_seen(rs, base_seq)
                && rs[k].deps@.to_set().subset_of(deps_seen(rs, base_deps)),
    decreases rs.len(),
{
    if rs.len() > 0 {
        lemma_seen_bounds(rs.drop_last(), base_seq, base_deps);
        assert forall|k: int| 0 <= k < rs.len() implies (#[trigger] rs[k]).seq <= seq_seen(
            rs,
            base_seq,
        ) && rs[k].deps@.to_set().subset_of(deps_seen(rs, base_deps)) by {
            if k < rs.len() - 1 {
                assert(rs[k] == rs.drop_last()[k]);
            }
        }
    }
}

/// Sequencing on the slow path: the merged proposal keeps the dependencies
/// of the original proposal and of every reply, with a `seq` at least as
/// large as each of theirs. So a dependency ordered before the proposal or
/// before any reply (its `seq` below theirs) stays ordered before the
/// merged proposal.
pub proof fn lemma_merged_keeps_order(q: PayloadView, rs: Seq<Payload>, p: PayloadView)
    requires
        merged(q, rs, p),
    ensures
        p.seq <= q.seq,
        forall|i: Instance| #[trigger] p.deps.contains(i) ==> q.deps.contains(i),
        forall|k: int, i: Instance|
            0 <= k < rs.len() && #[trigger] rs[k].deps@.contains(i) ==> q.deps.contains(i)
                && rs[k].seq <= q.seq,
{
    lemma_seen_bounds(rs, p.seq, p.deps.to_set());
    assert forall|i: Instance| #[trigger] p.deps.contains(i) implies q.deps.contains(i) by {
        assert(p.deps.to_set().contains(i));
        assert(q.deps.to_set().contains(i));
    }
    assert forall|k: int, i: Instance|
        0 <= k < rs.len() && #[trigger] rs[k].deps@.contains(i) implies q.deps.contains(i)
        && rs[k].seq <= q.seq by {
        assert(rs[k].deps@.to_set().contains(i));
        assert(q.deps.to_set().contains(i));
    }
}

} // verus!
