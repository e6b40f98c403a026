//! Quorum arithmetic and the decisions of a consensus round.

use crate::logic::{
    agrees, all_agree, counter_after_commit, may_record, merged, recorded, same_instances, Commit, AcceptOKPayload, EpaxosLogic, Instance, Path,
    Payload, State,
};
use crate::store::Store;
use vstd::prelude::*;

verus! {

/// Cluster configuration: `2F + 1` replicas tolerating `F` failures.
#[derive(Clone, Copy, Debug)]
pub struct QuorumConfig {
    pub fault_tolerance: u32,
}

impl QuorumConfig {
    /// The replica count `2F + 1` fits a `u32`.
    pub open spec fn wf(&self) -> bool {
        self.fault_tolerance <= 0x7fff_ffff
    }

    /// `N = 2F + 1`.
    pub open spec fn replicas(&self) -> nat {
        (2 * self.fault_tolerance + 1) as nat
    }

    /// Fast quorum, the leader included: `F + ceil((F + 1) / 2)`.
    pub open spec fn fast_size(&self) -> nat {
        (self.fault_tolerance + (self.fault_tolerance + 2) / 2) as nat
    }

    /// Slow quorum, the leader included: `F + 1`.
    pub open spec fn slow_size(&self) -> nat {
        (self.fault_tolerance + 1) as nat
    }

    /// Number of replicas, `2F + 1`.
    pub fn replica_count(&self) -> (r: u32)
        requires
            self.wf(),
        ensures
            r == self.replicas(),
    {
        2 * self.fault_tolerance + 1
    }

    /// Size of a fast quorum, the leader included.
    pub fn fast_quorum_size(&self) -> (r: usize)
        requires
            self.wf(),
        ensures
            r == self.fast_size(),
            1 <= r <= self.replicas(),
    {
        (self.fault_tolerance as usize) + (self.fault_tolerance as usize + 2) / 2
    }

    /// Size of a slow quorum, the leader included.
    pub fn slow_quorum_size(&self) -> (r: usize)
        requires
            self.wf(),
        ensures
            r == self.slow_size(),
            1 <= r <= self.fast_size(),
    {
        self.fault_tolerance as usize + 1
    }
}


/// Whether the PreAccept phase can stop waiting, given `votes` replies in
/// hand (one of them in `dissent` with the proposal or not) and `pending`
/// peers not yet heard: every peer has answered; or even all pending
/// answers cannot make a slow quorum, so the round fails; or a slow quorum is
/// in hand and the fast path is out of reach (a dissent was heard, or too
/// few peers are left for a fast quorum), so the round goes to Accept.
pub open spec fn pre_accept_settled(config: QuorumConfig, votes: nat, dissent: bool, pending: nat) -> bool {
    ||| pending == 0
    ||| votes + pending + 1 < config.slow_size()
    ||| (votes + 1 >= config.slow_size() && (dissent || votes + pending + 1 < config.fast_size()))
}

/// Whether the Accept phase can stop waiting, given `acks` in hand and
/// `pending` peers not yet heard: a slow quorum is reached, or cannot be.
pub open spec fn accept_settled(config: QuorumConfig, acks: nat, pending: nat) -> bool {
    acks + 1 >= config.slow_size() || acks + pending + 1 < config.slow_size()
}

impl QuorumConfig {
    /// Executable form of `pre_accept_settled`.
    pub fn pre_accept_resolved(&self, votes: usize, dissent: bool, pending: usize) -> (r: bool)
        requires
            self.wf(),
        ensures
            r == pre_accept_settled(*self, votes as nat, dissent, pending as nat),
    {
        let heard = votes as u128 + pending as u128 + 1;
        let slow = self.slow_quorum_size() as u128;
        let fast = self.fast_quorum_size() as u128;
        pending == 0 || heard < slow || (votes as u128 + 1 >= slow && (dissent || heard < fast))
    }

    /// Executable form of `accept_settled`.
    pub fn accept_resolved(&self, acks: usize, pending: usize) -> (r: bool)
        requires
            self.wf(),
        ensures
            r == accept_settled(*self, acks as nat, pending as nat),
    {
        let slow = self.slow_quorum_size() as u128;
        acks as u128 + 1 >= slow || acks as u128 + pending as u128 + 1 < slow
    }
}

/// Once the Accept phase is settled, the answers still pending cannot change
/// its outcome: however many of them (`more`) turn out to be
/// acknowledgements, the slow quorum is reached exactly when it was already.
pub proof fn lemma_accept_settled_is_final(config: QuorumConfig, acks: nat, pending: nat, more: nat)
    requires
        accept_settled(config, acks, pending),
        more <= pending,
    ensures
        (acks + more + 1 >= config.slow_size()) == (acks + 1 >= config.slow_size()),
{
}

/// Once the PreAccept phase is settled with fewer than a slow quorum of
/// votes, no pending answer can save the round.
pub proof fn lemma_pre_accept_failure_is_final(
    config: QuorumConfig,
    votes: nat,
    dissent: bool,
    pending: nat,
    more: nat,
)
    requires
        pre_accept_settled(config, votes, dissent, pending),
        votes + 1 < config.slow_size(),
        more <= pending,
    ensures
        votes + more + 1 < config.slow_size(),
{
}

/// What the leader does next in a round.
pub enum RoundStep {
    /// Fan out Commit with this payload; the round succeeded.
    Commit(Payload),
    /// Fan out Accept with this payload and count the acknowledgements.
    Accept(Payload),
    /// The quorum cannot be reached; the round failed.
    Abandon,
}

/// The replies that count as votes for `inst`: those that arrived and
/// concern that instance. A missing reply (the peer was unreachable) or one
/// about another instance (malformed) does not vote.
pub open spec fn votes_of(rs: Seq<Option<Payload>>, inst: Instance) -> Seq<Payload>
    decreases rs.len(),
{
    if rs.len() == 0 {
        Seq::empty()
    } else {
        let v = votes_of(rs.drop_last(), inst);
        match rs.last() {
            Some(p) => if p.instance == inst {
                v.push(p)
            } else {
                v
            },
            None => v,
        }
    }
}

/// Number of acknowledgements for `inst` among the Accept replies.
pub open spec fn acks_of(rs: Seq<Option<AcceptOKPayload>>, inst: Instance) -> nat
    decreases rs.len(),
{
    if rs.len() == 0 {
        0
    } else {
        let n = acks_of(rs.drop_last(), inst);
        match rs.last() {
            Some(a) => if a.instance == inst {
                n + 1
            } else {
                n
            },
            None => n,
        }
    }
}

/// The PreAccept replies that vote for `inst`, in the order they came.
fn collect_votes(replies: Vec<Option<Payload>>, inst: Instance) -> (r: Vec<Payload>)
    ensures
        r@ == votes_of(replies@, inst),
{
    let ghost all = replies@;
    assert(all.len() == replies.len());
    let mut rest = replies;
    let mut votes: Vec<Payload> = Vec::new();
    let mut k: usize = 0;
    while rest.len() > 0
        invariant
            k <= all.len(),
            all.len() <= usize::MAX,
            rest@ == all.subrange(k as int, all.len() as int),
            rest@.len() == all.len() - k,
            votes@ == votes_of(all.subrange(0, k as int), inst),
        decreases rest@.len(),
    {
        let reply = rest.remove(0);
        assert(all.subrange(0, k + 1).drop_last() == all.subrange(0, k as int));
        assert(all.subrange(0, k + 1).last() == all[k as int]);
        match reply {
            Some(p) => {
                if p.instance == inst {
                    votes.push(p);
                }
            },
            None => {},
        }
        assert(rest@ =~= all.subrange(k + 1, all.len() as int));
        k = k + 1;
    }
    assert(all.subrange(0, all.len() as int) == all);
    votes
}

/// Counts the PreAccept replies that vote for the proposal, and says
/// whether any of them disagrees with it.
pub fn tally_pre_accept(replies: &Vec<Option<Payload>>, payload: &Payload) -> (r: (usize, bool))
    ensures
        r.0 == votes_of(replies@, payload.instance).len(),
        r.1 == !all_agree(votes_of(replies@, payload.instance), payload@),
{
    let mut votes: usize = 0;
    let mut dissent = false;
    let mut k: usize = 0;
    while k < replies.len()
        invariant
            k <= replies@.len(),
            votes == votes_of(replies@.subrange(0, k as int), payload.instance).len(),
            votes <= k,
            dissent == !all_agree(votes_of(replies@.subrange(0, k as int), payload.instance), payload@),
        decreases replies@.len() - k,
    {
        let ghost prefix = replies@.subrange(0, k + 1);
        let ghost before = votes_of(replies@.subrange(0, k as int), payload.instance);
        assert(prefix.drop_last() == replies@.subrange(0, k as int));
        assert(prefix.last() == replies@[k as int]);
        match &replies[k] {
            Some(p) => {
                if p.instance == payload.instance {
                    let same = p.seq == payload.seq && same_instances(&p.deps, &payload.deps);
                    let ghost after = before.push(*p);
                    assert(after.last() == *p);
                    assert(all_agree(after, payload@) == (all_agree(before, payload@) && agrees(
                        p@,
                        payload@,
                    ))) by {
                        if all_agree(before, payload@) && agrees(p@, payload@) {
                            assert forall|j: int| 0 <= j < after.len() implies agrees(
                                (#[trigger] after[j])@,
                                payload@,
                            ) by {
                                if j < before.len() {
                                    assert(after[j] == before[j]);
                                }
                            }
                        }
                        if !all_agree(before, payload@) {
                            let j = choose|j: int|
                                0 <= j < before.len() && !agrees((#[trigger] before[j])@, payload@);
                            assert(after[j] == before[j]);
                        }
                    }
                    votes = votes + 1;
                    if !same {
                        dissent = true;
                    }
                }
            },
            None => {},
        }
        k = k + 1;
    }
    assert(replies@.subrange(0, replies@.len() as int) == replies@);
    (votes, dissent)
}

/// Counts the Accept replies that acknowledge `inst`.
pub fn tally_accept(replies: &Vec<Option<AcceptOKPayload>>, inst: Instance) -> (r: usize)
    ensures
        r == acks_of(replies@, inst),
{
    let mut acks: usize = 0;
    let mut k: usize = 0;
    while k < replies.len()
        invariant
            k <= replies@.len(),
            acks == acks_of(replies@.subrange(0, k as int), inst),
            acks <= k,
        decreases replies@.len() - k,
    {
        let ghost prefix = replies@.subrange(0, k + 1);
        assert(prefix.drop_last() == replies@.subrange(0, k as int));
        assert(prefix.last() == replies@[k as int]);
        match &replies[k] {
            Some(a) => {
                if a.instance == inst {
                    acks = acks + 1;
                }
            },
            None => {},
        }
        k = k + 1;
    }
    assert(replies@.subrange(0, replies@.len() as int) == replies@);
    acks
}

/// Decides the round after the PreAccept phase. With the leader's own vote,
/// the round needs a fast quorum of agreeing votes to commit at once; a
/// slow quorum of votes sends it to the Accept phase with the merged
/// proposal (the unchanged proposal when all votes agreed); fewer votes fail
/// it. The leader's own log records the decision.
pub fn after_pre_accept(
    logic: &mut EpaxosLogic,
    config: &QuorumConfig,
    payload: &Payload,
    replies: Vec<Option<Payload>>,
) -> (r: RoundStep)
    requires
        old(logic).wf(),
        may_record(old(logic).log(), payload.instance, State::Committed) && payload.instance.replica
            == old(logic).id.0 ==> old(logic).instance_number < u32::MAX,
        config.wf(),
    ensures
        final(logic).wf(),
        final(logic).id == old(logic).id,
        ({
            let votes = votes_of(replies@, payload.instance);
            let n = votes.len() + 1;
            if n < config.slow_size() {
                &&& r is Abandon
                &&& final(logic).log() == old(logic).log()
                &&& final(logic).instance_number == old(logic).instance_number
            } else if n >= config.fast_size() && all_agree(votes, payload@) {
                &&& r is Commit
                &&& r->Commit_0@ == payload@
                &&& final(logic).log() == recorded(old(logic).log(), payload@, State::Committed)
                &&& final(logic).instance_number == counter_after_commit(
                    old(logic).log(),
                    old(logic).id,
                    old(logic).instance_number,
                    payload@,
                )
            } else {
                &&& r is Accept
                &&& if all_agree(votes, payload@) {
                    r->Accept_0@ == payload@
                } else {
                    merged(r->Accept_0@, votes, payload@)
                }
                &&& final(logic).log() == recorded(old(logic).log(), r->Accept_0@, State::Accepted)
                &&& final(logic).instance_number == old(logic).instance_number
            }
        }),
{
    let votes = collect_votes(replies, payload.instance);
    let n = votes.len();
    if n < config.slow_quorum_size() - 1 {
        return RoundStep::Abandon;
    }
    let fast_possible = n >= config.fast_quorum_size() - 1;
    match logic.decide_path(votes, payload) {
        Path::Fast(q) => {
            if fast_possible {
                logic.committed(q.clone());
                RoundStep::Commit(q)
            } else {
                logic.accepted(q.clone());
                RoundStep::Accept(q)
            }
        },
        Path::Slow(q) => {
            logic.accepted(q.clone());
            RoundStep::Accept(q)
        },
    }
}

/// Decides the round after the Accept phase: with the leader's own
/// acceptance, a slow quorum of acknowledgements commits the payload, in
/// the leader's log too; fewer fail the round.
pub fn after_accept(
    logic: &mut EpaxosLogic,
    config: &QuorumConfig,
    payload: &Payload,
    replies: Vec<Option<AcceptOKPayload>>,
) -> (r: RoundStep)
    requires
        old(logic).wf(),
        may_record(old(logic).log(), payload.instance, State::Committed) && payload.instance.replica
            == old(logic).id.0 ==> old(logic).instance_number < u32::MAX,
        config.wf(),
    ensures
        final(logic).wf(),
        final(logic).id == old(logic).id,
        if acks_of(replies@, payload.instance) + 1 >= config.slow_size() {
            &&& r is Commit
            &&& r->Commit_0@ == payload@
            &&& final(logic).log() == recorded(old(logic).log(), payload@, State::Committed)
            &&& final(logic).instance_number == counter_after_commit(
                old(logic).log(),
                old(logic).id,
                old(logic).instance_number,
                payload@,
            )
        } else {
            &&& r is Abandon
            &&& final(logic).log() == old(logic).log()
            &&& final(logic).instance_number == old(logic).instance_number
        },
{
    let acks = tally_accept(&replies, payload.instance);
    if acks >= config.slow_quorum_size() - 1 {
        logic.committed(payload.clone());
        RoundStep::Commit(payload.clone())
    } else {
        RoundStep::Abandon
    }
}


/// Handles a Commit from a command's leader: records it in the log and, when
/// it was recorded (the instance was not committed already), applies the
/// write to the store. A repeated Commit changes neither.
pub fn receive_commit(logic: &mut EpaxosLogic, store: &mut Store, commit_req: Commit)
    requires
        old(logic).wf(),
        old(store).wf(),
        may_record(old(logic).log(), commit_req.0.instance, State::Committed)
            && commit_req.0.instance.replica == old(logic).id.0 ==> old(logic).instance_number
            < u32::MAX,
    ensures
        final(logic).wf(),
        final(store).wf(),
        final(logic).id == old(logic).id,
        final(logic).log() == recorded(old(logic).log(), commit_req.0@, State::Committed),
        final(logic).instance_number == counter_after_commit(
            old(logic).log(),
            old(logic).id,
            old(logic).instance_number,
            commit_req.0@,
        ),
        final(store)@ == if may_record(old(logic).log(), commit_req.0.instance, State::Committed) {
            old(store)@.insert(commit_req.0.write_req.key@, commit_req.0.write_req.value)
        } else {
            old(store)@
        },
{
    let fresh = logic.can_record(&commit_req.0.instance, State::Committed);
    let write_req = commit_req.0.write_req.clone();
    logic.commit_(commit_req);
    if fresh {
        store.apply(&write_req);
    }
}

} // verus!
