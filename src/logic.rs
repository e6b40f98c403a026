//! The command log and the consensus engine of one replica.

use std::cmp::Ordering;
use crate::coordinator::QuorumConfig;
use vstd::prelude::*;

verus! {

/// Identifier of a replica.
#[derive(PartialEq, Eq, Hash, Clone, Copy, Debug, Structural)]
pub struct ReplicaId(pub u32);

/// A globally unique command identifier: the replica that proposed it and
/// the slot that replica assigned to it.
#[derive(PartialEq, Eq, Hash, Clone, Copy, Debug, Structural)]
pub struct Instance {
    pub replica: u32,
    pub slot: u32,
}

/// Order of instances: by replica, then by slot.
pub open spec fn inst_lt(a: Instance, b: Instance) -> bool {
    a.replica < b.replica || (a.replica == b.replica && a.slot < b.slot)
}

/// A sequence of instances in strictly increasing order, hence without repeats.
pub open spec fn sorted_strict(s: Seq<Instance>) -> bool {
    forall|i: int, j: int| 0 <= i < j < s.len() ==> inst_lt(#[trigger] s[i], #[trigger] s[j])
}

/// Compares two instances by `(replica, slot)`.
pub fn sort_instances(inst1: &Instance, inst2: &Instance) -> (r: Ordering)
    ensures
        r == Ordering::Less <==> inst_lt(*inst1, *inst2),
        r == Ordering::Equal <==> *inst1 == *inst2,
        r == Ordering::Greater <==> inst_lt(*inst2, *inst1),
{
    if inst1.replica < inst2.replica {
        Ordering::Less
    } else if inst1.replica > inst2.replica {
        Ordering::Greater
    } else if inst1.slot < inst2.slot {
        Ordering::Less
    } else if inst1.slot > inst2.slot {
        Ordering::Greater
    } else {
        Ordering::Equal
    }
}

/// A client write: store `value` under `key`.
#[derive(Debug)]
pub struct WriteRequest {
    pub key: String,
    pub value: i32,
}

/// The value of a `WriteRequest`.
pub struct WriteRequestView {
    pub key: Seq<char>,
    pub value: i32,
}

impl View for WriteRequest {
    type V = WriteRequestView;

    open spec fn view(&self) -> WriteRequestView {
        WriteRequestView { key: self.key@, value: self.value }
    }
}

impl Clone for WriteRequest {
    fn clone(&self) -> (r: Self)
        ensures
            r@ == self@,
    {
        WriteRequest { key: self.key.clone(), value: self.value }
    }
}

/// Answer to a client write: whether it was committed.
#[derive(Clone, Copy, Debug)]
pub struct WriteResponse {
    pub commit: bool,
}

/// A client read of `key`.
#[derive(Debug)]
pub struct ReadRequest {
    pub key: String,
}

impl Clone for ReadRequest {
    fn clone(&self) -> (r: Self)
        ensures
            r.key@ == self.key@,
    {
        ReadRequest { key: self.key.clone() }
    }
}

/// Answer to a client read.
#[derive(Clone, Copy, Debug)]
pub struct ReadResponse {
    pub value: i32,
}

/// Phase of a command in a replica's log. Transitions only go forward:
/// `PreAccepted`, then `Accepted`, then `Committed`.
#[derive(PartialEq, Eq, Clone, Copy, Debug, Structural)]
pub enum State {
    PreAccepted,
    Accepted,
    Committed,
}

/// The proposal exchanged in the PreAccept, Accept and Commit phases.
#[derive(Debug)]
pub struct Payload {
    pub write_req: WriteRequest,
    pub seq: u32,
    pub deps: Vec<Instance>,
    pub instance: Instance,
}

/// The value of a `Payload`.
pub struct PayloadView {
    pub write_req: WriteRequestView,
    pub seq: u32,
    pub deps: Seq<Instance>,
    pub instance: Instance,
}

impl View for Payload {
    type V = PayloadView;

    open spec fn view(&self) -> PayloadView {
        PayloadView {
            write_req: self.write_req@,
            seq: self.seq,
            deps: self.deps@,
            instance: self.instance,
        }
    }
}

/// A copy of a list of instances.
fn copy_instances(v: &Vec<Instance>) -> (r: Vec<Instance>)
    ensures
        r@ == v@,
{
    let mut r: Vec<Instance> = Vec::new();
    let mut k: usize = 0;
    while k < v.len()
        invariant
            k <= v@.len(),
            r@ == v@.subrange(0, k as int),
        decreases v@.len() - k,
    {
        r.push(v[k]);
        k = k + 1;
    }
    assert(r@ =~= v@);
    r
}

impl Clone for Payload {
    fn clone(&self) -> (r: Self)
        ensures
            r@ == self@,
    {
        Payload {
            write_req: self.write_req.clone(),
            seq: self.seq,
            deps: copy_instances(&self.deps),
            instance: self.instance,
        }
    }
}

/// A peer's acknowledgement of an Accept.
#[derive(Debug)]
pub struct AcceptOKPayload {
    pub write_req: WriteRequest,
    pub instance: Instance,
}

impl Clone for AcceptOKPayload {
    fn clone(&self) -> (r: Self)
        ensures
            r.write_req@ == self.write_req@,
            r.instance == self.instance,
    {
        AcceptOKPayload { write_req: self.write_req.clone(), instance: self.instance }
    }
}

/// One record of the command log.
#[derive(Debug)]
pub struct LogEntry {
    pub key: String,
    pub value: i32,
    pub seq: u32,
    pub deps: Vec<Instance>,
    pub state: State,
}

/// The value of a `LogEntry`.
pub struct LogEntryView {
    pub key: Seq<char>,
    pub value: i32,
    pub seq: u32,
    pub deps: Seq<Instance>,
    pub state: State,
}

impl View for LogEntry {
    type V = LogEntryView;

    open spec fn view(&self) -> LogEntryView {
        LogEntryView {
            key: self.key@,
            value: self.value,
            seq: self.seq,
            deps: self.deps@,
            state: self.state,
        }
    }
}

impl Clone for LogEntry {
    fn clone(&self) -> (r: Self)
        ensures
            r@ == self@,
    {
        LogEntry {
            key: self.key.clone(),
            value: self.value,
            seq: self.seq,
            deps: copy_instances(&self.deps),
            state: self.state,
        }
    }
}

/// The log record that a payload describes, in the given state.
pub open spec fn entry_of(p: PayloadView, state: State) -> LogEntryView {
    LogEntryView {
        key: p.write_req.key,
        value: p.write_req.value,
        seq: p.seq,
        deps: p.deps,
        state,
    }
}

/// Messages of the protocol, each carrying its payload.
pub struct PreAccept(pub Payload);

pub struct Accept(pub Payload);

pub struct Commit(pub Payload);

pub struct PreAcceptOK(pub Payload);

pub struct AcceptOK(pub AcceptOKPayload);

/// How a round proceeds after the PreAccept phase.
pub enum Path {
    Slow(Payload),
    Fast(Payload),
}

/// Whether `a` comes before `b`.
fn instance_lt(a: &Instance, b: &Instance) -> (r: bool)
    ensures
        r == inst_lt(*a, *b),
{
    matches!(sort_instances(a, b), Ordering::Less)
}

/// Adds `x` to a strictly ordered list, keeping it strictly ordered.
fn insert_sorted(v: &mut Vec<Instance>, x: Instance)
    requires
        sorted_strict(old(v)@),
    ensures
        sorted_strict(final(v)@),
        final(v)@.to_set() == old(v)@.to_set().insert(x),
{
    let mut p: usize = 0;
    while p < v.len() && instance_lt(&v[p], &x)
        invariant
            p <= v@.len(),
            forall|k: int| 0 <= k < p ==> inst_lt(#[trigger] v@[k], x),
        decreases v@.len() - p,
    {
        p = p + 1;
    }
    proof {
        assert(forall|k: int| p <= k < v@.len() ==> !inst_lt(#[trigger] v@[k], x)) by {
            assert forall|k: int| p <= k < v@.len() implies !inst_lt(#[trigger] v@[k], x) by {
                if p < v@.len() && p < k {
                    assert(inst_lt(v@[p as int], v@[k]));
                }
            }
        }
    }
    if p < v.len() && v[p] == x {
        assert(old(v)@.to_set().insert(x) =~= old(v)@.to_set()) by {
            assert(old(v)@.to_set().contains(x)) by {
                assert(old(v)@[p as int] == x);
            }
        }
        return;
    }
    let ghost before = v@;
    v.insert(p, x);
    proof {
        assert(v@ == before.insert(p as int, x));
        assert forall|i: int, j: int| 0 <= i < j < v@.len() implies inst_lt(
            #[trigger] v@[i],
            #[trigger] v@[j],
        ) by {
            if i < p && j == p {
            } else if i == p && j > p {
                assert(!inst_lt(before[j - 1], x));
                assert(before[j - 1] != x) by {
                    if j - 1 > p {
                        assert(inst_lt(before[p as int], before[j - 1]));
                    }
                }
            } else if j < p {
                assert(v@[i] == before[i] && v@[j] == before[j]);
            } else if i < p && j > p {
                assert(v@[i] == before[i] && v@[j] == before[j - 1]);
            } else {
                assert(v@[i] == before[i - 1] && v@[j] == before[j - 1]);
            }
        }
        assert(v@.to_set() =~= before.to_set().insert(x)) by {
            assert forall|y: Instance| v@.to_set().contains(y) implies before.to_set().insert(
                x,
            ).contains(y) by {
                let k = choose|k: int| 0 <= k < v@.len() && v@[k] == y;
                if k < p {
                    assert(before[k] == y);
                } else if k > p {
                    assert(before[k - 1] == y);
                }
            }
            assert forall|y: Instance| before.to_set().insert(x).contains(y) implies v@.to_set().contains(
                y,
            ) by {
                if y == x {
                    assert(v@[p as int] == x);
                } else {
                    let k = choose|k: int| 0 <= k < before.len() && before[k] == y;
                    if k < p {
                        assert(v@[k] == y);
                    } else {
                        assert(v@[k + 1] == y);
                    }
                }
            }
        }
    }
}

/// The union of two lists of instances, strictly ordered and without
/// repeats.
fn merge_instances(deps1: &Vec<Instance>, deps2: &Vec<Instance>) -> (r: Vec<Instance>)
    ensures
        sorted_strict(r@),
        r@.to_set() == deps1@.to_set() + deps2@.to_set(),
{
    let mut r: Vec<Instance> = Vec::new();
    let mut k: usize = 0;
    assert(r@.to_set() =~= Set::<Instance>::empty());
    while k < deps1.len()
        invariant
            k <= deps1@.len(),
            sorted_strict(r@),
            r@.to_set() == deps1@.subrange(0, k as int).to_set(),
        decreases deps1@.len() - k,
    {
        insert_sorted(&mut r, deps1[k]);
        assert(deps1@.subrange(0, k + 1).to_set() =~= deps1@.subrange(0, k as int).to_set().insert(
            deps1@[k as int],
        )) by {
            assert(deps1@.subrange(0, k + 1) == deps1@.subrange(0, k as int).push(deps1@[k as int]));
            deps1@.subrange(0, k as int).lemma_push_to_set_commute(deps1@[k as int]);
        }
        k = k + 1;
    }
    assert(deps1@.subrange(0, deps1@.len() as int) == deps1@);
    let mut k: usize = 0;
    while k < deps2.len()
        invariant
            k <= deps2@.len(),
            sorted_strict(r@),
            r@.to_set() == deps1@.to_set() + deps2@.subrange(0, k as int).to_set(),
        decreases deps2@.len() - k,
    {
        insert_sorted(&mut r, deps2[k]);
        assert(deps2@.subrange(0, k + 1).to_set() =~= deps2@.subrange(0, k as int).to_set().insert(
            deps2@[k as int],
        )) by {
            assert(deps2@.subrange(0, k + 1) == deps2@.subrange(0, k as int).push(deps2@[k as int]));
            deps2@.subrange(0, k as int).lemma_push_to_set_commute(deps2@[k as int]);
        }
        assert(r@.to_set() =~= deps1@.to_set() + deps2@.subrange(0, k + 1).to_set());
        k = k + 1;
    }
    assert(deps2@.subrange(0, deps2@.len() as int) == deps2@);
    r
}


/// The log held as a sequence of `(instance, record)` pairs: the record of
/// each instance that appears in it.
pub open spec fn log_of(s: Seq<(Instance, LogEntry)>) -> Map<Instance, LogEntryView> {
    Map::new(
        |i: Instance| exists|k: int| 0 <= k < s.len() && (#[trigger] s[k]).0 == i,
        |i: Instance| s[choose|k: int| 0 <= k < s.len() && (#[trigger] s[k]).0 == i].1@,
    )
}

/// The pairs are strictly ordered by instance.
pub open spec fn log_ordered(s: Seq<(Instance, LogEntry)>) -> bool {
    forall|i: int, j: int| 0 <= i < j < s.len() ==> inst_lt((#[trigger] s[i]).0, (#[trigger] s[j]).0)
}

proof fn lemma_log_at(s: Seq<(Instance, LogEntry)>, k: int)
    requires
        log_ordered(s),
        0 <= k < s.len(),
    ensures
        log_of(s).contains_key(s[k].0),
        log_of(s)[s[k].0] == s[k].1@,
{
    let i = s[k].0;
    assert(exists|m: int| 0 <= m < s.len() && (#[trigger] s[m]).0 == i);
    let m = choose|m: int| 0 <= m < s.len() && (#[trigger] s[m]).0 == i;
    if m < k {
        assert(inst_lt(s[m].0, s[k].0));
    } else if m > k {
        assert(inst_lt(s[k].0, s[m].0));
    }
}

/// Rank of a state in the forward order of phases.
pub open spec fn rank(s: State) -> int {
    match s {
        State::PreAccepted => 0,
        State::Accepted => 1,
        State::Committed => 2,
    }
}

/// Whether a record in `state` may replace what `log` holds for `i`: it
/// never moves the instance backwards, and a committed record is final.
pub open spec fn may_record(log: Map<Instance, LogEntryView>, i: Instance, state: State) -> bool {
    !log.contains_key(i) || (log[i].state != State::Committed && rank(log[i].state) <= rank(state))
}

/// The largest `seq` among the records of `s`, 0 for none.
pub open spec fn max_seq(log: Map<Instance, LogEntryView>, s: Seq<Instance>) -> u32
    decreases s.len(),
{
    if s.len() == 0 {
        0
    } else {
        let m = max_seq(log, s.drop_last());
        let x = log[s.last()].seq;
        if x > m {
            x
        } else {
            m
        }
    }
}

/// One more than `m`, held at the largest `u32`.
pub open spec fn next_seq(m: u32) -> u32 {
    if m < u32::MAX {
        (m + 1) as u32
    } else {
        m
    }
}

/// The instances of `log` whose command is on `key`.
pub open spec fn interferes(log: Map<Instance, LogEntryView>, key: Seq<char>, i: Instance) -> bool {
    log.contains_key(i) && log[i].key == key
}

/// The instances a command at `own` on `key` must be ordered after: those of
/// `log` on the same key, the command itself left out.
pub open spec fn conflicts(
    log: Map<Instance, LogEntryView>,
    key: Seq<char>,
    own: Instance,
    i: Instance,
) -> bool {
    interferes(log, key, i) && i != own
}

proof fn lemma_max_seq_bounds(log: Map<Instance, LogEntryView>, s: Seq<Instance>)
    ensures
        forall|k: int| 0 <= k < s.len() ==> log[#[trigger] s[k]].seq <= max_seq(log, s),
        max_seq(log, s) == 0 || exists|k: int| 0 <= k < s.len() && log[#[trigger] s[k]].seq == max_seq(log, s),
    decreases s.len(),
{
    if s.len() > 0 {
        lemma_max_seq_bounds(log, s.drop_last());
        let m = max_seq(log, s.drop_last());
        if log[s.last()].seq <= m && m != 0 {
            let k = choose|k: int| 0 <= k < s.drop_last().len() && log[#[trigger] s.drop_last()[k]].seq == m;
            assert(s[k] == s.drop_last()[k]);
        }
        assert forall|k: int| 0 <= k < s.len() implies log[#[trigger] s[k]].seq <= max_seq(
            log,
            s,
        ) by {
            if k < s.len() - 1 {
                assert(s[k] == s.drop_last()[k]);
            }
        }
    }
}

/// The log after a message that carries `p` in `state`.
pub open spec fn recorded(log: Map<Instance, LogEntryView>, p: PayloadView, state: State) -> Map<
    Instance,
    LogEntryView,
> {
    if may_record(log, p.instance, state) {
        log.insert(p.instance, entry_of(p, state))
    } else {
        log
    }
}

/// The slot counter after a commit of `p`: it moves on when a record of this
/// replica's own instance becomes committed.
pub open spec fn counter_after_commit(
    log: Map<Instance, LogEntryView>,
    id: ReplicaId,
    counter: u32,
    p: PayloadView,
) -> u32 {
    if may_record(log, p.instance, State::Committed) && p.instance.replica == id.0 {
        (counter + 1) as u32
    } else {
        counter
    }
}

/// `m` is the largest `seq` among the records that conflict with a command
/// at `own` on `key`, 0 for none.
pub open spec fn highest_conflicting_seq(
    log: Map<Instance, LogEntryView>,
    key: Seq<char>,
    own: Instance,
    m: u32,
) -> bool {
    &&& forall|i: Instance| #[trigger] conflicts(log, key, own, i) ==> log[i].seq <= m
    &&& (m == 0 || exists|i: Instance| #[trigger] conflicts(log, key, own, i) && log[i].seq == m)
}

/// The largest `seq` among the records that conflict with a command at
/// `own` on `key`, 0 for none.
pub open spec fn interf_seq(log: Map<Instance, LogEntryView>, key: Seq<char>, own: Instance) -> u32 {
    choose|m: u32| highest_conflicting_seq(log, key, own, m)
}

proof fn lemma_interf_seq(
    log: Map<Instance, LogEntryView>,
    key: Seq<char>,
    own: Instance,
    s: Seq<Instance>,
)
    requires
        forall|i: Instance| s.contains(i) <==> conflicts(log, key, own, i),
    ensures
        highest_conflicting_seq(log, key, own, max_seq(log, s)),
        interf_seq(log, key, own) == max_seq(log, s),
{
    let m = max_seq(log, s);
    lemma_max_seq_bounds(log, s);
    assert forall|i: Instance| #[trigger] conflicts(log, key, own, i) implies log[i].seq <= m by {
        assert(s.contains(i));
        let k = choose|k: int| 0 <= k < s.len() && s[k] == i;
        assert(log[s[k]].seq <= m);
    }
    if m != 0 {
        let k = choose|k: int| 0 <= k < s.len() && log[#[trigger] s[k]].seq == m;
        assert(s.contains(s[k]));
        assert(conflicts(log, key, own, s[k]));
    }
    assert(highest_conflicting_seq(log, key, own, m));
    let c = interf_seq(log, key, own);
    assert(highest_conflicting_seq(log, key, own, c));
    if c != m {
        if c != 0 {
            let i = choose|i: Instance| #[trigger] conflicts(log, key, own, i) && log[i].seq == c;
            assert(c <= m);
        }
        if m != 0 {
            let i = choose|i: Instance| #[trigger] conflicts(log, key, own, i) && log[i].seq == m;
            assert(m <= c);
        }
    }
}

/// What leading a write `w` at instance `inst` yields: the proposal `q`,
/// which depends on every other recorded instance on the same key and is
/// ordered after all of them, and the log `new_log` that records it as
/// `PreAccepted`.
pub open spec fn lead_post(
    log: Map<Instance, LogEntryView>,
    inst: Instance,
    w: WriteRequestView,
    q: PayloadView,
    new_log: Map<Instance, LogEntryView>,
) -> bool {
    &&& q.instance == inst
    &&& q.write_req == w
    &&& sorted_strict(q.deps)
    &&& forall|i: Instance| q.deps.contains(i) <==> conflicts(log, w.key, inst, i)
    &&& highest_conflicting_seq(log, w.key, inst, interf_seq(log, w.key, inst))
    &&& q.seq == next_seq(interf_seq(log, w.key, inst))
    &&& new_log == log.insert(inst, entry_of(q, State::PreAccepted))
}

/// What processing a PreAccept of `p` yields: the reply `q`, whose
/// dependencies are the leader's together with every other local instance
/// on the same key and whose `seq` is the larger of the leader's and one past the
/// local ones, and the log `new_log`.
pub open spec fn pre_accept_post(
    log: Map<Instance, LogEntryView>,
    p: PayloadView,
    q: PayloadView,
    new_log: Map<Instance, LogEntryView>,
) -> bool {
    let local = next_seq(interf_seq(log, p.write_req.key, p.instance));
    &&& q.write_req == p.write_req
    &&& q.instance == p.instance
    &&& sorted_strict(q.deps)
    &&& forall|i: Instance|
        q.deps.contains(i) <==> (p.deps.contains(i) || conflicts(
            log,
            p.write_req.key,
            p.instance,
            i,
        ))
    &&& highest_conflicting_seq(log, p.write_req.key, p.instance, interf_seq(log, p.write_req.key, p.instance))
    &&& q.seq == if p.seq > local {
        p.seq
    } else {
        local
    }
    &&& new_log == recorded(log, q, State::PreAccepted)
}

/// A reply agrees with a proposal when it carries the same `seq` and the
/// same `deps`.
pub open spec fn agrees(r: PayloadView, p: PayloadView) -> bool {
    r.seq == p.seq && r.deps == p.deps
}

pub open spec fn all_agree(rs: Seq<Payload>, p: PayloadView) -> bool {
    forall|k: int| 0 <= k < rs.len() ==> agrees((#[trigger] rs[k])@, p)
}

/// The largest `seq` among `base` and the replies.
pub open spec fn seq_seen(rs: Seq<Payload>, base: u32) -> u32
    decreases rs.len(),
{
    if rs.len() == 0 {
        base
    } else {
        let m = seq_seen(rs.drop_last(), base);
        if rs.last().seq > m {
            rs.last().seq
        } else {
            m
        }
    }
}

/// `base` together with the dependencies of every reply.
pub open spec fn deps_seen(rs: Seq<Payload>, base: Set<Instance>) -> Set<Instance>
    decreases rs.len(),
{
    if rs.len() == 0 {
        base
    } else {
        deps_seen(rs.drop_last(), base) + rs.last().deps@.to_set()
    }
}

/// The slow-path proposal after the replies `rs` to `p`: the same command
/// and instance, the largest `seq` seen, and every dependency seen, in
/// instance order.
pub open spec fn merged(q: PayloadView, rs: Seq<Payload>, p: PayloadView) -> bool {
    &&& q.write_req == p.write_req
    &&& q.instance == p.instance
    &&& q.seq == seq_seen(rs, p.seq)
    &&& sorted_strict(q.deps)
    &&& q.deps.to_set() == deps_seen(rs, p.deps.to_set())
}

/// Whether two lists of instances are equal.
pub(crate) fn same_instances(a: &Vec<Instance>, b: &Vec<Instance>) -> (r: bool)
    ensures
        r == (a@ == b@),
{
    if a.len() != b.len() {
        return false;
    }
    let mut k: usize = 0;
    while k < a.len()
        invariant
            a@.len() == b@.len(),
            k <= a@.len(),
            a@.subrange(0, k as int) == b@.subrange(0, k as int),
        decreases a@.len() - k,
    {
        if a[k] != b[k] {
            assert(a@[k as int] != b@[k as int]);
            return false;
        }
        assert(a@.subrange(0, k + 1) =~= a@.subrange(0, k as int).push(a@[k as int]));
        assert(b@.subrange(0, k + 1) =~= b@.subrange(0, k as int).push(b@[k as int]));
        k = k + 1;
    }
    assert(a@ =~= a@.subrange(0, k as int));
    assert(b@ =~= b@.subrange(0, k as int));
    true
}

/// The instances of a strictly ordered list other than `x`, still in order.
fn without(v: &Vec<Instance>, x: Instance) -> (r: Vec<Instance>)
    requires
        sorted_strict(v@),
    ensures
        sorted_strict(r@),
        forall|i: Instance| r@.contains(i) <==> (v@.contains(i) && i != x),
{
    let mut r: Vec<Instance> = Vec::new();
    let mut k: usize = 0;
    while k < v.len()
        invariant
            sorted_strict(v@),
            k <= v@.len(),
            sorted_strict(r@),
            forall|j: int, m: int|
                0 <= j < r@.len() && k <= m < v@.len() ==> inst_lt(#[trigger] r@[j], #[trigger] v@[m]),
            forall|i: Instance| r@.contains(i) <==> (v@.subrange(0, k as int).contains(i) && i != x),
        decreases v@.len() - k,
    {
        let ghost before = r@;
        let ghost pre = v@.subrange(0, k as int);
        let ghost post = v@.subrange(0, k + 1);
        assert(post == pre.push(v@[k as int]));
        assert forall|i: Instance| post.contains(i) <==> (pre.contains(i) || i == v@[k as int]) by {
            if post.contains(i) {
                let j = choose|j: int| 0 <= j < post.len() && post[j] == i;
                if j < k {
                    assert(pre[j] == i);
                }
            }
            if pre.contains(i) {
                let j = choose|j: int| 0 <= j < pre.len() && pre[j] == i;
                assert(post[j] == i);
            }
            if i == v@[k as int] {
                assert(post[k as int] == i);
            }
        }
        if v[k] != x {
            r.push(v[k]);
            assert forall|i: Instance| r@.contains(i) <==> (before.contains(i) || i == v@[k as int]) by {
                if r@.contains(i) {
                    let j = choose|j: int| 0 <= j < r@.len() && r@[j] == i;
                    if j < before.len() {
                        assert(before[j] == i);
                    }
                }
                if before.contains(i) {
                    let j = choose|j: int| 0 <= j < before.len() && before[j] == i;
                    assert(r@[j] == i);
                }
                if i == v@[k as int] {
                    assert(r@[before.len() as int] == i);
                }
            }
            assert forall|j: int, m: int|
                0 <= j < r@.len() && k + 1 <= m < v@.len() implies inst_lt(
                #[trigger] r@[j],
                #[trigger] v@[m],
            ) by {
                if j == before.len() {
                    assert(inst_lt(v@[k as int], v@[m]));
                } else {
                    assert(r@[j] == before[j]);
                }
            }
        }
        assert forall|i: Instance| r@.contains(i) <==> (post.contains(i) && i != x) by {
            assert(before.contains(i) <==> (pre.contains(i) && i != x));
            assert(post.contains(i) <==> (pre.contains(i) || i == v@[k as int]));
        }
        k = k + 1;
    }
    assert(v@.subrange(0, v@.len() as int) == v@);
    r
}

/// The consensus state of one replica: its identity, its command log, and
/// the next slot it will lead.
pub struct EpaxosLogic {
    pub id: ReplicaId,
    pub cmds: Vec<(Instance, LogEntry)>,
    pub instance_number: u32,
}

impl EpaxosLogic {
    /// The log: for each instance recorded, its record.
    pub open spec fn log(&self) -> Map<Instance, LogEntryView> {
        log_of(self.cmds@)
    }

    /// Well-formed: one record per instance, held in instance order.
    pub open spec fn wf(&self) -> bool {
        log_ordered(self.cmds@)
    }

    /// The instance this replica leads next.
    pub open spec fn next_instance(&self) -> Instance {
        Instance { replica: self.id.0, slot: self.instance_number }
    }

    /// A replica with an empty log that will lead slot 0 next.
    pub fn init(id: ReplicaId) -> (r: EpaxosLogic)
        ensures
            r.wf(),
            r.id == id,
            r.instance_number == 0,
            r.log() == Map::<Instance, LogEntryView>::empty(),
    {
        let r = EpaxosLogic { id: id, cmds: Vec::new(), instance_number: 0 };
        assert(r.log() =~= Map::<Instance, LogEntryView>::empty());
        r
    }

    /// Position of the first pair not before `instance`.
    fn position(&self, instance: &Instance) -> (p: usize)
        requires
            self.wf(),
        ensures
            p <= self.cmds@.len(),
            forall|k: int| 0 <= k < p ==> inst_lt((#[trigger] self.cmds@[k]).0, *instance),
            forall|k: int| p <= k < self.cmds@.len() ==> !inst_lt((#[trigger] self.cmds@[k]).0, *instance),
    {
        let mut p: usize = 0;
        while p < self.cmds.len() && instance_lt(&self.cmds[p].0, instance)
            invariant
                p <= self.cmds@.len(),
                forall|k: int| 0 <= k < p ==> inst_lt((#[trigger] self.cmds@[k]).0, *instance),
            decreases self.cmds@.len() - p,
        {
            p = p + 1;
        }
        assert forall|k: int| p <= k < self.cmds@.len() implies !inst_lt(
            (#[trigger] self.cmds@[k]).0,
            *instance,
        ) by {
            if p < k {
                assert(inst_lt(self.cmds@[p as int].0, self.cmds@[k].0));
            }
        }
        p
    }

    /// The record of `instance`, if the log holds one.
    pub fn entry(&self, instance: &Instance) -> (r: Option<&LogEntry>)
        requires
            self.wf(),
        ensures
            r.is_some() == self.log().contains_key(*instance),
            r.is_some() ==> r.unwrap()@ == self.log()[*instance],
    {
        let p = self.position(instance);
        if p < self.cmds.len() && self.cmds[p].0 == *instance {
            proof {
                lemma_log_at(self.cmds@, p as int);
            }
            Some(&self.cmds[p].1)
        } else {
            proof {
                if self.log().contains_key(*instance) {
                    let k = choose|k: int|
                        0 <= k < self.cmds@.len() && (#[trigger] self.cmds@[k]).0 == *instance;
                    if k < p {
                        assert(inst_lt(self.cmds@[k].0, *instance));
                    } else if k > p {
                        assert(inst_lt(self.cmds@[p as int].0, self.cmds@[k].0));
                    }
                }
            }
            None
        }
    }

    /// Stores `log_entry` as the record of `instance`, replacing any record
    /// it had.
    pub fn update_log(&mut self, log_entry: LogEntry, instance: &Instance)
        requires
            old(self).wf(),
        ensures
            final(self).wf(),
            final(self).log() == old(self).log().insert(*instance, log_entry@),
            final(self).id == old(self).id,
            final(self).instance_number == old(self).instance_number,
    {
        let ghost e = log_entry@;
        let p = self.position(instance);
        let ghost before = self.cmds@;
        if p < self.cmds.len() && self.cmds[p].0 == *instance {
            self.cmds.set(p, (*instance, log_entry));
            proof {
                let after = self.cmds@;
                assert(log_ordered(after)) by {
                    assert forall|i: int, j: int| 0 <= i < j < after.len() implies inst_lt(
                        (#[trigger] after[i]).0,
                        (#[trigger] after[j]).0,
                    ) by {
                        assert(before[i].0 == after[i].0 && before[j].0 == after[j].0);
                    }
                }
                self.lemma_replaced(before, p as int, e);
            }
        } else {
            self.cmds.insert(p, (*instance, log_entry));
            proof {
                self.lemma_inserted(before, p as int, e);
            }
        }
    }

    proof fn lemma_replaced(&self, before: Seq<(Instance, LogEntry)>, p: int, e: LogEntryView)
        requires
            log_ordered(before),
            log_ordered(self.cmds@),
            0 <= p < before.len(),
            self.cmds@ == before.update(p, (before[p].0, self.cmds@[p].1)),
            self.cmds@[p].1@ == e,
        ensures
            log_of(self.cmds@) == log_of(before).insert(before[p].0, e),
    {
        let after = self.cmds@;
        let i0 = before[p].0;
        assert forall|i: Instance| #[trigger] log_of(after).contains_key(i) <==> log_of(
            before,
        ).insert(i0, e).contains_key(i) by {
            if log_of(after).contains_key(i) {
                let k = choose|k: int| 0 <= k < after.len() && (#[trigger] after[k]).0 == i;
                assert(before[k].0 == i);
            }
            if log_of(before).contains_key(i) {
                let k = choose|k: int| 0 <= k < before.len() && (#[trigger] before[k]).0 == i;
                assert(after[k].0 == i);
            }
            if i == i0 {
                assert(after[p].0 == i);
            }
        }
        assert forall|i: Instance| #[trigger] log_of(after).contains_key(i) implies log_of(after)[i]
            == log_of(before).insert(i0, e)[i] by {
            let k = choose|k: int| 0 <= k < after.len() && (#[trigger] after[k]).0 == i;
            lemma_log_at(after, k);
            if k != p {
                lemma_log_at(before, k);
                assert(before[k].0 == i);
                assert(i != i0) by {
                    if k < p {
                        assert(inst_lt(before[k].0, before[p].0));
                    } else {
                        assert(inst_lt(before[p].0, before[k].0));
                    }
                }
            }
        }
        assert(log_of(after) =~= log_of(before).insert(i0, e));
    }

    proof fn lemma_inserted(&self, before: Seq<(Instance, LogEntry)>, p: int, e: LogEntryView)
        requires
            log_ordered(before),
            0 <= p <= before.len(),
            forall|k: int| 0 <= k < p ==> inst_lt((#[trigger] before[k]).0, self.cmds@[p].0),
            forall|k: int| p <= k < before.len() ==> !inst_lt((#[trigger] before[k]).0, self.cmds@[p].0),
            p < before.len() ==> before[p].0 != self.cmds@[p].0,
            self.cmds@ == before.insert(p, self.cmds@[p]),
            self.cmds@[p].1@ == e,
        ensures
            log_ordered(self.cmds@),
            log_of(self.cmds@) == log_of(before).insert(self.cmds@[p].0, e),
    {
        let after = self.cmds@;
        let x = after[p].0;
        assert forall|i: int, j: int| 0 <= i < j < after.len() implies inst_lt(
            (#[trigger] after[i]).0,
            (#[trigger] after[j]).0,
        ) by {
            if i < p && j == p {
            } else if i == p && j > p {
                assert(!inst_lt(before[j - 1].0, x));
                assert(before[j - 1].0 != x) by {
                    if j - 1 > p {
                        assert(inst_lt(before[p].0, before[j - 1].0));
                    }
                }
            } else if j < p {
                assert(after[i] == before[i] && after[j] == before[j]);
            } else if i < p && j > p {
                assert(after[i] == before[i] && after[j] == before[j - 1]);
            } else {
                assert(after[i] == before[i - 1] && after[j] == before[j - 1]);
            }
        }
        assert forall|i: Instance| #[trigger] log_of(after).contains_key(i) <==> log_of(
            before,
        ).insert(x, e).contains_key(i) by {
            if log_of(after).contains_key(i) {
                let k = choose|k: int| 0 <= k < after.len() && (#[trigger] after[k]).0 == i;
                if k < p {
                    assert(before[k].0 == i);
                } else if k > p {
                    assert(before[k - 1].0 == i);
                }
            }
            if log_of(before).contains_key(i) {
                let k = choose|k: int| 0 <= k < before.len() && (#[trigger] before[k]).0 == i;
                if k < p {
                    assert(after[k].0 == i);
                } else {
                    assert(after[k + 1].0 == i);
                }
            }
            if i == x {
                assert(after[p].0 == i);
            }
        }
        assert forall|i: Instance| #[trigger] log_of(after).contains_key(i) implies log_of(after)[i]
            == log_of(before).insert(x, e)[i] by {
            let k = choose|k: int| 0 <= k < after.len() && (#[trigger] after[k]).0 == i;
            lemma_log_at(after, k);
            if k < p {
                lemma_log_at(before, k);
                assert(after[k] == before[k]);
                assert(inst_lt(after[k].0, after[p].0));
            } else if k > p {
                lemma_log_at(before, k - 1);
                assert(after[k] == before[k - 1]);
                assert(inst_lt(after[p].0, after[k].0));
            }
        }
        assert(log_of(after) =~= log_of(before).insert(x, e));
    }

    /// The instances whose command is on `key`, in instance order.
    pub fn find_interference(&self, key: &String) -> (r: Vec<Instance>)
        requires
            self.wf(),
        ensures
            sorted_strict(r@),
            forall|i: Instance| r@.contains(i) <==> interferes(self.log(), key@, i),
    {
        let mut interf: Vec<Instance> = Vec::new();
        let mut k: usize = 0;
        while k < self.cmds.len()
            invariant
                self.wf(),
                k <= self.cmds@.len(),
                sorted_strict(interf@),
                forall|j: int, m: int|
                    0 <= j < interf@.len() && k <= m < self.cmds@.len() ==> inst_lt(
                        #[trigger] interf@[j],
                        (#[trigger] self.cmds@[m]).0,
                    ),
                forall|i: Instance|
                    interf@.contains(i) <==> exists|m: int|
                        0 <= m < k && (#[trigger] self.cmds@[m]).0 == i && self.cmds@[m].1.key@
                            == key@,
            decreases self.cmds@.len() - k,
        {
            if self.cmds[k].1.key == *key {
                let ghost old_interf = interf@;
                interf.push(self.cmds[k].0);
                proof {
                    assert forall|i: Instance| interf@.contains(i) <==> exists|m: int|
                        0 <= m < k + 1 && (#[trigger] self.cmds@[m]).0 == i && self.cmds@[m].1.key@
                            == key@ by {
                        if interf@.contains(i) {
                            let j = choose|j: int| 0 <= j < interf@.len() && interf@[j] == i;
                            if j < old_interf.len() {
                                assert(old_interf.contains(i));
                            }
                        }
                        if exists|m: int|
                            0 <= m < k + 1 && (#[trigger] self.cmds@[m]).0 == i
                                && self.cmds@[m].1.key@ == key@ {
                            let m = choose|m: int|
                                0 <= m < k + 1 && (#[trigger] self.cmds@[m]).0 == i
                                    && self.cmds@[m].1.key@ == key@;
                            if m < k {
                                assert(self.cmds@[m].0 == i && self.cmds@[m].1.key@ == key@);
                                assert(old_interf.contains(i));
                                let j = choose|j: int|
                                    0 <= j < old_interf.len() && old_interf[j] == i;
                                assert(interf@[j] == i);
                            } else {
                                assert(interf@[old_interf.len() as int] == i);
                            }
                        }
                    }
                    assert forall|j: int, m: int|
                        0 <= j < interf@.len() && k + 1 <= m < self.cmds@.len() implies inst_lt(
                        #[trigger] interf@[j],
                        (#[trigger] self.cmds@[m]).0,
                    ) by {
                        if j == old_interf.len() {
                            assert(inst_lt(self.cmds@[k as int].0, self.cmds@[m].0));
                        } else {
                            assert(interf@[j] == old_interf[j]);
                        }
                    }
                }
            } else {
                proof {
                    assert forall|i: Instance| interf@.contains(i) <==> exists|m: int|
                        0 <= m < k + 1 && (#[trigger] self.cmds@[m]).0 == i && self.cmds@[m].1.key@
                            == key@ by {
                        if exists|m: int|
                            0 <= m < k + 1 && (#[trigger] self.cmds@[m]).0 == i
                                && self.cmds@[m].1.key@ == key@ {
                            let m = choose|m: int|
                                0 <= m < k + 1 && (#[trigger] self.cmds@[m]).0 == i
                                    && self.cmds@[m].1.key@ == key@;
                            assert(m < k);
                        }
                    }
                }
            }
            k = k + 1;
        }
        proof {
            assert forall|i: Instance| interf@.contains(i) <==> interferes(self.log(), key@, i) by {
                if interf@.contains(i) {
                    let m = choose|m: int|
                        0 <= m < self.cmds@.len() && (#[trigger] self.cmds@[m]).0 == i
                            && self.cmds@[m].1.key@ == key@;
                    lemma_log_at(self.cmds@, m);
                }
                if interferes(self.log(), key@, i) {
                    let m = choose|m: int|
                        0 <= m < self.cmds@.len() && (#[trigger] self.cmds@[m]).0 == i;
                    lemma_log_at(self.cmds@, m);
                }
            }
        }
        interf
    }

    /// The instances a command at `own` on `key` must be ordered after: those
    /// on the same key, the command itself left out, in instance order.
    pub fn find_conflicts(&self, key: &String, own: &Instance) -> (r: Vec<Instance>)
        requires
            self.wf(),
        ensures
            sorted_strict(r@),
            forall|i: Instance| r@.contains(i) <==> conflicts(self.log(), key@, *own, i),
            forall|k: int| 0 <= k < r@.len() ==> self.log().contains_key(#[trigger] r@[k]),
    {
        let interf = self.find_interference(key);
        let r = without(&interf, *own);
        assert forall|k: int| 0 <= k < r@.len() implies self.log().contains_key(#[trigger] r@[k]) by {
            assert(r@.contains(r@[k]));
        }
        r
    }

    /// The largest `seq` among the records of `interf`, 0 for none.
    pub fn find_max_seq(&self, interf: &Vec<Instance>) -> (r: u32)
        requires
            self.wf(),
            forall|k: int| 0 <= k < interf@.len() ==> self.log().contains_key(#[trigger] interf@[k]),
        ensures
            r == max_seq(self.log(), interf@),
    {
        let mut seq: u32 = 0;
        let mut k: usize = 0;
        while k < interf.len()
            invariant
                self.wf(),
                k <= interf@.len(),
                forall|j: int| 0 <= j < interf@.len() ==> self.log().contains_key(#[trigger] interf@[j]),
                seq == max_seq(self.log(), interf@.subrange(0, k as int)),
            decreases interf@.len() - k,
        {
            let e = self.entry(&interf[k]);
            let interf_seq = e.unwrap().seq;
            assert(interf@.subrange(0, k + 1).drop_last() == interf@.subrange(0, k as int));
            if interf_seq > seq {
                seq = interf_seq;
            }
            k = k + 1;
        }
        assert(interf@.subrange(0, interf@.len() as int) == interf@);
        seq
    }

    /// Whether a message in `state` for `instance` would be recorded: it
    /// would not move the instance backwards nor change a committed record.
    pub fn can_record(&self, instance: &Instance, state: State) -> (r: bool)
        requires
            self.wf(),
        ensures
            r == may_record(self.log(), *instance, state),
    {
        match self.entry(instance) {
            None => true,
            Some(e) => state_rank(e.state) < 2 && state_rank(e.state) <= state_rank(state),
        }
    }

    /// Stores `log_entry` for `instance` unless that would move the instance
    /// backwards or change a committed record; says whether it stored it.
    fn record(&mut self, log_entry: LogEntry, instance: &Instance) -> (written: bool)
        requires
            old(self).wf(),
        ensures
            final(self).wf(),
            written == may_record(old(self).log(), *instance, log_entry.state),
            final(self).log() == if written {
                old(self).log().insert(*instance, log_entry@)
            } else {
                old(self).log()
            },
            final(self).id == old(self).id,
            final(self).instance_number == old(self).instance_number,
    {
        let allowed = self.can_record(instance, log_entry.state);
        if allowed {
            self.update_log(log_entry, instance);
        }
        allowed
    }

    /// Proposes a client write: picks the next local slot, takes as
    /// dependencies every other recorded instance on the same key, orders the
    /// command after all of them, and records it as `PreAccepted`.
    pub fn lead_consensus(&mut self, write_req: WriteRequest) -> (r: Payload)
        requires
            old(self).wf(),
        ensures
            final(self).wf(),
            lead_post(old(self).log(), old(self).next_instance(), write_req@, r@, final(self).log()),
            final(self).id == old(self).id,
            final(self).instance_number == old(self).instance_number,
    {
        let slot = self.instance_number;
        let instance = Instance { replica: self.id.0, slot: slot };
        let interf = self.find_conflicts(&write_req.key, &instance);
        let m = self.find_max_seq(&interf);
        proof {
            lemma_interf_seq(self.log(), write_req.key@, instance, interf@);
        }
        let seq = if m < u32::MAX {
            m + 1
        } else {
            m
        };
        let log_entry = LogEntry {
            key: write_req.key.clone(),
            value: write_req.value,
            seq: seq,
            deps: copy_instances(&interf),
            state: State::PreAccepted,
        };
        self.update_log(log_entry, &instance);
        Payload { write_req: write_req, seq: seq, deps: interf, instance: instance }
    }

    /// Handles a PreAccept from the command's leader: orders the command
    /// after every other local instance on the same key, takes the union of those
    /// and the leader's dependencies, and records it as `PreAccepted` under
    /// the leader's instance. The reply carries the updated `seq` and `deps`.
    pub fn pre_accept_(&mut self, pre_accept_req: PreAccept) -> (r: PreAcceptOK)
        requires
            old(self).wf(),
        ensures
            final(self).wf(),
            pre_accept_post(old(self).log(), pre_accept_req.0@, r.0@, final(self).log()),
            final(self).id == old(self).id,
            final(self).instance_number == old(self).instance_number,
    {
        let Payload { write_req, seq, deps, instance } = pre_accept_req.0;
        let interf = self.find_conflicts(&write_req.key, &instance);
        let m = self.find_max_seq(&interf);
        proof {
            lemma_interf_seq(self.log(), write_req.key@, instance, interf@);
        }
        let next = if m < u32::MAX {
            m + 1
        } else {
            m
        };
        let seq_ = if seq > next {
            seq
        } else {
            next
        };
        let ghost interf_v = interf@;
        let deps = merge_instances(&deps, &interf);
        proof {
            assert forall|i: Instance| deps@.contains(i) <==> (pre_accept_req.0.deps@.contains(i)
                || conflicts(self.log(), write_req.key@, instance, i)) by {
                assert(deps@.to_set().contains(i) == deps@.contains(i));
                assert(interf_v.to_set().contains(i) == interf_v.contains(i));
                assert(pre_accept_req.0.deps@.to_set().contains(i)
                    == pre_accept_req.0.deps@.contains(i));
            }
        }
        let log_entry = LogEntry {
            key: write_req.key.clone(),
            value: write_req.value,
            seq: seq_,
            deps: copy_instances(&deps),
            state: State::PreAccepted,
        };
        self.record(log_entry, &instance);
        PreAcceptOK(Payload { write_req: write_req, seq: seq_, deps: deps, instance: instance })
    }

    /// Handles an Accept: records the payload as `Accepted` (unless the
    /// instance is already committed) and acknowledges it.
    pub fn accept_(&mut self, accept_req: Accept) -> (r: AcceptOK)
        requires
            old(self).wf(),
        ensures
            final(self).wf(),
            r.0.write_req@ == accept_req.0.write_req@,
            r.0.instance == accept_req.0.instance,
            final(self).log() == recorded(old(self).log(), accept_req.0@, State::Accepted),
            final(self).id == old(self).id,
            final(self).instance_number == old(self).instance_number,
    {
        let Payload { write_req, seq, deps, instance } = accept_req.0;
        let log_entry = LogEntry {
            key: write_req.key.clone(),
            value: write_req.value,
            seq: seq,
            deps: deps,
            state: State::Accepted,
        };
        self.record(log_entry, &instance);
        AcceptOK(AcceptOKPayload { write_req: write_req, instance: instance })
    }

    /// Handles a Commit: records the payload as `Committed`. A record that is
    /// already committed is left as it is. When the instance is this
    /// replica's own, the local slot counter moves on.
    pub fn commit_(&mut self, commit_req: Commit)
        requires
            old(self).wf(),
            may_record(old(self).log(), commit_req.0.instance, State::Committed)
                && commit_req.0.instance.replica == old(self).id.0 ==> old(self).instance_number
                < u32::MAX,
        ensures
            final(self).wf(),
            final(self).log() == recorded(old(self).log(), commit_req.0@, State::Committed),
            final(self).id == old(self).id,
            final(self).instance_number == counter_after_commit(
                old(self).log(),
                old(self).id,
                old(self).instance_number,
                commit_req.0@,
            ),
    {
        let Payload { write_req, seq, deps, instance } = commit_req.0;
        let log_entry = LogEntry {
            key: write_req.key,
            value: write_req.value,
            seq: seq,
            deps: deps,
            state: State::Committed,
        };
        let written = self.record(log_entry, &instance);
        if written && instance.replica == self.id.0 {
            self.instance_number = self.instance_number + 1;
        }
    }

    /// The leader's own commit of a payload it decided.
    pub fn committed(&mut self, payload: Payload)
        requires
            old(self).wf(),
            may_record(old(self).log(), payload.instance, State::Committed)
                && payload.instance.replica == old(self).id.0 ==> old(self).instance_number
                < u32::MAX,
        ensures
            final(self).wf(),
            final(self).log() == recorded(old(self).log(), payload@, State::Committed),
            final(self).id == old(self).id,
            final(self).instance_number == counter_after_commit(
                old(self).log(),
                old(self).id,
                old(self).instance_number,
                payload@,
            ),
    {
        self.commit_(Commit(payload));
    }

    /// The leader's own acceptance of a payload on the slow path.
    pub fn accepted(&mut self, payload: Payload)
        requires
            old(self).wf(),
        ensures
            final(self).wf(),
            final(self).log() == recorded(old(self).log(), payload@, State::Accepted),
            final(self).id == old(self).id,
            final(self).instance_number == old(self).instance_number,
    {
        self.accept_(Accept(payload));
    }

    /// The union of two dependency lists, in instance order and without
    /// repeats.
    pub fn union_deps(&self, deps1: Vec<Instance>, deps2: Vec<Instance>) -> (r: Vec<Instance>)
        ensures
            sorted_strict(r@),
            r@.to_set() == deps1@.to_set() + deps2@.to_set(),
    {
        merge_instances(&deps1, &deps2)
    }

    /// Chooses the path of a round from the fast quorum's PreAccept replies.
    /// The round stays on the fast path, with the proposal unchanged, when
    /// every reply agrees with it; a single disagreement sends it to the
    /// slow path with the largest `seq` and every dependency seen.
    pub fn decide_path(&self, pre_accept_oks: Vec<Payload>, payload: &Payload) -> (r: Path)
        ensures
            match r {
                Path::Fast(q) => all_agree(pre_accept_oks@, payload@) && q@ == payload@,
                Path::Slow(q) => !all_agree(pre_accept_oks@, payload@) && merged(
                    q@,
                    pre_accept_oks@,
                    payload@,
                ),
            },
    {
        let empty: Vec<Instance> = Vec::new();
        let mut new_deps = merge_instances(&payload.deps, &empty);
        assert(new_deps@.to_set() =~= payload.deps@.to_set());
        let mut seq = payload.seq;
        let mut agreed = true;
        let mut k: usize = 0;
        let ghost rs = pre_accept_oks@;
        while k < pre_accept_oks.len()
            invariant
                rs == pre_accept_oks@,
                k <= rs.len(),
                sorted_strict(new_deps@),
                new_deps@.to_set() == deps_seen(rs.subrange(0, k as int), payload.deps@.to_set()),
                seq == seq_seen(rs.subrange(0, k as int), payload.seq),
                agreed == all_agree(rs.subrange(0, k as int), payload@),
            decreases rs.len() - k,
        {
            let reply = &pre_accept_oks[k];
            let same = reply.seq == payload.seq && same_instances(&reply.deps, &payload.deps);
            let ghost prefix = rs.subrange(0, k + 1);
            assert(prefix.drop_last() == rs.subrange(0, k as int));
            assert(prefix.last() == rs[k as int]);
            if !same {
                agreed = false;
            }
            assert(agreed == all_agree(prefix, payload@)) by {
                if agreed {
                    assert forall|j: int| 0 <= j < prefix.len() implies agrees(
                        (#[trigger] prefix[j])@,
                        payload@,
                    ) by {
                        if j < k {
                            assert(prefix[j] == rs.subrange(0, k as int)[j]);
                        }
                    }
                } else if same {
                    let j = choose|j: int|
                        0 <= j < k && !agrees((#[trigger] rs.subrange(0, k as int)[j])@, payload@);
                    assert(prefix[j] == rs.subrange(0, k as int)[j]);
                } else {
                    assert(!agrees(prefix[k as int]@, payload@));
                }
            }
            new_deps = merge_instances(&new_deps, &reply.deps);
            if reply.seq > seq {
                seq = reply.seq;
            }
            k = k + 1;
        }
        assert(rs.subrange(0, rs.len() as int) == rs);
        if agreed {
            Path::Fast(payload.clone())
        } else {
            Path::Slow(
                Payload {
                    write_req: payload.write_req.clone(),
                    seq: seq,
                    deps: new_deps,
                    instance: payload.instance,
                },
            )
        }
    }

    /// The peers this replica asks in its PreAccept phase: the replicas that
    /// follow it in id order, wrapping round, as many as a fast quorum needs
    /// besides this replica.
    pub fn fast_quorum(&self, config: &QuorumConfig) -> (r: Vec<ReplicaId>)
        requires
            config.wf(),
            self.id.0 < config.replicas(),
        ensures
            r@.len() == config.fast_size() - 1,
            forall|j: int|
                0 <= j < r@.len() ==> (#[trigger] r@[j]).0 == (self.id.0 + j + 1) % (
                config.replicas() as int),
    {
        let n = config.replica_count() as u64;
        let size = config.fast_quorum_size();
        let mut quorum: Vec<ReplicaId> = Vec::new();
        let mut i: usize = 1;
        while i < size
            invariant
                1 <= i <= size,
                size == config.fast_size(),
                n == config.replicas(),
                n > 0,
                n <= u32::MAX,
                self.id.0 < n,
                size <= n,
                quorum@.len() == i - 1,
                forall|j: int|
                    0 <= j < quorum@.len() ==> (#[trigger] quorum@[j]).0 == (self.id.0 + j + 1) % (
                    n as int),
            decreases size - i,
        {
            let x = self.id.0 as u64 + i as u64;
            assert(x % n < n) by {
                vstd::arithmetic::div_mod::lemma_mod_bound(x as int, n as int);
            }
            let member = (x % n) as u32;
            quorum.push(ReplicaId(member));
            i = i + 1;
        }
        quorum
    }
}

/// Executable form of `rank`.
fn state_rank(s: State) -> (r: u8)
    ensures
        r as int == rank(s),
{
    match s {
        State::PreAccepted => 0,
        State::Accepted => 1,
        State::Committed => 2,
    }
}

} // verus!
