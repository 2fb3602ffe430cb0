//! Runs replicas against the simulated network: at each step it picks at
//! random an action that can be scheduled (a user request, a crash, a restart,
//! or delivering, dropping or duplicating a message in flight), and stops at
//! the first failure: storage that fails, proposal numbers that run out, or
//! two different decided values.
use vstd::prelude::*;
use rand::rngs::StdRng;
use std::collections::HashSet;
use crate::agreement::{
    answered_by_majority, fresh_replica, lemma_deliver_keeps_inv, lemma_initial_inv, lemma_inv_gives_agreement,
    lemma_no_conflicting_majorities, lemma_request_keeps_inv, lemma_restart_keeps_inv, SystemView,
};
use crate::contracts::{MessageBus, Storage};
use crate::random::random_choice;
use crate::replica::{lemma_handlers_keep_responses_reporting, lemma_handlers_keep_state_well_formed, majority_of, InflightView, Replica, ReplicaView};
use crate::simulation::file_system::{FsView, SimFileSystem};
use crate::simulation::message_bus::{event_text, AgreementViolation, BusView, EventType, PendingMessage, SimMessageBus};
use crate::text::{decimal, push_decimal};
use crate::types::{MessageView, PrepareInput, PrepareOutputView, ReplicaId, RequestId};

verus! {

broadcast use vstd::std_specs::hash::group_hash_axioms;

/// A replica and the file system of its machine.
pub struct Node<S: Storage> {
    pub replica: Replica<S>,
    pub fs: SimFileSystem,
}

#[derive(Debug, Clone, Copy)]
pub struct ActionSimulatorConfig {
    pub max_actions: u32,
    pub max_user_requests: u32,
}

#[derive(Debug, Clone, Copy)]
pub struct ActionSimulatorMetrics {
    pub num_user_requests_sent: u32,
    pub num_replica_crashes: u32,
    pub num_replica_restarts: u32,
}

impl ActionSimulatorMetrics {
    /// Nothing counted yet.
    pub fn new() -> (m: Self)
        ensures
            m.num_user_requests_sent == 0,
            m.num_replica_crashes == 0,
            m.num_replica_restarts == 0,
    {
        Self { num_user_requests_sent: 0, num_replica_crashes: 0, num_replica_restarts: 0 }
    }
}

#[derive(Debug, PartialEq, Eq, Clone, Copy, Structural)]
pub enum Action {
    SendUserRequest,
    CrashReplica,
    RestartReplica,
    DeliverMessage,
    DropMessage,
    DuplicateMessage,
}

impl Action {
    /// User requests are limited in number; crashes and restarts are always
    /// possible; the message actions need a message in flight.
    pub open spec fn schedulable(
        self,
        config: ActionSimulatorConfig,
        metrics: ActionSimulatorMetrics,
        num_messages_in_flight: nat,
    ) -> bool {
        match self {
            Action::SendUserRequest => metrics.num_user_requests_sent < config.max_user_requests,
            Action::CrashReplica => true,
            Action::RestartReplica => true,
            Action::DeliverMessage => num_messages_in_flight > 0,
            Action::DropMessage => num_messages_in_flight > 0,
            Action::DuplicateMessage => num_messages_in_flight > 0,
        }
    }

    pub fn can_be_scheduled(
        &self,
        config: &ActionSimulatorConfig,
        metrics: &ActionSimulatorMetrics,
        num_messages_in_flight: usize,
    ) -> (r: bool)
        ensures
            r == self.schedulable(*config, *metrics, num_messages_in_flight as nat),
    {
        match self {
            Action::SendUserRequest => metrics.num_user_requests_sent < config.max_user_requests,
            Action::CrashReplica => true,
            Action::RestartReplica => true,
            Action::DeliverMessage => num_messages_in_flight > 0,
            Action::DropMessage => num_messages_in_flight > 0,
            Action::DuplicateMessage => num_messages_in_flight > 0,
        }
    }
}

/// Every action, in the order in which they are offered.
pub open spec fn all_actions() -> Seq<Action> {
    seq![
        Action::SendUserRequest,
        Action::CrashReplica,
        Action::RestartReplica,
        Action::DeliverMessage,
        Action::DropMessage,
        Action::DuplicateMessage,
    ]
}

/// The actions of `actions` that can be scheduled, in order.
pub open spec fn schedulable_among(
    actions: Seq<Action>,
    config: ActionSimulatorConfig,
    metrics: ActionSimulatorMetrics,
    num_messages_in_flight: nat,
) -> Seq<Action> {
    actions.filter(|a: Action| a.schedulable(config, metrics, num_messages_in_flight))
}

/// The actions that can be scheduled, in the order of `all_actions`.
pub open spec fn schedulable_now(
    config: ActionSimulatorConfig,
    metrics: ActionSimulatorMetrics,
    num_messages_in_flight: nat,
) -> Seq<Action> {
    schedulable_among(all_actions(), config, metrics, num_messages_in_flight)
}

/// Why a simulation stopped early.
#[derive(Debug)]
pub enum SimulationFailure {
    /// A replica's storage failed.
    Storage(std::io::Error),
    /// A replica asked to propose had promised the highest proposal number.
    ProposalNumbersExhausted(ReplicaId),
    /// Two different values were decided.
    Agreement(AgreementViolation),
}

/// A replica stores its state when it handles `m`: a user's request, a
/// prepare request or an accept request.
pub open spec fn stores_on(m: MessageView) -> bool {
    m is StartProposal || m is Prepare || m is Accept
}

/// The value of the user request sent to `id` at step `step`: `V(id, step)`.
pub open spec fn user_value_text(id: ReplicaId, step: nat) -> Seq<char> {
    "V("@ + decimal(id as nat) + ", "@ + decimal(step) + ")"@
}

/// The log line of a crash.
pub open spec fn crash_text(id: ReplicaId) -> Seq<char> {
    "[SIMULATOR] CRASH Replica("@ + decimal(id as nat) + ")"@
}

pub struct ActionSimulator<S: Storage> {
    config: ActionSimulatorConfig,
    metrics: ActionSimulatorMetrics,
    action_set: Vec<Action>,
    rng: StdRng,
    bus: SimMessageBus,
    nodes: Vec<Node<S>>,
    healthy_replicas: HashSet<ReplicaId>,
    failed_replicas: HashSet<ReplicaId>,
    system: Ghost<SystemView>,
    modeled: Ghost<bool>,
    fanout: Ghost<nat>,
    taken: Ghost<Seq<Action>>,
    offers: Ghost<Seq<Seq<Action>>>,
}

/// How many of `actions` are `a`.
pub open spec fn count_action(actions: Seq<Action>, a: Action) -> nat
    decreases actions.len(),
{
    if actions.len() == 0 {
        0
    } else {
        count_action(actions.drop_last(), a) + (if actions.last() == a {
            1nat
        } else {
            0nat
        })
    }
}

/// The actions after the first `n`, with `x` taken last, are those before it
/// and `x`.
proof fn lemma_count_after_push(actions: Seq<Action>, n: int, x: Action, a: Action)
    requires
        0 <= n <= actions.len(),
    ensures
        count_action(actions.push(x).skip(n), a) == count_action(actions.skip(n), a) + (if x == a {
            1nat
        } else {
            0nat
        }),
{
    assert(actions.push(x).skip(n).drop_last() =~= actions.skip(n));
}

/// The most peers that any of the nodes' replicas has.
pub open spec fn max_fanout<S: Storage>(nodes: Seq<Node<S>>) -> nat
    decreases nodes.len(),
{
    if nodes.len() == 0 {
        0
    } else {
        let rest = max_fanout(nodes.drop_last());
        let last = nodes.last().replica@.replicas.len();
        if last > rest {
            last
        } else {
            rest
        }
    }
}

proof fn lemma_max_fanout_at_most<S: Storage>(nodes: Seq<Node<S>>, b: nat)
    requires
        forall|j: int| 0 <= j < nodes.len() ==> (#[trigger] nodes[j]).replica@.replicas.len() <= b,
    ensures
        max_fanout(nodes) <= b,
    decreases nodes.len(),
{
    if nodes.len() > 0 {
        assert forall|j: int| 0 <= j < nodes.drop_last().len() implies (#[trigger] nodes.drop_last()[j]).replica@.replicas.len() <= b by {
            assert(nodes.drop_last()[j] == nodes[j]);
        }
        lemma_max_fanout_at_most(nodes.drop_last(), b);
    }
}

proof fn lemma_max_fanout<S: Storage>(nodes: Seq<Node<S>>)
    ensures
        forall|j: int| 0 <= j < nodes.len() ==> (#[trigger] nodes[j]).replica@.replicas.len() <= max_fanout(nodes),
    decreases nodes.len(),
{
    if nodes.len() > 0 {
        lemma_max_fanout(nodes.drop_last());
        assert forall|j: int| 0 <= j < nodes.len() implies (#[trigger] nodes[j]).replica@.replicas.len() <= max_fanout(nodes) by {
            if j < nodes.len() - 1 {
                assert(nodes[j] == nodes.drop_last()[j]);
            }
        }
    }
}

/// Every response that a round keeps reports its value, whatever well-formed
/// message the replica handles.
proof fn lemma_handle_keeps_responses_reporting(r: ReplicaView, m: MessageView)
    requires
        r.responses_report(),
        m.well_formed(),
    ensures
        SystemView::handle(r, m).0.responses_report(),
{
    match m {
        MessageView::StartProposal(_, v) => {
            lemma_handlers_keep_responses_reporting(r, v, arbitrary(), arbitrary(), arbitrary());
        },
        MessageView::Prepare(_, i) => {
            lemma_handlers_keep_responses_reporting(r, arbitrary(), i, arbitrary(), arbitrary());
        },
        MessageView::PrepareResponse(_, o) => {
            lemma_handlers_keep_responses_reporting(r, arbitrary(), arbitrary(), o, arbitrary());
        },
        MessageView::Accept(_, a) => {
            lemma_handlers_keep_responses_reporting(r, arbitrary(), arbitrary(), arbitrary(), a);
        },
        MessageView::AcceptResponse(_, _) => {},
    }
}

/// Nodes and a bus that the protocol's model covers from the start: three or
/// four fresh replicas with distinct ids, each knowing all of them, on a bus
/// that checks what it carries against a majority of their number.
pub open spec fn starts_modeled<S: Storage>(nodes: Seq<Node<S>>, bus: SimMessageBus) -> bool {
    let ids = nodes.map_values(|n: Node<S>| n.replica@.id);
    let members = nodes[0].replica@.replicas;
    &&& members.no_duplicates()
    &&& 3 <= members.len() <= 4
    &&& ids.no_duplicates()
    &&& forall|x: ReplicaId| members.contains(x) <==> ids.contains(x)
    &&& forall|j: int| 0 <= j < nodes.len() ==> (#[trigger] nodes[j]).replica@ == fresh_replica(ids[j], members)
    &&& bus.checking() == Some(majority_of(members.len()))
    &&& bus@.sent.len() == 0
}

/// The messages of two sequences, as a set.
proof fn lemma_concat_to_set(a: Seq<MessageView>, b: Seq<MessageView>)
    ensures
        (a + b).to_set() == a.to_set() + b.to_set(),
{
    assert forall|m: MessageView| (a + b).to_set().contains(m) <==> (a.to_set() + b.to_set()).contains(m) by {
        if (a + b).contains(m) {
            let k = choose|k: int| 0 <= k < (a + b).len() && (a + b)[k] == m;
            if k < a.len() {
                assert(a[k] == m);
            } else {
                assert(b[k - a.len()] == m);
            }
        }
        if a.contains(m) {
            let k = choose|k: int| 0 <= k < a.len() && a[k] == m;
            assert((a + b)[k] == m);
        }
        if b.contains(m) {
            let k = choose|k: int| 0 <= k < b.len() && b[k] == m;
            assert((a + b)[k + a.len()] == m);
        }
    }
    assert((a + b).to_set() =~= a.to_set() + b.to_set());
}

/// What a message in flight may still cost the network, where a broadcast
/// reaches at most `k` replicas: an accept response is one delivery; an
/// accept request may bring an accept response; a promise may start an accept
/// broadcast; a prepare request may bring a promise; a user's request may
/// start a prepare broadcast.
pub open spec fn cost(m: MessageView, k: nat) -> nat {
    match m {
        MessageView::AcceptResponse(_, _) => 1,
        MessageView::Accept(_, _) => 2,
        MessageView::PrepareResponse(_, _) => 2 * k + 1,
        MessageView::Prepare(_, _) => 2 * k + 2,
        MessageView::StartProposal(_, _) => k * (2 * k + 2) + 1,
    }
}

/// What the messages `q` may still cost the network.
pub open spec fn total_cost(q: Seq<MessageView>, k: nat) -> nat
    decreases q.len(),
{
    if q.len() == 0 {
        0
    } else {
        total_cost(q.drop_last(), k) + cost(q.last(), k)
    }
}

proof fn lemma_total_cost_concat(a: Seq<MessageView>, b: Seq<MessageView>, k: nat)
    ensures
        total_cost(a + b, k) == total_cost(a, k) + total_cost(b, k),
    decreases b.len(),
{
    if b.len() > 0 {
        assert((a + b).drop_last() =~= a + b.drop_last());
        lemma_total_cost_concat(a, b.drop_last(), k);
    } else {
        assert(a + b =~= a);
    }
}

proof fn lemma_total_cost_single(m: MessageView, k: nat)
    ensures
        total_cost(seq![m], k) == cost(m, k),
{
    assert(seq![m].drop_last() =~= Seq::<MessageView>::empty());
    assert(total_cost(Seq::<MessageView>::empty(), k) == 0);
    assert(seq![m].last() == m);
}

/// Taking the message at `i` out the way the queue does (the last message
/// takes its place) takes its cost out.
proof fn lemma_total_cost_swap_remove(q: Seq<MessageView>, i: int, k: nat)
    requires
        0 <= i < q.len(),
    ensures
        total_cost(q.update(i, q.last()).drop_last(), k) + cost(q[i], k) == total_cost(q, k),
{
    let n = q.len() as int;
    if i == n - 1 {
        assert(q.update(i, q.last()).drop_last() =~= q.drop_last());
    } else {
        let a = q.take(i);
        let b = q.subrange(i + 1, n - 1);
        assert(q =~= a + seq![q[i]] + b + seq![q.last()]);
        assert(q.update(i, q.last()).drop_last() =~= a + seq![q.last()] + b);
        lemma_total_cost_concat(a + seq![q[i]], b, k);
        lemma_total_cost_concat(a + seq![q[i]] + b, seq![q.last()], k);
        lemma_total_cost_concat(a, seq![q[i]], k);
        lemma_total_cost_concat(a + seq![q.last()], b, k);
        lemma_total_cost_concat(a, seq![q.last()], k);
        lemma_total_cost_single(q[i], k);
        lemma_total_cost_single(q.last(), k);
    }
}

/// Messages that each cost `c` cost `c` times their number.
proof fn lemma_total_cost_uniform(q: Seq<MessageView>, k: nat, c: nat)
    requires
        forall|i: int| 0 <= i < q.len() ==> cost(#[trigger] q[i], k) == c,
    ensures
        total_cost(q, k) == q.len() * c,
    decreases q.len(),
{
    if q.len() > 0 {
        lemma_total_cost_uniform(q.drop_last(), k, c);
        assert(total_cost(q, k) == (q.len() - 1) * c + c);
        assert((q.len() - 1) * c + c == q.len() * c) by (nonlinear_arith);
    }
}

/// The most that one message may cost, where a broadcast reaches at most `k`
/// replicas.
pub open spec fn max_cost(k: nat) -> nat {
    k * (2 * k + 2) + 2 * k + 2
}

proof fn lemma_cost_at_most(m: MessageView, k: nat)
    ensures
        1 <= cost(m, k) <= max_cost(k),
{
    assert(k * (2 * k + 2) >= 0) by (nonlinear_arith);
}

proof fn lemma_total_cost_at_least_len(q: Seq<MessageView>, k: nat)
    ensures
        total_cost(q, k) >= q.len(),
    decreases q.len(),
{
    if q.len() > 0 {
        lemma_total_cost_at_least_len(q.drop_last(), k);
        lemma_cost_at_most(q.last(), k);
    }
}

/// What a replica with at most `k` peers sends on a message costs less than
/// the message.
proof fn lemma_handling_costs_less(r: ReplicaView, m: MessageView, k: nat)
    requires
        r.replicas.len() <= k,
    ensures
        total_cost(SystemView::handle(r, m).1, k) < cost(m, k),
{
    let out = SystemView::handle(r, m).1;
    let n = r.replicas.len();
    match m {
        MessageView::StartProposal(_, v) => {
            if r.state.min_proposal_number < u64::MAX {
                assert(out.len() == n);
                assert forall|i: int| 0 <= i < out.len() implies cost(#[trigger] out[i], k) == 2 * k + 2 by {
                    assert(out[i] is Prepare);
                }
                lemma_total_cost_uniform(out, k, 2 * k + 2);
                assert(n * (2 * k + 2) <= k * (2 * k + 2)) by (nonlinear_arith)
                    requires
                        n <= k,
                ;
            } else {
                assert(total_cost(out, k) == 0);
            }
        },
        MessageView::Prepare(_, i) => {
            if out.len() > 0 {
                lemma_total_cost_single(out[0], k);
                assert(out =~= seq![out[0]]);
            } else {
                assert(total_cost(out, k) == 0);
            }
        },
        MessageView::PrepareResponse(_, o) => {
            if out.len() > 0 {
                assert(out.len() == n);
                assert forall|i: int| 0 <= i < out.len() implies cost(#[trigger] out[i], k) == 2 by {
                    assert(out[i] is Accept);
                }
                lemma_total_cost_uniform(out, k, 2);
                assert(n * 2 <= k * 2) by (nonlinear_arith)
                    requires
                        n <= k,
                ;
            } else {
                assert(total_cost(out, k) == 0);
            }
        },
        MessageView::Accept(_, i) => {
            if out.len() > 0 {
                lemma_total_cost_single(out[0], k);
                assert(out =~= seq![out[0]]);
            } else {
                assert(total_cost(out, k) == 0);
            }
        },
        MessageView::AcceptResponse(_, _) => {
            assert(total_cost(out, k) == 0);
        },
    }
}

/// A bus that checks against the majority of a system that keeps its
/// invariant never reports two different decided values.
proof fn lemma_no_violation(sys: SystemView, sent: Seq<MessageView>, majority: nat, d: Seq<char>, a: Seq<char>)
    requires
        sys.inv(),
        sys.sent == sent.to_set(),
        majority == majority_of(sys.ids.len()),
        exists|rid: RequestId| #[trigger] answered_by_majority(sent.to_set(), majority, rid, d),
        exists|rid: RequestId| #[trigger] answered_by_majority(sent.to_set(), majority, rid, a),
    ensures
        d == a,
{
    let r1 = choose|rid: RequestId| #[trigger] answered_by_majority(sent.to_set(), majority, rid, d);
    let r2 = choose|rid: RequestId| #[trigger] answered_by_majority(sent.to_set(), majority, rid, a);
    lemma_no_conflicting_majorities(sys, r1, d, r2, a);
}

/// Handing `m` to its replica, when that replica is healthy, takes the
/// nodes' replicas from `views` to `views2` and has it send `out`: the first
/// node with the addressee's id steps as `SystemView::handle` says. When the
/// addressee is down or unknown nothing happens.
pub open spec fn delivery(
    ids: Seq<ReplicaId>,
    healthy: Set<ReplicaId>,
    views: Seq<ReplicaView>,
    m: MessageView,
    views2: Seq<ReplicaView>,
    out: Seq<MessageView>,
) -> bool {
    let to = m.to_replica_id();
    if !(healthy.contains(to) && ids.contains(to)) {
        views2 == views && out == Seq::<MessageView>::empty()
    } else {
        exists|i: int|
            #![trigger views[i]]
            0 <= i < views.len() && ids[i] == to && (forall|j: int| 0 <= j < i ==> ids[j] != to) && views2
                == views.update(i, SystemView::handle(views[i], m).0) && out == SystemView::handle(views[i], m).1
    }
}

/// Every promise of the system, and every proposal number a prepare request
/// carries, is at most `n`.
pub open spec fn promises_within(sys: SystemView, n: nat) -> bool {
    &&& forall|x: ReplicaId| #[trigger] sys.replicas.contains_key(x) ==> sys.replicas[x].state.min_proposal_number <= n
    &&& forall|to: ReplicaId, i: PrepareInput| #[trigger] sys.sent.contains(MessageView::Prepare(to, i)) ==> i.proposal_number <= n
}

/// What the steps of a simulation act on: the replicas by node, the healthy
/// and the crashed replicas, every message sent and the messages in flight.
pub type SimState = (Seq<ReplicaView>, Set<ReplicaId>, Set<ReplicaId>, Seq<MessageView>, Seq<MessageView>);

/// `q` without its message at `k`, the last one taking its place.
pub open spec fn swap_removed(q: Seq<MessageView>, k: int) -> Seq<MessageView> {
    q.update(k, q.last()).drop_last()
}

/// One delivery: a message in flight is taken out and handed to its replica
/// (see `delivery`), and what the replica sends is sent and put in flight.
pub open spec fn delivery_step(ids: Seq<ReplicaId>, s: SimState, t: SimState) -> bool {
    &&& t.1 == s.1
    &&& t.2 == s.2
    &&& exists|k: int, out: Seq<MessageView>|
        0 <= k < s.4.len() && #[trigger] delivery(ids, s.1, s.0, s.4[k], t.0, out) && t.3 == s.3 + out && t.4
            == swap_removed(s.4, k) + out
}

/// What action `a`, taken as the `step`-th of a run, does, where a majority
/// is `majority` replicas:
/// - a user request sends `StartProposal(id, "V(id, step)")` to a healthy
///   replica `id`;
/// - a crash takes a healthy replica down while more than a majority are
///   healthy, and else changes nothing;
/// - a restart changes nothing;
/// - dropping, duplicating and delivering each take a message out of flight,
///   and then discard it, put it back twice, or hand it to its replica.
pub open spec fn action_step(
    ids: Seq<ReplicaId>,
    majority: nat,
    step: nat,
    a: Action,
    s: SimState,
    t: SimState,
) -> bool {
    match a {
        Action::SendUserRequest => exists|id: ReplicaId|
            #[trigger] s.1.contains(id) && {
                let m = MessageView::StartProposal(id, user_value_text(id, step));
                t == (s.0, s.1, s.2, s.3.push(m), s.4.push(m))
            },
        Action::CrashReplica => {
            &&& t.0 == s.0
            &&& t.3 == s.3
            &&& t.4 == s.4
            &&& if s.1.len() > majority {
                exists|id: ReplicaId| #[trigger] s.1.contains(id) && t.1 == s.1.remove(id) && t.2 == s.2.insert(id)
            } else {
                t.1 == s.1 && t.2 == s.2
            }
        },
        Action::RestartReplica => t == s,
        Action::DropMessage => if s.4.len() == 0 {
            t == s
        } else {
            exists|k: int| 0 <= k < s.4.len() && t == (s.0, s.1, s.2, s.3, #[trigger] swap_removed(s.4, k))
        },
        Action::DuplicateMessage => if s.4.len() == 0 {
            t == s
        } else {
            exists|k: int|
                0 <= k < s.4.len() && {
                    let m = s.4[k];
                    t == (s.0, s.1, s.2, s.3.push(m).push(m), (#[trigger] swap_removed(s.4, k)).push(m).push(m))
                }
        },
        Action::DeliverMessage => if s.4.len() == 0 {
            t == s
        } else {
            delivery_step(ids, s, t)
        },
    }
}

/// The `j`-th of `actions` leads from `trace[j]` to `trace[j + 1]`.
pub open spec fn step_taken(
    ids: Seq<ReplicaId>,
    majority: nat,
    actions: Seq<Action>,
    trace: Seq<SimState>,
    j: int,
) -> bool {
    action_step(ids, majority, j as nat, actions[j], trace[j], trace[j + 1])
}

/// `trace` is what taking `actions` one after the other went through.
pub open spec fn ran_actions(ids: Seq<ReplicaId>, majority: nat, actions: Seq<Action>, trace: Seq<SimState>) -> bool {
    &&& trace.len() == actions.len() + 1
    &&& forall|j: int| 0 <= j < actions.len() ==> #[trigger] step_taken(ids, majority, actions, trace, j)
}

/// The `j`-th delivery of `trace` leads from `trace[j]` to `trace[j + 1]`.
pub open spec fn delivered_at(ids: Seq<ReplicaId>, trace: Seq<SimState>, j: int) -> bool {
    delivery_step(ids, trace[j], trace[j + 1])
}

/// `trace` is what delivering one message after the other went through,
/// until none was left in flight.
pub open spec fn drained(ids: Seq<ReplicaId>, trace: Seq<SimState>) -> bool {
    &&& trace.len() >= 1
    &&& forall|j: int| 0 <= j < trace.len() - 1 ==> #[trigger] delivered_at(ids, trace, j)
    &&& trace.last().4.len() == 0
}

/// The healthy and the crashed replicas of `s` split the replicas `ids`.
pub open spec fn partitioned(ids: Seq<ReplicaId>, s: SimState) -> bool {
    &&& s.1.disjoint(s.2)
    &&& s.1 + s.2 == ids.to_set()
}

/// The system `sys` holds exactly the replicas of `nodes`.
pub open spec fn holds_nodes<S: Storage>(sys: SystemView, nodes: Seq<Node<S>>) -> bool {
    let ids = nodes.map_values(|n: Node<S>| n.replica@.id);
    &&& ids.no_duplicates()
    &&& forall|x: ReplicaId| #[trigger] sys.replicas.contains_key(x) <==> ids.contains(x)
    &&& forall|j: int| 0 <= j < nodes.len() ==> sys.replicas[ids[j]] == (#[trigger] nodes[j]).replica@
}

impl<S: Storage> ActionSimulator<S> {
    /// The replicas' ids, by node.
    pub closed spec fn node_ids(&self) -> Seq<ReplicaId> {
        self.nodes@.map_values(|n: Node<S>| n.replica@.id)
    }

    /// The network.
    pub closed spec fn bus_view(&self) -> BusView {
        self.bus@
    }

    /// The replicas that are up.
    pub closed spec fn healthy(&self) -> Set<ReplicaId> {
        self.healthy_replicas@
    }

    /// The replicas that crashed.
    pub closed spec fn failed(&self) -> Set<ReplicaId> {
        self.failed_replicas@
    }

    pub closed spec fn metrics(&self) -> ActionSimulatorMetrics {
        self.metrics
    }

    pub closed spec fn config(&self) -> ActionSimulatorConfig {
        self.config
    }

    /// The actions taken so far, in order.
    pub closed spec fn actions(&self) -> Seq<Action> {
        self.taken@
    }

    /// For each action taken so far, the actions it was drawn from.
    pub closed spec fn offers(&self) -> Seq<Seq<Action>> {
        self.offers@
    }

    /// The most peers that a replica broadcasts to, which bounds what a
    /// message in flight may cost.
    pub closed spec fn fanout(&self) -> nat {
        self.fanout@
    }

    /// The nodes' replicas, by node.
    pub closed spec fn replica_views(&self) -> Seq<ReplicaView> {
        self.nodes@.map_values(|n: Node<S>| n.replica@)
    }

    /// What the simulation has sent, and may still send before the network
    /// is empty: every message sent so far, and for each message in flight
    /// what it may cost beyond itself.
    pub closed spec fn backlog(&self) -> int {
        self.bus@.sent.len() + total_cost(self.bus@.queued, self.fanout@) - self.bus@.queued.len()
    }

    /// What the steps of the simulation act on (see `SimState`).
    pub closed spec fn sim_state(&self) -> SimState {
        (self.replica_views(), self.healthy_replicas@, self.failed_replicas@, self.bus@.sent, self.bus@.queued)
    }

    /// The nodes' file systems, by node.
    pub closed spec fn file_systems(&self) -> Seq<FsView> {
        self.nodes@.map_values(|n: Node<S>| n.fs@)
    }

    /// Every node's storage never fails to store.
    pub closed spec fn reliable(&self) -> bool {
        forall|j: int| 0 <= j < self.nodes@.len() ==> (#[trigger] self.nodes@[j]).replica.reliable()
    }

    /// Replica `id` is healthy and the first node with that id has promised
    /// the highest proposal number, so it cannot start another round.
    pub open spec fn exhausted(&self, id: ReplicaId) -> bool {
        &&& self.healthy().contains(id)
        &&& exists|i: int|
            0 <= i < self.node_ids().len() && self.node_ids()[i] == id && (forall|j: int|
                0 <= j < i ==> self.node_ids()[j] != id) && self.replica_views()[i].state.min_proposal_number
                == u64::MAX
    }

    /// Each node has an id, a replica and a file system, and a majority is
    /// more than half of the nodes.
    pub proof fn lemma_sizes(&self)
        ensures
            self.replica_views().len() == self.node_ids().len(),
            self.file_systems().len() == self.node_ids().len(),
            self.majority_size() == self.node_ids().len() / 2 + 1,
    {
    }

    /// In a well-formed simulation the healthy and the crashed replicas split
    /// the nodes' replicas, and some replica is healthy.
    pub proof fn lemma_partition(&self)
        requires
            self.wf(),
        ensures
            partitioned(self.node_ids(), self.sim_state()),
            self.healthy().disjoint(self.failed()),
            self.healthy() + self.failed() == self.node_ids().to_set(),
            self.healthy().finite(),
            self.healthy().len() > 0,
    {
    }

    /// The simulation as the protocol's model sees it: its replicas and every
    /// message sent.
    pub closed spec fn system(&self) -> SystemView {
        self.system@
    }

    /// Whether the protocol's model covers this simulation (see
    /// `starts_modeled`).
    pub closed spec fn modeled(&self) -> bool {
        self.modeled@
    }

    /// In a simulation that the model covers, the model holds the nodes'
    /// replicas and every message sent so far, and no two different values
    /// are ever chosen.
    pub proof fn lemma_simulation_agrees(&self)
        requires
            self.wf(),
            self.modeled(),
        ensures
            self.system().agreement(),
            self.system().sent == self.bus_view().sent.to_set(),
            forall|j: int| 0 <= j < self.node_ids().len() ==> self.system().replicas[self.node_ids()[j]]
                == #[trigger] self.replica_views()[j],
    {
        lemma_inv_gives_agreement(self.system@);
        assert forall|j: int| 0 <= j < self.node_ids().len() implies self.system().replicas[self.node_ids()[j]]
            == #[trigger] self.replica_views()[j] by {
            assert(self.nodes@[j].replica@ == self.replica_views()[j]);
        }
    }

    /// In a simulation that the model covers, the value decided so far, if
    /// any, was chosen by a majority of the replicas.
    pub proof fn lemma_decided_was_chosen(&self)
        requires
            self.wf(),
            self.modeled(),
            self.bus_view().oracle.decided is Some,
        ensures
            exists|rid: RequestId| #[trigger] self.system().chosen(rid, self.bus_view().oracle.decided->0),
    {
        self.bus.lemma_decided_was_answered();
        let d = self.bus@.oracle.decided->0;
        let rid = choose|rid: RequestId|
            #[trigger] answered_by_majority(self.bus@.sent.to_set(), self.bus.checking()->0, rid, d);
        crate::agreement::lemma_answered_majority_is_chosen(self.system@, rid, d);
        assert(self.system().chosen(rid, d));
    }

    /// The model matches the simulation and keeps its invariant.
    closed spec fn model_ok(&self) -> bool {
        &&& self.system@.inv()
        &&& holds_nodes(self.system@, self.nodes@)
        &&& self.system@.sent == self.bus@.sent.to_set()
        &&& self.bus.checking() == Some(majority_of(self.system@.ids.len()))
        &&& promises_within(self.system@, self.bus@.sent.len())
        &&& self.fanout@ <= 4
    }

    /// How many replicas make a majority.
    pub closed spec fn majority_size(&self) -> nat {
        self.nodes@.len() / 2 + 1
    }

    /// The simulation's invariant: the bus and every replica are well formed,
    /// every message ever sent is well formed, the healthy replicas are some
    /// of the nodes' replicas and not none of them, and user requests stay
    /// within their limit.
    pub closed spec fn wf(&self) -> bool {
        &&& self.bus.wf()
        &&& self.nodes@.len() > 0
        &&& forall|i: int|
            0 <= i < self.nodes@.len() ==> {
                &&& (#[trigger] self.nodes@[i]).replica.wf()
                &&& self.nodes@[i].replica@.state.well_formed()
                &&& self.nodes@[i].replica@.responses_report()
                &&& self.nodes@[i].fs.wf()
            }
        &&& forall|i: int| 0 <= i < self.bus@.sent.len() ==> (#[trigger] self.bus@.sent[i]).well_formed()
        &&& self.action_set@ == all_actions()
        &&& self.metrics.num_user_requests_sent <= self.config.max_user_requests
        &&& self.healthy_replicas@.finite()
        &&& self.healthy_replicas@.len() > 0
        &&& forall|x: ReplicaId| #[trigger] self.healthy_replicas@.contains(x) ==> self.node_ids().contains(x)
        &&& self.healthy_replicas@.disjoint(self.failed_replicas@)
        &&& self.healthy_replicas@ + self.failed_replicas@ == self.node_ids().to_set()
        &&& self.modeled@ ==> self.model_ok()
        &&& forall|i: int| 0 <= i < self.nodes@.len() ==> (#[trigger] self.nodes@[i]).replica@.replicas.len() <= self.fanout@
    }

    /// A simulation of `nodes` over `bus`, with every replica up and nothing
    /// counted yet.
    pub fn new(config: ActionSimulatorConfig, rng: StdRng, nodes: Vec<Node<S>>, bus: SimMessageBus) -> (sim: Self)
        requires
            bus.wf(),
            forall|i: int| 0 <= i < bus@.sent.len() ==> (#[trigger] bus@.sent[i]).well_formed(),
            nodes@.len() > 0,
            forall|i: int|
                0 <= i < nodes@.len() ==> {
                    &&& (#[trigger] nodes@[i]).replica.wf()
                    &&& nodes@[i].replica@.state.well_formed()
                    &&& nodes@[i].replica@.responses_report()
                    &&& nodes@[i].fs.wf()
                },
        ensures
            sim.wf(),
            sim.healthy() == nodes@.map_values(|n: Node<S>| n.replica@.id).to_set(),
            sim.failed() == Set::<ReplicaId>::empty(),
            sim.metrics().num_user_requests_sent == 0,
            sim.metrics().num_replica_crashes == 0,
            sim.metrics().num_replica_restarts == 0,
            sim.config() == config,
            sim.modeled() == starts_modeled(nodes@, bus),
            sim.actions() == Seq::<Action>::empty(),
            sim.bus_view() == bus@,
            sim.node_ids() == nodes@.map_values(|n: Node<S>| n.replica@.id),
            sim.replica_views() == nodes@.map_values(|n: Node<S>| n.replica@),
            sim.file_systems() == nodes@.map_values(|n: Node<S>| n.fs@),
            sim.reliable() == (forall|i: int| 0 <= i < nodes@.len() ==> (#[trigger] nodes@[i]).replica.reliable()),
            nodes@.map_values(|n: Node<S>| n.replica@.id).no_duplicates() ==> sim.healthy().len() >= sim.majority_size(),
    {
        let ghost modeled = starts_modeled(nodes@, bus);
        proof {
            lemma_max_fanout(nodes@);
        }
        let ghost system = SystemView::initial(nodes@[0].replica@.replicas);
        proof {
            if modeled {
                let members = nodes@[0].replica@.replicas;
                lemma_initial_inv(members);
                assert(system.sent =~= bus@.sent.to_set());
                assert forall|j: int| 0 <= j < nodes@.len() implies system.replicas[nodes@.map_values(|n: Node<S>| n.replica@.id)[j]]
                    == (#[trigger] nodes@[j]).replica@ by {
                    let ids = nodes@.map_values(|n: Node<S>| n.replica@.id);
                    assert(ids.contains(ids[j]));
                }
                assert(holds_nodes(system, nodes@));
                assert forall|j: int| 0 <= j < nodes@.len() implies (#[trigger] nodes@[j]).replica@.replicas.len() <= 4 by {
                    let ids = nodes@.map_values(|n: Node<S>| n.replica@.id);
                    assert(nodes@[j].replica@ == fresh_replica(ids[j], members));
                }
                lemma_max_fanout_at_most(nodes@, 4);
                assert(promises_within(system, 0));
            }
        }
        let mut healthy: HashSet<ReplicaId> = HashSet::new();
        let ghost ids = nodes@.map_values(|n: Node<S>| n.replica@.id);
        let mut i: usize = 0;
        while i < nodes.len()
            invariant
                i <= nodes.len(),
                ids == nodes@.map_values(|n: Node<S>| n.replica@.id),
                healthy@ == ids.take(i as int).to_set(),
                healthy@.finite(),
            decreases nodes.len() - i,
        {
            let id = nodes[i].replica.config().id;
            healthy.insert(id);
            proof {
                assert(ids.take(i + 1) =~= ids.take(i as int).push(id));
                ids.take(i as int).lemma_push_to_set_commute(id);
            }
            i = i + 1;
        }
        proof {
            assert(ids.take(i as int) =~= ids);
            vstd::seq_lib::seq_to_set_is_finite(ids);
            assert(ids[0] == nodes@[0].replica@.id);
            assert(healthy@.contains(ids[0]));
            vstd::set_lib::lemma_set_empty_equivalency_len(healthy@);
        }
        let sim = Self {
            config,
            metrics: ActionSimulatorMetrics::new(),
            action_set: vec![
                Action::SendUserRequest,
                Action::CrashReplica,
                Action::RestartReplica,
                Action::DeliverMessage,
                Action::DropMessage,
                Action::DuplicateMessage,
            ],
            rng,
            bus,
            nodes,
            healthy_replicas: healthy,
            failed_replicas: HashSet::new(),
            system: Ghost(system),
            modeled: Ghost(modeled),
            fanout: Ghost(max_fanout(nodes@)),
            taken: Ghost(Seq::<Action>::empty()),
            offers: Ghost(Seq::<Seq<Action>>::empty()),
        };
        proof {
            assert(sim.action_set@ =~= all_actions());
            assert(sim.failed_replicas@ =~= Set::<ReplicaId>::empty());
            assert(sim.healthy_replicas@ + sim.failed_replicas@ =~= sim.node_ids().to_set());
            if ids.no_duplicates() {
                ids.unique_seq_to_set();
            }
        }
        sim
    }

    fn majority(&self) -> (m: usize)
        ensures
            m == self.majority_size(),
    {
        self.nodes.len() / 2 + 1
    }

    /// Whether nothing is in flight.
    pub fn is_quiet(&self) -> (r: bool)
        ensures
            r == (self.bus_view().queued.len() == 0),
    {
        self.bus.is_empty()
    }

    /// Empties the activity log and gives back its lines, for printing.
    pub fn take_events(&mut self) -> (r: Option<String>)
        requires
            old(self).wf(),
        ensures
            final(self).wf(),
            final(self).bus_view() == (BusView { log: seq![], ..old(self).bus_view() }),
            old(self).bus_view().log.len() == 0 ==> r is None,
            old(self).bus_view().log.len() > 0 ==> (r matches Some(s) && s@ == crate::text::join_lines(
                old(self).bus_view().log,
            )),
            final(self).replica_views() == old(self).replica_views(),
            final(self).healthy() == old(self).healthy(),
            final(self).modeled() == old(self).modeled(),
    {
        self.bus.take_events()
    }

    /// Ends the simulation and gives back its random number generator, so
    /// that the next simulation draws where this one stopped.
    pub fn into_rng(self) -> StdRng {
        self.rng
    }

    /// The value decided so far, if any.
    pub fn decided_value(&self) -> (r: &Option<String>)
        ensures
            crate::types::option_text(*r) == self.bus_view().oracle.decided,
    {
        self.bus.decided_value()
    }

    /// Picks at random an action that can be scheduled now, and counts it.
    /// The actions of `action_set` that can be scheduled now, in order; a
    /// crash always can.
    fn schedulable_actions(
        action_set: &Vec<Action>,
        config: &ActionSimulatorConfig,
        metrics: &ActionSimulatorMetrics,
        n: usize,
    ) -> (v: Vec<Action>)
        requires
            action_set@ == all_actions(),
        ensures
            v@ == schedulable_now(*config, *metrics, n as nat),
            v@.contains(Action::CrashReplica),
    {
        let mut eligible: Vec<Action> = Vec::new();
        let mut k: usize = 0;
        while k < action_set.len()
            invariant
                k <= action_set.len(),
                action_set@ == all_actions(),
                eligible@ == schedulable_among(action_set@.take(k as int), *config, *metrics, n as nat),
                k >= 2 ==> eligible@.contains(Action::CrashReplica),
            decreases action_set.len() - k,
        {
            let a = action_set[k];
            let ghost before = eligible@;
            proof {
                reveal(Seq::filter);
                assert(action_set@.take(k + 1).drop_last() =~= action_set@.take(k as int));
                assert(action_set@.take(k + 1).last() == a);
            }
            if a.can_be_scheduled(config, metrics, n) {
                eligible.push(a);
                proof {
                    assert(eligible@[eligible@.len() - 1] == a);
                    if k >= 2 {
                        let t = choose|t: int| 0 <= t < before.len() && before[t] == Action::CrashReplica;
                        assert(eligible@[t] == Action::CrashReplica);
                    }
                }
            }
            proof {
                if k == 1 {
                    assert(a == Action::CrashReplica);
                    assert(eligible@[eligible@.len() - 1] == a);
                }
            }
            k = k + 1;
        }
        proof {
            assert(action_set@.take(k as int) =~= action_set@);
        }
        eligible
    }

    fn next_action(&mut self) -> (a: Action)
        requires
            old(self).wf(),
            old(self).metrics.num_replica_crashes < u32::MAX,
            old(self).metrics.num_replica_restarts < u32::MAX,
        ensures
            final(self).wf(),
            a.schedulable(old(self).config, old(self).metrics, old(self).bus@.queued.len()),
            final(self).metrics == (match a {
                Action::SendUserRequest => ActionSimulatorMetrics {
                    num_user_requests_sent: (old(self).metrics.num_user_requests_sent + 1) as u32,
                    ..old(self).metrics
                },
                Action::CrashReplica => ActionSimulatorMetrics {
                    num_replica_crashes: (old(self).metrics.num_replica_crashes + 1) as u32,
                    ..old(self).metrics
                },
                Action::RestartReplica => ActionSimulatorMetrics {
                    num_replica_restarts: (old(self).metrics.num_replica_restarts + 1) as u32,
                    ..old(self).metrics
                },
                _ => old(self).metrics,
            }),
            final(self).bus == old(self).bus,
            final(self).nodes == old(self).nodes,
            final(self).healthy_replicas == old(self).healthy_replicas,
            final(self).failed_replicas == old(self).failed_replicas,
            final(self).config == old(self).config,
            final(self).action_set == old(self).action_set,
            final(self).system == old(self).system,
            final(self).modeled == old(self).modeled,
            final(self).fanout == old(self).fanout,
            final(self).taken@ == old(self).taken@.push(a),
            final(self).offers@ == old(self).offers@.push(
                schedulable_now(old(self).config, old(self).metrics, old(self).bus@.queued.len()),
            ),
            final(self).offers@.last().contains(a),
    {
        let n = self.bus.num_messages_in_flight();
        let eligible = Self::schedulable_actions(&self.action_set, &self.config, &self.metrics, n);
        proof {
            self.offers@ = self.offers@.push(eligible@);
        }
        let action = match random_choice(&mut self.rng, eligible.as_slice()) {
            Some(a) => {
                proof {
                    broadcast use vstd::seq_lib::group_filter_ensures;

                    let t = choose|t: int| 0 <= t < eligible@.len() && eligible@[t] == a;
                    assert(eligible@[t].schedulable(self.config, self.metrics, n as nat));
                }
                a
            },
            None => {
                proof {
                    assert(eligible@.contains(Action::CrashReplica));
                }
                Action::CrashReplica
            },
        };
        match action {
            Action::SendUserRequest => {
                self.metrics.num_user_requests_sent = self.metrics.num_user_requests_sent + 1;
            },
            Action::CrashReplica => {
                self.metrics.num_replica_crashes = self.metrics.num_replica_crashes + 1;
            },
            Action::RestartReplica => {
                self.metrics.num_replica_restarts = self.metrics.num_replica_restarts + 1;
            },
            _ => {},
        }
        proof {
            self.taken@ = self.taken@.push(action);
        }
        action
    }

    /// The id of a healthy replica, picked at random.
    fn choose_healthy_replica(rng: &mut StdRng, nodes: &Vec<Node<S>>, healthy: &HashSet<ReplicaId>) -> (id: ReplicaId)
        requires
            healthy@.finite(),
            healthy@.len() > 0,
            forall|x: ReplicaId| #[trigger] healthy@.contains(x) ==> nodes@.map_values(|n: Node<S>| n.replica@.id).contains(x),
        ensures
            healthy@.contains(id),
    {
        let ghost node_ids = nodes@.map_values(|n: Node<S>| n.replica@.id);
        let mut ids: Vec<ReplicaId> = Vec::new();
        let mut k: usize = 0;
        while k < nodes.len()
            invariant
                k <= nodes.len(),
                node_ids == nodes@.map_values(|n: Node<S>| n.replica@.id),
                forall|t: int| 0 <= t < ids@.len() ==> healthy@.contains(#[trigger] ids@[t]),
                forall|j: int| 0 <= j < k && healthy@.contains(#[trigger] node_ids[j]) ==> ids@.contains(node_ids[j]),
            decreases nodes.len() - k,
        {
            let id = nodes[k].replica.config().id;
            let ghost before = ids@;
            proof {
                assert(node_ids[k as int] == id);
            }
            if healthy.contains(&id) {
                ids.push(id);
                proof {
                    assert(ids@[ids@.len() - 1] == id);
                    assert forall|j: int| 0 <= j < k + 1 && healthy@.contains(#[trigger] node_ids[j]) implies ids@.contains(node_ids[j]) by {
                        if j < k {
                            let t = choose|t: int| 0 <= t < before.len() && before[t] == node_ids[j];
                            assert(ids@[t] == node_ids[j]);
                        }
                    }
                }
            }
            k = k + 1;
        }
        proof {
            vstd::set_lib::lemma_set_empty_equivalency_len(healthy@);
            let x = choose|x: ReplicaId| healthy@.contains(x);
            assert(node_ids.contains(x));
            let j = choose|j: int| 0 <= j < node_ids.len() && node_ids[j] == x;
            assert(healthy@.contains(node_ids[j]));
            assert(ids@.contains(x));
        }
        match random_choice(rng, ids.as_slice()) {
            Some(id) => id,
            None => {
                proof {
                    assert(false);
                }
                0
            },
        }
    }

    /// The id of some replica, picked at random.
    fn choose_any_replica(rng: &mut StdRng, nodes: &Vec<Node<S>>) -> (id: ReplicaId)
        requires
            nodes@.len() > 0,
        ensures
            nodes@.map_values(|n: Node<S>| n.replica@.id).contains(id),
    {
        let ghost node_ids = nodes@.map_values(|n: Node<S>| n.replica@.id);
        let mut ids: Vec<ReplicaId> = Vec::new();
        let mut k: usize = 0;
        while k < nodes.len()
            invariant
                k <= nodes.len(),
                node_ids == nodes@.map_values(|n: Node<S>| n.replica@.id),
                ids@ == node_ids.take(k as int),
            decreases nodes.len() - k,
        {
            ids.push(nodes[k].replica.config().id);
            proof {
                assert(node_ids.take(k + 1) =~= node_ids.take(k as int).push(node_ids[k as int]));
            }
            k = k + 1;
        }
        proof {
            assert(node_ids.take(k as int) =~= node_ids);
            assert(ids@.contains(ids@[0]));
        }
        match random_choice(rng, ids.as_slice()) {
            Some(id) => id,
            None => {
                proof {
                    assert(false);
                }
                0
            },
        }
    }

    /// The position of the node of replica `replica_id`, if that replica is
    /// healthy.
    fn get_healthy_replica_index(&self, replica_id: ReplicaId) -> (r: Option<usize>)
        ensures
            match r {
                Some(i) => i < self.nodes@.len() && self.node_ids()[i as int] == replica_id && self.healthy().contains(replica_id)
                    && forall|j: int| 0 <= j < i ==> self.node_ids()[j] != replica_id,
                None => !(self.healthy().contains(replica_id) && self.node_ids().contains(replica_id)),
            },
    {
        let mut i: usize = 0;
        while i < self.nodes.len()
            invariant
                i <= self.nodes.len(),
                forall|j: int| 0 <= j < i ==> !(self.node_ids()[j] == replica_id && self.healthy().contains(replica_id)),
            decreases self.nodes.len() - i,
        {
            let id = self.nodes[i].replica.config().id;
            if id == replica_id && self.healthy_replicas.contains(&id) {
                return Some(i);
            }
            i = i + 1;
        }
        None
    }

    /// Hands a message that left the network to its replica, if that replica
    /// is healthy: logged as received, then handled.
    #[verifier::spinoff_prover]
    #[verifier::rlimit(60)]
    fn deliver_message(&mut self, message: PendingMessage) -> (r: Result<(), SimulationFailure>)
        requires
            old(self).wf(),
            old(self).bus@.sent.contains(message@),
        ensures
            final(self).wf(),
            final(self).healthy_replicas == old(self).healthy_replicas,
            final(self).failed_replicas == old(self).failed_replicas,
            final(self).config == old(self).config,
            final(self).metrics == old(self).metrics,
            final(self).nodes@.len() == old(self).nodes@.len(),
            final(self).modeled@ == old(self).modeled@,
            !(r matches Err(SimulationFailure::Agreement(_))),
            final(self).fanout@ == old(self).fanout@,
            final(self).taken == old(self).taken,
            final(self).offers == old(self).offers,
            final(self).node_ids() == old(self).node_ids(),
            final(self).reliable() == old(self).reliable(),
            r matches Err(SimulationFailure::Storage(_)) ==> !old(self).reliable(),
            r matches Err(SimulationFailure::Storage(_)) ==> stores_on(message@),
            r matches Err(SimulationFailure::ProposalNumbersExhausted(id)) ==> final(self).exhausted(id),
            old(self).modeled@ && old(self).bus@.sent.len() < u64::MAX ==> !(r matches Err(
                SimulationFailure::ProposalNumbersExhausted(_),
            )),
            r is Err ==> final(self).bus@.sent == old(self).bus@.sent && final(self).bus@.queued == old(self).bus@.queued,
            r is Ok ==> exists|out: Seq<MessageView>|
                delivery(
                    old(self).node_ids(),
                    old(self).healthy(),
                    old(self).replica_views(),
                    message@,
                    final(self).replica_views(),
                    out,
                ) && final(self).bus_view().sent == old(self).bus_view().sent + out && final(self).bus_view().queued
                    == old(self).bus_view().queued + out,
            total_cost(final(self).bus@.queued, old(self).fanout@) < total_cost(old(self).bus@.queued, old(self).fanout@)
                + cost(message@, old(self).fanout@),
            ({
                let to = message@.to_replica_id();
                let views = old(self).replica_views();
                if !(old(self).healthy().contains(to) && old(self).node_ids().contains(to)) {
                    &&& r is Ok
                    &&& final(self).replica_views() == views
                    &&& final(self).bus_view().sent == old(self).bus_view().sent
                    &&& final(self).bus_view().queued == old(self).bus_view().queued
                    &&& final(self).bus_view().log == old(self).bus_view().log
                } else {
                    exists|i: int|
                        #![trigger views[i]]
                        0 <= i < views.len() && old(self).node_ids()[i] == to && (forall|j: int|
                            0 <= j < i ==> old(self).node_ids()[j] != to) && {
                            let (r1, msgs) = SystemView::handle(views[i], message@);
                            let exhausted = message@ is StartProposal && views[i].state.min_proposal_number == u64::MAX;
                            match r {
                                Ok(()) => {
                                    &&& !exhausted
                                    &&& final(self).replica_views() == views.update(i, r1)
                                    &&& final(self).bus_view().sent == old(self).bus_view().sent + msgs
                                    &&& final(self).bus_view().queued == old(self).bus_view().queued + msgs
                                    &&& final(self).bus_view().log == old(self).bus_view().log.push(
                                        event_text(message@, EventType::Receive),
                                    ) + msgs.map_values(|x: MessageView| event_text(x, EventType::Queue))
                                },
                                Err(e) => {
                                    &&& final(self).replica_views() == views
                                    &&& final(self).bus_view().sent == old(self).bus_view().sent
                                    &&& final(self).bus_view().queued == old(self).bus_view().queued
                                    &&& final(self).bus_view().log == old(self).bus_view().log.push(
                                        event_text(message@, EventType::Receive),
                                    )
                                    &&& exhausted <==> (e is ProposalNumbersExhausted && e->ProposalNumbersExhausted_0 == to)
                                    &&& e is Storage ==> stores_on(message@)
                                },
                            }
                        }
                }
            }),
    {
        let to = message.get_to_replica_id();
        let i = match self.get_healthy_replica_index(to) {
            None => {
                proof {
                    assert(self.bus@.sent =~= self.bus@.sent + Seq::<MessageView>::empty());
                    assert(self.bus@.queued =~= self.bus@.queued + Seq::<MessageView>::empty());
                    assert(delivery(
                        self.node_ids(),
                        self.healthy(),
                        self.replica_views(),
                        message@,
                        self.replica_views(),
                        Seq::<MessageView>::empty(),
                    ));
                }
                return Ok(());
            },
            Some(i) => i,
        };
        let line = message.to_activity_log_event(EventType::Receive);
        self.bus.record(line);
        proof {
            let k = choose|k: int| 0 <= k < self.bus@.sent.len() && self.bus@.sent[k] == message@;
            assert(self.bus@.sent[k].well_formed());
            self.bus.lemma_sent();
        }
        let ghost ids0 = self.node_ids();
        let ghost sent0 = self.bus@.sent;
        let ghost q0 = self.bus@.queued;
        let ghost l0 = self.bus@.log;
        let mut node = self.nodes.remove(i);
        let ghost r0 = node.replica@;
        let ghost rel0 = node.replica.reliable();
        proof {
            assert(node == old(self).nodes@[i as int]);
        }
        let ghost mv = message@;
        let ghost mut stepped = false;
        proof {
            if self.modeled@ {
                assert(old(self).model_ok());
                assert(old(self).node_ids()[i as int] == to);
                assert(old(self).node_ids().contains(to));
                assert(old(self).system@.replicas.contains_key(to));
                assert(old(self).system@.replicas[to] == r0) by {
                    assert(old(self).nodes@[i as int].replica@ == r0);
                }
                assert(promises_within(old(self).system@, old(self).bus@.sent.len()));
                assert(r0.state.min_proposal_number <= old(self).bus@.sent.len());
            }
        }
        let result = match message {
            PendingMessage::StartProposal(_to, value) => {
                if node.replica.state().min_proposal_number == u64::MAX {
                    Err(SimulationFailure::ProposalNumbersExhausted(to))
                } else {
                    let ghost v = value@;
                    let res = node.replica.on_start_proposal(&mut self.bus, value);
                    proof {
                        lemma_handlers_keep_state_well_formed(r0, v, arbitrary(), arbitrary(), arbitrary());
                        stepped = res is Ok;
                    }
                    match res {
                        Ok(()) => Ok(()),
                        Err(e) => Err(SimulationFailure::Storage(e)),
                    }
                }
            },
            PendingMessage::Prepare(_to, input) => {
                let res = node.replica.on_prepare(&mut self.bus, input);
                proof {
                    lemma_handlers_keep_state_well_formed(r0, arbitrary(), input, arbitrary(), arbitrary());
                    stepped = res is Ok;
                }
                match res {
                    Ok(()) => Ok(()),
                    Err(e) => Err(SimulationFailure::Storage(e)),
                }
            },
            PendingMessage::PrepareResponse(_to, input) => {
                let ghost iv = input@;
                proof {
                    lemma_handlers_keep_responses_reporting(r0, arbitrary(), arbitrary(), iv, arbitrary());
                }
                node.replica.on_prepare_response(&mut self.bus, input);
                proof {
                    lemma_handlers_keep_state_well_formed(r0, arbitrary(), arbitrary(), iv, arbitrary());
                    stepped = true;
                }
                Ok(())
            },
            PendingMessage::Accept(_to, input) => {
                let ghost iv = input@;
                let res = node.replica.on_accept(&mut self.bus, input);
                proof {
                    lemma_handlers_keep_state_well_formed(r0, arbitrary(), arbitrary(), arbitrary(), iv);
                    stepped = res is Ok;
                }
                match res {
                    Ok(()) => Ok(()),
                    Err(e) => Err(SimulationFailure::Storage(e)),
                }
            },
            PendingMessage::AcceptResponse(_to, input) => {
                node.replica.on_accept_response(input);
                Ok(())
            },
        };
        proof {
            self.bus.lemma_sent();
            assert(node.replica@.id == r0.id);
            assert(node.replica@.state.well_formed());
            assert forall|k: int| 0 <= k < self.bus@.sent.len() implies (#[trigger] self.bus@.sent[k]).well_formed() by {
                if k >= sent0.len() {
                    assert(self.bus@.sent[k] == self.bus@.sent.subrange(sent0.len() as int, self.bus@.sent.len() as int)[k - sent0.len()]);
                } else {
                    assert(self.bus@.sent[k] == sent0[k]);
                }
            }
        }
        proof {
            lemma_handle_keeps_responses_reporting(r0, mv);
        }
        let ghost r1 = node.replica@;
        let ghost sent1 = self.bus@.sent;
        let ghost q1 = self.bus@.queued;
        let ghost l1 = self.bus@.log;
        proof {
            self.bus.lemma_sent();
            let k = self.fanout@;
            if stepped {
                assert(l1 == l0 + SystemView::handle(r0, mv).1.map_values(|x: MessageView| event_text(x, EventType::Queue)));
            } else {
                assert(l1 == l0);
            }
            assert(l0 == old(self).bus@.log.push(event_text(mv, EventType::Receive)));
            assert(r0.replicas.len() <= k) by {
                assert(old(self).nodes@[i as int].replica@ == r0);
            }
            if stepped {
                assert(r1 == SystemView::handle(r0, mv).0);
                assert(sent1 == sent0 + SystemView::handle(r0, mv).1);
                assert(q1 == q0 + SystemView::handle(r0, mv).1);
                lemma_total_cost_concat(q0, SystemView::handle(r0, mv).1, k);
                lemma_handling_costs_less(r0, mv, k);
            } else {
                assert(r1 == r0);
                assert(sent1 == sent0);
                assert(q1 == q0);
            }
            assert(q0 == old(self).bus@.queued);
        }
        self.nodes.insert(i, node);
        proof {
            if self.modeled@ {
                let sys0 = self.system@;
                assert(sent0 == old(self).bus@.sent);
                assert(sys0.replicas[to] == r0) by {
                    assert(old(self).nodes@[i as int].replica@ == r0);
                }
                if stepped {
                    let k = choose|k: int| 0 <= k < sent0.len() && sent0[k] == mv;
                    assert(sys0.sent.contains(mv));
                    lemma_deliver_keeps_inv(sys0, mv);
                    lemma_concat_to_set(sent0, SystemView::handle(r0, mv).1);
                    self.system@ = sys0.deliver(mv);
                }
                let sys1 = self.system@;
                assert(sys1.sent == sent1.to_set());
                assert(sys1.replicas == sys0.replicas.insert(to, r1));
                let ids1 = self.nodes@.map_values(|n: Node<S>| n.replica@.id);
                assert(ids1 =~= ids0);
                assert forall|x: ReplicaId| #[trigger] sys1.replicas.contains_key(x) <==> ids1.contains(x) by {
                    assert(sys0.replicas.contains_key(x) <==> ids0.contains(x));
                }
                assert forall|j: int| 0 <= j < self.nodes@.len() implies sys1.replicas[ids1[j]] == (#[trigger] self.nodes@[j]).replica@ by {
                    if j != i {
                        assert(self.nodes@[j] == old(self).nodes@[j]);
                        assert(ids1[j] != to);
                    }
                }
            }
        }
        proof {
            assert(self.nodes@[i as int].replica.reliable() == rel0);
            assert forall|j: int| 0 <= j < self.nodes@.len() implies (#[trigger] self.nodes@[j]).replica.reliable()
                == old(self).nodes@[j].replica.reliable() by {
                if j != i {
                    assert(self.nodes@[j] == old(self).nodes@[j]);
                }
            }
            if self.reliable() {
                assert forall|j: int| 0 <= j < old(self).nodes@.len() implies (#[trigger] old(self).nodes@[j]).replica.reliable() by {
                    assert(self.nodes@[j].replica.reliable());
                }
            }
            if old(self).reliable() {
                assert forall|j: int| 0 <= j < self.nodes@.len() implies (#[trigger] self.nodes@[j]).replica.reliable() by {
                    assert(old(self).nodes@[j].replica.reliable());
                }
            }
        }
        proof {
            let views = old(self).replica_views();
            assert(self.nodes@ =~= old(self).nodes@.update(i as int, self.nodes@[i as int]));
            assert(self.replica_views() =~= views.update(i as int, r1));
            assert(views[i as int] == r0);
            if !stepped {
                assert(views.update(i as int, r1) =~= views);
                if result is Ok {
                    assert(sent1 =~= sent0 + SystemView::handle(r0, mv).1);
                    assert(q1 =~= q0 + SystemView::handle(r0, mv).1);
                }
            }
            assert(sent0 == old(self).bus@.sent);
            if result is Ok {
                assert(delivery(
                    old(self).node_ids(),
                    old(self).healthy(),
                    views,
                    mv,
                    self.replica_views(),
                    SystemView::handle(r0, mv).1,
                ));
            }
        }
        proof {
            assert(self.node_ids() =~= ids0);
            assert forall|j: int|
                0 <= j < self.nodes@.len() implies {
                    &&& (#[trigger] self.nodes@[j]).replica.wf()
                    &&& self.nodes@[j].replica@.state.well_formed()
                    &&& self.nodes@[j].replica@.responses_report()
                    &&& self.nodes@[j].fs.wf()
                } by {
                if j != i {
                    assert(self.nodes@[j] == old(self).nodes@[j]);
                }
            }
        }
        result
    }

    /// Crashes a healthy replica picked at random, but only while more than a
    /// majority are healthy; a crash is logged.
    fn crash_replica(&mut self)
        requires
            old(self).wf(),
        ensures
            final(self).wf(),
            old(self).healthy().len() > old(self).majority_size() ==> exists|id: ReplicaId|
                old(self).healthy().contains(id) && final(self).healthy() == old(self).healthy().remove(id)
                    && final(self).failed() == old(self).failed().insert(id) && final(self).bus@.log == old(
                    self,
                ).bus@.log.push(crash_text(id)),
            old(self).healthy().len() <= old(self).majority_size() ==> final(self).healthy() == old(self).healthy()
                && final(self).failed() == old(self).failed() && final(self).bus@.log == old(self).bus@.log,
            final(self).config == old(self).config,
            final(self).metrics == old(self).metrics,
            final(self).nodes == old(self).nodes,
            final(self).system == old(self).system,
            final(self).modeled == old(self).modeled,
            final(self).taken == old(self).taken,
            final(self).fanout == old(self).fanout,
            final(self).bus@.sent == old(self).bus@.sent,
            final(self).bus@.queued == old(self).bus@.queued,
    {
        if self.healthy_replicas.len() > self.majority() {
            let replica_id = Self::choose_healthy_replica(&mut self.rng, &self.nodes, &self.healthy_replicas);
            self.healthy_replicas.remove(&replica_id);
            self.failed_replicas.insert(replica_id);
            let mut line = String::new();
            line.append("[SIMULATOR] CRASH Replica(");
            push_decimal(&mut line, replica_id as u64);
            line.append(")");
            self.bus.record(line);
            proof {
                assert(self.healthy_replicas@.len() == old(self).healthy_replicas@.len() - 1);
                assert(self.healthy_replicas@ + self.failed_replicas@ =~= old(self).healthy_replicas@
                    + old(self).failed_replicas@);
                assert(self.healthy_replicas@.disjoint(self.failed_replicas@));
            }
        }
    }

    /// Runs `max_actions` random actions, stopping at the first failure. A
    /// crash never leaves fewer than a majority of replicas healthy; a restart
    /// is counted and changes nothing. On success, each action taken led from
    /// one state to the next as `action_step` says.
    pub fn run_actions(&mut self) -> (r: Result<(), SimulationFailure>)
        requires
            old(self).wf(),
            old(self).metrics().num_replica_crashes + old(self).config().max_actions <= u32::MAX,
            old(self).metrics().num_replica_restarts + old(self).config().max_actions <= u32::MAX,
        ensures
            final(self).wf(),
            final(self).config() == old(self).config(),
            final(self).metrics().num_user_requests_sent <= final(self).config().max_user_requests,
            final(self).majority_size() == old(self).majority_size(),
            old(self).healthy().len() >= old(self).majority_size() ==> final(self).healthy().len() >= final(self).majority_size(),
            final(self).modeled() == old(self).modeled(),
            old(self).modeled() ==> !(r matches Err(SimulationFailure::Agreement(_))),
            final(self).actions().take(old(self).actions().len() as int) == old(self).actions(),
            final(self).actions().len() <= old(self).actions().len() + old(self).config().max_actions,
            r is Ok ==> final(self).actions().len() == old(self).actions().len() + old(self).config().max_actions,
            old(self).config().max_actions == 0 ==> r is Ok && final(self).bus_view() == old(self).bus_view(),
            final(self).node_ids() == old(self).node_ids(),
            r is Ok ==> exists|trace: Seq<SimState>|
                #[trigger] ran_actions(
                    old(self).node_ids(),
                    old(self).majority_size(),
                    final(self).actions().skip(old(self).actions().len() as int),
                    trace,
                ) && trace[0] == old(self).sim_state() && trace.last() == final(self).sim_state() && (forall|j: int|
                    0 <= j < trace.len() ==> #[trigger] partitioned(old(self).node_ids(), trace[j])) && (old(
                    self,
                ).healthy().len() >= old(self).majority_size() ==> forall|j: int|
                    0 <= j < trace.len() ==> (#[trigger] trace[j]).1.len() >= old(self).majority_size()),
            final(self).reliable() == old(self).reliable(),
            r matches Err(SimulationFailure::Storage(_)) ==> !old(self).reliable(),
            r matches Err(SimulationFailure::ProposalNumbersExhausted(id)) ==> final(self).exhausted(id),
            final(self).fanout() == old(self).fanout(),
            final(self).backlog() <= old(self).backlog() + old(self).config().max_actions * (max_cost(old(self).fanout()) + 1),
            old(self).modeled() && old(self).reliable() && old(self).backlog() + old(self).config().max_actions * (
            max_cost(old(self).fanout()) + 1) < u64::MAX ==> r is Ok,
            ({
                let taken = final(self).actions().skip(old(self).actions().len() as int);
                &&& final(self).metrics().num_user_requests_sent == old(self).metrics().num_user_requests_sent
                    + count_action(taken, Action::SendUserRequest)
                &&& final(self).metrics().num_replica_crashes == old(self).metrics().num_replica_crashes
                    + count_action(taken, Action::CrashReplica)
                &&& final(self).metrics().num_replica_restarts == old(self).metrics().num_replica_restarts
                    + count_action(taken, Action::RestartReplica)
            }),
    {
        let max_actions = self.config.max_actions;
        let mut i: u32 = 0;
        proof {
            assert(self.taken@.take(self.taken@.len() as int) =~= self.taken@);
            assert(self.taken@.skip(self.taken@.len() as int) =~= Seq::<Action>::empty());
        }
        let ghost ids = self.node_ids();
        let ghost maj = self.majority_size();
        let ghost n0 = self.taken@.len() as int;
        let ghost mut trace: Seq<SimState> = seq![self.sim_state()];
        while i < max_actions
            invariant
                self.wf(),
                self.node_ids() == ids,
                ids == old(self).node_ids(),
                maj == old(self).majority_size(),
                n0 == old(self).taken@.len(),
                trace.len() == i + 1,
                trace[0] == old(self).sim_state(),
                trace[i as int] == self.sim_state(),
                forall|j: int| 0 <= j < i ==> #[trigger] step_taken(ids, maj, self.taken@.skip(n0), trace, j),
                forall|j: int| 0 <= j <= i ==> #[trigger] partitioned(ids, trace[j]),
                old(self).healthy().len() >= maj ==> forall|j: int| 0 <= j <= i ==> (#[trigger] trace[j]).1.len() >= maj,
                i <= max_actions,
                max_actions == self.config.max_actions,
                self.config == old(self).config,
                self.nodes@.len() == old(self).nodes@.len(),
                self.metrics.num_replica_crashes <= old(self).metrics.num_replica_crashes + i,
                self.metrics.num_replica_restarts <= old(self).metrics.num_replica_restarts + i,
                old(self).metrics.num_replica_crashes + max_actions <= u32::MAX,
                old(self).metrics.num_replica_restarts + max_actions <= u32::MAX,
                old(self).healthy().len() >= old(self).majority_size() ==> self.healthy().len() >= self.majority_size(),
                self.modeled@ == old(self).modeled@,
                self.taken@.len() == old(self).taken@.len() + i,
                self.reliable() == old(self).reliable(),
                max_actions == 0 ==> self.bus@ == old(self).bus@,
                self.fanout@ == old(self).fanout@,
                self.backlog() <= old(self).backlog() + i * (max_cost(self.fanout@) + 1),
                self.taken@.take(old(self).taken@.len() as int) == old(self).taken@,
                self.metrics.num_user_requests_sent == old(self).metrics.num_user_requests_sent + count_action(
                    self.taken@.skip(old(self).taken@.len() as int),
                    Action::SendUserRequest,
                ),
                self.metrics.num_replica_crashes == old(self).metrics.num_replica_crashes + count_action(
                    self.taken@.skip(old(self).taken@.len() as int),
                    Action::CrashReplica,
                ),
                self.metrics.num_replica_restarts == old(self).metrics.num_replica_restarts + count_action(
                    self.taken@.skip(old(self).taken@.len() as int),
                    Action::RestartReplica,
                ),
            decreases max_actions - i,
        {
            let ghost taken0 = self.taken@;
            let ghost s0 = self.sim_state();
            let ghost before = self.backlog();
            let ghost m1 = max_cost(self.fanout@) + 1;
            proof {
                assert((i + 1) * m1 == i * m1 + m1) by (nonlinear_arith);
                assert(i * m1 <= (max_actions - 1) * m1) by (nonlinear_arith)
                    requires
                        i < max_actions,
                ;
                assert((max_actions - 1) * m1 + m1 == max_actions * m1) by (nonlinear_arith);
                lemma_total_cost_at_least_len(self.bus@.queued, self.fanout@);
            }
            let action = self.next_action();
            proof {
                let n0 = old(self).taken@.len() as int;
                lemma_count_after_push(taken0, n0, action, Action::SendUserRequest);
                lemma_count_after_push(taken0, n0, action, Action::CrashReplica);
                lemma_count_after_push(taken0, n0, action, Action::RestartReplica);
                assert(self.taken@.take(n0) =~= taken0.take(n0));
            }
            match action {
                Action::SendUserRequest => {
                    let replica_id = Self::choose_healthy_replica(&mut self.rng, &self.nodes, &self.healthy_replicas);
                    let mut value = String::new();
                    value.append("V(");
                    push_decimal(&mut value, replica_id as u64);
                    value.append(", ");
                    push_decimal(&mut value, i as u64);
                    value.append(")");
                    proof {
                        self.bus.lemma_sent();
                    }
                    let ghost sent0 = self.bus@.sent;
                    let ghost b_q = self.bus@.queued;
                    proof {
                        assert(value@ =~= user_value_text(replica_id, i as nat));
                    }
                    let ghost request = MessageView::StartProposal(replica_id, value@);
                    self.bus.send_start_proposal(replica_id, value);
                    proof {
                        self.bus.lemma_sent();
                        if self.modeled@ {
                            let sys0 = self.system@;
                            lemma_request_keeps_inv(sys0, replica_id, request->StartProposal_1);
                            sent0.lemma_push_to_set_commute(request);
                            self.system@ = sys0.request(replica_id, request->StartProposal_1);
                        }
                        assert forall|k: int| 0 <= k < self.bus@.sent.len() implies (#[trigger] self.bus@.sent[k]).well_formed() by {
                            if k < sent0.len() {
                                assert(self.bus@.sent[k] == sent0[k]);
                            }
                        }
                        lemma_total_cost_concat(b_q, seq![request], self.fanout@);
                        lemma_total_cost_single(request, self.fanout@);
                        lemma_cost_at_most(request, self.fanout@);
                        assert(self.bus@.queued == b_q + seq![request]);
                        assert(s0.1.contains(replica_id));
                        assert(self.sim_state() == (s0.0, s0.1, s0.2, s0.3.push(request), s0.4.push(request)));
                    }
                },
                Action::CrashReplica => {
                    self.crash_replica();
                    proof {
                        if s0.1.len() > maj {
                            let id = choose|id: ReplicaId|
                                #[trigger] s0.1.contains(id) && self.healthy_replicas@ == s0.1.remove(id)
                                    && self.failed_replicas@ == s0.2.insert(id);
                            assert(s0.1.contains(id));
                        }
                    }
                },
                Action::RestartReplica => {},
                Action::DropMessage => {
                    let ghost b0 = self.bus@;
                    let ghost f = self.fanout@;
                    match self.bus.next_message(&mut self.rng) {
                        Err(v) => {
                            proof {
                                if self.modeled@ {
                                    lemma_no_violation(self.system@, b0.sent, majority_of(self.system@.ids.len()), v.decided@, v.accepted@);
                                }
                                let j = choose|j: int|
                                    #![trigger b0.queued[j]]
                                    0 <= j < b0.queued.len() && self.bus@.queued == b0.queued.update(j, b0.queued.last()).drop_last();
                                lemma_total_cost_swap_remove(b0.queued, j, f);
                                lemma_cost_at_most(b0.queued[j], f);
                            }
                            return Err(SimulationFailure::Agreement(v));
                        },
                        Ok(None) => {
                            proof {
                                assert(b0.queued.len() == 0);
                            }
                        },
                        Ok(Some(message)) => {
                            proof {
                                let j = choose|j: int|
                                    #![trigger b0.queued[j]]
                                    0 <= j < b0.queued.len() && self.bus@.queued == b0.queued.update(j, b0.queued.last()).drop_last();
                                lemma_total_cost_swap_remove(b0.queued, j, f);
                                lemma_cost_at_most(b0.queued[j], f);
                                assert(self.bus@.queued == swap_removed(s0.4, j));
                            }
                            let line = message.to_activity_log_event(EventType::Drop);
                            self.bus.record(line);
                        },
                    }
                },
                Action::DuplicateMessage => {
                    proof {
                        self.bus.lemma_in_flight_were_sent();
                    }
                    let ghost b0 = self.bus@;
                    let ghost f = self.fanout@;
                    match self.bus.next_message(&mut self.rng) {
                        Err(v) => {
                            proof {
                                if self.modeled@ {
                                    lemma_no_violation(self.system@, b0.sent, majority_of(self.system@.ids.len()), v.decided@, v.accepted@);
                                }
                                let j = choose|j: int|
                                    #![trigger b0.queued[j]]
                                    0 <= j < b0.queued.len() && self.bus@.queued == b0.queued.update(j, b0.queued.last()).drop_last();
                                lemma_total_cost_swap_remove(b0.queued, j, f);
                                lemma_cost_at_most(b0.queued[j], f);
                            }
                            return Err(SimulationFailure::Agreement(v));
                        },
                        Ok(None) => {
                            proof {
                                assert(b0.queued.len() == 0);
                            }
                        },
                        Ok(Some(message)) => {
                            let line = message.to_activity_log_event(EventType::Duplicate);
                            self.bus.record(line);
                            let copy = message.duplicate();
                            let ghost m = message@;
                            let ghost sent0 = self.bus@.sent;
                            let ghost q0 = self.bus@.queued;
                            let ghost j = choose|j: int|
                                #![trigger b0.queued[j]]
                                0 <= j < b0.queued.len() && q0 == b0.queued.update(j, b0.queued.last()).drop_last()
                                    && m == b0.queued[j];
                            proof {
                                assert(sent0.contains(m));
                                lemma_total_cost_swap_remove(b0.queued, j, f);
                                lemma_cost_at_most(m, f);
                            }
                            self.bus.add_message(copy);
                            self.bus.add_message(message);
                            proof {
                                assert(self.bus@.queued =~= q0 + seq![m, m]);
                                lemma_total_cost_concat(q0, seq![m, m], f);
                                assert(seq![m, m].drop_last() =~= seq![m]);
                                lemma_total_cost_single(m, f);
                                assert(self.bus@.sent == sent0.push(m).push(m));
                                sent0.lemma_push_to_set_commute(m);
                                sent0.push(m).lemma_push_to_set_commute(m);
                                assert(sent0.to_set().insert(m) =~= sent0.to_set());
                                assert forall|k: int| 0 <= k < self.bus@.sent.len() implies (#[trigger] self.bus@.sent[k]).well_formed() by {
                                    if k < sent0.len() {
                                        assert(self.bus@.sent[k] == sent0[k]);
                                    } else {
                                        let j = choose|j: int| 0 <= j < sent0.len() && sent0[j] == m;
                                        assert(sent0[j].well_formed());
                                    }
                                }
                                assert(q0 == swap_removed(s0.4, j));
                                assert(self.sim_state() == (s0.0, s0.1, s0.2, s0.3.push(m).push(m), swap_removed(s0.4, j).push(m).push(m)));
                            }
                        },
                    }
                },
                Action::DeliverMessage => {
                    proof {
                        lemma_total_cost_at_least_len(self.bus@.queued, self.fanout@);
                    }
                    match self.deliver_next() {
                        Ok(_) => {},
                        Err(e) => {
                            return Err(e);
                        },
                    }
                },
            }
            proof {
                let s1 = self.sim_state();
                assert(action_step(ids, maj, i as nat, action, s0, s1));
                let before = taken0.skip(n0);
                let after = self.taken@.skip(n0);
                assert(after =~= before.push(action));
                let trace2 = trace.push(s1);
                assert forall|j: int| 0 <= j < i + 1 implies #[trigger] step_taken(ids, maj, after, trace2, j) by {
                    if j < i {
                        assert(step_taken(ids, maj, before, trace, j));
                        assert(after[j] == before[j]);
                        assert(trace2[j] == trace[j]);
                        assert(trace2[j + 1] == trace[j + 1]);
                    } else {
                        assert(after[j] == action);
                        assert(trace2[j] == s0);
                        assert(trace2[j + 1] == s1);
                    }
                }
                assert forall|j: int| 0 <= j <= i + 1 implies #[trigger] partitioned(ids, trace2[j]) by {
                    if j <= i {
                        assert(trace2[j] == trace[j]);
                    }
                }
                if old(self).healthy().len() >= maj {
                    assert forall|j: int| 0 <= j <= i + 1 implies (#[trigger] trace2[j]).1.len() >= maj by {
                        if j <= i {
                            assert(trace2[j] == trace[j]);
                        }
                    }
                }
                trace = trace2;
            }
            i = i + 1;
        }
        proof {
            let taken = self.taken@.skip(n0);
            assert(ran_actions(ids, maj, taken, trace));
        }
        Ok(())
    }

    /// Takes one message out of the network at random and delivers it.
    /// `Ok(false)` when nothing was in flight.
    pub fn deliver_next(&mut self) -> (r: Result<bool, SimulationFailure>)
        requires
            old(self).wf(),
        ensures
            final(self).wf(),
            r matches Ok(false) <==> old(self).bus_view().queued.len() == 0,
            final(self).config() == old(self).config(),
            final(self).healthy() == old(self).healthy(),
            final(self).majority_size() == old(self).majority_size(),
            final(self).modeled() == old(self).modeled(),
            old(self).modeled() ==> !(r matches Err(SimulationFailure::Agreement(_))),
            final(self).fanout() == old(self).fanout(),
            r matches Ok(false) ==> final(self).bus_view().queued.len() == 0,
            r matches Ok(true) ==> total_cost(final(self).bus_view().queued, final(self).fanout()) < total_cost(
                old(self).bus_view().queued,
                old(self).fanout(),
            ),
            r matches Ok(true) ==> exists|k: int, out: Seq<MessageView>|
                #![trigger old(self).bus_view().queued[k], delivery(old(self).node_ids(), old(self).healthy(), old(self).replica_views(), old(self).bus_view().queued[k], final(self).replica_views(), out)]
                0 <= k < old(self).bus_view().queued.len() && delivery(
                    old(self).node_ids(),
                    old(self).healthy(),
                    old(self).replica_views(),
                    old(self).bus_view().queued[k],
                    final(self).replica_views(),
                    out,
                ) && final(self).bus_view().sent == old(self).bus_view().sent + out && final(self).bus_view().queued
                    == old(self).bus_view().queued.update(k, old(self).bus_view().queued.last()).drop_last() + out,
            r matches Ok(false) ==> final(self).replica_views() == old(self).replica_views()
                && final(self).bus_view() == old(self).bus_view(),
            final(self).reliable() == old(self).reliable(),
            r matches Err(SimulationFailure::Storage(_)) ==> !old(self).reliable(),
            r matches Err(SimulationFailure::Storage(_)) ==> exists|k: int|
                0 <= k < old(self).bus_view().queued.len() && stores_on(#[trigger] old(self).bus_view().queued[k]),
            r matches Err(SimulationFailure::ProposalNumbersExhausted(id)) ==> final(self).exhausted(id),
            old(self).modeled() && old(self).bus_view().sent.len() < u64::MAX ==> !(r matches Err(
                SimulationFailure::ProposalNumbersExhausted(_),
            )),
            final(self).backlog() <= old(self).backlog(),
            final(self).actions() == old(self).actions(),
            final(self).failed() == old(self).failed(),
            final(self).metrics() == old(self).metrics(),
            final(self).replica_views().len() == old(self).replica_views().len(),
            final(self).node_ids() == old(self).node_ids(),
            final(self).offers() == old(self).offers(),
            r matches Ok(true) ==> delivery_step(old(self).node_ids(), old(self).sim_state(), final(self).sim_state()),
            r matches Ok(false) ==> final(self).sim_state() == old(self).sim_state(),
    {
        proof {
            self.bus.lemma_in_flight_were_sent();
        }
        let ghost b0 = self.bus@;
        let ghost f = self.fanout@;
        match self.bus.next_message(&mut self.rng) {
            Err(v) => {
                proof {
                    if self.modeled@ {
                        lemma_no_violation(self.system@, b0.sent, majority_of(self.system@.ids.len()), v.decided@, v.accepted@);
                    }
                    let j = choose|j: int|
                        #![trigger b0.queued[j]]
                        0 <= j < b0.queued.len() && self.bus@.queued == b0.queued.update(j, b0.queued.last()).drop_last();
                    lemma_total_cost_swap_remove(b0.queued, j, f);
                    lemma_cost_at_most(b0.queued[j], f);
                }
                Err(SimulationFailure::Agreement(v))
            },
            Ok(None) => Ok(false),
            Ok(Some(message)) => {
                proof {
                    let j = choose|j: int|
                        #![trigger b0.queued[j]]
                        0 <= j < b0.queued.len() && self.bus@.queued == b0.queued.update(j, b0.queued.last()).drop_last()
                            && message@ == b0.queued[j];
                    lemma_total_cost_swap_remove(b0.queued, j, f);
                    lemma_cost_at_most(b0.queued[j], f);
                    let i = choose|i: int|
                        #![trigger b0.queued[i]]
                        0 <= i < b0.queued.len() && {
                            let m = b0.queued[i];
                            let taken = BusView { queued: b0.queued.update(i, b0.queued.last()).drop_last(), ..b0 };
                            let (after, conflict) = taken.observe(m);
                            &&& self.bus@ == after
                            &&& match conflict {
                                None => message@ == m,
                                Some((d, a)) => false,
                            }
                        };
                    assert(self.bus@.queued == b0.queued.update(i, b0.queued.last()).drop_last());
                    assert(message@ == b0.queued[i]);
                    lemma_total_cost_swap_remove(b0.queued, i, self.fanout@);
                }
                let ghost k = choose|i: int| 0 <= i < b0.queued.len() && b0.queued[i] == message@
                    && self.bus@.queued == b0.queued.update(i, b0.queued.last()).drop_last();
                let ghost mid_views = self.replica_views();
                let ghost mid_ids = self.node_ids();
                let ghost mid_healthy = self.healthy();
                let ghost taken = self.bus@.queued;
                let ghost mid_modeled = self.modeled@;
                proof {
                    if mid_modeled {
                        assert(self.bus@.sent == b0.sent);
                    }
                }
                match self.deliver_message(message) {
                    Ok(()) => {
                        proof {
                            let out = choose|out: Seq<MessageView>|
                                delivery(mid_ids, mid_healthy, mid_views, b0.queued[k], self.replica_views(), out)
                                    && self.bus_view().sent == b0.sent + out && self.bus_view().queued
                                    == b0.queued.update(k, b0.queued.last()).drop_last() + out;
                            lemma_total_cost_concat(taken, out, f);
                            assert(delivery(
                                old(self).node_ids(),
                                old(self).healthy(),
                                old(self).replica_views(),
                                old(self).bus_view().queued[k],
                                self.replica_views(),
                                out,
                            ));
                            let s0 = old(self).sim_state();
                            let s1 = self.sim_state();
                            assert(delivery(old(self).node_ids(), s0.1, s0.0, s0.4[k], s1.0, out));
                            assert(s1.4 == swap_removed(s0.4, k) + out);
                        }
                        Ok(true)
                    },
                    Err(e) => {
                        proof {
                            if e is Storage {
                                assert(stores_on(b0.queued[k]));
                                assert(old(self).bus_view().queued[k] == b0.queued[k]);
                            }
                        }
                        Err(e)
                    },
                }
            },
        }
    }

    /// Runs the simulation: `max_actions` random actions, then every message
    /// left in flight is delivered until none is left. It stops at the first
    /// failure; otherwise the network ends empty. Every message may cost the
    /// network only so much (see `cost`), so the draining ends. A simulation
    /// that the model covers, on storage that never fails and with nothing sent
    /// yet, succeeds. On success the states it went through are those of the
    /// actions (`ran_actions`) followed by one delivery after the other
    /// (`drained`).
    pub fn run(&mut self) -> (r: Result<(), SimulationFailure>)
        requires
            old(self).wf(),
            old(self).metrics().num_replica_crashes + old(self).config().max_actions <= u32::MAX,
            old(self).metrics().num_replica_restarts + old(self).config().max_actions <= u32::MAX,
        ensures
            final(self).wf(),
            final(self).config() == old(self).config(),
            final(self).majority_size() == old(self).majority_size(),
            old(self).healthy().len() >= old(self).majority_size() ==> final(self).healthy().len() >= final(self).majority_size(),
            final(self).modeled() == old(self).modeled(),
            old(self).modeled() ==> !(r matches Err(SimulationFailure::Agreement(_))),
            r is Ok ==> final(self).bus_view().queued.len() == 0,
            old(self).config().max_actions == 0 && old(self).bus_view().queued.len() == 0 ==> r is Ok,
            final(self).reliable() == old(self).reliable(),
            r matches Err(SimulationFailure::Storage(_)) ==> !old(self).reliable(),
            r matches Err(SimulationFailure::ProposalNumbersExhausted(id)) ==> final(self).exhausted(id),
            final(self).healthy().disjoint(final(self).failed()),
            final(self).healthy() + final(self).failed() == final(self).node_ids().to_set(),
            old(self).modeled() && old(self).reliable() && old(self).bus_view().sent.len() == 0 ==> r is Ok,
            final(self).node_ids() == old(self).node_ids(),
            final(self).actions().take(old(self).actions().len() as int) == old(self).actions(),
            final(self).actions().len() <= old(self).actions().len() + old(self).config().max_actions,
            r is Ok ==> final(self).actions().len() == old(self).actions().len() + old(self).config().max_actions,
            ({
                let taken = final(self).actions().skip(old(self).actions().len() as int);
                &&& final(self).metrics().num_user_requests_sent == old(self).metrics().num_user_requests_sent
                    + count_action(taken, Action::SendUserRequest)
                &&& final(self).metrics().num_replica_crashes == old(self).metrics().num_replica_crashes
                    + count_action(taken, Action::CrashReplica)
                &&& final(self).metrics().num_replica_restarts == old(self).metrics().num_replica_restarts
                    + count_action(taken, Action::RestartReplica)
            }),
            r is Ok ==> exists|acts: Seq<SimState>, drain: Seq<SimState>|
                #![trigger ran_actions(old(self).node_ids(), old(self).majority_size(), final(self).actions().skip(old(self).actions().len() as int), acts), drained(old(self).node_ids(), drain)]
                ran_actions(
                    old(self).node_ids(),
                    old(self).majority_size(),
                    final(self).actions().skip(old(self).actions().len() as int),
                    acts,
                ) && drained(old(self).node_ids(), drain) && acts[0] == old(self).sim_state() && acts.last() == drain[0]
                    && drain.last() == final(self).sim_state() && (forall|j: int|
                    0 <= j < acts.len() ==> #[trigger] partitioned(old(self).node_ids(), acts[j])) && (old(
                    self,
                ).healthy().len() >= old(self).majority_size() ==> forall|j: int|
                    0 <= j < acts.len() ==> (#[trigger] acts[j]).1.len() >= old(self).majority_size()),
    {
        let ghost fresh = self.modeled@ && self.reliable() && self.bus@.sent.len() == 0;
        let ghost bound: int = self.backlog() + self.config.max_actions * (max_cost(self.fanout@) + 1);
        proof {
            if fresh {
                self.bus.lemma_in_flight_were_sent();
                if self.bus@.queued.len() > 0 {
                    assert(self.bus@.sent.contains(self.bus@.queued[0]));
                }
                assert(self.backlog() == 0);
                let f = self.fanout@;
                let n = self.config.max_actions;
                assert(max_cost(f) <= 50) by (nonlinear_arith)
                    requires
                        f <= 4,
                ;
                assert(n * (max_cost(f) + 1) <= 0xffff_ffff * 51) by (nonlinear_arith)
                    requires
                        max_cost(f) <= 50,
                        n <= 0xffff_ffff,
                ;
            }
        }
        match self.run_actions() {
            Ok(()) => {},
            Err(e) => {
                return Err(e);
            },
        }
        let ghost ids = old(self).node_ids();
        let ghost maj = old(self).majority_size();
        let ghost taken = self.taken@;
        let ghost metrics = self.metrics;
        let ghost acts = choose|trace: Seq<SimState>|
            #[trigger] ran_actions(ids, maj, taken.skip(old(self).actions().len() as int), trace) && trace[0]
                == old(self).sim_state() && trace.last() == self.sim_state() && (forall|j: int|
                0 <= j < trace.len() ==> #[trigger] partitioned(ids, trace[j])) && (old(self).healthy().len() >= maj
                ==> forall|j: int| 0 <= j < trace.len() ==> (#[trigger] trace[j]).1.len() >= maj);
        let ghost mut drain: Seq<SimState> = seq![self.sim_state()];
        loop
            invariant
                self.node_ids() == ids,
                self.taken@ == taken,
                self.metrics == metrics,
                ids == old(self).node_ids(),
                maj == old(self).majority_size(),
                taken.take(old(self).actions().len() as int) == old(self).actions(),
                taken.len() == old(self).actions().len() + old(self).config().max_actions,
                ({
                    let t = taken.skip(old(self).actions().len() as int);
                    &&& metrics.num_user_requests_sent == old(self).metrics().num_user_requests_sent + count_action(
                        t,
                        Action::SendUserRequest,
                    )
                    &&& metrics.num_replica_crashes == old(self).metrics().num_replica_crashes + count_action(
                        t,
                        Action::CrashReplica,
                    )
                    &&& metrics.num_replica_restarts == old(self).metrics().num_replica_restarts + count_action(
                        t,
                        Action::RestartReplica,
                    )
                }),
                ran_actions(ids, maj, taken.skip(old(self).actions().len() as int), acts),
                acts[0] == old(self).sim_state(),
                forall|j: int| 0 <= j < acts.len() ==> #[trigger] partitioned(ids, acts[j]),
                old(self).healthy().len() >= maj ==> forall|j: int| 0 <= j < acts.len() ==> (#[trigger] acts[j]).1.len() >= maj,
                drain.len() >= 1,
                drain[0] == acts.last(),
                drain.last() == self.sim_state(),
                forall|j: int| 0 <= j < drain.len() - 1 ==> #[trigger] delivered_at(ids, drain, j),
                self.wf(),
                self.config() == old(self).config(),
                self.majority_size() == old(self).majority_size(),
                old(self).healthy().len() >= old(self).majority_size() ==> self.healthy().len() >= self.majority_size(),
                self.modeled() == old(self).modeled(),
                self.reliable() == old(self).reliable(),
                old(self).config().max_actions == 0 && old(self).bus_view().queued.len() == 0
                    ==> self.bus_view().queued.len() == 0,
                fresh == (old(self).modeled() && old(self).reliable() && old(self).bus_view().sent.len() == 0),
                fresh ==> bound < u64::MAX && self.backlog() <= bound,
            decreases total_cost(self.bus_view().queued, self.fanout()),
        {
            proof {
                lemma_total_cost_at_least_len(self.bus@.queued, self.fanout@);
            }
            let ghost s0 = self.sim_state();
            match self.deliver_next() {
                Ok(true) => {
                    proof {
                        let d2 = drain.push(self.sim_state());
                        assert forall|j: int| 0 <= j < d2.len() - 1 implies #[trigger] delivered_at(ids, d2, j) by {
                            if j < drain.len() - 1 {
                                assert(delivered_at(ids, drain, j));
                                assert(d2[j] == drain[j]);
                                assert(d2[j + 1] == drain[j + 1]);
                            } else {
                                assert(d2[j] == s0);
                            }
                        }
                        drain = d2;
                    }
                },
                Ok(false) => {
                    proof {
                        assert(drained(ids, drain));
                    }
                    return Ok(());
                },
                Err(e) => {
                    return Err(e);
                },
            }
        }
    }

    /// Restarts the machine of replica `replica_id`: its file system loses
    /// what was not synced, and a new replica resumes from the durable state
    /// that the old one stored. The first node of that replica moves to the end
    /// (the last node takes its place) and holds the new replica: same id, peers
    /// and durable state, and no round inflight. Nothing happens when no node
    /// holds that replica.
    pub fn restart_node(&mut self, replica_id: ReplicaId)
        requires
            old(self).wf(),
        ensures
            final(self).wf(),
            final(self).healthy() == old(self).healthy(),
            final(self).failed() == old(self).failed(),
            final(self).majority_size() == old(self).majority_size(),
            final(self).bus_view() == old(self).bus_view(),
            final(self).modeled() == old(self).modeled(),
            final(self).reliable() == old(self).reliable(),
            final(self).config() == old(self).config(),
            final(self).metrics() == old(self).metrics(),
            !old(self).node_ids().contains(replica_id) ==> final(self).replica_views() == old(self).replica_views()
                && final(self).file_systems() == old(self).file_systems(),
            old(self).node_ids().contains(replica_id) ==> exists|i: int|
                #![trigger old(self).node_ids()[i]]
                0 <= i < old(self).node_ids().len() && old(self).node_ids()[i] == replica_id && (forall|j: int|
                    0 <= j < i ==> old(self).node_ids()[j] != replica_id) && {
                    let views = old(self).replica_views();
                    &&& final(self).replica_views() == views.update(i, views.last()).drop_last().push(
                        ReplicaView { inflight: Map::empty(), ..views[i] },
                    )
                    &&& final(self).file_systems() == old(self).file_systems().update(
                        i,
                        old(self).file_systems().last(),
                    ).drop_last().push(old(self).file_systems()[i].after_restart())
                },
    {
        let mut i: usize = 0;
        while i < self.nodes.len()
            invariant
                self.wf(),
                self == old(self),
                i <= self.nodes.len(),
                forall|j: int| 0 <= j < i ==> self.node_ids()[j] != replica_id,
            decreases self.nodes.len() - i,
        {
            if self.nodes[i].replica.config().id == replica_id {
                let ghost ids0 = self.node_ids();
                let ghost views0 = self.replica_views();
                let ghost n = self.nodes@.len();
                let node = self.nodes.swap_remove(i);
                let Node { replica, mut fs } = node;
                let ghost fs0 = fs@;
                fs.restart();
                let ghost old_rel = replica.reliable();
                proof {
                    replica.lemma_wf();
                }
                let (config, storage) = replica.into_parts();
                let replica = Replica::new(config, storage);
                let ghost nodes1 = self.nodes@;
                let ghost rv = ReplicaView { state: replica@.state, inflight: Map::empty(), ..views0[i as int] };
                proof {
                    assert(replica@.state.well_formed());
                    assert(replica@ == rv);
                    assert(nodes1 == old(self).nodes@.update(i as int, old(self).nodes@.last()).drop_last());
                }
                self.nodes.push(Node { replica, fs });
                proof {
                    assert(self.nodes@ == nodes1.push(self.nodes@.last()));
                    // Where each node now stands came from.
                    assert forall|j: int| 0 <= j < n - 1 implies #[trigger] self.nodes@[j] == old(self).nodes@[
                        if j == i { n - 1 } else { j }
                    ] by {
                        assert(self.nodes@[j] == nodes1[j]);
                    }
                    assert(self.replica_views() =~= views0.update(i as int, views0.last()).drop_last().push(rv));
                    let fss0 = old(self).file_systems();
                    assert(fs0 == fss0[i as int]);
                    assert(self.file_systems() =~= fss0.update(i as int, fss0.last()).drop_last().push(fs0.after_restart()));
                }
                proof {
                    let ids1 = self.node_ids();
                    assert(ids1[ids1.len() - 1] == replica_id);
                    assert forall|j: int| 0 <= j < n - 1 implies #[trigger] ids1[j] == ids0[if j == i { n - 1 } else { j }] by {
                        assert(self.nodes@[j] == old(self).nodes@[if j == i { n - 1 } else { j }]);
                    }
                    assert forall|x: ReplicaId| ids1.contains(x) <==> ids0.contains(x) by {
                        if ids0.contains(x) {
                            let j = choose|j: int| 0 <= j < ids0.len() && ids0[j] == x;
                            if j == i {
                                assert(ids1[ids1.len() - 1] == x);
                            } else if j == n - 1 {
                                assert(ids1[i as int] == x);
                            } else {
                                assert(ids1[j] == x);
                            }
                        }
                        if ids1.contains(x) {
                            let j = choose|j: int| 0 <= j < ids1.len() && ids1[j] == x;
                            if j == n - 1 {
                                assert(ids0[i as int] == x);
                            } else {
                                assert(ids0[if j == i { n - 1 } else { j }] == x);
                            }
                        }
                    }
                    assert forall|x: ReplicaId| #[trigger] self.healthy_replicas@.contains(x) implies self.node_ids().contains(x) by {
                        assert(ids0.contains(x));
                    }
                    assert(ids1.to_set() =~= ids0.to_set());
                    assert forall|j: int|
                        0 <= j < self.nodes@.len() implies {
                            &&& (#[trigger] self.nodes@[j]).replica.wf()
                            &&& self.nodes@[j].replica@.state.well_formed()
                            &&& self.nodes@[j].replica@.responses_report()
                            &&& self.nodes@[j].fs.wf()
                        } by {
                        if j < n - 1 {
                            assert(self.nodes@[j] == old(self).nodes@[if j == i { n - 1 } else { j }]);
                        }
                    }
                    if self.modeled@ {
                        let sys0 = self.system@;
                        assert(sys0.replicas[replica_id] == views0[i as int]) by {
                            assert(old(self).nodes@[i as int].replica@ == views0[i as int]);
                        }
                        lemma_restart_keeps_inv(sys0, replica_id);
                        self.system@ = sys0.restart(replica_id);
                        let sys1 = self.system@;
                        assert(sys1.replicas[replica_id] == rv);
                        assert(ids1.no_duplicates()) by {
                            assert forall|a: int, b: int| 0 <= a < ids1.len() && 0 <= b < ids1.len() && a != b implies ids1[a] != ids1[b] by {
                                let fa = if a == n - 1 { i as int } else if a == i { n - 1 } else { a };
                                let fb = if b == n - 1 { i as int } else if b == i { n - 1 } else { b };
                                assert(ids1[a] == ids0[fa]);
                                assert(ids1[b] == ids0[fb]);
                            }
                        }
                        assert forall|x: ReplicaId| #[trigger] sys1.replicas.contains_key(x) <==> ids1.contains(x) by {
                            assert(sys0.replicas.contains_key(x) <==> ids0.contains(x));
                        }
                        assert forall|j: int| 0 <= j < self.nodes@.len() implies sys1.replicas[ids1[j]] == (#[trigger] self.nodes@[j]).replica@ by {
                            if j < n - 1 {
                                let f = if j == i { n - 1 } else { j };
                                assert(self.nodes@[j] == old(self).nodes@[f]);
                                assert(ids1[j] == ids0[f]);
                                assert(ids0[f] != replica_id);
                                assert(sys0.replicas[ids0[f]] == old(self).nodes@[f].replica@);
                            }
                        }
                        assert(holds_nodes(sys1, self.nodes@));
                    }
                    assert(old(self).node_ids()[i as int] == replica_id);
                    assert(self.replica_views() == views0.update(i as int, views0.last()).drop_last().push(
                        ReplicaView { inflight: Map::empty(), ..views0[i as int] },
                    ));
                }
                proof {
                    assert(old_rel == old(self).nodes@[i as int].replica.reliable());
                    assert(self.nodes@[n - 1].replica.reliable() == old_rel);
                    if old(self).reliable() {
                        assert forall|j: int| 0 <= j < self.nodes@.len() implies (#[trigger] self.nodes@[j]).replica.reliable() by {
                            if j < n - 1 {
                                assert(self.nodes@[j] == old(self).nodes@[if j == i { n - 1 } else { j }]);
                            }
                        }
                    } else {
                        let j0 = choose|j: int| 0 <= j < old(self).nodes@.len() && !(#[trigger] old(self).nodes@[j]).replica.reliable();
                        let p = if j0 == i { n - 1 } else if j0 == n - 1 { i as int } else { j0 };
                        if p < n - 1 {
                            assert(self.nodes@[p] == old(self).nodes@[j0]);
                        }
                        assert(!self.nodes@[p].replica.reliable());
                    }
                }
                return;
            }
            i = i + 1;
        }
        proof {
            assert forall|x: ReplicaId| !(self.node_ids().contains(x) && x == replica_id) by {
                if self.node_ids().contains(x) {
                    let j = choose|j: int| 0 <= j < self.node_ids().len() && self.node_ids()[j] == x;
                }
            }
        }
    }

    /// A replica picked at random among all of them, healthy or not.
    pub fn choose_replica(&mut self) -> (id: ReplicaId)
        requires
            old(self).wf(),
        ensures
            final(self).wf(),
            final(self).node_ids().contains(id),
    {
        Self::choose_any_replica(&mut self.rng, &self.nodes)
    }
}

} // verus!
