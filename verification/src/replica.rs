//! A Paxos replica: it proposes values, promises not to accept older
//! proposals, and accepts proposals. Each handler updates the replica's state,
//! stores it before anything leaves the replica, and hands its messages to the
//! bus.
use vstd::prelude::*;
use crate::assoc::{
    has_key, keys_unique, lemma_to_map_empty, lemma_to_map_index,
    lemma_to_map_push, lemma_to_map_remove, lemma_to_map_update, to_map,
};
use crate::contracts::{DurableState, DurableStateView, MessageBus, Storage};
use crate::types::{
    copy_option_string, AcceptInput, AcceptInputView, AcceptOutput, MessageView, PrepareInput,
    PrepareOutput, PrepareOutputView, ProposalNumber, ReplicaId, RequestId,
};

verus! {

/// Who a replica is and who its peers are (itself included).
#[derive(Debug)]
pub struct Config {
    pub id: ReplicaId,
    pub replicas: Vec<ReplicaId>,
}

/// A round that a replica started and that has not yet reached a majority.
#[derive(Debug)]
pub struct InflightRequest {
    proposal_number: ProposalNumber,
    proposed_value: Option<String>,
    /// The distinct responses received so far, in order of arrival.
    responses: Vec<PrepareOutput>,
}

/// An inflight round as a value.
pub struct InflightView {
    pub proposal_number: ProposalNumber,
    pub proposed_value: Option<Seq<char>>,
    pub responses: Seq<PrepareOutputView>,
}

impl View for InflightRequest {
    type V = InflightView;

    closed spec fn view(&self) -> InflightView {
        InflightView {
            proposal_number: self.proposal_number,
            proposed_value: crate::types::option_text(self.proposed_value),
            responses: self.responses@.map_values(|r: PrepareOutput| r@),
        }
    }
}

impl InflightView {
    /// The round has a value to propose and its responses are distinct.
    pub open spec fn well_formed(self) -> bool {
        &&& self.proposed_value is Some
        &&& self.responses.no_duplicates()
    }

    /// Each accepted proposal number that the round's responses report comes
    /// with a value.
    pub open spec fn responses_report(self) -> bool {
        forall|i: int| 0 <= i < self.responses.len() ==> #[trigger] self.responses[i].reports_value()
    }
}

/// A replica as a value.
pub struct ReplicaView {
    pub id: ReplicaId,
    pub replicas: Seq<ReplicaId>,
    pub state: DurableStateView,
    pub inflight: Map<RequestId, InflightView>,
}

/// How many replicas make a majority of `n`.
pub open spec fn majority_of(n: nat) -> nat {
    n / 2 + 1
}

/// The prepare request of round `proposal_number`, sent to every replica.
pub open spec fn prepare_broadcast(
    id: ReplicaId,
    proposal_number: ProposalNumber,
    replicas: Seq<ReplicaId>,
) -> Seq<MessageView> {
    Seq::new(
        replicas.len(),
        |i: int|
            MessageView::Prepare(
                replicas[i],
                PrepareInput {
                    from_replica_id: id,
                    request_id: RequestId::Prepare(id, proposal_number),
                    proposal_number,
                },
            ),
    )
}

/// The accept request of round `proposal_number` for `value`, sent to every
/// replica.
pub open spec fn accept_broadcast(
    id: ReplicaId,
    proposal_number: ProposalNumber,
    value: Seq<char>,
    replicas: Seq<ReplicaId>,
) -> Seq<MessageView> {
    Seq::new(
        replicas.len(),
        |i: int|
            MessageView::Accept(
                replicas[i],
                AcceptInputView {
                    from_replica_id: id,
                    request_id: RequestId::Accept(id, proposal_number),
                    proposal_number,
                    value,
                },
            ),
    )
}

/// The position of the response that reports the highest accepted proposal
/// number; of several such, the last one. `None` when no response reports an
/// accepted proposal.
pub open spec fn best_index(rs: Seq<PrepareOutputView>) -> Option<int>
    decreases rs.len(),
{
    if rs.len() == 0 {
        None
    } else {
        let prev = best_index(rs.drop_last());
        let last = rs.last();
        if last.accepted_proposal_number is Some && (prev is None
            || rs[prev->0].accepted_proposal_number->0 <= last.accepted_proposal_number->0) {
            Some(rs.len() - 1)
        } else {
            prev
        }
    }
}

/// The response that a round's value would come from reports that value.
pub open spec fn best_reports(rs: Seq<PrepareOutputView>) -> bool {
    best_index(rs) matches Some(i) ==> rs[i].accepted_value is Some
}

/// The value that a round proposes once a majority answered: the value of the
/// highest-numbered accepted proposal reported, or else the proposer's own.
pub open spec fn chosen_value(rs: Seq<PrepareOutputView>, proposed: Seq<char>) -> Seq<char> {
    match best_index(rs) {
        Some(i) => rs[i].accepted_value->0,
        None => proposed,
    }
}

impl ReplicaView {
    /// Every inflight round is well formed.
    pub open spec fn well_formed(self) -> bool {
        forall|id: RequestId| #[trigger] self.inflight.contains_key(id) ==> self.inflight[id].well_formed()
    }

    /// Every response kept by an inflight round reports a value with its
    /// accepted proposal number.
    pub open spec fn responses_report(self) -> bool {
        forall|id: RequestId| #[trigger] self.inflight.contains_key(id) ==> self.inflight[id].responses_report()
    }

    /// The responses that a round holds once `input` is counted.
    pub open spec fn counted(self, input: PrepareOutputView) -> Seq<PrepareOutputView> {
        let req = self.inflight[input.request_id];
        if req.responses.contains(input) {
            req.responses
        } else {
            req.responses.push(input)
        }
    }

    /// A prepare response can be handled: where it completes a majority for an
    /// inflight round, the response that the round's value comes from reports
    /// that value.
    pub open spec fn takes_response(self, input: PrepareOutputView) -> bool {
        self.inflight.contains_key(input.request_id) && self.counted(input).len() >= majority_of(self.replicas.len())
            ==> best_reports(self.counted(input))
    }

    /// A user asked this replica to propose `value`: it takes the next proposal
    /// number and sends a prepare request to every replica.
    pub open spec fn after_start_proposal(self, value: Seq<char>) -> (ReplicaView, Seq<MessageView>) {
        let n = (self.state.min_proposal_number + 1) as u64;
        (
            ReplicaView {
                state: DurableStateView { min_proposal_number: n, ..self.state },
                inflight: self.inflight.insert(
                    RequestId::Prepare(self.id, n),
                    InflightView { proposal_number: n, proposed_value: Some(value), responses: seq![] },
                ),
                ..self
            },
            prepare_broadcast(self.id, n, self.replicas),
        )
    }

    /// A prepare request: promised and answered with the last accepted proposal
    /// when its number is above every number promised so far, else ignored.
    pub open spec fn after_prepare(self, input: PrepareInput) -> (ReplicaView, Seq<MessageView>) {
        if input.proposal_number > self.state.min_proposal_number {
            let state = DurableStateView { min_proposal_number: input.proposal_number, ..self.state };
            (
                ReplicaView { state, ..self },
                seq![
                    MessageView::PrepareResponse(
                        input.from_replica_id,
                        PrepareOutputView {
                            from_replica_id: self.id,
                            request_id: input.request_id,
                            accepted_proposal_number: state.accepted_proposal_number,
                            accepted_value: state.accepted_value,
                        },
                    ),
                ],
            )
        } else {
            (self, seq![])
        }
    }

    /// A prepare response: recorded in its round, if the round is still
    /// inflight; once a majority of distinct responses is in, the round ends and
    /// an accept round for the chosen value begins.
    pub open spec fn after_prepare_response(self, input: PrepareOutputView) -> (ReplicaView, Seq<MessageView>) {
        let rid = input.request_id;
        if !self.inflight.contains_key(rid) {
            (self, seq![])
        } else {
            let req = self.inflight[rid];
            let responses = if req.responses.contains(input) {
                req.responses
            } else {
                req.responses.push(input)
            };
            if responses.len() < majority_of(self.replicas.len()) {
                (
                    ReplicaView {
                        inflight: self.inflight.insert(rid, InflightView { responses, ..req }),
                        ..self
                    },
                    seq![],
                )
            } else {
                let n = req.proposal_number;
                let value = chosen_value(responses, req.proposed_value->0);
                (
                    ReplicaView {
                        inflight: self.inflight.insert(
                            RequestId::Accept(self.id, n),
                            InflightView { proposal_number: n, proposed_value: Some(value), responses: seq![] },
                        ).remove(rid),
                        ..self
                    },
                    accept_broadcast(self.id, n, value, self.replicas),
                )
            }
        }
    }

    /// An accept request: accepted and answered when its number is at least
    /// every number promised so far, else ignored.
    pub open spec fn after_accept(self, input: AcceptInputView) -> (ReplicaView, Seq<MessageView>) {
        if input.proposal_number >= self.state.min_proposal_number {
            let state = DurableStateView {
                accepted_proposal_number: Some(input.proposal_number),
                accepted_value: Some(input.value),
                ..self.state
            };
            (
                ReplicaView { state, ..self },
                seq![
                    MessageView::AcceptResponse(
                        input.from_replica_id,
                        AcceptOutput {
                            from_replica_id: self.id,
                            request_id: input.request_id,
                            min_proposal_number: state.min_proposal_number,
                        },
                    ),
                ],
            )
        } else {
            (self, seq![])
        }
    }
}

/// A Paxos replica whose durable state lives in `S`.
pub struct Replica<S: Storage> {
    state: DurableState,
    config: Config,
    storage: S,
    inflight_requests: Vec<(RequestId, InflightRequest)>,
}

impl<S: Storage> View for Replica<S> {
    type V = ReplicaView;

    closed spec fn view(&self) -> ReplicaView {
        ReplicaView {
            id: self.config.id,
            replicas: self.config.replicas@,
            state: self.state@,
            inflight: to_map(self.inflight_entries()),
        }
    }
}

impl<S: Storage> Replica<S> {
    /// The inflight rounds as key/value pairs.
    pub closed spec fn inflight_entries(&self) -> Seq<(RequestId, InflightView)> {
        self.inflight_requests@.map_values(|e: (RequestId, InflightRequest)| (e.0, e.1@))
    }

    /// What the replica's storage would give back.
    pub closed spec fn persisted(&self) -> DurableStateView {
        self.storage.persisted()
    }

    /// The replica's storage never fails to store.
    pub closed spec fn reliable(&self) -> bool {
        self.storage.reliable()
    }

    /// The replica's invariant: its state is what its storage holds, its rounds
    /// have distinct ids, and each round is well formed.
    pub closed spec fn wf(&self) -> bool {
        &&& self.state@ == self.storage.persisted()
        &&& keys_unique(self.inflight_entries())
        &&& forall|i: int|
            0 <= i < self.inflight_entries().len() ==> (#[trigger] self.inflight_entries()[i]).1.well_formed()
    }

    /// A replica's state is always what its storage would give back, so a
    /// replica rebuilt from its storage resumes where it stopped; and its rounds
    /// are well formed.
    pub proof fn lemma_wf(&self)
        requires
            self.wf(),
        ensures
            self@.state == self.persisted(),
            self@.well_formed(),
    {
        let s = self.inflight_entries();
        assert forall|id: RequestId| #[trigger] self@.inflight.contains_key(id) implies self@.inflight[id].well_formed() by {
            let i = choose|i: int| 0 <= i < s.len() && #[trigger] s[i].0 == id;
            lemma_to_map_index(s, i);
        }
    }

    /// A replica that resumes from what `storage` holds, with no round inflight.
    pub fn new(config: Config, storage: S) -> (r: Self)
        ensures
            r.wf(),
            r@.id == config.id,
            r@.replicas == config.replicas@,
            r@.state == storage.persisted(),
            r@.inflight == Map::<RequestId, InflightView>::empty(),
            r.persisted() == storage.persisted(),
            r.reliable() == storage.reliable(),
    {
        let state = storage.load();
        let r = Self { state, config, storage, inflight_requests: Vec::new() };
        proof {
            lemma_to_map_empty(r.inflight_entries());
        }
        r
    }

    /// This replica's configuration.
    pub fn config(&self) -> (c: &Config)
        ensures
            c.id == self@.id,
            c.replicas@ == self@.replicas,
    {
        &self.config
    }

    /// This replica's current durable state.
    pub fn state(&self) -> (s: &DurableState)
        ensures
            s@ == self@.state,
    {
        &self.state
    }

    /// Gives back the configuration and the storage.
    pub fn into_parts(self) -> (parts: (Config, S))
        ensures
            parts.0.id == self@.id,
            parts.0.replicas@ == self@.replicas,
            parts.1.persisted() == self.persisted(),
            parts.1.reliable() == self.reliable(),
    {
        (self.config, self.storage)
    }

    fn majority(&self) -> (m: usize)
        ensures
            m == majority_of(self@.replicas.len()),
    {
        self.config.replicas.len() / 2 + 1
    }

    /// The position of round `id` among the inflight rounds, if it is there.
    fn find_inflight(&self, id: RequestId) -> (r: Option<usize>)
        ensures
            match r {
                Some(i) => i < self.inflight_entries().len() && self.inflight_entries()[i as int].0 == id,
                None => !has_key(self.inflight_entries(), id),
            },
    {
        let mut i: usize = 0;
        while i < self.inflight_requests.len()
            invariant
                i <= self.inflight_requests.len(),
                forall|j: int| 0 <= j < i ==> (#[trigger] self.inflight_entries()[j]).0 != id,
            decreases self.inflight_requests.len() - i,
        {
            if self.inflight_requests[i].0 == id {
                return Some(i);
            }
            i = i + 1;
        }
        None
    }

    /// Starts round `id` afresh, replacing any round with that id.
    fn put_inflight(&mut self, id: RequestId, req: InflightRequest)
        requires
            old(self).wf(),
            req@.well_formed(),
        ensures
            final(self).reliable() == old(self).reliable(),
            final(self).wf(),
            final(self)@ == (ReplicaView { inflight: old(self)@.inflight.insert(id, req@), ..old(self)@ }),
            final(self).persisted() == old(self).persisted(),
    {
        let ghost req_view = req@;
        let found = self.find_inflight(id);
        let ghost s0 = self.inflight_entries();
        match found {
            Some(i) => {
                self.inflight_requests.set(i, (id, req));
                proof {
                    assert(self.inflight_entries() =~= s0.update(i as int, (s0[i as int].0, req_view)));
                    lemma_to_map_update(s0, i as int, req_view);
                }
            },
            None => {
                self.inflight_requests.push((id, req));
                proof {
                    assert(self.inflight_entries() =~= s0.push((id, req_view)));
                    lemma_to_map_push(s0, id, req_view);
                }
            },
        }
    }

    /// Ends round `id`, if it is inflight.
    fn drop_inflight(&mut self, id: RequestId)
        requires
            old(self).wf(),
        ensures
            final(self).reliable() == old(self).reliable(),
            final(self).wf(),
            final(self)@ == (ReplicaView { inflight: old(self)@.inflight.remove(id), ..old(self)@ }),
            final(self).persisted() == old(self).persisted(),
    {
        let found = self.find_inflight(id);
        let ghost s0 = self.inflight_entries();
        match found {
            Some(i) => {
                self.inflight_requests.remove(i);
                proof {
                    assert(self.inflight_entries() =~= s0.remove(i as int));
                    lemma_to_map_remove(s0, i as int);
                    assert forall|j: int|
                        0 <= j < self.inflight_entries().len() implies (#[trigger] self.inflight_entries()[j]).1.well_formed() by {
                        let j2 = if j < i { j } else { j + 1 };
                        assert(self.inflight_entries()[j] == s0[j2]);
                    }
                }
            },
            None => {
                proof {
                    assert(to_map(s0).remove(id) =~= to_map(s0));
                }
            },
        }
    }

    /// Makes the next proposal number durable and returns it.
    fn next_proposal_number(&mut self) -> (r: Result<ProposalNumber, std::io::Error>)
        requires
            old(self).wf(),
            old(self)@.state.min_proposal_number < u64::MAX,
        ensures
            final(self).reliable() == old(self).reliable(),
            old(self).reliable() ==> r is Ok,
            final(self).wf(),
            match r {
                Ok(n) => {
                    &&& n == old(self)@.state.min_proposal_number + 1
                    &&& final(self)@ == (ReplicaView {
                        state: DurableStateView { min_proposal_number: n, ..old(self)@.state },
                        ..old(self)@
                    })
                },
                Err(_) => final(self)@ == old(self)@,
            },
    {
        let state = DurableState {
            min_proposal_number: self.state.min_proposal_number + 1,
            accepted_proposal_number: self.state.accepted_proposal_number,
            accepted_value: copy_option_string(&self.state.accepted_value),
        };
        match self.storage.store(&state) {
            Ok(()) => {
                self.state = state;
                Ok(self.state.min_proposal_number)
            },
            Err(e) => Err(e),
        }
    }

    /// Starts round `proposal_number` for `value`: sends a prepare request to
    /// every replica.
    fn broadcast_prepare<B: MessageBus>(&mut self, bus: &mut B, proposal_number: ProposalNumber, value: String)
        requires
            old(self).wf(),
            old(bus).inv(),
        ensures
            final(self).reliable() == old(self).reliable(),
            final(self).wf(),
            final(bus).inv(),
            final(bus).checking() == old(bus).checking(),
            final(self)@ == (ReplicaView {
                inflight: old(self)@.inflight.insert(
                    RequestId::Prepare(old(self)@.id, proposal_number),
                    InflightView { proposal_number, proposed_value: Some(value@), responses: seq![] },
                ),
                ..old(self)@
            }),
            final(bus).sent() == old(bus).sent() + prepare_broadcast(old(self)@.id, proposal_number, old(self)@.replicas),
            final(bus).queued() == old(bus).queued() + prepare_broadcast(old(self)@.id, proposal_number, old(self)@.replicas),
            final(bus).log() == old(bus).log() + (prepare_broadcast(old(self)@.id, proposal_number, old(self)@.replicas)).map_values(|m: MessageView| B::queue_line(m)),
    {
        let request_id = RequestId::Prepare(self.config.id, proposal_number);
        let req = InflightRequest { proposal_number, proposed_value: Some(value), responses: Vec::new() };
        proof {
            assert(req@.responses =~= seq![]);
        }
        self.put_inflight(request_id, req);
        let input = PrepareInput { from_replica_id: self.config.id, request_id, proposal_number };
        let ghost sent0 = bus.sent();
        let ghost queued0 = bus.queued();
        let ghost log0 = bus.log();
        let ghost checking0 = bus.checking();
        let mut i: usize = 0;
        while i < self.config.replicas.len()
            invariant
                i <= self.config.replicas.len(),
                input == (PrepareInput {
                    from_replica_id: self@.id,
                    request_id: RequestId::Prepare(self@.id, proposal_number),
                    proposal_number,
                }),
                bus.inv(),
                bus.checking() == checking0,
                bus.sent() == sent0 + prepare_broadcast(self@.id, proposal_number, self@.replicas).take(i as int),
                bus.queued() == queued0 + prepare_broadcast(self@.id, proposal_number, self@.replicas).take(i as int),
                bus.log() == log0 + prepare_broadcast(self@.id, proposal_number, self@.replicas).take(i as int).map_values(
                    |m: MessageView| B::queue_line(m),
                ),
            decreases self.config.replicas.len() - i,
        {
            bus.send_prepare(self.config.replicas[i], input);
            proof {
                let all = prepare_broadcast(self@.id, proposal_number, self@.replicas);
                assert(all.take(i + 1) =~= all.take(i as int).push(all[i as int]));
                assert(all.take(i + 1).map_values(|m: MessageView| B::queue_line(m)) =~= all.take(i as int).map_values(
                    |m: MessageView| B::queue_line(m),
                ).push(B::queue_line(all[i as int])));
            }
            i = i + 1;
        }
        proof {
            let all = prepare_broadcast(self@.id, proposal_number, self@.replicas);
            assert(all.take(i as int) =~= all);
        }
    }

    /// Starts round `proposal_number` of accepts for `value`: sends an accept
    /// request to every replica.
    fn broadcast_accept<B: MessageBus>(&mut self, bus: &mut B, proposal_number: ProposalNumber, value: String)
        requires
            old(self).wf(),
            old(bus).inv(),
        ensures
            final(self).reliable() == old(self).reliable(),
            final(self).wf(),
            final(bus).inv(),
            final(bus).checking() == old(bus).checking(),
            final(self)@ == (ReplicaView {
                inflight: old(self)@.inflight.insert(
                    RequestId::Accept(old(self)@.id, proposal_number),
                    InflightView { proposal_number, proposed_value: Some(value@), responses: seq![] },
                ),
                ..old(self)@
            }),
            final(bus).sent() == old(bus).sent() + accept_broadcast(old(self)@.id, proposal_number, value@, old(self)@.replicas),
            final(bus).queued() == old(bus).queued() + accept_broadcast(old(self)@.id, proposal_number, value@, old(self)@.replicas),
            final(bus).log() == old(bus).log() + (accept_broadcast(old(self)@.id, proposal_number, value@, old(self)@.replicas)).map_values(|m: MessageView| B::queue_line(m)),
    {
        let request_id = RequestId::Accept(self.config.id, proposal_number);
        let req = InflightRequest { proposal_number, proposed_value: Some(value.clone()), responses: Vec::new() };
        proof {
            assert(req@.responses =~= seq![]);
        }
        self.put_inflight(request_id, req);
        let input = AcceptInput { from_replica_id: self.config.id, request_id, proposal_number, value };
        let ghost sent0 = bus.sent();
        let ghost queued0 = bus.queued();
        let ghost log0 = bus.log();
        let ghost checking0 = bus.checking();
        let mut i: usize = 0;
        while i < self.config.replicas.len()
            invariant
                i <= self.config.replicas.len(),
                input@ == (AcceptInputView {
                    from_replica_id: self@.id,
                    request_id: RequestId::Accept(self@.id, proposal_number),
                    proposal_number,
                    value: value@,
                }),
                bus.inv(),
                bus.checking() == checking0,
                bus.sent() == sent0 + accept_broadcast(self@.id, proposal_number, value@, self@.replicas).take(i as int),
                bus.queued() == queued0 + accept_broadcast(self@.id, proposal_number, value@, self@.replicas).take(i as int),
                bus.log() == log0 + accept_broadcast(self@.id, proposal_number, value@, self@.replicas).take(i as int).map_values(
                    |m: MessageView| B::queue_line(m),
                ),
            decreases self.config.replicas.len() - i,
        {
            bus.send_accept(self.config.replicas[i], input.duplicate());
            proof {
                let all = accept_broadcast(self@.id, proposal_number, value@, self@.replicas);
                assert(all.take(i + 1) =~= all.take(i as int).push(all[i as int]));
                assert(all.take(i + 1).map_values(|m: MessageView| B::queue_line(m)) =~= all.take(i as int).map_values(
                    |m: MessageView| B::queue_line(m),
                ).push(B::queue_line(all[i as int])));
            }
            i = i + 1;
        }
        proof {
            let all = accept_broadcast(self@.id, proposal_number, value@, self@.replicas);
            assert(all.take(i as int) =~= all);
        }
    }

    /// A user asks this replica to propose `value`. The next proposal number is
    /// stored first; if storage fails the replica is left as it was.
    pub fn on_start_proposal<B: MessageBus>(&mut self, bus: &mut B, value: String) -> (r: Result<(), std::io::Error>)
        requires
            old(self).wf(),
            old(bus).inv(),
            old(self)@.state.min_proposal_number < u64::MAX,
        ensures
            final(self).reliable() == old(self).reliable(),
            old(self).reliable() ==> r is Ok,
            final(self).wf(),
            final(bus).inv(),
            final(bus).checking() == old(bus).checking(),
            r is Ok ==> final(self)@ == old(self)@.after_start_proposal(value@).0
                && final(bus).sent() == old(bus).sent() + old(self)@.after_start_proposal(value@).1
                && final(bus).queued() == old(bus).queued() + old(self)@.after_start_proposal(value@).1
                && final(bus).log() == old(bus).log() + (old(self)@.after_start_proposal(value@).1).map_values(|m: MessageView| B::queue_line(m)),
            r is Err ==> final(self)@ == old(self)@ && final(bus).sent() == old(bus).sent()
                && final(bus).queued() == old(bus).queued()
                && final(bus).log() == old(bus).log(),
    {
        let proposal_number = match self.next_proposal_number() {
            Ok(n) => n,
            Err(e) => return Err(e),
        };
        self.broadcast_prepare(bus, proposal_number, value);
        proof {
            let expected = old(self)@.after_start_proposal(value@).0;
            assert(self@.state == expected.state);
            assert(self@.inflight =~= expected.inflight);
        }
        Ok(())
    }

    /// A prepare request. Above every number promised so far it is promised:
    /// the promise is stored, then answered with the last accepted proposal.
    /// If storage fails the replica is left as it was and nothing is sent.
    pub fn on_prepare<B: MessageBus>(&mut self, bus: &mut B, input: PrepareInput) -> (r: Result<(), std::io::Error>)
        requires
            old(self).wf(),
            old(bus).inv(),
        ensures
            final(self).reliable() == old(self).reliable(),
            old(self).reliable() ==> r is Ok,
            final(self).wf(),
            final(bus).inv(),
            final(bus).checking() == old(bus).checking(),
            r is Ok ==> final(self)@ == old(self)@.after_prepare(input).0
                && final(bus).sent() == old(bus).sent() + old(self)@.after_prepare(input).1
                && final(bus).queued() == old(bus).queued() + old(self)@.after_prepare(input).1
                && final(bus).log() == old(bus).log() + (old(self)@.after_prepare(input).1).map_values(|m: MessageView| B::queue_line(m)),
            r is Err ==> input.proposal_number > old(self)@.state.min_proposal_number
                && final(self)@ == old(self)@ && final(bus).sent() == old(bus).sent()
                && final(bus).queued() == old(bus).queued()
                && final(bus).log() == old(bus).log(),
    {
        if input.proposal_number > self.state.min_proposal_number {
            let state = DurableState {
                min_proposal_number: input.proposal_number,
                accepted_proposal_number: self.state.accepted_proposal_number,
                accepted_value: copy_option_string(&self.state.accepted_value),
            };
            match self.storage.store(&state) {
                Ok(()) => {},
                Err(e) => return Err(e),
            }
            self.state = state;
            let out = PrepareOutput {
                from_replica_id: self.config.id,
                request_id: input.request_id,
                accepted_proposal_number: self.state.accepted_proposal_number,
                accepted_value: copy_option_string(&self.state.accepted_value),
            };
            bus.send_prepare_response(input.from_replica_id, out);
            proof {
                let msgs = old(self)@.after_prepare(input).1;
                assert(bus.sent() =~= old(bus).sent() + msgs);
                assert(bus.queued() =~= old(bus).queued() + msgs);
                assert(bus.log() =~= old(bus).log() + (msgs).map_values(|m: MessageView| B::queue_line(m)));
            }
        } else {
            proof {
                assert(bus.sent() =~= old(bus).sent() + seq![]);
                assert(bus.queued() =~= old(bus).queued() + seq![]);
                assert(bus.log() =~= old(bus).log() + (seq![]).map_values(|m: MessageView| B::queue_line(m)));
            }
        }
        Ok(())
    }

    /// A prepare response. It counts only for a round that is still inflight,
    /// and only once. When a majority of distinct responses is in, the round
    /// ends and an accept round begins for the chosen value, which the response
    /// reporting the highest accepted proposal must carry (`takes_response`).
    pub fn on_prepare_response<B: MessageBus>(&mut self, bus: &mut B, input: PrepareOutput)
        requires
            old(self).wf(),
            old(bus).inv(),
            old(self)@.takes_response(input@),
        ensures
            final(self).reliable() == old(self).reliable(),
            final(self).wf(),
            final(bus).inv(),
            final(bus).checking() == old(bus).checking(),
            final(self)@ == old(self)@.after_prepare_response(input@).0,
            final(bus).sent() == old(bus).sent() + old(self)@.after_prepare_response(input@).1,
            final(bus).queued() == old(bus).queued() + old(self)@.after_prepare_response(input@).1,
            final(bus).log() == old(bus).log() + (old(self)@.after_prepare_response(input@).1).map_values(|m: MessageView| B::queue_line(m)),
    {
        proof {
            self.lemma_wf();
        }
        let majority = self.majority();
        let request_id = input.request_id;
        let ghost input_view = input@;
        let ghost s0 = self.inflight_entries();
        let found = self.find_inflight(request_id);
        let i = match found {
            Some(i) => i,
            None => {
                proof {
                    assert(!self@.inflight.contains_key(request_id));
                    assert(bus.sent() =~= old(bus).sent() + seq![]);
                    assert(bus.queued() =~= old(bus).queued() + seq![]);
                    assert(bus.log() =~= old(bus).log() + (seq![]).map_values(|m: MessageView| B::queue_line(m)));
                }
                return;
            },
        };
        proof {
            lemma_to_map_index(s0, i as int);
        }
        let ghost req0 = s0[i as int].1;
        let mut entry = self.inflight_requests.remove(i);
        let present = contains_response(&entry.1.responses, &input);
        if !present {
            entry.1.responses.push(input);
        }
        let ghost req1 = entry.1@;
        proof {
            assert(req0 == old(self)@.inflight[request_id]);
            if present {
                assert(req1.responses =~= req0.responses);
            } else {
                assert(req1.responses =~= req0.responses.push(input_view));
                assert forall|a: int, b: int|
                    0 <= a < req1.responses.len() && 0 <= b < req1.responses.len() && a != b implies req1.responses[a]
                    != req1.responses[b] by {
                    if a < req0.responses.len() && b < req0.responses.len() {
                    } else if a < req0.responses.len() {
                        assert(req0.responses.contains(req0.responses[a]));
                    } else {
                        assert(req0.responses.contains(req0.responses[b]));
                    }
                }
            }
            assert(req1.well_formed());
        }
        let done = entry.1.responses.len() >= majority;
        let reached = if done {
            Some((entry.1.proposal_number, choose_value(&entry.1)))
        } else {
            None
        };
        self.inflight_requests.insert(i, entry);
        proof {
            assert(self.inflight_entries() =~= s0.update(i as int, (request_id, req1)));
            lemma_to_map_update(s0, i as int, req1);
            assert(self@.inflight == old(self)@.inflight.insert(request_id, req1));
        }
        match reached {
            None => {
                proof {
                    let expected = old(self)@.after_prepare_response(input_view).0;
                    assert(self@.inflight =~= expected.inflight);
                    assert(bus.sent() =~= old(bus).sent() + seq![]);
                    assert(bus.queued() =~= old(bus).queued() + seq![]);
                    assert(bus.log() =~= old(bus).log() + (seq![]).map_values(|m: MessageView| B::queue_line(m)));
                }
            },
            Some((proposal_number, value)) => {
                self.broadcast_accept(bus, proposal_number, value);
                self.drop_inflight(request_id);
                proof {
                    let expected = old(self)@.after_prepare_response(input_view).0;
                    assert(self@.inflight =~= expected.inflight);
                }
            },
        }
    }

    /// An accept request. At or above every number promised so far it is
    /// accepted: stored, then answered. If storage fails the replica is left as
    /// it was and nothing is sent.
    pub fn on_accept<B: MessageBus>(&mut self, bus: &mut B, input: AcceptInput) -> (r: Result<(), std::io::Error>)
        requires
            old(self).wf(),
            old(bus).inv(),
        ensures
            final(self).reliable() == old(self).reliable(),
            old(self).reliable() ==> r is Ok,
            final(self).wf(),
            final(bus).inv(),
            final(bus).checking() == old(bus).checking(),
            r is Ok ==> final(self)@ == old(self)@.after_accept(input@).0
                && final(bus).sent() == old(bus).sent() + old(self)@.after_accept(input@).1
                && final(bus).queued() == old(bus).queued() + old(self)@.after_accept(input@).1
                && final(bus).log() == old(bus).log() + (old(self)@.after_accept(input@).1).map_values(|m: MessageView| B::queue_line(m)),
            r is Err ==> input.proposal_number >= old(self)@.state.min_proposal_number
                && final(self)@ == old(self)@ && final(bus).sent() == old(bus).sent()
                && final(bus).queued() == old(bus).queued()
                && final(bus).log() == old(bus).log(),
    {
        let ghost input_view = input@;
        if input.proposal_number >= self.state.min_proposal_number {
            let state = DurableState {
                min_proposal_number: self.state.min_proposal_number,
                accepted_proposal_number: Some(input.proposal_number),
                accepted_value: Some(input.value),
            };
            match self.storage.store(&state) {
                Ok(()) => {},
                Err(e) => return Err(e),
            }
            self.state = state;
            let out = AcceptOutput {
                from_replica_id: self.config.id,
                request_id: input.request_id,
                min_proposal_number: self.state.min_proposal_number,
            };
            bus.send_accept_response(input.from_replica_id, out);
            proof {
                let msgs = old(self)@.after_accept(input_view).1;
                assert(bus.sent() =~= old(bus).sent() + msgs);
                assert(bus.queued() =~= old(bus).queued() + msgs);
                assert(bus.log() =~= old(bus).log() + (msgs).map_values(|m: MessageView| B::queue_line(m)));
            }
        } else {
            proof {
                assert(bus.sent() =~= old(bus).sent() + seq![]);
                assert(bus.queued() =~= old(bus).queued() + seq![]);
                assert(bus.log() =~= old(bus).log() + (seq![]).map_values(|m: MessageView| B::queue_line(m)));
            }
        }
        Ok(())
    }

    /// An accept response needs nothing from the replica.
    pub fn on_accept_response(&mut self, _input: AcceptOutput)
        requires
            old(self).wf(),
        ensures
            final(self).reliable() == old(self).reliable(),
            final(self).wf(),
            final(self)@ == old(self)@,
    {
    }
}

/// Whether `input` is among `responses`.
fn contains_response(responses: &Vec<PrepareOutput>, input: &PrepareOutput) -> (r: bool)
    ensures
        r == responses@.map_values(|x: PrepareOutput| x@).contains(input@),
{
    let ghost rs = responses@.map_values(|x: PrepareOutput| x@);
    let mut i: usize = 0;
    while i < responses.len()
        invariant
            i <= responses.len(),
            rs == responses@.map_values(|x: PrepareOutput| x@),
            forall|j: int| 0 <= j < i ==> rs[j] != input@,
        decreases responses.len() - i,
    {
        if responses[i].same_as(input) {
            assert(rs[i as int] == input@);
            return true;
        }
        i = i + 1;
    }
    false
}

/// The value a round proposes once a majority answered.
fn choose_value(req: &InflightRequest) -> (v: String)
    requires
        req@.well_formed(),
        best_reports(req@.responses),
    ensures
        v@ == chosen_value(req@.responses, req@.proposed_value->0),
{
    let ghost rs = req@.responses;
    let mut best: Option<usize> = None;
    let mut i: usize = 0;
    while i < req.responses.len()
        invariant
            i <= req.responses.len(),
            rs == req@.responses,
            rs.len() == req.responses@.len(),
            match best {
                Some(b) => best_index(rs.take(i as int)) == Some(b as int),
                None => best_index(rs.take(i as int)) is None,
            },
        decreases req.responses.len() - i,
    {
        proof {
            assert(rs.take(i + 1).drop_last() =~= rs.take(i as int));
        }
        let r = &req.responses[i];
        match r.accepted_proposal_number {
            Some(n) => {
                match best {
                    Some(b) => {
                        proof {
                            lemma_best_index_in_range(rs.take(i as int));
                        }
                        let bn = req.responses[b].accepted_proposal_number;
                        match bn {
                            Some(m) => {
                                if m <= n {
                                    best = Some(i);
                                }
                            },
                            None => {
                                proof {
                                    lemma_best_index_in_range(rs.take(i as int));
                                    assert(false);
                                }
                            },
                        }
                    },
                    None => {
                        best = Some(i);
                    },
                }
            },
            None => {},
        }
        i = i + 1;
    }
    proof {
        assert(rs.take(i as int) =~= rs);
        lemma_best_index_in_range(rs);
    }
    match best {
        Some(b) => {
            let r = &req.responses[b];
            match &r.accepted_value {
                Some(v) => v.clone(),
                None => {
                    String::new()
                },
            }
        },
        None => {
            match &req.proposed_value {
                Some(v) => v.clone(),
                None => String::new(),
            }
        },
    }
}

/// The best response is one of the responses, and reports an accepted proposal.
pub proof fn lemma_best_index_in_range(rs: Seq<PrepareOutputView>)
    ensures
        best_index(rs) matches Some(i) ==> 0 <= i < rs.len() && rs[i].accepted_proposal_number is Some,
    decreases rs.len(),
{
    if rs.len() > 0 {
        lemma_best_index_in_range(rs.drop_last());
    }
}

/// The chosen response reports the highest accepted proposal number among all
/// responses; when there is none, no response reports an accepted proposal.
pub proof fn lemma_best_index_is_highest(rs: Seq<PrepareOutputView>)
    ensures
        best_index(rs) matches Some(b) ==> {
            &&& 0 <= b < rs.len()
            &&& rs[b].accepted_proposal_number is Some
            &&& forall|k: int|
                0 <= k < rs.len() && (#[trigger] rs[k]).accepted_proposal_number is Some
                    ==> rs[k].accepted_proposal_number->0 <= rs[b].accepted_proposal_number->0
        },
        best_index(rs) is None ==> forall|k: int| 0 <= k < rs.len() ==> (#[trigger] rs[k]).accepted_proposal_number is None,
    decreases rs.len(),
{
    if rs.len() > 0 {
        let init = rs.drop_last();
        lemma_best_index_is_highest(init);
        let last = rs.last();
        let n = rs.len() - 1;
        let prev = best_index(init);
        if last.accepted_proposal_number is Some && (prev is None
            || rs[prev->0].accepted_proposal_number->0 <= last.accepted_proposal_number->0) {
            assert(best_index(rs) == Some(n));
            assert forall|k: int|
                0 <= k < rs.len() && (#[trigger] rs[k]).accepted_proposal_number is Some implies rs[k].accepted_proposal_number->0
                <= rs[n].accepted_proposal_number->0 by {
                if k < n {
                    assert(init[k] == rs[k]);
                }
            }
        } else {
            assert(best_index(rs) == prev);
            match prev {
                Some(b) => {
                    assert(init[b] == rs[b]);
                    assert forall|k: int|
                        0 <= k < rs.len() && (#[trigger] rs[k]).accepted_proposal_number is Some implies rs[k].accepted_proposal_number->0
                        <= rs[b].accepted_proposal_number->0 by {
                        if k < n {
                            assert(init[k] == rs[k]);
                        }
                    }
                },
                None => {
                    assert forall|k: int| 0 <= k < rs.len() implies (#[trigger] rs[k]).accepted_proposal_number is None by {
                        if k < n {
                            assert(init[k] == rs[k]);
                        }
                    }
                },
            }
        }
    }
}

/// No handler lowers the number a replica has promised: starting a proposal
/// raises it by one, a prepare raises it or leaves it, and responses and
/// accepts leave it.
pub proof fn lemma_promises_never_decrease(
    r: ReplicaView,
    value: Seq<char>,
    prepare: PrepareInput,
    response: PrepareOutputView,
    accept: AcceptInputView,
)
    requires
        r.state.min_proposal_number < u64::MAX,
    ensures
        r.after_start_proposal(value).0.state.min_proposal_number == r.state.min_proposal_number + 1,
        r.after_prepare(prepare).0.state.min_proposal_number >= r.state.min_proposal_number,
        r.after_prepare_response(response).0.state == r.state,
        r.after_accept(accept).0.state.min_proposal_number == r.state.min_proposal_number,
{
}

/// A replica answers a prepare request exactly when its number is above every
/// number it promised before; it then promises that number and reports the
/// proposal it accepted last.
pub proof fn lemma_prepare_is_answered_with_a_promise(r: ReplicaView, prepare: PrepareInput)
    ensures
        r.after_prepare(prepare).1.len() > 0 <==> prepare.proposal_number > r.state.min_proposal_number,
        prepare.proposal_number > r.state.min_proposal_number ==> {
            let (next, msgs) = r.after_prepare(prepare);
            &&& next.state.min_proposal_number == prepare.proposal_number
            &&& msgs == seq![
                MessageView::PrepareResponse(
                    prepare.from_replica_id,
                    PrepareOutputView {
                        from_replica_id: r.id,
                        request_id: prepare.request_id,
                        accepted_proposal_number: r.state.accepted_proposal_number,
                        accepted_value: r.state.accepted_value,
                    },
                ),
            ]
        },
{
}

/// A promise is kept: an accept request numbered below the number a replica
/// promised changes nothing and is not answered.
pub proof fn lemma_promise_blocks_older_accepts(r: ReplicaView, accept: AcceptInputView)
    requires
        accept.proposal_number < r.state.min_proposal_number,
    ensures
        r.after_accept(accept) == (r, Seq::<MessageView>::empty()),
{
}

/// Every handler keeps an accepted proposal number paired with its value, and
/// every message a replica sends with a well-formed state is well formed.
pub proof fn lemma_handlers_keep_state_well_formed(
    r: ReplicaView,
    value: Seq<char>,
    prepare: PrepareInput,
    response: PrepareOutputView,
    accept: AcceptInputView,
)
    requires
        r.state.well_formed(),
    ensures
        r.after_start_proposal(value).0.state.well_formed(),
        r.after_prepare(prepare).0.state.well_formed(),
        r.after_prepare_response(response).0.state.well_formed(),
        r.after_accept(accept).0.state.well_formed(),
        forall|i: int| 0 <= i < r.after_start_proposal(value).1.len() ==> (#[trigger] r.after_start_proposal(value).1[i]).well_formed(),
        forall|i: int| 0 <= i < r.after_prepare(prepare).1.len() ==> (#[trigger] r.after_prepare(prepare).1[i]).well_formed(),
        forall|i: int| 0 <= i < r.after_prepare_response(response).1.len() ==> (#[trigger] r.after_prepare_response(response).1[i]).well_formed(),
        forall|i: int| 0 <= i < r.after_accept(accept).1.len() ==> (#[trigger] r.after_accept(accept).1[i]).well_formed(),
{
}

/// Every response that a round keeps reports its value, whatever the replica
/// handles, provided a prepare response it handles reports its value too; such
/// a response can then always be handled.
pub proof fn lemma_handlers_keep_responses_reporting(
    r: ReplicaView,
    value: Seq<char>,
    prepare: PrepareInput,
    response: PrepareOutputView,
    accept: AcceptInputView,
)
    requires
        r.responses_report(),
    ensures
        response.reports_value() ==> r.takes_response(response),
        r.after_start_proposal(value).0.responses_report(),
        r.after_prepare(prepare).0.responses_report(),
        response.reports_value() ==> r.after_prepare_response(response).0.responses_report(),
        r.after_accept(accept).0.responses_report(),
{
    let rid = response.request_id;
    if response.reports_value() && r.inflight.contains_key(rid) {
        let req = r.inflight[rid];
        let rs = r.counted(response);
        assert(req.responses_report());
        assert forall|i: int| 0 <= i < rs.len() implies #[trigger] rs[i].reports_value() by {
            if i < req.responses.len() {
                assert(rs[i] == req.responses[i]);
            }
        }
        lemma_best_index_in_range(rs);
        match best_index(rs) {
            Some(b) => {
                assert(rs[b].reports_value());
            },
            None => {},
        }
        assert(best_reports(rs));
        let r2 = r.after_prepare_response(response).0;
        assert forall|id: RequestId| #[trigger] r2.inflight.contains_key(id) implies r2.inflight[id].responses_report() by {
            if id != rid && r.inflight.contains_key(id) {
                assert(r.inflight[id].responses_report());
            }
        }
    }
    let r1 = r.after_start_proposal(value).0;
    assert forall|id: RequestId| #[trigger] r1.inflight.contains_key(id) implies r1.inflight[id].responses_report() by {
        if r.inflight.contains_key(id) && id != RequestId::Prepare(r.id, (r.state.min_proposal_number + 1) as u64) {
            assert(r.inflight[id].responses_report());
        }
    }
    let r3 = r.after_prepare(prepare).0;
    assert forall|id: RequestId| #[trigger] r3.inflight.contains_key(id) implies r3.inflight[id].responses_report() by {
        assert(r.inflight[id].responses_report());
    }
    let r4 = r.after_accept(accept).0;
    assert forall|id: RequestId| #[trigger] r4.inflight.contains_key(id) implies r4.inflight[id].responses_report() by {
        assert(r.inflight[id].responses_report());
    }
}

/// Handling the same prepare response twice is the same as handling it once:
/// the second delivery changes nothing and sends nothing.
pub proof fn lemma_duplicate_response_is_harmless(r: ReplicaView, response: PrepareOutputView)
    requires
        r.well_formed(),
    ensures
        r.after_prepare_response(response).0.after_prepare_response(response)
            == (r.after_prepare_response(response).0, Seq::<MessageView>::empty()),
{
    let once = r.after_prepare_response(response).0;
    let rid = response.request_id;
    if r.inflight.contains_key(rid) {
        let req = r.inflight[rid];
        let responses = if req.responses.contains(response) {
            req.responses
        } else {
            req.responses.push(response)
        };
        if responses.len() < majority_of(r.replicas.len()) {
            let req1 = InflightView { responses, ..req };
            assert(once.inflight[rid] == req1);
            assert(responses.contains(response)) by {
                if !req.responses.contains(response) {
                    assert(responses[responses.len() - 1] == response);
                }
            }
            assert(once.inflight.insert(rid, InflightView { responses, ..req1 }) =~= once.inflight);
        } else {
            assert(!once.inflight.contains_key(rid));
        }
    }
}

} // verus!
