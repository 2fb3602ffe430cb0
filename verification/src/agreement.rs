//! Agreement of the protocol. The system is a set of replicas that all know
//! the same list of ids, and every message sent so far; a step adds a user's
//! request, lets the addressee of a sent message handle it, or restarts a
//! replica from its durable state (a message may be handled any number of
//! times, in any order, or never; a replica that stops just takes no steps).
//! A value is chosen in an accept round when a majority of the replicas have
//! answered its accept request. With three or four replicas no two different
//! values are ever chosen. With five, two can be: an acceptor takes an accept
//! request above its promise without raising the promise, and can then fall
//! back to an older proposal.
use vstd::prelude::*;
use crate::contracts::DurableStateView;
use crate::replica::{
    accept_broadcast, best_index, chosen_value, lemma_best_index_is_highest, majority_of, prepare_broadcast,
    InflightView, ReplicaView,
};
use crate::types::{
    AcceptInputView, AcceptOutput, MessageView, PrepareInput, PrepareOutputView, ProposalNumber, ReplicaId,
    RequestId,
};

verus! {

/// The proposal number of a round.
pub open spec fn round_number(rid: RequestId) -> ProposalNumber {
    match rid {
        RequestId::Prepare(_, n) => n,
        RequestId::Accept(_, n) => n,
    }
}

/// The whole system as a value.
pub struct SystemView {
    pub ids: Seq<ReplicaId>,
    pub replicas: Map<ReplicaId, ReplicaView>,
    pub sent: Set<MessageView>,
}

/// One step of the system: a user's request, the delivery of a message that
/// was sent (any number of times, in any order, or never), or the restart of a
/// replica.
pub enum Step {
    Request(ReplicaId, Seq<char>),
    Deliver(MessageView),
    Restart(ReplicaId),
}

/// Every one of `outs` is an answer, among the messages `sent`, to the accept
/// request of round `rid`.
pub open spec fn all_answers(sent: Set<MessageView>, rid: RequestId, outs: Seq<AcceptOutput>) -> bool {
    forall|k: int|
        0 <= k < outs.len() ==> (#[trigger] outs[k]).request_id == rid && exists|to: ReplicaId|
            sent.contains(MessageView::AcceptResponse(to, outs[k]))
}

/// Among the messages `sent`, the accept request of round `rid` for `v` has
/// at least `majority` distinct answers.
pub open spec fn answered_by_majority(sent: Set<MessageView>, majority: nat, rid: RequestId, v: Seq<char>) -> bool {
    &&& exists|to: ReplicaId, i: AcceptInputView|
        #[trigger] sent.contains(MessageView::Accept(to, i)) && i.request_id == rid && i.value == v
    &&& exists|outs: Seq<AcceptOutput>|
        #[trigger] all_answers(sent, rid, outs) && outs.no_duplicates() && outs.len() >= majority
}

/// A replica that has done nothing yet.
pub open spec fn fresh_replica(id: ReplicaId, ids: Seq<ReplicaId>) -> ReplicaView {
    ReplicaView { id, replicas: ids, state: DurableStateView::initial(), inflight: Map::empty() }
}

impl SystemView {
    /// Replicas with ids `ids`, nothing sent.
    pub open spec fn initial(ids: Seq<ReplicaId>) -> SystemView {
        SystemView {
            ids,
            replicas: Map::new(|x: ReplicaId| ids.contains(x), |x: ReplicaId| fresh_replica(x, ids)),
            sent: Set::empty(),
        }
    }

    /// A user asks replica `to` to propose `value`.
    pub open spec fn request(self, to: ReplicaId, value: Seq<char>) -> SystemView {
        SystemView { sent: self.sent.insert(MessageView::StartProposal(to, value)), ..self }
    }

    /// What replica `r` does with message `m`, and what it sends.
    pub open spec fn handle(r: ReplicaView, m: MessageView) -> (ReplicaView, Seq<MessageView>) {
        match m {
            MessageView::StartProposal(_, v) => if r.state.min_proposal_number < u64::MAX {
                r.after_start_proposal(v)
            } else {
                (r, seq![])
            },
            MessageView::Prepare(_, i) => r.after_prepare(i),
            MessageView::PrepareResponse(_, o) => r.after_prepare_response(o),
            MessageView::Accept(_, i) => r.after_accept(i),
            MessageView::AcceptResponse(_, _) => (r, seq![]),
        }
    }

    /// The addressee of `m` handles it.
    pub open spec fn deliver(self, m: MessageView) -> SystemView {
        let to = m.to_replica_id();
        if !self.replicas.contains_key(to) {
            self
        } else {
            let (r, msgs) = Self::handle(self.replicas[to], m);
            SystemView { replicas: self.replicas.insert(to, r), sent: self.sent + msgs.to_set(), ..self }
        }
    }

    /// Replica `x` stops and resumes from its storage: its durable state stays,
    /// its inflight rounds are gone.
    pub open spec fn restart(self, x: ReplicaId) -> SystemView {
        if !self.replicas.contains_key(x) {
            self
        } else {
            SystemView {
                replicas: self.replicas.insert(x, ReplicaView { inflight: Map::empty(), ..self.replicas[x] }),
                ..self
            }
        }
    }

    /// The system after `step`; a message that was never sent cannot be
    /// delivered.
    pub open spec fn next(self, step: Step) -> SystemView {
        match step {
            Step::Request(to, v) => self.request(to, v),
            Step::Deliver(m) => if self.sent.contains(m) {
                self.deliver(m)
            } else {
                self
            },
            Step::Restart(x) => self.restart(x),
        }
    }

    /// The system after `steps`, in order.
    pub open spec fn run(self, steps: Seq<Step>) -> SystemView
        decreases steps.len(),
    {
        if steps.len() == 0 {
            self
        } else {
            self.run(steps.drop_last()).next(steps.last())
        }
    }

    /// The promise of replica `x`.
    pub open spec fn min_of(self, x: ReplicaId) -> ProposalNumber {
        self.replicas[x].state.min_proposal_number
    }

    /// Replica `x` answered the accept request of round `rid`.
    pub open spec fn accepted_by(self, rid: RequestId, x: ReplicaId) -> bool {
        exists|to: ReplicaId, min: ProposalNumber|
            #[trigger] self.sent.contains(
                MessageView::AcceptResponse(to, AcceptOutput { from_replica_id: x, request_id: rid, min_proposal_number: min }),
            )
    }

    /// An accept request of round `rid` for `v` was sent.
    pub open spec fn accept_sent(self, rid: RequestId, v: Seq<char>) -> bool {
        exists|to: ReplicaId, i: AcceptInputView|
            #[trigger] self.sent.contains(MessageView::Accept(to, i)) && i.request_id == rid && i.value == v
    }

    /// An accept request of round `rid` was sent.
    pub open spec fn accept_requested(self, rid: RequestId) -> bool {
        exists|to: ReplicaId, i: AcceptInputView| #[trigger] self.sent.contains(MessageView::Accept(to, i)) && i.request_id == rid
    }

    /// `v` is chosen in round `rid`: its accept request was sent, and a
    /// majority of the replicas answered it.
    pub open spec fn chosen(self, rid: RequestId, v: Seq<char>) -> bool {
        &&& self.accept_sent(rid, v)
        &&& exists|xs: Set<ReplicaId>|
            #![trigger xs.len()]
            xs.subset_of(self.ids.to_set()) && xs.len() >= majority_of(self.ids.len()) && (forall|x: ReplicaId|
                #[trigger] xs.contains(x) ==> self.accepted_by(rid, x))
    }

    /// An accept request numbered `n` for `v` was sent.
    pub open spec fn accept_numbered(self, n: ProposalNumber, v: Seq<char>) -> bool {
        exists|to: ReplicaId, i: AcceptInputView|
            #[trigger] self.sent.contains(MessageView::Accept(to, i)) && i.proposal_number == n && i.value == v
    }

    /// Replica `x` promised round `rid`.
    pub open spec fn promised(self, x: ReplicaId, rid: RequestId) -> bool {
        exists|to: ReplicaId, o: PrepareOutputView|
            #[trigger] self.sent.contains(MessageView::PrepareResponse(to, o)) && o.from_replica_id == x
                && o.request_id == rid
    }

    /// Replica `x` sent the prepare request of its round `n`.
    pub open spec fn prepare_sent(self, x: ReplicaId, n: ProposalNumber) -> bool {
        exists|to: ReplicaId|
            #[trigger] self.sent.contains(
                MessageView::Prepare(
                    to,
                    PrepareInput { from_replica_id: x, request_id: RequestId::Prepare(x, n), proposal_number: n },
                ),
            )
    }

    /// Three or four replicas with distinct ids, each knowing them all, each
    /// well formed.
    pub open spec fn shape_ok(self) -> bool {
        &&& self.ids.no_duplicates()
        &&& 3 <= self.ids.len() <= 4
        &&& forall|x: ReplicaId| #[trigger] self.replicas.contains_key(x) <==> self.ids.contains(x)
        &&& forall|x: ReplicaId|
            #[trigger] self.replicas.contains_key(x) ==> {
                &&& self.replicas[x].id == x
                &&& self.replicas[x].replicas == self.ids
                &&& self.replicas[x].well_formed()
                &&& self.replicas[x].state.well_formed()
            }
    }

    /// A prepare request names its sender's round, and the sender promised it.
    #[verifier::opaque]
    pub open spec fn prepares_ok(self) -> bool {
        forall|to: ReplicaId, i: PrepareInput|
            #[trigger] self.sent.contains(MessageView::Prepare(to, i)) ==> {
                &&& i.request_id == RequestId::Prepare(i.from_replica_id, i.proposal_number)
                &&& self.replicas.contains_key(i.from_replica_id)
                &&& self.min_of(i.from_replica_id) >= i.proposal_number
            }
    }

    /// A promise goes to the round's owner from another replica, which keeps
    /// it, and reports a proposal older than the round whose accept request
    /// was sent.
    #[verifier::opaque]
    pub open spec fn promises_ok(self) -> bool {
        forall|to: ReplicaId, o: PrepareOutputView|
            #[trigger] self.sent.contains(MessageView::PrepareResponse(to, o)) ==> {
                &&& o.request_id == RequestId::Prepare(to, round_number(o.request_id))
                &&& o.from_replica_id != to
                &&& self.replicas.contains_key(o.from_replica_id)
                &&& self.min_of(o.from_replica_id) >= round_number(o.request_id)
                &&& o.reports_value()
                &&& (o.accepted_proposal_number is Some ==> o.accepted_proposal_number->0 < round_number(o.request_id))
                &&& (o.accepted_proposal_number is Some ==> self.accept_numbered(
                    o.accepted_proposal_number->0,
                    o.accepted_value->0,
                ))
            }
    }

    /// A promise reports a proposal numbered at least as high as any older
    /// one its sender accepted.
    #[verifier::opaque]
    pub open spec fn reports_ok(self) -> bool {
        forall|to1: ReplicaId, o: PrepareOutputView, to2: ReplicaId, a: AcceptOutput|
            #[trigger] self.sent.contains(MessageView::PrepareResponse(to1, o)) && #[trigger] self.sent.contains(
                MessageView::AcceptResponse(to2, a),
            ) && a.from_replica_id == o.from_replica_id && round_number(a.request_id) < round_number(o.request_id)
                ==> o.accepted_proposal_number is Some && o.accepted_proposal_number->0 >= round_number(a.request_id)
    }

    /// A replica promises a round at most once.
    #[verifier::opaque]
    pub open spec fn one_promise_ok(self) -> bool {
        forall|to1: ReplicaId, o1: PrepareOutputView, to2: ReplicaId, o2: PrepareOutputView|
            #[trigger] self.sent.contains(MessageView::PrepareResponse(to1, o1)) && #[trigger] self.sent.contains(
                MessageView::PrepareResponse(to2, o2),
            ) && o1.from_replica_id == o2.from_replica_id && o1.request_id == o2.request_id ==> o1 == o2
    }

    /// An accept request names its sender's round, which is over; every
    /// replica has promised at least its number, and every other replica
    /// promised the round.
    #[verifier::opaque]
    pub open spec fn accepts_ok(self) -> bool {
        forall|to: ReplicaId, i: AcceptInputView|
            #[trigger] self.sent.contains(MessageView::Accept(to, i)) ==> {
                &&& i.request_id == RequestId::Accept(i.from_replica_id, i.proposal_number)
                &&& self.replicas.contains_key(i.from_replica_id)
                &&& !self.replicas[i.from_replica_id].inflight.contains_key(
                    RequestId::Prepare(i.from_replica_id, i.proposal_number),
                )
                &&& forall|x: ReplicaId| #[trigger] self.replicas.contains_key(x) ==> self.min_of(x) >= i.proposal_number
                &&& forall|x: ReplicaId|
                    #[trigger] self.replicas.contains_key(x) && x != i.from_replica_id ==> self.promised(
                        x,
                        RequestId::Prepare(i.from_replica_id, i.proposal_number),
                    )
            }
    }

    /// Accept requests with the same number come from the same round, with the
    /// same value.
    #[verifier::opaque]
    pub open spec fn accept_values_ok(self) -> bool {
        forall|to1: ReplicaId, i1: AcceptInputView, to2: ReplicaId, i2: AcceptInputView|
            #[trigger] self.sent.contains(MessageView::Accept(to1, i1)) && #[trigger] self.sent.contains(
                MessageView::Accept(to2, i2),
            ) && i1.proposal_number == i2.proposal_number ==> i1.value == i2.value && i1.from_replica_id
                == i2.from_replica_id
    }

    /// What a replica accepted is numbered at most its promise, was sent as an
    /// accept request, and is at least as high as every round it answered; a
    /// round is answered only after its accept request was sent, with the
    /// round's own number as the promise.
    #[verifier::opaque]
    pub open spec fn acceptors_ok(self) -> bool {
        &&& forall|x: ReplicaId|
            #[trigger] self.replicas.contains_key(x) ==> (self.replicas[x].state.accepted_proposal_number is Some ==> {
                &&& self.replicas[x].state.accepted_proposal_number->0 <= self.min_of(x)
                &&& self.accept_numbered(
                    self.replicas[x].state.accepted_proposal_number->0,
                    self.replicas[x].state.accepted_value->0,
                )
            })
        &&& forall|to: ReplicaId, a: AcceptOutput|
            #[trigger] self.sent.contains(MessageView::AcceptResponse(to, a)) ==> {
                &&& self.replicas.contains_key(a.from_replica_id)
                &&& self.replicas[a.from_replica_id].state.accepted_proposal_number is Some
                &&& self.replicas[a.from_replica_id].state.accepted_proposal_number->0 >= round_number(a.request_id)
                &&& self.accept_requested(a.request_id)
                &&& a.min_proposal_number == round_number(a.request_id)
            }
    }

    /// A prepare round inflight at its owner: numbered at most the owner's
    /// promise, announced, and holding only promises sent for it.
    #[verifier::opaque]
    pub open spec fn inflight_ok(self) -> bool {
        forall|x: ReplicaId, rid: RequestId|
            #[trigger] self.replicas.contains_key(x) && #[trigger] self.replicas[x].inflight.contains_key(rid)
                && rid is Prepare ==> {
                let req = self.replicas[x].inflight[rid];
                &&& rid == RequestId::Prepare(x, req.proposal_number)
                &&& req.proposal_number <= self.min_of(x)
                &&& self.prepare_sent(x, req.proposal_number)
                &&& forall|j: int|
                    0 <= j < req.responses.len() ==> self.sent.contains(
                        MessageView::PrepareResponse(x, #[trigger] req.responses[j]),
                    ) && req.responses[j].request_id == rid
            }
    }

    /// A replica never promises another's round numbered like one it started.
    #[verifier::opaque]
    pub open spec fn exclusive_ok(self) -> bool {
        forall|to1: ReplicaId, o: PrepareOutputView, to2: ReplicaId, i: PrepareInput|
            #[trigger] self.sent.contains(MessageView::PrepareResponse(to1, o)) && #[trigger] self.sent.contains(
                MessageView::Prepare(to2, i),
            ) && o.from_replica_id == i.from_replica_id ==> round_number(o.request_id) != i.proposal_number
    }

    /// An accept request carries the value chosen in any older round.
    #[verifier::opaque]
    pub open spec fn safe_ok(self) -> bool {
        forall|to: ReplicaId, i: AcceptInputView, rid: RequestId, w: Seq<char>|
            #[trigger] self.sent.contains(MessageView::Accept(to, i)) && #[trigger] self.chosen(rid, w)
                && round_number(rid) < i.proposal_number ==> i.value == w
    }

    /// The invariant of the system.
    pub open spec fn inv(self) -> bool {
        &&& self.shape_ok()
        &&& self.prepares_ok()
        &&& self.promises_ok()
        &&& self.reports_ok()
        &&& self.one_promise_ok()
        &&& self.accepts_ok()
        &&& self.accept_values_ok()
        &&& self.acceptors_ok()
        &&& self.inflight_ok()
        &&& self.exclusive_ok()
        &&& self.safe_ok()
    }

    /// No two different values are chosen.
    pub open spec fn agreement(self) -> bool {
        forall|r1: RequestId, v1: Seq<char>, r2: RequestId, v2: Seq<char>|
            self.chosen(r1, v1) && self.chosen(r2, v2) ==> v1 == v2
    }
}


/// The system starts out satisfying its invariant.
pub proof fn lemma_initial_inv(ids: Seq<ReplicaId>)
    requires
        ids.no_duplicates(),
        3 <= ids.len() <= 4,
    ensures
        SystemView::initial(ids).inv(),
{
    let s = SystemView::initial(ids);
    assert forall|x: ReplicaId| #[trigger] s.replicas.contains_key(x) implies {
        &&& s.replicas[x].id == x
        &&& s.replicas[x].replicas == s.ids
        &&& s.replicas[x].well_formed()
        &&& s.replicas[x].state.well_formed()
    } by {}
    assert(s.shape_ok());
    reveal(SystemView::prepares_ok);
    reveal(SystemView::promises_ok);
    reveal(SystemView::reports_ok);
    reveal(SystemView::one_promise_ok);
    reveal(SystemView::accepts_ok);
    reveal(SystemView::accept_values_ok);
    reveal(SystemView::acceptors_ok);
    reveal(SystemView::inflight_ok);
    reveal(SystemView::exclusive_ok);
    reveal(SystemView::safe_ok);
}

/// The invariant gives agreement.
pub proof fn lemma_inv_gives_agreement(s: SystemView)
    requires
        s.inv(),
    ensures
        s.agreement(),
{
    reveal(SystemView::accepts_ok);
    reveal(SystemView::accept_values_ok);
    reveal(SystemView::safe_ok);
    assert forall|r1: RequestId, v1: Seq<char>, r2: RequestId, v2: Seq<char>|
        s.chosen(r1, v1) && s.chosen(r2, v2) implies v1 == v2 by {
        let (t1, i1) = choose|to: ReplicaId, i: AcceptInputView|
            #[trigger] s.sent.contains(MessageView::Accept(to, i)) && i.request_id == r1 && i.value == v1;
        let (t2, i2) = choose|to: ReplicaId, i: AcceptInputView|
            #[trigger] s.sent.contains(MessageView::Accept(to, i)) && i.request_id == r2 && i.value == v2;
        assert(round_number(r1) == i1.proposal_number);
        assert(round_number(r2) == i2.proposal_number);
        if i1.proposal_number < i2.proposal_number {
            assert(s.chosen(r1, v1));
        } else if i2.proposal_number < i1.proposal_number {
            assert(s.chosen(r2, v2));
        }
    }
}

/// What holds of the messages sent holds of more messages.
proof fn lemma_sent_grows(s: SystemView, s2: SystemView)
    requires
        s.sent.subset_of(s2.sent),
        s2.ids == s.ids,
    ensures
        forall|n: ProposalNumber, v: Seq<char>| #[trigger] s.accept_numbered(n, v) ==> s2.accept_numbered(n, v),
        forall|x: ReplicaId, rid: RequestId| #[trigger] s.promised(x, rid) ==> s2.promised(x, rid),
        forall|x: ReplicaId, n: ProposalNumber| #[trigger] s.prepare_sent(x, n) ==> s2.prepare_sent(x, n),
        forall|rid: RequestId, v: Seq<char>| #[trigger] s.chosen(rid, v) ==> s2.chosen(rid, v),
        forall|rid: RequestId| #[trigger] s.accept_requested(rid) ==> s2.accept_requested(rid),
{
    assert forall|rid: RequestId| #[trigger] s.accept_requested(rid) implies s2.accept_requested(rid) by {
        let (to, i) = choose|to: ReplicaId, i: AcceptInputView|
            #[trigger] s.sent.contains(MessageView::Accept(to, i)) && i.request_id == rid;
        assert(s2.sent.contains(MessageView::Accept(to, i)));
    }
    assert forall|n: ProposalNumber, v: Seq<char>| #[trigger] s.accept_numbered(n, v) implies s2.accept_numbered(n, v) by {
        let (to, i) = choose|to: ReplicaId, i: AcceptInputView|
            #[trigger] s.sent.contains(MessageView::Accept(to, i)) && i.proposal_number == n && i.value == v;
        assert(s2.sent.contains(MessageView::Accept(to, i)));
    }
    assert forall|x: ReplicaId, rid: RequestId| #[trigger] s.promised(x, rid) implies s2.promised(x, rid) by {
        let (to, o) = choose|to: ReplicaId, o: PrepareOutputView|
            #[trigger] s.sent.contains(MessageView::PrepareResponse(to, o)) && o.from_replica_id == x
                && o.request_id == rid;
        assert(s2.sent.contains(MessageView::PrepareResponse(to, o)));
    }
    assert forall|x: ReplicaId, n: ProposalNumber| #[trigger] s.prepare_sent(x, n) implies s2.prepare_sent(x, n) by {
        let to = choose|to: ReplicaId|
            #[trigger] s.sent.contains(
                MessageView::Prepare(
                    to,
                    PrepareInput { from_replica_id: x, request_id: RequestId::Prepare(x, n), proposal_number: n },
                ),
            );
        assert(s2.sent.contains(
            MessageView::Prepare(
                to,
                PrepareInput { from_replica_id: x, request_id: RequestId::Prepare(x, n), proposal_number: n },
            ),
        ));
    }
    assert forall|rid: RequestId, v: Seq<char>| #[trigger] s.chosen(rid, v) implies s2.chosen(rid, v) by {
        let (to, i) = choose|to: ReplicaId, i: AcceptInputView|
            #[trigger] s.sent.contains(MessageView::Accept(to, i)) && i.request_id == rid && i.value == v;
        assert(s2.sent.contains(MessageView::Accept(to, i)));
        let xs = choose|xs: Set<ReplicaId>|
            #![trigger xs.len()]
            xs.subset_of(s.ids.to_set()) && xs.len() >= majority_of(s.ids.len()) && (forall|x: ReplicaId|
                #[trigger] xs.contains(x) ==> s.accepted_by(rid, x));
        assert forall|x: ReplicaId| #[trigger] xs.contains(x) implies s2.accepted_by(rid, x) by {
            assert(s.accepted_by(rid, x));
            let (tt, mm) = choose|tt: ReplicaId, mm: ProposalNumber|
                #[trigger] s.sent.contains(
                    MessageView::AcceptResponse(tt, AcceptOutput { from_replica_id: x, request_id: rid, min_proposal_number: mm }),
                );
            assert(s2.sent.contains(
                MessageView::AcceptResponse(tt, AcceptOutput { from_replica_id: x, request_id: rid, min_proposal_number: mm }),
            ));
        }
        assert(xs.len() >= majority_of(s2.ids.len()));
    }
}

/// Choices are made by accept responses: where the new messages hold none,
/// and no accept request, nothing new is chosen.
proof fn lemma_nothing_new_chosen(s: SystemView, s2: SystemView)
    requires
        s2.ids == s.ids,
        forall|m: MessageView| #[trigger] s2.sent.contains(m) && (m is Accept || m is AcceptResponse) ==> s.sent.contains(m),
    ensures
        forall|rid: RequestId, v: Seq<char>| #[trigger] s2.chosen(rid, v) ==> s.chosen(rid, v),
{
    assert forall|rid: RequestId, v: Seq<char>| #[trigger] s2.chosen(rid, v) implies s.chosen(rid, v) by {
        let (to, i) = choose|to: ReplicaId, i: AcceptInputView|
            #[trigger] s2.sent.contains(MessageView::Accept(to, i)) && i.request_id == rid && i.value == v;
        assert(s.sent.contains(MessageView::Accept(to, i)));
        let xs = choose|xs: Set<ReplicaId>|
            #![trigger xs.len()]
            xs.subset_of(s2.ids.to_set()) && xs.len() >= majority_of(s2.ids.len()) && (forall|x: ReplicaId|
                #[trigger] xs.contains(x) ==> s2.accepted_by(rid, x));
        assert forall|x: ReplicaId| #[trigger] xs.contains(x) implies s.accepted_by(rid, x) by {
            assert(s2.accepted_by(rid, x));
            let (tt, mm) = choose|tt: ReplicaId, mm: ProposalNumber|
                #[trigger] s2.sent.contains(
                    MessageView::AcceptResponse(tt, AcceptOutput { from_replica_id: x, request_id: rid, min_proposal_number: mm }),
                );
            assert(s.sent.contains(
                MessageView::AcceptResponse(tt, AcceptOutput { from_replica_id: x, request_id: rid, min_proposal_number: mm }),
            ));
        }
        assert(xs.len() >= majority_of(s.ids.len()));
    }
}

/// A user's request keeps the invariant.
pub proof fn lemma_request_keeps_inv(s: SystemView, to: ReplicaId, v: Seq<char>)
    requires
        s.inv(),
    ensures
        s.request(to, v).inv(),
{
    let s2 = s.request(to, v);
    lemma_sent_grows(s, s2);
    lemma_nothing_new_chosen(s, s2);
    assert(s2.prepares_ok()) by { reveal(SystemView::prepares_ok); }
    assert(s2.promises_ok()) by { reveal(SystemView::promises_ok); }
    assert(s2.reports_ok()) by { reveal(SystemView::reports_ok); }
    assert(s2.one_promise_ok()) by { reveal(SystemView::one_promise_ok); }
    assert(s2.accepts_ok()) by { reveal(SystemView::accepts_ok); }
    assert(s2.accept_values_ok()) by { reveal(SystemView::accept_values_ok); }
    assert(s2.acceptors_ok()) by { reveal(SystemView::acceptors_ok); }
    assert(s2.inflight_ok()) by { reveal(SystemView::inflight_ok); }
    assert(s2.exclusive_ok()) by { reveal(SystemView::exclusive_ok); }
    assert(s2.safe_ok()) by { reveal(SystemView::safe_ok); }
}


/// A single message as a set.
pub(crate) proof fn lemma_single_to_set(m: MessageView)
    ensures
        seq![m].to_set() == set![m],
{
    assert forall|y: MessageView| seq![m].to_set().contains(y) <==> set![m].contains(y) by {
        if y == m {
            assert(seq![m][0] == y);
        }
    }
    assert(seq![m].to_set() =~= set![m]);
}

/// What a prepare broadcast holds.
pub(crate) proof fn lemma_prepare_broadcast(id: ReplicaId, n: ProposalNumber, replicas: Seq<ReplicaId>)
    ensures
        forall|m: MessageView| #[trigger] prepare_broadcast(id, n, replicas).to_set().contains(m) ==> exists|to: ReplicaId|
            m == MessageView::Prepare(
                to,
                PrepareInput { from_replica_id: id, request_id: RequestId::Prepare(id, n), proposal_number: n },
            ),
        replicas.len() > 0 ==> prepare_broadcast(id, n, replicas).to_set().contains(
            MessageView::Prepare(
                replicas[0],
                PrepareInput { from_replica_id: id, request_id: RequestId::Prepare(id, n), proposal_number: n },
            ),
        ),
{
    let b = prepare_broadcast(id, n, replicas);
    assert forall|m: MessageView| #[trigger] b.to_set().contains(m) implies exists|to: ReplicaId|
        m == MessageView::Prepare(
            to,
            PrepareInput { from_replica_id: id, request_id: RequestId::Prepare(id, n), proposal_number: n },
        ) by {
        let k = choose|k: int| 0 <= k < b.len() && b[k] == m;
        assert(m == MessageView::Prepare(
            replicas[k],
            PrepareInput { from_replica_id: id, request_id: RequestId::Prepare(id, n), proposal_number: n },
        ));
    }
    if replicas.len() > 0 {
        assert(b[0] == MessageView::Prepare(
            replicas[0],
            PrepareInput { from_replica_id: id, request_id: RequestId::Prepare(id, n), proposal_number: n },
        ));
        assert(b.to_set().contains(b[0]));
    }
}

/// What an accept broadcast holds.
pub(crate) proof fn lemma_accept_broadcast(id: ReplicaId, n: ProposalNumber, v: Seq<char>, replicas: Seq<ReplicaId>)
    ensures
        forall|m: MessageView| #[trigger] accept_broadcast(id, n, v, replicas).to_set().contains(m) ==> exists|to: ReplicaId|
            m == MessageView::Accept(
                to,
                AcceptInputView { from_replica_id: id, request_id: RequestId::Accept(id, n), proposal_number: n, value: v },
            ),
{
    let b = accept_broadcast(id, n, v, replicas);
    assert forall|m: MessageView| #[trigger] b.to_set().contains(m) implies exists|to: ReplicaId|
        m == MessageView::Accept(
            to,
            AcceptInputView { from_replica_id: id, request_id: RequestId::Accept(id, n), proposal_number: n, value: v },
        ) by {
        let k = choose|k: int| 0 <= k < b.len() && b[k] == m;
        assert(m == MessageView::Accept(
            replicas[k],
            AcceptInputView { from_replica_id: id, request_id: RequestId::Accept(id, n), proposal_number: n, value: v },
        ));
    }
}

/// Delivering a user's request to a replica keeps the invariant.
proof fn lemma_deliver_start_keeps_inv(s: SystemView, m: MessageView)
    requires
        s.inv(),
        m is StartProposal,
        s.replicas.contains_key(m.to_replica_id()),
    ensures
        s.deliver(m).inv(),
{
    let p = m.to_replica_id();
    let v = m->StartProposal_1;
    let r = s.replicas[p];
    let s2 = s.deliver(m);
    if r.state.min_proposal_number < u64::MAX {
        let n = (r.state.min_proposal_number + 1) as u64;
        let b = prepare_broadcast(p, n, s.ids);
        let r2 = r.after_start_proposal(v).0;
        assert(s2.replicas == s.replicas.insert(p, r2));
        assert(s2.sent == s.sent + b.to_set());
        lemma_prepare_broadcast(p, n, s.ids);
        lemma_sent_grows(s, s2);
        lemma_nothing_new_chosen(s, s2);
        let fresh = PrepareInput { from_replica_id: p, request_id: RequestId::Prepare(p, n), proposal_number: n };
        assert(s2.sent.contains(MessageView::Prepare(s.ids[0], fresh)));
        assert(s2.prepare_sent(p, n));
        assert forall|mm: MessageView| #[trigger] s2.sent.contains(mm) && !(mm is Prepare) implies s.sent.contains(mm) by {
            if b.to_set().contains(mm) {
                let t = choose|to: ReplicaId| mm == MessageView::Prepare(to, fresh);
            }
        }
        assert forall|x: ReplicaId| #[trigger] s2.replicas.contains_key(x) implies s2.min_of(x) >= s.min_of(x) by {}
        assert(s2.shape_ok()) by {
            assert forall|x: ReplicaId| #[trigger] s2.replicas.contains_key(x) implies {
                &&& s2.replicas[x].id == x
                &&& s2.replicas[x].replicas == s2.ids
                &&& s2.replicas[x].well_formed()
                &&& s2.replicas[x].state.well_formed()
            } by {
                if x == p {
                    assert(s2.replicas[x].well_formed()) by {
                        assert forall|id: RequestId| #[trigger] r2.inflight.contains_key(id) implies r2.inflight[id].well_formed() by {
                            if id != RequestId::Prepare(p, n) {
                                assert(r.inflight.contains_key(id));
                            }
                        }
                    }
                }
            }
        }
        assert(s2.prepares_ok()) by {
            reveal(SystemView::prepares_ok);
            assert forall|to: ReplicaId, i: PrepareInput| #[trigger] s2.sent.contains(MessageView::Prepare(to, i)) implies {
                &&& i.request_id == RequestId::Prepare(i.from_replica_id, i.proposal_number)
                &&& s2.replicas.contains_key(i.from_replica_id)
                &&& s2.min_of(i.from_replica_id) >= i.proposal_number
            } by {
                if !s.sent.contains(MessageView::Prepare(to, i)) {
                    let t = choose|t: ReplicaId| MessageView::Prepare(to, i) == MessageView::Prepare(t, fresh);
                    assert(i == fresh);
                }
            }
        }
        assert(s2.promises_ok()) by { reveal(SystemView::promises_ok); }
        assert(s2.reports_ok()) by { reveal(SystemView::reports_ok); }
        assert(s2.one_promise_ok()) by { reveal(SystemView::one_promise_ok); }
        assert(s2.accepts_ok()) by {
            reveal(SystemView::accepts_ok);
            assert forall|to: ReplicaId, i: AcceptInputView| #[trigger] s2.sent.contains(MessageView::Accept(to, i)) implies
                !s2.replicas[i.from_replica_id].inflight.contains_key(RequestId::Prepare(i.from_replica_id, i.proposal_number))
            by {
                assert(s.sent.contains(MessageView::Accept(to, i)));
                assert(s.min_of(p) >= i.proposal_number);
            }
        }
        assert(s2.accept_values_ok()) by { reveal(SystemView::accept_values_ok); }
        assert(s2.acceptors_ok()) by { reveal(SystemView::acceptors_ok); }
        assert(s2.inflight_ok()) by {
            reveal(SystemView::inflight_ok);
            assert forall|x: ReplicaId, rid: RequestId|
                #[trigger] s2.replicas.contains_key(x) && #[trigger] s2.replicas[x].inflight.contains_key(rid)
                    && rid is Prepare implies {
                    let req = s2.replicas[x].inflight[rid];
                    &&& rid == RequestId::Prepare(x, req.proposal_number)
                    &&& req.proposal_number <= s2.min_of(x)
                    &&& s2.prepare_sent(x, req.proposal_number)
                    &&& forall|j: int|
                        0 <= j < req.responses.len() ==> s2.sent.contains(
                            MessageView::PrepareResponse(x, #[trigger] req.responses[j]),
                        ) && req.responses[j].request_id == rid
                } by {
                if x != p || rid != RequestId::Prepare(p, n) {
                    assert(s.replicas[x].inflight.contains_key(rid));
                    assert(s2.replicas[x].inflight[rid] == s.replicas[x].inflight[rid]);
                }
            }
        }
        assert(s2.exclusive_ok()) by {
            reveal(SystemView::exclusive_ok);
            reveal(SystemView::promises_ok);
            assert forall|to1: ReplicaId, o: PrepareOutputView, to2: ReplicaId, i: PrepareInput|
                #[trigger] s2.sent.contains(MessageView::PrepareResponse(to1, o)) && #[trigger] s2.sent.contains(
                    MessageView::Prepare(to2, i),
                ) && o.from_replica_id == i.from_replica_id implies round_number(o.request_id) != i.proposal_number by {
                assert(s.sent.contains(MessageView::PrepareResponse(to1, o)));
                if !s.sent.contains(MessageView::Prepare(to2, i)) {
                    let t = choose|t: ReplicaId| MessageView::Prepare(to2, i) == MessageView::Prepare(t, fresh);
                    assert(i == fresh);
                }
            }
        }
        assert(s2.safe_ok()) by { reveal(SystemView::safe_ok); }
    } else {
        assert(s2.replicas == s.replicas);
        assert(s2.sent == s.sent);
    }
}


/// Delivering a prepare request keeps the invariant.
proof fn lemma_deliver_prepare_keeps_inv(s: SystemView, m: MessageView)
    requires
        s.inv(),
        s.sent.contains(m),
        m is Prepare,
        s.replicas.contains_key(m.to_replica_id()),
    ensures
        s.deliver(m).inv(),
{
    let x = m.to_replica_id();
    let i = m->Prepare_1;
    let r = s.replicas[x];
    let s2 = s.deliver(m);
    if i.proposal_number > r.state.min_proposal_number {
        reveal(SystemView::prepares_ok);
        assert(s.sent.contains(MessageView::Prepare(x, i)));
        let from = i.from_replica_id;
        assert(from != x);
        let r2 = r.after_prepare(i).0;
        let o = PrepareOutputView {
            from_replica_id: x,
            request_id: i.request_id,
            accepted_proposal_number: r.state.accepted_proposal_number,
            accepted_value: r.state.accepted_value,
        };
        let fresh = MessageView::PrepareResponse(from, o);
        assert(s2.replicas == s.replicas.insert(x, r2));
        assert(s2.sent == s.sent.insert(fresh)) by {
            lemma_single_to_set(fresh);
        }
        lemma_sent_grows(s, s2);
        lemma_nothing_new_chosen(s, s2);
        assert forall|y: ReplicaId| #[trigger] s2.replicas.contains_key(y) implies s2.min_of(y) >= s.min_of(y) by {}
        assert(s2.shape_ok()) by {
            assert forall|y: ReplicaId| #[trigger] s2.replicas.contains_key(y) implies {
                &&& s2.replicas[y].id == y
                &&& s2.replicas[y].replicas == s2.ids
                &&& s2.replicas[y].well_formed()
                &&& s2.replicas[y].state.well_formed()
            } by {}
        }
        assert(s2.promises_ok()) by {
            reveal(SystemView::promises_ok);
            reveal(SystemView::acceptors_ok);
        }
        assert(s2.reports_ok()) by {
            reveal(SystemView::reports_ok);
            reveal(SystemView::acceptors_ok);
        }
        assert(s2.one_promise_ok()) by {
            reveal(SystemView::one_promise_ok);
            reveal(SystemView::promises_ok);
        }
        assert(s2.accepts_ok()) by { reveal(SystemView::accepts_ok); }
        assert(s2.accept_values_ok()) by { reveal(SystemView::accept_values_ok); }
        assert(s2.acceptors_ok()) by { reveal(SystemView::acceptors_ok); }
        assert(s2.inflight_ok()) by { reveal(SystemView::inflight_ok); }
        assert(s2.exclusive_ok()) by { reveal(SystemView::exclusive_ok); }
        assert(s2.safe_ok()) by { reveal(SystemView::safe_ok); }
    } else {
        assert(s2.replicas == s.replicas);
        assert(s2.sent == s.sent);
    }
}


/// A round whose accept requests and answers are all old is chosen only if it
/// was chosen before.
proof fn lemma_round_not_chosen_anew(s: SystemView, s2: SystemView, rid: RequestId)
    requires
        s2.ids == s.ids,
        forall|m: MessageView|
            #[trigger] s2.sent.contains(m) && m is Accept && m->Accept_1.request_id == rid ==> s.sent.contains(m),
        forall|m: MessageView|
            #[trigger] s2.sent.contains(m) && m is AcceptResponse && m->AcceptResponse_1.request_id == rid
                ==> s.sent.contains(m),
    ensures
        forall|v: Seq<char>| #[trigger] s2.chosen(rid, v) ==> s.chosen(rid, v),
{
    assert forall|v: Seq<char>| #[trigger] s2.chosen(rid, v) implies s.chosen(rid, v) by {
        let (to, i) = choose|to: ReplicaId, i: AcceptInputView|
            #[trigger] s2.sent.contains(MessageView::Accept(to, i)) && i.request_id == rid && i.value == v;
        assert(s.sent.contains(MessageView::Accept(to, i)));
        let xs = choose|xs: Set<ReplicaId>|
            #![trigger xs.len()]
            xs.subset_of(s2.ids.to_set()) && xs.len() >= majority_of(s2.ids.len()) && (forall|x: ReplicaId|
                #[trigger] xs.contains(x) ==> s2.accepted_by(rid, x));
        assert forall|x: ReplicaId| #[trigger] xs.contains(x) implies s.accepted_by(rid, x) by {
            assert(s2.accepted_by(rid, x));
            let (tt, mm) = choose|tt: ReplicaId, mm: ProposalNumber|
                #[trigger] s2.sent.contains(
                    MessageView::AcceptResponse(tt, AcceptOutput { from_replica_id: x, request_id: rid, min_proposal_number: mm }),
                );
            assert(s.sent.contains(
                MessageView::AcceptResponse(tt, AcceptOutput { from_replica_id: x, request_id: rid, min_proposal_number: mm }),
            ));
        }
        assert(xs.len() >= majority_of(s.ids.len()));
    }
}

/// Delivering an accept request keeps the invariant.
proof fn lemma_deliver_accept_keeps_inv(s: SystemView, m: MessageView)
    requires
        s.inv(),
        s.sent.contains(m),
        m is Accept,
        s.replicas.contains_key(m.to_replica_id()),
    ensures
        s.deliver(m).inv(),
{
    let x = m.to_replica_id();
    let i = m->Accept_1;
    let r = s.replicas[x];
    let s2 = s.deliver(m);
    if i.proposal_number >= r.state.min_proposal_number {
        reveal(SystemView::accepts_ok);
        assert(s.sent.contains(MessageView::Accept(x, i)));
        assert(i.proposal_number == s.min_of(x));
        let r2 = r.after_accept(i).0;
        let a = AcceptOutput {
            from_replica_id: x,
            request_id: i.request_id,
            min_proposal_number: r.state.min_proposal_number,
        };
        let fresh = MessageView::AcceptResponse(i.from_replica_id, a);
        assert(s2.replicas == s.replicas.insert(x, r2));
        assert(s2.sent == s.sent.insert(fresh)) by {
            lemma_single_to_set(fresh);
        }
        lemma_sent_grows(s, s2);
        assert(s2.shape_ok()) by {
            assert forall|y: ReplicaId| #[trigger] s2.replicas.contains_key(y) implies {
                &&& s2.replicas[y].id == y
                &&& s2.replicas[y].replicas == s2.ids
                &&& s2.replicas[y].well_formed()
                &&& s2.replicas[y].state.well_formed()
            } by {}
        }
        assert(s2.prepares_ok()) by { reveal(SystemView::prepares_ok); }
        assert(s2.promises_ok()) by { reveal(SystemView::promises_ok); }
        assert(s2.reports_ok()) by {
            reveal(SystemView::reports_ok);
            reveal(SystemView::promises_ok);
        }
        assert(s2.one_promise_ok()) by { reveal(SystemView::one_promise_ok); }
        assert(s2.accept_values_ok()) by { reveal(SystemView::accept_values_ok); }
        assert(s2.acceptors_ok()) by {
            reveal(SystemView::acceptors_ok);
            assert(s2.sent.contains(MessageView::Accept(x, i)));
            assert(s2.accept_numbered(i.proposal_number, i.value));
            assert(s2.accept_requested(i.request_id));
        }
        assert(s2.inflight_ok()) by { reveal(SystemView::inflight_ok); }
        assert(s2.exclusive_ok()) by { reveal(SystemView::exclusive_ok); }
        assert(s2.safe_ok()) by {
            reveal(SystemView::safe_ok);
            assert forall|to: ReplicaId, j: AcceptInputView, rid: RequestId, w: Seq<char>|
                #[trigger] s2.sent.contains(MessageView::Accept(to, j)) && #[trigger] s2.chosen(rid, w)
                    && round_number(rid) < j.proposal_number implies j.value == w by {
                assert(s.sent.contains(MessageView::Accept(to, j)));
                if rid == i.request_id {
                    assert(s.min_of(x) >= j.proposal_number);
                } else {
                    lemma_round_not_chosen_anew(s, s2, rid);
                }
            }
        }
    } else {
        assert(s2.replicas == s.replicas);
        assert(s2.sent == s.sent);
    }
}


/// A set of at least two of the replicas holds one other than `p`.
proof fn lemma_majority_has_other(xs: Set<ReplicaId>, ids: Seq<ReplicaId>, p: ReplicaId)
    requires
        xs.subset_of(ids.to_set()),
        xs.len() >= 2,
    ensures
        exists|y: ReplicaId| #[trigger] xs.contains(y) && y != p,
{
    broadcast use vstd::set::group_set_axioms, vstd::seq_lib::seq_to_set_is_finite;

    if forall|y: ReplicaId| #[trigger] xs.contains(y) ==> y == p {
        assert(xs.subset_of(set![p]));
        vstd::set_lib::lemma_len_subset(xs, set![p]);
    }
}

/// Once a round of `p` has distinct promises from a majority of three or four
/// replicas, every other replica has promised it.
proof fn lemma_promises_cover(s: SystemView, p: ReplicaId, rid: RequestId, responses: Seq<PrepareOutputView>)
    requires
        s.inv(),
        s.replicas.contains_key(p),
        responses.no_duplicates(),
        responses.len() >= majority_of(s.ids.len()),
        forall|j: int|
            0 <= j < responses.len() ==> s.sent.contains(MessageView::PrepareResponse(p, #[trigger] responses[j]))
                && responses[j].request_id == rid,
    ensures
        forall|y: ReplicaId|
            #![trigger s.ids.contains(y)]
            s.ids.contains(y) && y != p ==> exists|j: int|
                0 <= j < responses.len() && (#[trigger] responses[j]).from_replica_id == y,
{
    broadcast use vstd::set::group_set_axioms, vstd::seq_lib::seq_to_set_is_finite;

    reveal(SystemView::promises_ok);
    reveal(SystemView::one_promise_ok);
    let froms = responses.map_values(|o: PrepareOutputView| o.from_replica_id);
    assert(froms.no_duplicates()) by {
        assert forall|j: int, k: int| 0 <= j < froms.len() && 0 <= k < froms.len() && j != k implies froms[j]
            != froms[k] by {
            assert(s.sent.contains(MessageView::PrepareResponse(p, responses[j])));
            assert(s.sent.contains(MessageView::PrepareResponse(p, responses[k])));
        }
    }
    froms.unique_seq_to_set();
    s.ids.unique_seq_to_set();
    let others = s.ids.to_set().remove(p);
    assert(froms.to_set().subset_of(others)) by {
        assert forall|y: ReplicaId| froms.to_set().contains(y) implies others.contains(y) by {
            let j = choose|j: int| 0 <= j < froms.len() && froms[j] == y;
            assert(s.sent.contains(MessageView::PrepareResponse(p, responses[j])));
            assert(s.replicas.contains_key(y));
        }
    }
    assert forall|y: ReplicaId| #![trigger s.ids.contains(y)] s.ids.contains(y) && y != p implies exists|j: int|
        0 <= j < responses.len() && (#[trigger] responses[j]).from_replica_id == y by {
        if froms.to_set().contains(y) {
            let j = choose|j: int| 0 <= j < froms.len() && froms[j] == y;
            assert(responses[j].from_replica_id == y);
        } else {
            let smaller = others.remove(y);
            assert(froms.to_set().subset_of(smaller));
            vstd::set_lib::lemma_len_subset(froms.to_set(), smaller);
            assert(s.ids.to_set().contains(p));
            assert(others.contains(y));
        }
    }
}

/// The value that a round of `p` proposes once a majority of three or four
/// replicas promised it is the value chosen in any older round.
proof fn lemma_proposal_is_safe(
    s: SystemView,
    p: ReplicaId,
    n: ProposalNumber,
    responses: Seq<PrepareOutputView>,
    proposed: Seq<char>,
)
    requires
        s.inv(),
        s.replicas.contains_key(p),
        responses.no_duplicates(),
        responses.len() >= majority_of(s.ids.len()),
        forall|j: int|
            0 <= j < responses.len() ==> s.sent.contains(MessageView::PrepareResponse(p, #[trigger] responses[j]))
                && responses[j].request_id == RequestId::Prepare(p, n),
    ensures
        forall|rid: RequestId, w: Seq<char>|
            #[trigger] s.chosen(rid, w) && round_number(rid) < n ==> chosen_value(responses, proposed) == w,
{
    reveal(SystemView::promises_ok);
    reveal(SystemView::reports_ok);
    reveal(SystemView::accepts_ok);
    reveal(SystemView::accept_values_ok);
    reveal(SystemView::safe_ok);
    lemma_promises_cover(s, p, RequestId::Prepare(p, n), responses);
    lemma_best_index_is_highest(responses);
    assert forall|rid: RequestId, w: Seq<char>| #[trigger] s.chosen(rid, w) && round_number(rid) < n implies chosen_value(
        responses,
        proposed,
    ) == w by {
        let r = round_number(rid);
        let (t1, i1) = choose|to: ReplicaId, i: AcceptInputView|
            #[trigger] s.sent.contains(MessageView::Accept(to, i)) && i.request_id == rid && i.value == w;
        assert(i1.proposal_number == r);
        let xs = choose|xs: Set<ReplicaId>|
            #![trigger xs.len()]
            xs.subset_of(s.ids.to_set()) && xs.len() >= majority_of(s.ids.len()) && (forall|x: ReplicaId|
                #[trigger] xs.contains(x) ==> s.accepted_by(rid, x));
        lemma_majority_has_other(xs, s.ids, p);
        let y = choose|y: ReplicaId| #[trigger] xs.contains(y) && y != p;
        assert(s.accepted_by(rid, y));
        let (tt, mm) = choose|tt: ReplicaId, mm: ProposalNumber|
            #[trigger] s.sent.contains(
                MessageView::AcceptResponse(tt, AcceptOutput { from_replica_id: y, request_id: rid, min_proposal_number: mm }),
            );
        assert(s.ids.contains(y));
        let j = choose|j: int| 0 <= j < responses.len() && (#[trigger] responses[j]).from_replica_id == y;
        assert(s.sent.contains(MessageView::PrepareResponse(p, responses[j])));
        assert(responses[j].accepted_proposal_number is Some && responses[j].accepted_proposal_number->0 >= r);
        let b = best_index(responses)->0;
        let k = responses[b].accepted_proposal_number->0;
        assert(k >= r);
        assert(s.sent.contains(MessageView::PrepareResponse(p, responses[b])));
        let value = responses[b].accepted_value->0;
        assert(chosen_value(responses, proposed) == value);
        assert(s.accept_numbered(k, value));
        let (t2, i2) = choose|to: ReplicaId, i: AcceptInputView|
            #[trigger] s.sent.contains(MessageView::Accept(to, i)) && i.proposal_number == k && i.value == value;
        if k == r {
            assert(i2.value == i1.value);
        } else {
            assert(i2.value == w);
        }
    }
}


/// Delivering a promise keeps the invariant.
proof fn lemma_deliver_promise_keeps_inv(s: SystemView, m: MessageView)
    requires
        s.inv(),
        s.sent.contains(m),
        m is PrepareResponse,
        s.replicas.contains_key(m.to_replica_id()),
    ensures
        s.deliver(m).inv(),
{
    let p = m.to_replica_id();
    let o = m->PrepareResponse_1;
    let r = s.replicas[p];
    let rid = o.request_id;
    let s2 = s.deliver(m);
    if !r.inflight.contains_key(rid) {
        assert(s2.replicas == s.replicas);
        assert(s2.sent == s.sent);
    } else {
        reveal(SystemView::promises_ok);
        reveal(SystemView::inflight_ok);
        assert(s.sent.contains(MessageView::PrepareResponse(p, o)));
        let req = r.inflight[rid];
        let n = req.proposal_number;
        assert(rid == RequestId::Prepare(p, n));
        assert(req.well_formed());
        let responses = if req.responses.contains(o) {
            req.responses
        } else {
            req.responses.push(o)
        };
        assert forall|j: int| 0 <= j < responses.len() implies s.sent.contains(
            MessageView::PrepareResponse(p, #[trigger] responses[j]),
        ) && responses[j].request_id == rid && responses[j].reports_value() by {
            if j < req.responses.len() {
                assert(responses[j] == req.responses[j]);
            }
        }
        assert(responses.no_duplicates());
        assert forall|y: ReplicaId| #[trigger] s2.replicas.contains_key(y) implies s.replicas.contains_key(y) && s2.min_of(
            y,
        ) == s.min_of(y) && s2.replicas[y].state == s.replicas[y].state by {}
        if responses.len() < majority_of(r.replicas.len()) {
            let r2 = ReplicaView {
                inflight: r.inflight.insert(rid, InflightView { responses, ..req }),
                ..r
            };
            assert(s2.replicas == s.replicas.insert(p, r2));
            assert(s2.sent == s.sent) by {
                assert(Seq::<MessageView>::empty().to_set() =~= Set::<MessageView>::empty());
            }
            assert(s2.shape_ok()) by {
                assert forall|y: ReplicaId| #[trigger] s2.replicas.contains_key(y) implies {
                    &&& s2.replicas[y].id == y
                    &&& s2.replicas[y].replicas == s2.ids
                    &&& s2.replicas[y].well_formed()
                    &&& s2.replicas[y].state.well_formed()
                } by {
                    if y == p {
                        assert forall|id: RequestId| #[trigger] r2.inflight.contains_key(id) implies r2.inflight[id].well_formed() by {
                            if id != rid {
                                assert(r.inflight.contains_key(id));
                            }
                        }
                    }
                }
            }
            assert(s2.prepares_ok()) by { reveal(SystemView::prepares_ok); }
            assert(s2.reports_ok()) by { reveal(SystemView::reports_ok); }
            assert(s2.one_promise_ok()) by { reveal(SystemView::one_promise_ok); }
            assert(s2.accepts_ok()) by {
                reveal(SystemView::accepts_ok);
                assert forall|y: ReplicaId, k: RequestId| #[trigger] s2.replicas.contains_key(y) implies #[trigger] s2.replicas[y].inflight.contains_key(k)
                    == s.replicas[y].inflight.contains_key(k) by {}
            }
            assert(s2.accept_values_ok()) by { reveal(SystemView::accept_values_ok); }
            assert(s2.acceptors_ok()) by { reveal(SystemView::acceptors_ok); }
            assert(s2.inflight_ok()) by {
                assert forall|x: ReplicaId, k: RequestId|
                    #[trigger] s2.replicas.contains_key(x) && #[trigger] s2.replicas[x].inflight.contains_key(k)
                        && k is Prepare implies {
                        let q = s2.replicas[x].inflight[k];
                        &&& k == RequestId::Prepare(x, q.proposal_number)
                        &&& q.proposal_number <= s2.min_of(x)
                        &&& s2.prepare_sent(x, q.proposal_number)
                        &&& forall|j: int|
                            0 <= j < q.responses.len() ==> s2.sent.contains(
                                MessageView::PrepareResponse(x, #[trigger] q.responses[j]),
                            ) && q.responses[j].request_id == k
                    } by {
                    assert(s.replicas[x].inflight.contains_key(k));
                }
            }
            assert(s2.exclusive_ok()) by { reveal(SystemView::exclusive_ok); }
            lemma_nothing_new_chosen(s, s2);
            assert(s2.safe_ok()) by { reveal(SystemView::safe_ok); }
        } else {
            let proposed = req.proposed_value->0;
            let value = chosen_value(responses, proposed);
            lemma_proposal_is_safe(s, p, n, responses, proposed);
            lemma_promises_cover(s, p, rid, responses);
            let b = accept_broadcast(p, n, value, s.ids);
            let r2 = r.after_prepare_response(o).0;
            assert(s2.replicas == s.replicas.insert(p, r2));
            assert(s2.sent == s.sent + b.to_set());
            lemma_accept_broadcast(p, n, value, s.ids);
            lemma_sent_grows(s, s2);
            let fresh = AcceptInputView {
                from_replica_id: p,
                request_id: RequestId::Accept(p, n),
                proposal_number: n,
                value,
            };
            assert forall|to: ReplicaId, i: AcceptInputView| #[trigger] s2.sent.contains(MessageView::Accept(to, i))
                && !s.sent.contains(MessageView::Accept(to, i)) implies i == fresh by {
                let t = choose|t: ReplicaId| MessageView::Accept(to, i) == MessageView::Accept(t, fresh);
            }
            assert forall|mm: MessageView| #[trigger] s2.sent.contains(mm) && !(mm is Accept) implies s.sent.contains(mm) by {
                if b.to_set().contains(mm) {
                    let t = choose|t: ReplicaId| mm == MessageView::Accept(t, fresh);
                }
            }
            assert forall|k: RequestId| #[trigger] r2.inflight.contains_key(k) && k != RequestId::Accept(p, n) implies r.inflight.contains_key(k) && k != rid && r2.inflight[k] == r.inflight[k] by {}
            assert(r2.inflight.contains_key(RequestId::Accept(p, n)));
            assert(!r2.inflight.contains_key(rid));
            assert(s2.shape_ok()) by {
                assert forall|y: ReplicaId| #[trigger] s2.replicas.contains_key(y) implies {
                    &&& s2.replicas[y].id == y
                    &&& s2.replicas[y].replicas == s2.ids
                    &&& s2.replicas[y].well_formed()
                    &&& s2.replicas[y].state.well_formed()
                } by {
                    if y == p {
                        assert forall|id: RequestId| #[trigger] r2.inflight.contains_key(id) implies r2.inflight[id].well_formed() by {
                            if id != RequestId::Accept(p, n) {
                                assert(r.inflight.contains_key(id));
                            }
                        }
                    }
                }
            }
            assert(s2.prepares_ok()) by { reveal(SystemView::prepares_ok); }
            assert(s2.reports_ok()) by { reveal(SystemView::reports_ok); }
            assert(s2.one_promise_ok()) by { reveal(SystemView::one_promise_ok); }
            assert(s2.exclusive_ok()) by { reveal(SystemView::exclusive_ok); }
            assert(s2.acceptors_ok()) by { reveal(SystemView::acceptors_ok); }
            assert(s2.inflight_ok()) by {
                assert forall|x: ReplicaId, k: RequestId|
                    #[trigger] s2.replicas.contains_key(x) && #[trigger] s2.replicas[x].inflight.contains_key(k)
                        && k is Prepare implies {
                        let q = s2.replicas[x].inflight[k];
                        &&& k == RequestId::Prepare(x, q.proposal_number)
                        &&& q.proposal_number <= s2.min_of(x)
                        &&& s2.prepare_sent(x, q.proposal_number)
                        &&& forall|j: int|
                            0 <= j < q.responses.len() ==> s2.sent.contains(
                                MessageView::PrepareResponse(x, #[trigger] q.responses[j]),
                            ) && q.responses[j].request_id == k
                    } by {
                    assert(s.replicas[x].inflight.contains_key(k));
                }
            }
            // Every other replica promised the round, so every promise is at least `n`.
            assert forall|y: ReplicaId| #[trigger] s.replicas.contains_key(y) implies s.min_of(y) >= n && (y != p
                ==> s2.promised(y, rid)) by {
                if y != p {
                    assert(s.ids.contains(y));
                    let j = choose|j: int| 0 <= j < responses.len() && (#[trigger] responses[j]).from_replica_id == y;
                    assert(s.sent.contains(MessageView::PrepareResponse(p, responses[j])));
                    assert(s2.sent.contains(MessageView::PrepareResponse(p, responses[j])));
                }
            }
            // No accept request numbered `n` was sent before.
            assert forall|to: ReplicaId, i: AcceptInputView| #[trigger] s.sent.contains(MessageView::Accept(to, i)) implies i.proposal_number != n by {
                reveal(SystemView::accepts_ok);
                reveal(SystemView::exclusive_ok);
                if i.proposal_number == n {
                    let q = i.from_replica_id;
                    if q != p {
                        assert(s.promised(p, RequestId::Prepare(q, n)));
                        let (t1, o1) = choose|t1: ReplicaId, o1: PrepareOutputView|
                            #[trigger] s.sent.contains(MessageView::PrepareResponse(t1, o1)) && o1.from_replica_id == p
                                && o1.request_id == RequestId::Prepare(q, n);
                        assert(s.prepare_sent(p, n));
                        let t2 = choose|t2: ReplicaId|
                            #[trigger] s.sent.contains(
                                MessageView::Prepare(
                                    t2,
                                    PrepareInput { from_replica_id: p, request_id: RequestId::Prepare(p, n), proposal_number: n },
                                ),
                            );
                        assert(s.sent.contains(
                            MessageView::Prepare(
                                t2,
                                PrepareInput { from_replica_id: p, request_id: RequestId::Prepare(p, n), proposal_number: n },
                            ),
                        ));
                    }
                }
            }
            assert(s2.accepts_ok()) by {
                reveal(SystemView::accepts_ok);
                assert forall|to: ReplicaId, i: AcceptInputView| #[trigger] s2.sent.contains(MessageView::Accept(to, i)) implies {
                    &&& i.request_id == RequestId::Accept(i.from_replica_id, i.proposal_number)
                    &&& s2.replicas.contains_key(i.from_replica_id)
                    &&& !s2.replicas[i.from_replica_id].inflight.contains_key(
                        RequestId::Prepare(i.from_replica_id, i.proposal_number),
                    )
                    &&& forall|x: ReplicaId| #[trigger] s2.replicas.contains_key(x) ==> s2.min_of(x) >= i.proposal_number
                    &&& forall|x: ReplicaId|
                        #[trigger] s2.replicas.contains_key(x) && x != i.from_replica_id ==> s2.promised(
                            x,
                            RequestId::Prepare(i.from_replica_id, i.proposal_number),
                        )
                } by {
                    if s.sent.contains(MessageView::Accept(to, i)) {
                        assert(i.proposal_number != n);
                    } else {
                        assert(i == fresh);
                    }
                }
            }
            assert(s2.accept_values_ok()) by {
                reveal(SystemView::accept_values_ok);
                assert forall|to1: ReplicaId, i1: AcceptInputView, to2: ReplicaId, i2: AcceptInputView|
                    #[trigger] s2.sent.contains(MessageView::Accept(to1, i1)) && #[trigger] s2.sent.contains(
                        MessageView::Accept(to2, i2),
                    ) && i1.proposal_number == i2.proposal_number implies i1.value == i2.value && i1.from_replica_id
                    == i2.from_replica_id by {
                    if !s.sent.contains(MessageView::Accept(to1, i1)) {
                        assert(i1 == fresh);
                    }
                    if !s.sent.contains(MessageView::Accept(to2, i2)) {
                        assert(i2 == fresh);
                    }
                }
            }
            // Nothing new is chosen.
            assert forall|k: RequestId, w: Seq<char>| #[trigger] s2.chosen(k, w) implies s.chosen(k, w) by {
                if k == RequestId::Accept(p, n) {
                    reveal(SystemView::acceptors_ok);
                    reveal(SystemView::accepts_ok);
                    let xs = choose|xs: Set<ReplicaId>|
                        #![trigger xs.len()]
                        xs.subset_of(s2.ids.to_set()) && xs.len() >= majority_of(s2.ids.len()) && (forall|x: ReplicaId|
                            #[trigger] xs.contains(x) ==> s2.accepted_by(k, x));
                    lemma_majority_has_other(xs, s.ids, p);
                    let y = choose|y: ReplicaId| #[trigger] xs.contains(y) && y != p;
                    assert(s2.accepted_by(k, y));
                    let (tt, mm) = choose|tt: ReplicaId, mm: ProposalNumber|
                        #[trigger] s2.sent.contains(
                            MessageView::AcceptResponse(tt, AcceptOutput { from_replica_id: y, request_id: k, min_proposal_number: mm }),
                        );
                    assert(s.sent.contains(
                        MessageView::AcceptResponse(tt, AcceptOutput { from_replica_id: y, request_id: k, min_proposal_number: mm }),
                    ));
                    assert(s.accept_requested(k));
                    let (t3, i3) = choose|t3: ReplicaId, i3: AcceptInputView|
                        #[trigger] s.sent.contains(MessageView::Accept(t3, i3)) && i3.request_id == k;
                    assert(i3.proposal_number == n);
                } else {
                    lemma_round_not_chosen_anew(s, s2, k);
                }
            }
            assert(s2.safe_ok()) by {
                reveal(SystemView::safe_ok);
                assert forall|to: ReplicaId, j: AcceptInputView, k: RequestId, w: Seq<char>|
                    #[trigger] s2.sent.contains(MessageView::Accept(to, j)) && #[trigger] s2.chosen(k, w)
                        && round_number(k) < j.proposal_number implies j.value == w by {
                    assert(s.chosen(k, w));
                    if !s.sent.contains(MessageView::Accept(to, j)) {
                        assert(j == fresh);
                    }
                }
            }
        }
    }
}


/// Restarting a replica keeps the invariant.
pub proof fn lemma_restart_keeps_inv(s: SystemView, x: ReplicaId)
    requires
        s.inv(),
    ensures
        s.restart(x).inv(),
{
    let s2 = s.restart(x);
    if s.replicas.contains_key(x) {
        lemma_nothing_new_chosen(s, s2);
        lemma_sent_grows(s, s2);
        assert forall|y: ReplicaId, k: RequestId| #[trigger] s2.replicas.contains_key(y) && #[trigger] s2.replicas[y].inflight.contains_key(k)
            implies s.replicas[y].inflight.contains_key(k) && s2.replicas[y].inflight[k] == s.replicas[y].inflight[k] by {}
        assert(s2.shape_ok()) by {
            assert forall|y: ReplicaId| #[trigger] s2.replicas.contains_key(y) implies {
                &&& s2.replicas[y].id == y
                &&& s2.replicas[y].replicas == s2.ids
                &&& s2.replicas[y].well_formed()
                &&& s2.replicas[y].state.well_formed()
            } by {
                if y != x {
                    assert(s2.replicas[y] == s.replicas[y]);
                }
            }
        }
        assert forall|y: ReplicaId| #[trigger] s2.replicas.contains_key(y) implies s2.min_of(y) == s.min_of(y)
            && s2.replicas[y].state == s.replicas[y].state by {}
        assert(s2.prepares_ok()) by { reveal(SystemView::prepares_ok); }
        assert(s2.promises_ok()) by { reveal(SystemView::promises_ok); }
        assert(s2.reports_ok()) by { reveal(SystemView::reports_ok); }
        assert(s2.one_promise_ok()) by { reveal(SystemView::one_promise_ok); }
        assert(s2.accepts_ok()) by { reveal(SystemView::accepts_ok); }
        assert(s2.accept_values_ok()) by { reveal(SystemView::accept_values_ok); }
        assert(s2.acceptors_ok()) by { reveal(SystemView::acceptors_ok); }
        assert(s2.inflight_ok()) by { reveal(SystemView::inflight_ok); }
        assert(s2.exclusive_ok()) by { reveal(SystemView::exclusive_ok); }
        assert(s2.safe_ok()) by { reveal(SystemView::safe_ok); }
    }
}

/// Delivering a message that was sent keeps the invariant.
pub proof fn lemma_deliver_keeps_inv(s: SystemView, m: MessageView)
    requires
        s.inv(),
        s.sent.contains(m),
    ensures
        s.deliver(m).inv(),
{
    let to = m.to_replica_id();
    if !s.replicas.contains_key(to) {
        assert(s.deliver(m) == s);
    } else {
        match m {
            MessageView::StartProposal(_, _) => lemma_deliver_start_keeps_inv(s, m),
            MessageView::Prepare(_, _) => lemma_deliver_prepare_keeps_inv(s, m),
            MessageView::PrepareResponse(_, _) => lemma_deliver_promise_keeps_inv(s, m),
            MessageView::Accept(_, _) => lemma_deliver_accept_keeps_inv(s, m),
            MessageView::AcceptResponse(_, _) => {
                let s2 = s.deliver(m);
                assert(s2.replicas =~= s.replicas);
                assert(s2.sent =~= s.sent);
                assert(s2 == s);
            },
        }
    }
}

/// Every step keeps the invariant.
proof fn lemma_run_keeps_inv(s: SystemView, steps: Seq<Step>)
    requires
        s.inv(),
    ensures
        s.run(steps).inv(),
    decreases steps.len(),
{
    if steps.len() > 0 {
        lemma_run_keeps_inv(s, steps.drop_last());
        let t = s.run(steps.drop_last());
        match steps.last() {
            Step::Request(to, v) => lemma_request_keeps_inv(t, to, v),
            Step::Deliver(m) => if t.sent.contains(m) {
                lemma_deliver_keeps_inv(t, m);
            },
            Step::Restart(x) => lemma_restart_keeps_inv(t, x),
        }
    }
}

/// Agreement: with three or four replicas with distinct ids, however users'
/// requests, deliveries (lost, repeated or reordered) and restarts
/// interleave, no two different values are ever chosen.
pub proof fn lemma_agreement(ids: Seq<ReplicaId>, steps: Seq<Step>)
    requires
        ids.no_duplicates(),
        3 <= ids.len() <= 4,
    ensures
        SystemView::initial(ids).run(steps).agreement(),
{
    lemma_initial_inv(ids);
    lemma_run_keeps_inv(SystemView::initial(ids), steps);
    lemma_inv_gives_agreement(SystemView::initial(ids).run(steps));
}


/// Distinct answers to one round come from distinct replicas, so a majority of
/// distinct answers means the round's value is chosen.
pub proof fn lemma_answered_majority_is_chosen(s: SystemView, rid: RequestId, v: Seq<char>)
    requires
        s.inv(),
        answered_by_majority(s.sent, majority_of(s.ids.len()), rid, v),
    ensures
        s.chosen(rid, v),
{
    broadcast use vstd::set::group_set_axioms, vstd::seq_lib::seq_to_set_is_finite;

    reveal(SystemView::acceptors_ok);
    let outs = choose|outs: Seq<AcceptOutput>|
        #[trigger] all_answers(s.sent, rid, outs) && outs.no_duplicates() && outs.len() >= majority_of(s.ids.len());
    let froms = outs.map_values(|a: AcceptOutput| a.from_replica_id);
    assert forall|k: int| 0 <= k < outs.len() implies s.replicas.contains_key(#[trigger] outs[k].from_replica_id)
        && outs[k].min_proposal_number == round_number(rid) && s.accepted_by(rid, outs[k].from_replica_id) by {
        assert(outs[k].request_id == rid);
        let to = choose|to: ReplicaId| s.sent.contains(MessageView::AcceptResponse(to, outs[k]));
        assert(outs[k] == AcceptOutput {
            from_replica_id: outs[k].from_replica_id,
            request_id: rid,
            min_proposal_number: outs[k].min_proposal_number,
        });
    }
    assert(froms.no_duplicates()) by {
        assert forall|j: int, k: int| 0 <= j < froms.len() && 0 <= k < froms.len() && j != k implies froms[j]
            != froms[k] by {
            assert(s.replicas.contains_key(outs[j].from_replica_id));
            assert(s.replicas.contains_key(outs[k].from_replica_id));
        }
    }
    froms.unique_seq_to_set();
    let xs = froms.to_set();
    assert(xs.subset_of(s.ids.to_set())) by {
        assert forall|x: ReplicaId| xs.contains(x) implies s.ids.to_set().contains(x) by {
            let k = choose|k: int| 0 <= k < froms.len() && froms[k] == x;
            assert(s.replicas.contains_key(outs[k].from_replica_id));
        }
    }
    assert forall|x: ReplicaId| #[trigger] xs.contains(x) implies s.accepted_by(rid, x) by {
        let k = choose|k: int| 0 <= k < froms.len() && froms[k] == x;
        assert(s.replicas.contains_key(outs[k].from_replica_id));
    }
    assert(xs.len() >= majority_of(s.ids.len()));
}


/// Under the invariant, no two different values are each answered by a
/// majority of distinct answers.
pub proof fn lemma_no_conflicting_majorities(
    s: SystemView,
    rid1: RequestId,
    v1: Seq<char>,
    rid2: RequestId,
    v2: Seq<char>,
)
    requires
        s.inv(),
        answered_by_majority(s.sent, majority_of(s.ids.len()), rid1, v1),
        answered_by_majority(s.sent, majority_of(s.ids.len()), rid2, v2),
    ensures
        v1 == v2,
{
    lemma_answered_majority_is_chosen(s, rid1, v1);
    lemma_answered_majority_is_chosen(s, rid2, v2);
    lemma_inv_gives_agreement(s);
}

} // verus!
