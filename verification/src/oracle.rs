//! Watches accept requests and their responses, and checks that once a value
//! has been accepted by a majority, no majority ever accepts another one.
use vstd::prelude::*;
use crate::assoc::{
    has_key, keys_unique, lemma_to_map_empty, lemma_to_map_index, lemma_to_map_push,
    lemma_to_map_update, to_map,
};
use crate::types::{AcceptInput, AcceptInputView, AcceptOutput, ReplicaId, RequestId};

verus! {

/// An accept round seen by the oracle: its value and the distinct responses.
#[derive(Debug)]
struct InflightAcceptRequest {
    value: String,
    responses: Vec<AcceptOutput>,
}

pub struct InflightAcceptView {
    pub value: Seq<char>,
    pub responses: Seq<AcceptOutput>,
}

impl View for InflightAcceptRequest {
    type V = InflightAcceptView;

    closed spec fn view(&self) -> InflightAcceptView {
        InflightAcceptView { value: self.value@, responses: self.responses@ }
    }
}

impl InflightAcceptRequest {
    fn new(value: String) -> (r: Self)
        ensures
            r@ == (InflightAcceptView { value: value@, responses: seq![] }),
    {
        let r = Self { value, responses: Vec::new() };
        proof {
            assert(r@.responses =~= seq![]);
        }
        r
    }
}

/// What the oracle concluded from a response.
#[derive(Debug)]
pub enum OracleVerdict {
    /// The response is for no round the oracle knows.
    Ignored,
    /// The round has no majority yet.
    Waiting,
    /// A majority accepted the round's value, which is the decided value.
    Decided(String),
    /// A majority accepted a value other than the one decided before.
    Conflict { decided: String, accepted: String },
}

pub enum VerdictView {
    Ignored,
    Waiting,
    Decided(Seq<char>),
    Conflict(Seq<char>, Seq<char>),
}

impl View for OracleVerdict {
    type V = VerdictView;

    open spec fn view(&self) -> VerdictView {
        match self {
            OracleVerdict::Ignored => VerdictView::Ignored,
            OracleVerdict::Waiting => VerdictView::Waiting,
            OracleVerdict::Decided(v) => VerdictView::Decided(v@),
            OracleVerdict::Conflict { decided, accepted } => VerdictView::Conflict(decided@, accepted@),
        }
    }
}

/// The oracle as a value.
pub struct OracleView {
    pub majority: nat,
    pub requests: Map<RequestId, InflightAcceptView>,
    pub decided: Option<Seq<char>>,
}

impl OracleView {
    /// An accept request went out: its round starts afresh with no responses.
    pub open spec fn after_accept_sent(self, input: AcceptInputView) -> OracleView {
        OracleView {
            requests: self.requests.insert(input.request_id, InflightAcceptView { value: input.value, responses: seq![] }),
            ..self
        }
    }

    /// An accept response: counted once in its round; when the round reaches a
    /// majority its value is decided, unless another value was decided before.
    pub open spec fn after_proposal_accepted(self, output: AcceptOutput) -> (OracleView, VerdictView) {
        let rid = output.request_id;
        if !self.requests.contains_key(rid) {
            (self, VerdictView::Ignored)
        } else {
            let req = self.requests[rid];
            let responses = if req.responses.contains(output) {
                req.responses
            } else {
                req.responses.push(output)
            };
            let next = OracleView { requests: self.requests.insert(rid, InflightAcceptView { responses, ..req }), ..self };
            if responses.len() < self.majority {
                (next, VerdictView::Waiting)
            } else {
                match self.decided {
                    None => (OracleView { decided: Some(req.value), ..next }, VerdictView::Decided(req.value)),
                    Some(d) => if d == req.value {
                        (next, VerdictView::Decided(d))
                    } else {
                        (next, VerdictView::Conflict(d, req.value))
                    },
                }
            }
        }
    }
}

#[derive(Debug)]
pub struct Oracle {
    majority: usize,
    inflight_accept_requests: Vec<(RequestId, InflightAcceptRequest)>,
    decided_value: Option<String>,
}

impl View for Oracle {
    type V = OracleView;

    closed spec fn view(&self) -> OracleView {
        OracleView {
            majority: self.majority as nat,
            requests: to_map(self.entries()),
            decided: crate::types::option_text(self.decided_value),
        }
    }
}

impl Oracle {
    closed spec fn entries(&self) -> Seq<(RequestId, InflightAcceptView)> {
        self.inflight_accept_requests@.map_values(|e: (RequestId, InflightAcceptRequest)| (e.0, e.1@))
    }

    /// Round ids are distinct.
    pub closed spec fn wf(&self) -> bool {
        keys_unique(self.entries())
    }

    /// An oracle for replicas of which `majority` make a majority; nothing
    /// seen, nothing decided.
    pub fn new(majority: usize) -> (o: Self)
        ensures
            o.wf(),
            o@ == (OracleView { majority: majority as nat, requests: Map::empty(), decided: None }),
    {
        let o = Self { majority, inflight_accept_requests: Vec::new(), decided_value: None };
        proof {
            lemma_to_map_empty(o.entries());
        }
        o
    }

    /// The value decided so far, if any.
    pub fn decided_value(&self) -> (r: &Option<String>)
        ensures
            crate::types::option_text(*r) == self@.decided,
    {
        &self.decided_value
    }

    /// How many replicas make a majority.
    pub fn majority(&self) -> (m: usize)
        ensures
            m == self@.majority,
    {
        self.majority
    }

    /// The replicas that answered round `id`, in the order their answers came;
    /// none for a round the oracle does not know.
    pub fn responders(&self, id: RequestId) -> (r: Vec<ReplicaId>)
        requires
            self.wf(),
        ensures
            self@.requests.contains_key(id) ==> r@ == self@.requests[id].responses.map_values(
                |o: AcceptOutput| o.from_replica_id,
            ),
            !self@.requests.contains_key(id) ==> r@ == Seq::<ReplicaId>::empty(),
    {
        let mut r: Vec<ReplicaId> = Vec::new();
        match self.find(id) {
            None => r,
            Some(i) => {
                proof {
                    lemma_to_map_index(self.entries(), i as int);
                }
                let responses = &self.inflight_accept_requests[i].1.responses;
                let ghost rs = responses@;
                let mut k: usize = 0;
                while k < responses.len()
                    invariant
                        k <= responses.len(),
                        rs == responses@,
                        r@ == rs.take(k as int).map_values(|o: AcceptOutput| o.from_replica_id),
                    decreases responses.len() - k,
                {
                    r.push(responses[k].from_replica_id);
                    proof {
                        assert(rs.take(k + 1).map_values(|o: AcceptOutput| o.from_replica_id) =~= rs.take(
                            k as int,
                        ).map_values(|o: AcceptOutput| o.from_replica_id).push(rs[k as int].from_replica_id));
                    }
                    k = k + 1;
                }
                proof {
                    assert(rs.take(k as int) =~= rs);
                }
                r
            },
        }
    }

    fn find(&self, id: RequestId) -> (r: Option<usize>)
        ensures
            match r {
                Some(i) => i < self.entries().len() && self.entries()[i as int].0 == id,
                None => !has_key(self.entries(), id),
            },
    {
        let mut i: usize = 0;
        while i < self.inflight_accept_requests.len()
            invariant
                i <= self.inflight_accept_requests.len(),
                forall|j: int| 0 <= j < i ==> (#[trigger] self.entries()[j]).0 != id,
            decreases self.inflight_accept_requests.len() - i,
        {
            if self.inflight_accept_requests[i].0 == id {
                return Some(i);
            }
            i = i + 1;
        }
        None
    }

    /// An accept request went out to `to_replica_id`.
    pub fn on_accept_sent(&mut self, to_replica_id: ReplicaId, input: &AcceptInput)
        requires
            old(self).wf(),
        ensures
            final(self).wf(),
            final(self)@ == old(self)@.after_accept_sent(input@),
    {
        let id = input.request_id;
        let req = InflightAcceptRequest::new(input.value.clone());
        let ghost rv = req@;
        let ghost s0 = self.entries();
        match self.find(id) {
            Some(i) => {
                self.inflight_accept_requests.set(i, (id, req));
                proof {
                    assert(self.entries() =~= s0.update(i as int, (s0[i as int].0, rv)));
                    lemma_to_map_update(s0, i as int, rv);
                }
            },
            None => {
                self.inflight_accept_requests.push((id, req));
                proof {
                    assert(self.entries() =~= s0.push((id, rv)));
                    lemma_to_map_push(s0, id, rv);
                }
            },
        }
        proof {
            assert(self@.requests =~= old(self)@.after_accept_sent(input@).requests);
        }
    }

    /// A replica accepted: `output` went back to `to_replica_id`.
    pub fn on_proposal_accepted(&mut self, to_replica_id: ReplicaId, output: &AcceptOutput) -> (verdict: OracleVerdict)
        requires
            old(self).wf(),
        ensures
            final(self).wf(),
            (final(self)@, verdict@) == old(self)@.after_proposal_accepted(*output),
    {
        let id = output.request_id;
        let ghost s0 = self.entries();
        let i = match self.find(id) {
            None => {
                return OracleVerdict::Ignored;
            },
            Some(i) => i,
        };
        proof {
            lemma_to_map_index(s0, i as int);
        }
        let ghost req0 = s0[i as int].1;
        let mut entry = self.inflight_accept_requests.remove(i);
        let mut present = false;
        let mut k: usize = 0;
        while k < entry.1.responses.len()
            invariant
                k <= entry.1.responses.len(),
                present == exists|j: int| 0 <= j < k && entry.1.responses@[j] == *output,
            decreases entry.1.responses.len() - k,
        {
            if entry.1.responses[k] == *output {
                present = true;
            }
            k = k + 1;
        }
        proof {
            if present {
                assert(req0.responses.contains(*output));
            } else {
                assert(!req0.responses.contains(*output));
            }
        }
        if !present {
            entry.1.responses.push(*output);
        }
        let count = entry.1.responses.len();
        let value = entry.1.value.clone();
        let ghost req1 = entry.1@;
        self.inflight_accept_requests.insert(i, entry);
        proof {
            assert(self.entries() =~= s0.update(i as int, (id, req1)));
            lemma_to_map_update(s0, i as int, req1);
            assert(req1.value == req0.value);
        }
        if count < self.majority {
            return OracleVerdict::Waiting;
        }
        match &self.decided_value {
            None => {
                self.decided_value = Some(value.clone());
                OracleVerdict::Decided(value)
            },
            Some(d) => {
                if *d == value {
                    OracleVerdict::Decided(d.clone())
                } else {
                    OracleVerdict::Conflict { decided: d.clone(), accepted: value }
                }
            },
        }
    }
}

/// Once a value is decided it stays decided: no response changes it, and a
/// different majority value is reported as a conflict rather than adopted.
pub proof fn lemma_decision_is_final(o: OracleView, output: AcceptOutput)
    requires
        o.decided is Some,
    ensures
        o.after_proposal_accepted(output).0.decided == o.decided,
        o.after_proposal_accepted(output).1 matches VerdictView::Decided(v) ==> Some(v) == o.decided,
        o.after_proposal_accepted(output).1 matches VerdictView::Conflict(d, v) ==> Some(d) == o.decided && v != d,
{
}

} // verus!
