//! The messages that replicas exchange.
use vstd::prelude::*;
use crate::text::{decimal, push_decimal};

verus! {

pub type ReplicaId = u32;

pub type ProposalNumber = u64;

/// Names a round of requests that a replica started: its id and the proposal
/// number of the round.
#[derive(Debug, Hash, PartialEq, Eq, Clone, Copy, Structural)]
pub enum RequestId {
    Prepare(ReplicaId, ProposalNumber),
    Accept(ReplicaId, ProposalNumber),
}

/// The text of a request id, `RID(Rr, Pn)` for replica `r` and proposal
/// number `n`, whichever kind of round it names.
pub open spec fn request_id_text(id: RequestId) -> Seq<char> {
    match id {
        RequestId::Prepare(r, n) => "RID(R"@ + decimal(r as nat) + ", P"@ + decimal(n as nat) + ")"@,
        RequestId::Accept(r, n) => "RID(R"@ + decimal(r as nat) + ", P"@ + decimal(n as nat) + ")"@,
    }
}

impl RequestId {
    /// Appends the text of this id to `out`.
    pub fn push_text(&self, out: &mut String)
        ensures
            final(out)@ == old(out)@ + request_id_text(*self),
    {
        match self {
            RequestId::Prepare(r, n) => {
                out.append("RID(R");
                push_decimal(out, *r as u64);
                out.append(", P");
                push_decimal(out, *n);
                out.append(")");
            },
            RequestId::Accept(r, n) => {
                out.append("RID(R");
                push_decimal(out, *r as u64);
                out.append(", P");
                push_decimal(out, *n);
                out.append(")");
            },
        }
        assert(out@ =~= old(out)@ + request_id_text(*self));
    }

    /// The text of this id.
    pub fn to_string(&self) -> (s: String)
        ensures
            s@ == request_id_text(*self),
    {
        let mut s = String::new();
        self.push_text(&mut s);
        assert(s@ =~= request_id_text(*self));
        s
    }
}

/// A proposer asks a replica to promise not to accept proposals numbered below
/// `proposal_number`.
#[derive(Debug, Clone, Copy, PartialEq, Eq, Structural)]
pub struct PrepareInput {
    pub from_replica_id: ReplicaId,
    pub request_id: RequestId,
    pub proposal_number: ProposalNumber,
}

/// A replica's promise, with the proposal it accepted last, if any.
#[derive(Debug)]
pub struct PrepareOutput {
    pub from_replica_id: ReplicaId,
    pub request_id: RequestId,
    pub accepted_proposal_number: Option<ProposalNumber>,
    pub accepted_value: Option<String>,
}

/// A prepare response as a value.
pub struct PrepareOutputView {
    pub from_replica_id: ReplicaId,
    pub request_id: RequestId,
    pub accepted_proposal_number: Option<ProposalNumber>,
    pub accepted_value: Option<Seq<char>>,
}

/// The characters of an optional string.
pub open spec fn option_text(o: Option<String>) -> Option<Seq<char>> {
    match o {
        Some(s) => Some(s@),
        None => None,
    }
}

impl View for PrepareOutput {
    type V = PrepareOutputView;

    open spec fn view(&self) -> PrepareOutputView {
        PrepareOutputView {
            from_replica_id: self.from_replica_id,
            request_id: self.request_id,
            accepted_proposal_number: self.accepted_proposal_number,
            accepted_value: option_text(self.accepted_value),
        }
    }
}

impl PrepareOutputView {
    /// An accepted proposal number comes with a value.
    pub open spec fn reports_value(self) -> bool {
        self.accepted_proposal_number is Some ==> self.accepted_value is Some
    }
}

/// Copies an optional string.
pub fn copy_option_string(o: &Option<String>) -> (r: Option<String>)
    ensures
        option_text(r) == option_text(*o),
{
    match o {
        Some(s) => Some(s.clone()),
        None => None,
    }
}

/// Compares two optional strings by their characters.
pub fn same_option_string(a: &Option<String>, b: &Option<String>) -> (r: bool)
    ensures
        r == (option_text(*a) == option_text(*b)),
{
    match (a, b) {
        (Some(x), Some(y)) => *x == *y,
        (None, None) => true,
        _ => false,
    }
}

impl PrepareOutput {
    /// A copy with the same view.
    pub fn duplicate(&self) -> (r: PrepareOutput)
        ensures
            r@ == self@,
    {
        PrepareOutput {
            from_replica_id: self.from_replica_id,
            request_id: self.request_id,
            accepted_proposal_number: self.accepted_proposal_number,
            accepted_value: copy_option_string(&self.accepted_value),
        }
    }

    /// Whether the two responses are equal.
    pub fn same_as(&self, other: &PrepareOutput) -> (r: bool)
        ensures
            r == (self@ == other@),
    {
        self.from_replica_id == other.from_replica_id && self.request_id == other.request_id
            && self.accepted_proposal_number == other.accepted_proposal_number
            && same_option_string(&self.accepted_value, &other.accepted_value)
    }
}

/// A proposer asks a replica to accept `value` under `proposal_number`.
#[derive(Debug)]
pub struct AcceptInput {
    pub from_replica_id: ReplicaId,
    pub request_id: RequestId,
    pub proposal_number: ProposalNumber,
    pub value: String,
}

/// An accept request as a value.
pub struct AcceptInputView {
    pub from_replica_id: ReplicaId,
    pub request_id: RequestId,
    pub proposal_number: ProposalNumber,
    pub value: Seq<char>,
}

impl View for AcceptInput {
    type V = AcceptInputView;

    open spec fn view(&self) -> AcceptInputView {
        AcceptInputView {
            from_replica_id: self.from_replica_id,
            request_id: self.request_id,
            proposal_number: self.proposal_number,
            value: self.value@,
        }
    }
}

impl AcceptInput {
    /// A copy with the same view.
    pub fn duplicate(&self) -> (r: AcceptInput)
        ensures
            r@ == self@,
    {
        AcceptInput {
            from_replica_id: self.from_replica_id,
            request_id: self.request_id,
            proposal_number: self.proposal_number,
            value: self.value.clone(),
        }
    }
}

/// A replica's answer to an accept request it accepted.
#[derive(Debug, Hash, PartialEq, Eq, Clone, Copy, Structural)]
pub struct AcceptOutput {
    pub from_replica_id: ReplicaId,
    pub request_id: RequestId,
    pub min_proposal_number: ProposalNumber,
}

/// A message in transit, addressed to a replica.
pub enum MessageView {
    StartProposal(ReplicaId, Seq<char>),
    Prepare(ReplicaId, PrepareInput),
    PrepareResponse(ReplicaId, PrepareOutputView),
    Accept(ReplicaId, AcceptInputView),
    AcceptResponse(ReplicaId, AcceptOutput),
}

impl MessageView {
    /// The replica the message is addressed to.
    pub open spec fn to_replica_id(self) -> ReplicaId {
        match self {
            MessageView::StartProposal(to, _) => to,
            MessageView::Prepare(to, _) => to,
            MessageView::PrepareResponse(to, _) => to,
            MessageView::Accept(to, _) => to,
            MessageView::AcceptResponse(to, _) => to,
        }
    }

    /// A prepare response carries a value with any accepted proposal number.
    pub open spec fn well_formed(self) -> bool {
        match self {
            MessageView::PrepareResponse(_, out) => out.reports_value(),
            _ => true,
        }
    }
}

} // verus!
