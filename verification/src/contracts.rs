//! What a replica relies on: its durable state, a bus that carries its
//! messages, and storage that keeps its state across restarts.
use vstd::prelude::*;
use crate::types::{
    copy_option_string, option_text, AcceptInput, AcceptOutput, MessageView, PrepareInput, PrepareOutput,
    ProposalNumber, ReplicaId,
};

verus! {

/// std's `io::Error`, which storage returns when it fails; it is carried
/// through unread.
#[verifier::external_type_specification]
#[verifier::external_body]
pub struct ExIoError(std::io::Error);

/// What a replica must not forget across a crash.
#[derive(Debug)]
pub struct DurableState {
    pub min_proposal_number: ProposalNumber,
    pub accepted_proposal_number: Option<ProposalNumber>,
    pub accepted_value: Option<String>,
}

/// The durable state as a value.
pub struct DurableStateView {
    pub min_proposal_number: ProposalNumber,
    pub accepted_proposal_number: Option<ProposalNumber>,
    pub accepted_value: Option<Seq<char>>,
}

impl View for DurableState {
    type V = DurableStateView;

    open spec fn view(&self) -> DurableStateView {
        DurableStateView {
            min_proposal_number: self.min_proposal_number,
            accepted_proposal_number: self.accepted_proposal_number,
            accepted_value: option_text(self.accepted_value),
        }
    }
}

impl DurableStateView {
    /// The state of a replica that has never stored anything.
    pub open spec fn initial() -> DurableStateView {
        DurableStateView {
            min_proposal_number: 0,
            accepted_proposal_number: None,
            accepted_value: None,
        }
    }

    /// An accepted proposal number comes with its value, and the other way round.
    pub open spec fn well_formed(self) -> bool {
        self.accepted_proposal_number is Some <==> self.accepted_value is Some
    }
}

impl DurableState {
    /// The state of a replica that has never stored anything.
    pub fn initial() -> (s: DurableState)
        ensures
            s@ == DurableStateView::initial(),
    {
        DurableState { min_proposal_number: 0, accepted_proposal_number: None, accepted_value: None }
    }

    /// A copy with the same view.
    pub fn duplicate(&self) -> (r: DurableState)
        ensures
            r@ == self@,
    {
        DurableState {
            min_proposal_number: self.min_proposal_number,
            accepted_proposal_number: self.accepted_proposal_number,
            accepted_value: copy_option_string(&self.accepted_value),
        }
    }
}

/// Carries messages between replicas. `sent` is every message handed to the
/// bus, in the order in which it was handed over; `queued` is what is in
/// flight, where a message handed over joins the end; `inv` is the bus's own
/// invariant, which sending keeps; `checking` is the size of a majority
/// against which the bus checks the decisions it carries, if it checks any,
/// which sending never changes; `log` is the bus's activity log, to which
/// sending a message adds the line `queue_line` gives for it. A bus of this
/// crate defines them all; the bodies given here are only what a bus written
/// outside the verified crate (a test double) falls back on, and verified code
/// that is generic over the bus never sees them.
pub trait MessageBus {
    closed spec fn sent(&self) -> Seq<MessageView> {
        Seq::empty()
    }

    closed spec fn inv(&self) -> bool {
        true
    }

    closed spec fn checking(&self) -> Option<nat> {
        None
    }

    closed spec fn queued(&self) -> Seq<MessageView> {
        Seq::empty()
    }

    closed spec fn log(&self) -> Seq<Seq<char>> {
        Seq::empty()
    }

    closed spec fn queue_line(m: MessageView) -> Seq<char> {
        Seq::empty()
    }

    fn send_start_proposal(&mut self, to_replica_id: ReplicaId, value: String)
        requires
            old(self).inv(),
        ensures
            final(self).inv(),
            final(self).checking() == old(self).checking(),
            final(self).sent() == old(self).sent().push(MessageView::StartProposal(to_replica_id, value@)),
            final(self).queued() == old(self).queued().push(MessageView::StartProposal(to_replica_id, value@)),
            final(self).log() == old(self).log().push(Self::queue_line(MessageView::StartProposal(to_replica_id, value@))),
    ;

    fn send_prepare(&mut self, to_replica_id: ReplicaId, input: PrepareInput)
        requires
            old(self).inv(),
        ensures
            final(self).inv(),
            final(self).checking() == old(self).checking(),
            final(self).sent() == old(self).sent().push(MessageView::Prepare(to_replica_id, input)),
            final(self).queued() == old(self).queued().push(MessageView::Prepare(to_replica_id, input)),
            final(self).log() == old(self).log().push(Self::queue_line(MessageView::Prepare(to_replica_id, input))),
    ;

    fn send_prepare_response(&mut self, to_replica_id: ReplicaId, input: PrepareOutput)
        requires
            old(self).inv(),
        ensures
            final(self).inv(),
            final(self).checking() == old(self).checking(),
            final(self).sent() == old(self).sent().push(MessageView::PrepareResponse(to_replica_id, input@)),
            final(self).queued() == old(self).queued().push(MessageView::PrepareResponse(to_replica_id, input@)),
            final(self).log() == old(self).log().push(Self::queue_line(MessageView::PrepareResponse(to_replica_id, input@))),
    ;

    fn send_accept(&mut self, to_replica_id: ReplicaId, input: AcceptInput)
        requires
            old(self).inv(),
        ensures
            final(self).inv(),
            final(self).checking() == old(self).checking(),
            final(self).sent() == old(self).sent().push(MessageView::Accept(to_replica_id, input@)),
            final(self).queued() == old(self).queued().push(MessageView::Accept(to_replica_id, input@)),
            final(self).log() == old(self).log().push(Self::queue_line(MessageView::Accept(to_replica_id, input@))),
    ;

    fn send_accept_response(&mut self, to_replica_id: ReplicaId, input: AcceptOutput)
        requires
            old(self).inv(),
        ensures
            final(self).inv(),
            final(self).checking() == old(self).checking(),
            final(self).sent() == old(self).sent().push(MessageView::AcceptResponse(to_replica_id, input)),
            final(self).queued() == old(self).queued().push(MessageView::AcceptResponse(to_replica_id, input)),
            final(self).log() == old(self).log().push(Self::queue_line(MessageView::AcceptResponse(to_replica_id, input))),
    ;
}

/// Keeps a replica's durable state. `persisted` is what `load` gives back: the
/// state of the last successful `store`, or the initial state. A `reliable`
/// storage never fails to store, and storing never changes whether a storage
/// is reliable. A storage of this crate defines both; the bodies given here
/// are only what a storage written outside the verified crate falls back on,
/// and verified code that is generic over the storage never sees them.
pub trait Storage {
    closed spec fn persisted(&self) -> DurableStateView {
        DurableStateView::initial()
    }

    closed spec fn reliable(&self) -> bool {
        false
    }

    fn load(&self) -> (state: DurableState)
        ensures
            state@ == self.persisted(),
    ;

    fn store(&mut self, state: &DurableState) -> (r: Result<(), std::io::Error>)
        ensures
            r is Ok ==> final(self).persisted() == state@,
            r is Err ==> final(self).persisted() == old(self).persisted(),
            old(self).reliable() ==> r is Ok,
            final(self).reliable() == old(self).reliable(),
    ;
}

/// How a file is to be opened.
#[derive(Debug, Clone, Copy, PartialEq, Eq, Structural)]
pub struct OpenOptions {
    pub create: bool,
    pub write: bool,
    pub read: bool,
    pub truncate: bool,
}

/// What is known of a file: its length in bytes.
#[derive(Debug, Clone, Copy, PartialEq, Eq, Structural)]
pub struct Metadata {
    pub len: u64,
}

impl Metadata {
    pub fn len(&self) -> (r: u64)
        ensures
            r == self.len,
    {
        self.len
    }

    pub fn is_empty(&self) -> (r: bool)
        ensures
            r == (self.len == 0),
    {
        self.len() == 0
    }
}

} // verus!
