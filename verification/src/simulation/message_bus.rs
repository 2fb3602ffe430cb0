//! The simulated network: messages wait in a queue and leave it in random
//! order. Every message handed over is written to the activity log, and the
//! oracle watches accept requests and responses as they leave the queue.
use vstd::prelude::*;
use rand::rngs::StdRng;
use crate::agreement::{all_answers, answered_by_majority};
use crate::contracts::MessageBus;
use crate::oracle::{Oracle, OracleVerdict, OracleView, VerdictView};
use crate::random::random_index;
use crate::simulation::activity_log::ActivityLog;
use crate::text::{
    debug_ids, debug_option_text, debug_option_u64, decimal, push_debug_ids, push_debug_option_string,
    push_debug_option_u64, push_decimal,
};
use crate::types::{
    request_id_text, AcceptInput, AcceptInputView, AcceptOutput, MessageView, PrepareInput, PrepareOutput,
    ReplicaId, RequestId,
};

verus! {

/// A message waiting in the queue, with the replica it is addressed to.
#[derive(Debug)]
pub enum PendingMessage {
    StartProposal(ReplicaId, String),
    Prepare(ReplicaId, PrepareInput),
    PrepareResponse(ReplicaId, PrepareOutput),
    Accept(ReplicaId, AcceptInput),
    AcceptResponse(ReplicaId, AcceptOutput),
}

impl View for PendingMessage {
    type V = MessageView;

    open spec fn view(&self) -> MessageView {
        match self {
            PendingMessage::StartProposal(to, v) => MessageView::StartProposal(*to, v@),
            PendingMessage::Prepare(to, i) => MessageView::Prepare(*to, *i),
            PendingMessage::PrepareResponse(to, o) => MessageView::PrepareResponse(*to, o@),
            PendingMessage::Accept(to, i) => MessageView::Accept(*to, i@),
            PendingMessage::AcceptResponse(to, o) => MessageView::AcceptResponse(*to, *o),
        }
    }
}

/// What happens to a message, for the activity log.
#[derive(Debug, Clone, Copy, PartialEq, Eq, Structural)]
pub enum EventType {
    Queue,
    Receive,
    Drop,
    Duplicate,
}

/// How a log line about a replica's message starts.
pub open spec fn event_lead(e: EventType) -> Seq<char> {
    match e {
        EventType::Queue => "[BUS] "@,
        EventType::Receive => "[BUS] "@,
        EventType::Drop => "[SIMULATOR] DROP "@,
        EventType::Duplicate => "[SIMULATOR] DUPLICATE "@,
    }
}

/// The word between the route and the message.
pub open spec fn event_verb(e: EventType) -> Seq<char> {
    match e {
        EventType::Queue => " QUEUED "@,
        EventType::Receive => " RECEIVED "@,
        EventType::Drop => " "@,
        EventType::Duplicate => " "@,
    }
}

/// `Replica(from) -> Replica(to)`.
pub open spec fn route_text(from: ReplicaId, to: ReplicaId) -> Seq<char> {
    "Replica("@ + decimal(from as nat) + ") -> Replica("@ + decimal(to as nat) + ")"@
}

/// The log line for message `m` and event `e`.
pub open spec fn event_text(m: MessageView, e: EventType) -> Seq<char> {
    match m {
        MessageView::StartProposal(to, v) => event_lead(e) + "Simulator -> Replica("@ + decimal(to as nat) + ")"@
            + (if e == EventType::Queue { " QUEUED "@ } else { " RECEIVED "@ }) + "StartProposal("@ + v + ")"@,
        MessageView::Prepare(to, i) => event_lead(e) + route_text(i.from_replica_id, to) + event_verb(e) + "Prepare("@
            + request_id_text(i.request_id) + ")"@,
        MessageView::PrepareResponse(to, o) => event_lead(e) + route_text(o.from_replica_id, to) + event_verb(e)
            + "PrepareResponse("@ + request_id_text(o.request_id) + ", "@ + debug_option_u64(o.accepted_proposal_number)
            + ", "@ + debug_option_text(o.accepted_value) + ")"@,
        MessageView::Accept(to, i) => event_lead(e) + route_text(i.from_replica_id, to) + event_verb(e) + "Accept("@
            + request_id_text(i.request_id) + ", "@ + decimal(i.proposal_number as nat) + ", "@ + i.value + ")"@,
        MessageView::AcceptResponse(to, o) => event_lead(e) + route_text(o.from_replica_id, to) + event_verb(e)
            + "AcceptResponse("@ + request_id_text(o.request_id) + ", "@ + decimal(o.min_proposal_number as nat) + ")"@,
    }
}

/// `s` holds `from` at position `q`.
pub open spec fn occurs_at(s: Seq<char>, from: Seq<char>, q: int) -> bool {
    0 <= q && q + from.len() <= s.len() && s.subrange(q, q + from.len()) == from
}

/// `t` is `s` with its first occurrence of `from` replaced by `to`, as
/// `str::replacen` with a count of one gives it where `from` occurs in `s`.
pub open spec fn replaced_first(s: Seq<char>, from: Seq<char>, to: Seq<char>, t: Seq<char>) -> bool {
    exists|p: int|
        #[trigger] occurs_at(s, from, p) && (forall|q: int| 0 <= q < p ==> !#[trigger] occurs_at(s, from, q)) && t
            == s.subrange(0, p) + to + s.subrange(p + from.len(), s.len() as int)
}

/// No character of `s` is `c`.
spec fn lacks(s: Seq<char>, c: char) -> bool {
    forall|i: int| 0 <= i < s.len() ==> s[i] != c
}

proof fn lemma_lacks_add(a: Seq<char>, b: Seq<char>, c: char)
    requires
        lacks(a, c),
        lacks(b, c),
    ensures
        lacks(a + b, c),
{
    assert forall|i: int| 0 <= i < (a + b).len() implies (a + b)[i] != c by {
        if i >= a.len() {
            assert((a + b)[i] == b[i - a.len()]);
        }
    }
}

/// Numerals are made of digits.
proof fn lemma_decimal_lacks(n: nat, c: char)
    requires
        (c as int) < 48 || 57 < (c as int),
    ensures
        lacks(decimal(n), c),
    decreases n,
{
    if n >= 10 {
        lemma_decimal_lacks(n / 10, c);
        assert(lacks(decimal(n / 10).push(crate::text::digit_char(n % 10)), c)) by {
            lemma_lacks_add(decimal(n / 10), seq![crate::text::digit_char(n % 10)], c);
            assert(decimal(n / 10).push(crate::text::digit_char(n % 10)) =~= decimal(n / 10) + seq![
                crate::text::digit_char(n % 10),
            ]);
        }
    }
}

/// Replacing the first `from` of `head + from + tail`, where no character of
/// `head` starts `from`, gives `head + to + tail`.
proof fn lemma_replaced_first(head: Seq<char>, from: Seq<char>, to: Seq<char>, tail: Seq<char>)
    requires
        from.len() > 0,
        lacks(head, from[0]),
    ensures
        replaced_first(head + from + tail, from, to, head + to + tail),
{
    let s = head + from + tail;
    let p = head.len() as int;
    assert(s.subrange(p, p + from.len()) =~= from);
    assert(occurs_at(s, from, p));
    assert forall|q: int| 0 <= q < p implies !#[trigger] occurs_at(s, from, q) by {
        if occurs_at(s, from, q) {
            assert(s.subrange(q, q + from.len())[0] == s[q]);
            assert(s[q] == head[q]);
        }
    }
    assert(s.subrange(0, p) =~= head);
    assert(s.subrange(p + from.len(), s.len() as int) =~= tail);
}

/// A route names replicas by their numbers, so it holds no `Q`.
proof fn lemma_route_lacks_q(from: ReplicaId, to: ReplicaId)
    ensures
        lacks(route_text(from, to), 'Q'),
{
    reveal_strlit("Replica(");
    reveal_strlit(") -> Replica(");
    reveal_strlit(")");
    let q = 'Q';
    lemma_decimal_lacks(from as nat, q);
    lemma_decimal_lacks(to as nat, q);
    lemma_lacks_add("Replica("@, decimal(from as nat), q);
    lemma_lacks_add("Replica("@ + decimal(from as nat), ") -> Replica("@, q);
    lemma_lacks_add("Replica("@ + decimal(from as nat) + ") -> Replica("@, decimal(to as nat), q);
    lemma_lacks_add("Replica("@ + decimal(from as nat) + ") -> Replica("@ + decimal(to as nat), ")"@, q);
}

/// The route of a user's request holds no `Q`.
proof fn lemma_request_route_lacks_q(to: ReplicaId)
    ensures
        lacks("Simulator -> Replica("@ + decimal(to as nat) + ")"@, 'Q'),
{
    reveal_strlit("Simulator -> Replica(");
    reveal_strlit(")");
    lemma_decimal_lacks(to as nat, 'Q');
    lemma_lacks_add("Simulator -> Replica("@, decimal(to as nat), 'Q');
    lemma_lacks_add("Simulator -> Replica("@ + decimal(to as nat), ")"@, 'Q');
}

/// The queued and received lines of a message with route `mid` and text
/// `body`.
proof fn lemma_bus_lines(mid: Seq<char>, body: Seq<char>)
    requires
        lacks(mid, 'Q'),
    ensures
        replaced_first(
            "[BUS] "@ + mid + " QUEUED "@ + body,
            "QUEUED"@,
            "RECEIVED"@,
            "[BUS] "@ + mid + " RECEIVED "@ + body,
        ),
        "[BUS] "@.is_prefix_of("[BUS] "@ + mid + " QUEUED "@ + body),
        "[BUS] "@.is_prefix_of("[BUS] "@ + mid + " RECEIVED "@ + body),
{
    reveal_strlit("[BUS] ");
    reveal_strlit(" QUEUED ");
    reveal_strlit(" RECEIVED ");
    reveal_strlit("QUEUED");
    reveal_strlit("RECEIVED");
    reveal_strlit(" ");
    let head = "[BUS] "@ + mid + " "@;
    let tail = " "@ + body;
    lemma_lacks_add("[BUS] "@, mid, 'Q');
    lemma_lacks_add("[BUS] "@ + mid, " "@, 'Q');
    assert("QUEUED"@[0] == 'Q');
    lemma_replaced_first(head, "QUEUED"@, "RECEIVED"@, tail);
    assert(" QUEUED "@ =~= " "@ + "QUEUED"@ + " "@);
    assert(" RECEIVED "@ =~= " "@ + "RECEIVED"@ + " "@);
    assert(head + "QUEUED"@ + tail =~= "[BUS] "@ + mid + " QUEUED "@ + body);
    assert(head + "RECEIVED"@ + tail =~= "[BUS] "@ + mid + " RECEIVED "@ + body);
    assert(("[BUS] "@ + mid + " QUEUED "@ + body).subrange(0, 6) =~= "[BUS] "@);
    assert(("[BUS] "@ + mid + " RECEIVED "@ + body).subrange(0, 6) =~= "[BUS] "@);
}

/// The dropped and duplicated lines of a message whose text after the word
/// is `rest`.
proof fn lemma_simulator_lines(mid: Seq<char>, between: Seq<char>, body: Seq<char>)
    ensures
        replaced_first(
            "[SIMULATOR] DROP "@ + mid + between + body,
            "DROP"@,
            "DUPLICATE"@,
            "[SIMULATOR] DUPLICATE "@ + mid + between + body,
        ),
        "[SIMULATOR] "@.is_prefix_of("[SIMULATOR] DROP "@ + mid + between + body),
        "[SIMULATOR] "@.is_prefix_of("[SIMULATOR] DUPLICATE "@ + mid + between + body),
{
    let rest = mid + between + body;
    assert("[SIMULATOR] DROP "@ + mid + between + body =~= "[SIMULATOR] DROP "@ + rest);
    assert("[SIMULATOR] DUPLICATE "@ + mid + between + body =~= "[SIMULATOR] DUPLICATE "@ + rest);
    reveal_strlit("[SIMULATOR] ");
    reveal_strlit("[SIMULATOR] DROP ");
    reveal_strlit("[SIMULATOR] DUPLICATE ");
    reveal_strlit("DROP");
    reveal_strlit("DUPLICATE");
    reveal_strlit(" ");
    let dtail = " "@ + rest;
    assert("DROP"@[0] == 'D');
    lemma_replaced_first("[SIMULATOR] "@, "DROP"@, "DUPLICATE"@, dtail);
    assert("[SIMULATOR] "@ + "DROP"@ + dtail =~= "[SIMULATOR] DROP "@ + rest);
    assert("[SIMULATOR] "@ + "DUPLICATE"@ + dtail =~= "[SIMULATOR] DUPLICATE "@ + rest);
    assert(("[SIMULATOR] DROP "@ + rest).subrange(0, 12) =~= "[SIMULATOR] "@);
    assert(("[SIMULATOR] DUPLICATE "@ + rest).subrange(0, 12) =~= "[SIMULATOR] "@);
}

/// A received line is the queued line with its first `QUEUED` replaced by
/// `RECEIVED`, and a duplicate line is the dropped line with its first `DROP`
/// replaced by `DUPLICATE`. The network's lines start with `[BUS] `, the
/// simulator's with `[SIMULATOR] `.
pub proof fn lemma_event_texts(m: MessageView)
    ensures
        replaced_first(event_text(m, EventType::Queue), "QUEUED"@, "RECEIVED"@, event_text(m, EventType::Receive)),
        replaced_first(event_text(m, EventType::Drop), "DROP"@, "DUPLICATE"@, event_text(m, EventType::Duplicate)),
        "[BUS] "@.is_prefix_of(event_text(m, EventType::Queue)),
        "[BUS] "@.is_prefix_of(event_text(m, EventType::Receive)),
        "[SIMULATOR] "@.is_prefix_of(event_text(m, EventType::Drop)),
        "[SIMULATOR] "@.is_prefix_of(event_text(m, EventType::Duplicate)),
{
    let parts = event_parts(m);
    lemma_event_parts(m);
    lemma_bus_lines(parts.0, parts.2);
    lemma_simulator_lines(parts.0, parts.1, parts.2);
}

/// A message's line without its lead and word: the route, what stands between
/// route and message when it is dropped or duplicated, and the message.
spec fn event_parts(m: MessageView) -> (Seq<char>, Seq<char>, Seq<char>) {
    match m {
        MessageView::StartProposal(to, v) => (
            "Simulator -> Replica("@ + decimal(to as nat) + ")"@,
            " RECEIVED "@,
            "StartProposal("@ + v + ")"@,
        ),
        MessageView::Prepare(to, i) => (
            route_text(i.from_replica_id, to),
            " "@,
            "Prepare("@ + request_id_text(i.request_id) + ")"@,
        ),
        MessageView::PrepareResponse(to, o) => (
            route_text(o.from_replica_id, to),
            " "@,
            "PrepareResponse("@ + request_id_text(o.request_id) + ", "@ + debug_option_u64(o.accepted_proposal_number)
                + ", "@ + debug_option_text(o.accepted_value) + ")"@,
        ),
        MessageView::Accept(to, i) => (
            route_text(i.from_replica_id, to),
            " "@,
            "Accept("@ + request_id_text(i.request_id) + ", "@ + decimal(i.proposal_number as nat) + ", "@ + i.value
                + ")"@,
        ),
        MessageView::AcceptResponse(to, o) => (
            route_text(o.from_replica_id, to),
            " "@,
            "AcceptResponse("@ + request_id_text(o.request_id) + ", "@ + decimal(o.min_proposal_number as nat) + ")"@,
        ),
    }
}

proof fn lemma_event_parts(m: MessageView)
    ensures
        ({
            let (mid, between, body) = event_parts(m);
            &&& lacks(mid, 'Q')
            &&& event_text(m, EventType::Queue) == "[BUS] "@ + mid + " QUEUED "@ + body
            &&& event_text(m, EventType::Receive) == "[BUS] "@ + mid + " RECEIVED "@ + body
            &&& event_text(m, EventType::Drop) == "[SIMULATOR] DROP "@ + mid + between + body
            &&& event_text(m, EventType::Duplicate) == "[SIMULATOR] DUPLICATE "@ + mid + between + body
        }),
{
    match m {
        MessageView::StartProposal(_, _) => lemma_start_proposal_parts(m),
        MessageView::Prepare(_, _) => lemma_prepare_parts(m),
        MessageView::PrepareResponse(_, _) => lemma_prepare_response_parts(m),
        MessageView::Accept(_, _) => lemma_accept_parts(m),
        MessageView::AcceptResponse(_, _) => lemma_accept_response_parts(m),
    }
}

proof fn lemma_start_proposal_parts(m: MessageView)
    requires
        m is StartProposal,
    ensures
        ({
            let (mid, between, body) = event_parts(m);
            &&& lacks(mid, 'Q')
            &&& event_text(m, EventType::Queue) == "[BUS] "@ + mid + " QUEUED "@ + body
            &&& event_text(m, EventType::Receive) == "[BUS] "@ + mid + " RECEIVED "@ + body
            &&& event_text(m, EventType::Drop) == "[SIMULATOR] DROP "@ + mid + between + body
            &&& event_text(m, EventType::Duplicate) == "[SIMULATOR] DUPLICATE "@ + mid + between + body
        }),
{
    let (mid, between, body) = event_parts(m);
    lemma_request_route_lacks_q(m->StartProposal_0);
    assert(event_text(m, EventType::Queue) =~= "[BUS] "@ + mid + " QUEUED "@ + body);
    assert(event_text(m, EventType::Receive) =~= "[BUS] "@ + mid + " RECEIVED "@ + body);
    assert(event_text(m, EventType::Drop) =~= "[SIMULATOR] DROP "@ + mid + between + body);
    assert(event_text(m, EventType::Duplicate) =~= "[SIMULATOR] DUPLICATE "@ + mid + between + body);
}

proof fn lemma_prepare_parts(m: MessageView)
    requires
        m is Prepare,
    ensures
        ({
            let (mid, between, body) = event_parts(m);
            &&& lacks(mid, 'Q')
            &&& event_text(m, EventType::Queue) == "[BUS] "@ + mid + " QUEUED "@ + body
            &&& event_text(m, EventType::Receive) == "[BUS] "@ + mid + " RECEIVED "@ + body
            &&& event_text(m, EventType::Drop) == "[SIMULATOR] DROP "@ + mid + between + body
            &&& event_text(m, EventType::Duplicate) == "[SIMULATOR] DUPLICATE "@ + mid + between + body
        }),
{
    let (mid, between, body) = event_parts(m);
    let (to, from) = (m->Prepare_0, m->Prepare_1.from_replica_id);
    lemma_route_lacks_q(from, to);
    let r = route_text(from, to);
    assert(event_text(m, EventType::Queue) =~= event_lead(EventType::Queue) + r + event_verb(EventType::Queue) + body);
    assert(event_text(m, EventType::Receive) =~= event_lead(EventType::Receive) + r + event_verb(EventType::Receive) + body);
    assert(event_text(m, EventType::Drop) =~= event_lead(EventType::Drop) + r + event_verb(EventType::Drop) + body);
    assert(event_text(m, EventType::Duplicate) =~= event_lead(EventType::Duplicate) + r + event_verb(EventType::Duplicate)
        + body);
    lemma_routed_event_texts(m, from, to, body);
}

#[verifier::spinoff_prover]
#[verifier::rlimit(80)]
proof fn lemma_prepare_response_parts(m: MessageView)
    requires
        m is PrepareResponse,
    ensures
        ({
            let (mid, between, body) = event_parts(m);
            &&& lacks(mid, 'Q')
            &&& event_text(m, EventType::Queue) == "[BUS] "@ + mid + " QUEUED "@ + body
            &&& event_text(m, EventType::Receive) == "[BUS] "@ + mid + " RECEIVED "@ + body
            &&& event_text(m, EventType::Drop) == "[SIMULATOR] DROP "@ + mid + between + body
            &&& event_text(m, EventType::Duplicate) == "[SIMULATOR] DUPLICATE "@ + mid + between + body
        }),
{
    let (mid, between, body) = event_parts(m);
    let (to, from) = (m->PrepareResponse_0, m->PrepareResponse_1.from_replica_id);
    lemma_route_lacks_q(from, to);
    let r = route_text(from, to);
    assert(event_text(m, EventType::Queue) =~= event_lead(EventType::Queue) + r + event_verb(EventType::Queue) + body);
    assert(event_text(m, EventType::Receive) =~= event_lead(EventType::Receive) + r + event_verb(EventType::Receive) + body);
    assert(event_text(m, EventType::Drop) =~= event_lead(EventType::Drop) + r + event_verb(EventType::Drop) + body);
    assert(event_text(m, EventType::Duplicate) =~= event_lead(EventType::Duplicate) + r + event_verb(EventType::Duplicate)
        + body);
    lemma_routed_event_texts(m, from, to, body);
}

#[verifier::spinoff_prover]
#[verifier::rlimit(80)]
proof fn lemma_accept_parts(m: MessageView)
    requires
        m is Accept,
    ensures
        ({
            let (mid, between, body) = event_parts(m);
            &&& lacks(mid, 'Q')
            &&& event_text(m, EventType::Queue) == "[BUS] "@ + mid + " QUEUED "@ + body
            &&& event_text(m, EventType::Receive) == "[BUS] "@ + mid + " RECEIVED "@ + body
            &&& event_text(m, EventType::Drop) == "[SIMULATOR] DROP "@ + mid + between + body
            &&& event_text(m, EventType::Duplicate) == "[SIMULATOR] DUPLICATE "@ + mid + between + body
        }),
{
    let (mid, between, body) = event_parts(m);
    let (to, from) = (m->Accept_0, m->Accept_1.from_replica_id);
    lemma_route_lacks_q(from, to);
    let r = route_text(from, to);
    assert(event_text(m, EventType::Queue) =~= event_lead(EventType::Queue) + r + event_verb(EventType::Queue) + body);
    assert(event_text(m, EventType::Receive) =~= event_lead(EventType::Receive) + r + event_verb(EventType::Receive) + body);
    assert(event_text(m, EventType::Drop) =~= event_lead(EventType::Drop) + r + event_verb(EventType::Drop) + body);
    assert(event_text(m, EventType::Duplicate) =~= event_lead(EventType::Duplicate) + r + event_verb(EventType::Duplicate)
        + body);
    lemma_routed_event_texts(m, from, to, body);
}

proof fn lemma_accept_response_parts(m: MessageView)
    requires
        m is AcceptResponse,
    ensures
        ({
            let (mid, between, body) = event_parts(m);
            &&& lacks(mid, 'Q')
            &&& event_text(m, EventType::Queue) == "[BUS] "@ + mid + " QUEUED "@ + body
            &&& event_text(m, EventType::Receive) == "[BUS] "@ + mid + " RECEIVED "@ + body
            &&& event_text(m, EventType::Drop) == "[SIMULATOR] DROP "@ + mid + between + body
            &&& event_text(m, EventType::Duplicate) == "[SIMULATOR] DUPLICATE "@ + mid + between + body
        }),
{
    let (mid, between, body) = event_parts(m);
    let (to, from) = (m->AcceptResponse_0, m->AcceptResponse_1.from_replica_id);
    lemma_route_lacks_q(from, to);
    let r = route_text(from, to);
    assert(event_text(m, EventType::Queue) =~= event_lead(EventType::Queue) + r + event_verb(EventType::Queue) + body);
    assert(event_text(m, EventType::Receive) =~= event_lead(EventType::Receive) + r + event_verb(EventType::Receive) + body);
    assert(event_text(m, EventType::Drop) =~= event_lead(EventType::Drop) + r + event_verb(EventType::Drop) + body);
    assert(event_text(m, EventType::Duplicate) =~= event_lead(EventType::Duplicate) + r + event_verb(EventType::Duplicate)
        + body);
    lemma_routed_event_texts(m, from, to, body);
}

/// The lines of a message between replicas `from` and `to` whose own text is
/// `body`: lead, route, word, text.
proof fn lemma_routed_event_texts(m: MessageView, from: ReplicaId, to: ReplicaId, body: Seq<char>)
    requires
        event_text(m, EventType::Queue) == event_lead(EventType::Queue) + route_text(from, to) + event_verb(
            EventType::Queue,
        ) + body,
        event_text(m, EventType::Receive) == event_lead(EventType::Receive) + route_text(from, to) + event_verb(
            EventType::Receive,
        ) + body,
        event_text(m, EventType::Drop) == event_lead(EventType::Drop) + route_text(from, to) + event_verb(
            EventType::Drop,
        ) + body,
        event_text(m, EventType::Duplicate) == event_lead(EventType::Duplicate) + route_text(from, to) + event_verb(
            EventType::Duplicate,
        ) + body,
    ensures
        event_text(m, EventType::Queue) == "[BUS] "@ + route_text(from, to) + " QUEUED "@ + body,
        event_text(m, EventType::Receive) == "[BUS] "@ + route_text(from, to) + " RECEIVED "@ + body,
        event_text(m, EventType::Drop) == "[SIMULATOR] DROP "@ + route_text(from, to) + " "@ + body,
        event_text(m, EventType::Duplicate) == "[SIMULATOR] DUPLICATE "@ + route_text(from, to) + " "@ + body,
{
}

fn push_lead(out: &mut String, e: EventType)
    ensures
        final(out)@ == old(out)@ + event_lead(e),
{
    match e {
        EventType::Queue => out.append("[BUS] "),
        EventType::Receive => out.append("[BUS] "),
        EventType::Drop => out.append("[SIMULATOR] DROP "),
        EventType::Duplicate => out.append("[SIMULATOR] DUPLICATE "),
    }
}

fn push_verb(out: &mut String, e: EventType)
    ensures
        final(out)@ == old(out)@ + event_verb(e),
{
    match e {
        EventType::Queue => out.append(" QUEUED "),
        EventType::Receive => out.append(" RECEIVED "),
        EventType::Drop => out.append(" "),
        EventType::Duplicate => out.append(" "),
    }
}

fn push_route(out: &mut String, from: ReplicaId, to: ReplicaId)
    ensures
        final(out)@ == old(out)@ + route_text(from, to),
{
    out.append("Replica(");
    push_decimal(out, from as u64);
    out.append(") -> Replica(");
    push_decimal(out, to as u64);
    out.append(")");
    assert(out@ =~= old(out)@ + route_text(from, to));
}

impl PendingMessage {
    /// The replica the message is addressed to.
    pub fn get_to_replica_id(&self) -> (r: ReplicaId)
        ensures
            r == self@.to_replica_id(),
    {
        match self {
            PendingMessage::StartProposal(to_replica_id, _) => *to_replica_id,
            PendingMessage::Prepare(to_replica_id, _prepare_input) => *to_replica_id,
            PendingMessage::PrepareResponse(to_replica_id, _prepare_output) => *to_replica_id,
            PendingMessage::Accept(to_replica_id, _accept_input) => *to_replica_id,
            PendingMessage::AcceptResponse(to_replica_id, _accept_output) => *to_replica_id,
        }
    }

    /// A copy with the same view.
    pub fn duplicate(&self) -> (r: PendingMessage)
        ensures
            r@ == self@,
    {
        match self {
            PendingMessage::StartProposal(to, v) => PendingMessage::StartProposal(*to, v.clone()),
            PendingMessage::Prepare(to, i) => PendingMessage::Prepare(*to, *i),
            PendingMessage::PrepareResponse(to, o) => PendingMessage::PrepareResponse(*to, o.duplicate()),
            PendingMessage::Accept(to, i) => PendingMessage::Accept(*to, i.duplicate()),
            PendingMessage::AcceptResponse(to, o) => PendingMessage::AcceptResponse(*to, *o),
        }
    }

    /// The log line for this message and `event_type`.
    pub fn to_activity_log_event(&self, event_type: EventType) -> (s: String)
        ensures
            s@ == event_text(self@, event_type),
    {
        let mut out = String::new();
        match self {
            PendingMessage::StartProposal(to_replica_id, value) => {
                push_lead(&mut out, event_type);
                out.append("Simulator -> Replica(");
                push_decimal(&mut out, *to_replica_id as u64);
                out.append(")");
                if event_type == EventType::Queue {
                    out.append(" QUEUED ");
                } else {
                    out.append(" RECEIVED ");
                }
                out.append("StartProposal(");
                out.append(value.as_str());
                out.append(")");
            },
            PendingMessage::Prepare(to_replica_id, msg) => {
                push_lead(&mut out, event_type);
                push_route(&mut out, msg.from_replica_id, *to_replica_id);
                push_verb(&mut out, event_type);
                out.append("Prepare(");
                msg.request_id.push_text(&mut out);
                out.append(")");
            },
            PendingMessage::PrepareResponse(to_replica_id, msg) => {
                push_lead(&mut out, event_type);
                push_route(&mut out, msg.from_replica_id, *to_replica_id);
                push_verb(&mut out, event_type);
                out.append("PrepareResponse(");
                msg.request_id.push_text(&mut out);
                out.append(", ");
                push_debug_option_u64(&mut out, msg.accepted_proposal_number);
                out.append(", ");
                push_debug_option_string(&mut out, &msg.accepted_value);
                out.append(")");
            },
            PendingMessage::Accept(to_replica_id, msg) => {
                push_lead(&mut out, event_type);
                push_route(&mut out, msg.from_replica_id, *to_replica_id);
                push_verb(&mut out, event_type);
                out.append("Accept(");
                msg.request_id.push_text(&mut out);
                out.append(", ");
                push_decimal(&mut out, msg.proposal_number);
                out.append(", ");
                out.append(msg.value.as_str());
                out.append(")");
            },
            PendingMessage::AcceptResponse(to_replica_id, msg) => {
                push_lead(&mut out, event_type);
                push_route(&mut out, msg.from_replica_id, *to_replica_id);
                push_verb(&mut out, event_type);
                out.append("AcceptResponse(");
                msg.request_id.push_text(&mut out);
                out.append(", ");
                push_decimal(&mut out, msg.min_proposal_number);
                out.append(")");
            },
        }
        assert(out@ =~= event_text(self@, event_type));
        out
    }
}

/// The messages in flight, in no particular order.
#[derive(Debug)]
struct MessageQueue {
    items: Vec<PendingMessage>,
}

impl View for MessageQueue {
    type V = Seq<MessageView>;

    closed spec fn view(&self) -> Seq<MessageView> {
        self.items@.map_values(|m: PendingMessage| m@)
    }
}

impl MessageQueue {
    fn new() -> (q: Self)
        ensures
            q@ == Seq::<MessageView>::empty(),
    {
        let q = Self { items: Vec::new() };
        assert(q@ =~= Seq::<MessageView>::empty());
        q
    }

    fn push(&mut self, message: PendingMessage)
        ensures
            final(self)@ == old(self)@.push(message@),
    {
        let ghost m = message@;
        self.items.push(message);
        assert(self@ =~= old(self)@.push(m));
    }

    fn len(&self) -> (n: usize)
        ensures
            n == self@.len(),
    {
        self.items.len()
    }

    /// Takes a message at random: the last one moves into its place.
    fn pop(&mut self, rng: &mut StdRng) -> (r: Option<PendingMessage>)
        ensures
            old(self)@.len() == 0 ==> r is None && final(self)@ == old(self)@,
            old(self)@.len() > 0 ==> (r matches Some(m) && exists|i: int|
                0 <= i < old(self)@.len() && old(self)@[i] == m@ && final(self)@ == old(self)@.update(
                    i,
                    old(self)@.last(),
                ).drop_last()),
    {
        if self.items.is_empty() {
            return None;
        }
        let i = random_index(rng, self.items.len());
        let item = self.items.swap_remove(i);
        proof {
            assert(self@ =~= old(self)@.update(i as int, old(self)@.last()).drop_last());
            assert(old(self)@[i as int] == item@);
        }
        Some(item)
    }
}

/// A majority decided one value and then another.
#[derive(Debug)]
pub struct AgreementViolation {
    pub decided: String,
    pub accepted: String,
}

/// The log line for value `v`, accepted in round `rid` by the replicas
/// `ids`, `majority` of which make a majority.
pub open spec fn decision_text(majority: nat, rid: RequestId, v: Seq<char>, ids: Seq<ReplicaId>) -> Seq<char> {
    "[ORACLE] value accepted by majority of replicas: majority="@ + decimal(majority) + " "@ + request_id_text(rid)
        + " value="@ + v + " replicas="@ + debug_ids(ids)
}

/// The bus as a value: what is in flight, what was ever sent, the oracle, and
/// the log.
pub struct BusView {
    pub queued: Seq<MessageView>,
    pub sent: Seq<MessageView>,
    pub oracle: OracleView,
    pub log: Seq<Seq<char>>,
}

impl BusView {
    /// What the oracle makes of a message leaving the queue: it notes accept
    /// requests, and counts accept responses, logging each decision; a
    /// conflicting decision is returned.
    pub open spec fn observe(self, m: MessageView) -> (BusView, Option<(Seq<char>, Seq<char>)>) {
        match m {
            MessageView::Accept(_, input) => (BusView { oracle: self.oracle.after_accept_sent(input), ..self }, None),
            MessageView::AcceptResponse(_, out) => {
                let (o, v) = self.oracle.after_proposal_accepted(out);
                match v {
                    VerdictView::Decided(d) => (
                        BusView {
                            oracle: o,
                            log: self.log.push(
                                decision_text(
                                    o.majority,
                                    out.request_id,
                                    d,
                                    o.requests[out.request_id].responses.map_values(|a: AcceptOutput| a.from_replica_id),
                                ),
                            ),
                            ..self
                        },
                        None,
                    ),
                    VerdictView::Conflict(d, a) => (BusView { oracle: o, ..self }, Some((d, a))),
                    _ => (BusView { oracle: o, ..self }, None),
                }
            },
            _ => (self, None),
        }
    }

    /// Handing `m` to the bus: queued, logged, remembered as sent.
    pub open spec fn after_send(self, m: MessageView) -> BusView {
        BusView {
            queued: self.queued.push(m),
            sent: self.sent.push(m),
            log: self.log.push(event_text(m, EventType::Queue)),
            ..self
        }
    }
}

/// What the oracle holds is borne out by the messages `sent`: each round it
/// knows had its accept request sent with the round's value, its responses are
/// distinct answers to that request, and a decided value was answered by a
/// majority in some round.
pub open spec fn oracle_agrees(oracle: OracleView, sent: Set<MessageView>) -> bool {
    &&& forall|rid: RequestId|
        #[trigger] oracle.requests.contains_key(rid) ==> {
            &&& exists|to: ReplicaId, i: AcceptInputView|
                #[trigger] sent.contains(MessageView::Accept(to, i)) && i.request_id == rid && i.value
                    == oracle.requests[rid].value
            &&& all_answers(sent, rid, oracle.requests[rid].responses)
            &&& oracle.requests[rid].responses.no_duplicates()
        }
    &&& oracle.decided is Some ==> exists|rid: RequestId|
        #[trigger] answered_by_majority(sent, oracle.majority, rid, oracle.decided->0)
}

/// More messages bear out what fewer did.
proof fn lemma_oracle_agrees_grows(oracle: OracleView, sent: Set<MessageView>, more: Set<MessageView>)
    requires
        oracle_agrees(oracle, sent),
        sent.subset_of(more),
    ensures
        oracle_agrees(oracle, more),
{
    assert forall|rid: RequestId, outs: Seq<AcceptOutput>| #[trigger] all_answers(sent, rid, outs) implies all_answers(more, rid, outs) by {
        assert forall|k: int| 0 <= k < outs.len() implies (#[trigger] outs[k]).request_id == rid && exists|to: ReplicaId|
            more.contains(MessageView::AcceptResponse(to, outs[k])) by {
            let to = choose|to: ReplicaId| sent.contains(MessageView::AcceptResponse(to, outs[k]));
            assert(more.contains(MessageView::AcceptResponse(to, outs[k])));
        }
    }
    assert forall|rid: RequestId| #[trigger] oracle.requests.contains_key(rid) implies exists|to: ReplicaId, i: AcceptInputView|
        #[trigger] more.contains(MessageView::Accept(to, i)) && i.request_id == rid && i.value == oracle.requests[rid].value by {
        let (to, i) = choose|to: ReplicaId, i: AcceptInputView|
            #[trigger] sent.contains(MessageView::Accept(to, i)) && i.request_id == rid && i.value == oracle.requests[rid].value;
        assert(more.contains(MessageView::Accept(to, i)));
    }
    if oracle.decided is Some {
        let d = oracle.decided->0;
        let rid = choose|rid: RequestId| #[trigger] answered_by_majority(sent, oracle.majority, rid, d);
        let (to, i) = choose|to: ReplicaId, i: AcceptInputView|
            #[trigger] sent.contains(MessageView::Accept(to, i)) && i.request_id == rid && i.value == d;
        assert(more.contains(MessageView::Accept(to, i)));
        let outs = choose|outs: Seq<AcceptOutput>|
            #[trigger] all_answers(sent, rid, outs) && outs.no_duplicates() && outs.len() >= oracle.majority;
        assert(all_answers(more, rid, outs));
        assert(answered_by_majority(more, oracle.majority, rid, d));
    }
}

/// A conflict is between two different values, each answered by a majority
/// among the messages `sent`.
pub open spec fn conflict_borne_out(sent: Set<MessageView>, majority: nat, verdict: VerdictView) -> bool {
    verdict is Conflict ==> {
        &&& verdict->Conflict_0 != verdict->Conflict_1
        &&& exists|rid: RequestId| #[trigger] answered_by_majority(sent, majority, rid, verdict->Conflict_0)
        &&& exists|rid: RequestId| #[trigger] answered_by_majority(sent, majority, rid, verdict->Conflict_1)
    }
}

/// Noting an accept request that was sent keeps the oracle borne out.
proof fn lemma_accept_keeps_agreement(o0: OracleView, sent: Set<MessageView>, to: ReplicaId, input: AcceptInputView)
    requires
        oracle_agrees(o0, sent),
        sent.contains(MessageView::Accept(to, input)),
    ensures
        oracle_agrees(o0.after_accept_sent(input), sent),
{
    let o = o0.after_accept_sent(input);
    assert forall|rid: RequestId| #[trigger] o.requests.contains_key(rid) implies {
        &&& exists|t: ReplicaId, i: AcceptInputView|
            #[trigger] sent.contains(MessageView::Accept(t, i)) && i.request_id == rid && i.value == o.requests[rid].value
        &&& all_answers(sent, rid, o.requests[rid].responses)
        &&& o.requests[rid].responses.no_duplicates()
    } by {
        if rid != input.request_id {
            assert(o0.requests.contains_key(rid));
        }
    }
    if o.decided is Some {
        let d = o.decided->0;
        let w = choose|w: RequestId| #[trigger] answered_by_majority(sent, o0.majority, w, d);
        assert(answered_by_majority(sent, o.majority, w, d));
    }
}

/// Counting an answer that was sent keeps the oracle borne out; a conflict it
/// reports is between two values each answered by a majority.
proof fn lemma_response_keeps_agreement(o0: OracleView, sent: Set<MessageView>, to: ReplicaId, out: AcceptOutput)
    requires
        oracle_agrees(o0, sent),
        sent.contains(MessageView::AcceptResponse(to, out)),
    ensures
        oracle_agrees(o0.after_proposal_accepted(out).0, sent),
        conflict_borne_out(sent, o0.majority, o0.after_proposal_accepted(out).1),
{
    let rid = out.request_id;
    let (o, verdict) = o0.after_proposal_accepted(out);
    assert(o.majority == o0.majority);
    if o0.requests.contains_key(rid) {
        let req = o0.requests[rid];
        let responses = if req.responses.contains(out) {
            req.responses
        } else {
            req.responses.push(out)
        };
        assert(all_answers(sent, rid, responses)) by {
            assert forall|k: int| 0 <= k < responses.len() implies (#[trigger] responses[k]).request_id == rid
                && exists|t: ReplicaId| sent.contains(MessageView::AcceptResponse(t, responses[k])) by {
                if k < req.responses.len() {
                    assert(responses[k] == req.responses[k]);
                } else {
                    assert(sent.contains(MessageView::AcceptResponse(to, responses[k])));
                }
            }
        }
        assert(o.requests[rid].responses == responses);
        assert(responses.no_duplicates()) by {
            if !req.responses.contains(out) {
                assert forall|i: int, j: int| 0 <= i < responses.len() && 0 <= j < responses.len() && i != j implies responses[i]
                    != responses[j] by {
                    if i < req.responses.len() && j < req.responses.len() {
                        assert(responses[i] == req.responses[i] && responses[j] == req.responses[j]);
                    } else if i < req.responses.len() {
                        assert(responses[i] == req.responses[i]);
                    } else {
                        assert(responses[j] == req.responses[j]);
                    }
                }
            }
        }
        assert forall|k: RequestId| #[trigger] o.requests.contains_key(k) implies {
            &&& exists|t: ReplicaId, i: AcceptInputView|
                #[trigger] sent.contains(MessageView::Accept(t, i)) && i.request_id == k && i.value == o.requests[k].value
            &&& all_answers(sent, k, o.requests[k].responses)
            &&& o.requests[k].responses.no_duplicates()
        } by {
            assert(o0.requests.contains_key(k));
        }
        if responses.len() >= o0.majority {
            assert(answered_by_majority(sent, o0.majority, rid, req.value));
        }
        if o0.decided is Some {
            let d = o0.decided->0;
            let w = choose|w: RequestId| #[trigger] answered_by_majority(sent, o0.majority, w, d);
            assert(o.decided == Some(d));
            assert(answered_by_majority(sent, o.majority, w, o.decided->0));
            assert(oracle_agrees(o, sent));
            if responses.len() >= o0.majority && d != req.value {
                assert(verdict == VerdictView::Conflict(d, req.value));
                assert(answered_by_majority(sent, o0.majority, w, d));
                assert(answered_by_majority(sent, o0.majority, rid, req.value));
                assert(conflict_borne_out(sent, o0.majority, verdict));
            } else {
                assert(!(verdict is Conflict));
                assert(conflict_borne_out(sent, o0.majority, verdict));
            }
        } else if responses.len() >= o0.majority {
            assert(o.decided == Some(req.value));
            assert(answered_by_majority(sent, o.majority, rid, o.decided->0));
            assert(oracle_agrees(o, sent));
        } else {
            assert(o.decided is None);
            assert(oracle_agrees(o, sent));
        }
        if o0.decided is None {
            assert(!(verdict is Conflict));
            assert(conflict_borne_out(sent, o0.majority, verdict));
        }
    } else {
        assert(o == o0);
        assert(verdict == VerdictView::Ignored);
    }
}

pub struct SimMessageBus {
    queue: MessageQueue,
    oracle: Oracle,
    activity_log: ActivityLog,
    sent: Ghost<Seq<MessageView>>,
    checking: Ghost<bool>,
}

impl View for SimMessageBus {
    type V = BusView;

    closed spec fn view(&self) -> BusView {
        BusView { queued: self.queue@, sent: self.sent@, oracle: self.oracle@, log: self.activity_log@ }
    }
}

impl SimMessageBus {
    /// The bus's invariant: every message in flight was sent, the oracle is
    /// well formed, and, when the bus is checking, what the oracle holds is
    /// borne out by the messages sent.
    pub closed spec fn wf(&self) -> bool {
        &&& self.oracle.wf()
        &&& forall|i: int| 0 <= i < self.queue@.len() ==> self.sent@.contains(#[trigger] self.queue@[i])
        &&& self.checking@ ==> oracle_agrees(self.oracle@, self.sent@.to_set())
    }

    /// An empty bus with `oracle` watching and `activity_log` recording. It
    /// checks what it carries, against the oracle's majority, when the oracle
    /// has seen nothing yet.
    pub fn new(oracle: Oracle, activity_log: ActivityLog) -> (bus: Self)
        requires
            oracle.wf(),
        ensures
            bus.wf(),
            bus@ == (BusView { queued: seq![], sent: seq![], oracle: oracle@, log: activity_log@ }),
            bus.checking() == (if oracle@.requests == Map::<RequestId, crate::oracle::InflightAcceptView>::empty()
                && oracle@.decided is None {
                Some(oracle@.majority)
            } else {
                None
            }),
    {
        let sent: Ghost<Seq<MessageView>> = Ghost(Seq::<MessageView>::empty());
        let ghost fresh: bool = oracle@.requests == Map::<RequestId, crate::oracle::InflightAcceptView>::empty()
            && oracle@.decided is None;
        let checking: Ghost<bool> = Ghost(fresh);
        Self { queue: MessageQueue::new(), oracle, activity_log, sent, checking }
    }

    /// Nothing is in flight.
    pub fn is_empty(&self) -> (r: bool)
        ensures
            r == (self@.queued.len() == 0),
    {
        self.queue.len() == 0
    }

    /// The value the oracle saw decided, if any.
    pub fn decided_value(&self) -> (r: &Option<String>)
        ensures
            crate::types::option_text(*r) == self@.oracle.decided,
    {
        self.oracle.decided_value()
    }

    /// How many messages are in flight.
    pub fn num_messages_in_flight(&self) -> (n: usize)
        ensures
            n == self@.queued.len(),
    {
        self.queue.len()
    }

    /// Adds a line to the activity log.
    pub fn record(&mut self, event: String)
        requires
            old(self).wf(),
        ensures
            final(self).wf(),
            final(self).checking() == old(self).checking(),
            final(self)@ == (BusView { log: old(self)@.log.push(event@), ..old(self)@ }),
    {
        self.activity_log.record(event);
    }

    /// Empties the activity log and gives back its lines, for printing.
    pub fn take_events(&mut self) -> (r: Option<String>)
        requires
            old(self).wf(),
        ensures
            final(self).wf(),
            final(self).checking() == old(self).checking(),
            final(self)@ == (BusView { log: seq![], ..old(self)@ }),
            old(self)@.log.len() == 0 ==> r is None,
            old(self)@.log.len() > 0 ==> (r matches Some(s) && s@ == crate::text::join_lines(old(self)@.log)),
    {
        self.activity_log.take_events()
    }

    /// Takes a message out of flight at random and shows it to the oracle. An
    /// accept request starts a round; an accept response may decide a value,
    /// which is logged; a conflicting decision is an error.
    pub fn next_message(&mut self, rng: &mut StdRng) -> (r: Result<Option<PendingMessage>, AgreementViolation>)
        requires
            old(self).wf(),
        ensures
            final(self).wf(),
            final(self).checking() == old(self).checking(),
            final(self)@.sent == old(self)@.sent,
            final(self)@.oracle.majority == old(self)@.oracle.majority,
            old(self)@.queued.len() > 0 ==> exists|k: int|
                #![trigger old(self)@.queued[k]]
                0 <= k < old(self)@.queued.len() && final(self)@.queued == old(self)@.queued.update(
                    k,
                    old(self)@.queued.last(),
                ).drop_last() && (r matches Ok(Some(msg)) ==> msg@ == old(self)@.queued[k]),
            old(self).checking() is Some ==> (r matches Err(v) ==> {
                &&& v.decided@ != v.accepted@
                &&& exists|rid: RequestId|
                    #[trigger] answered_by_majority(old(self)@.sent.to_set(), old(self).checking()->0, rid, v.decided@)
                &&& exists|rid: RequestId|
                    #[trigger] answered_by_majority(old(self)@.sent.to_set(), old(self).checking()->0, rid, v.accepted@)
            }),
            old(self)@.queued.len() == 0 ==> (r matches Ok(None) && final(self)@ == old(self)@),
            old(self)@.queued.len() > 0 ==> exists|i: int|
                #![trigger old(self)@.queued[i]]
                0 <= i < old(self)@.queued.len() && {
                    let m = old(self)@.queued[i];
                    let taken = BusView {
                        queued: old(self)@.queued.update(i, old(self)@.queued.last()).drop_last(),
                        ..old(self)@
                    };
                    let (after, conflict) = taken.observe(m);
                    &&& final(self)@ == after
                    &&& match conflict {
                        None => r matches Ok(Some(msg)) && msg@ == m,
                        Some((d, a)) => r matches Err(v) && v.decided@ == d && v.accepted@ == a,
                    }
                },
    {
        let ghost before = self@;
        let message = match self.queue.pop(rng) {
            None => {
                return Ok(None);
            },
            Some(m) => m,
        };
        proof {
            assert forall|j: int| 0 <= j < self.queue@.len() implies self.sent@.contains(#[trigger] self.queue@[j]) by {
                let i = choose|i: int|
                    0 <= i < before.queued.len() && before.queued[i] == message@ && self.queue@ == before.queued.update(
                        i,
                        before.queued.last(),
                    ).drop_last();
                if j == i {
                    assert(self.queue@[j] == before.queued[before.queued.len() - 1]);
                } else {
                    assert(self.queue@[j] == before.queued[j]);
                }
            }
        }
        let ghost sent = self.sent@.to_set();
        let ghost k = choose|i: int|
            0 <= i < before.queued.len() && before.queued[i] == message@ && self.queue@ == before.queued.update(
                i,
                before.queued.last(),
            ).drop_last();
        let ghost after_pop = self.queue@;
        proof {
            assert(before.queued[k] == message@);
            let i = choose|i: int| 0 <= i < before.queued.len() && before.queued[i] == message@;
            assert(self.sent@.contains(before.queued[i]));
            assert(sent.contains(message@));
        }
        let ghost o0 = self.oracle@;
        match &message {
            PendingMessage::Accept(to_replica_id, input) => {
                self.oracle.on_accept_sent(*to_replica_id, input);
                proof {
                    if self.checking@ {
                        lemma_accept_keeps_agreement(o0, sent, *to_replica_id, input@);
                    }
                }
            },
            PendingMessage::AcceptResponse(to_replica_id, input) => {
                let verdict = self.oracle.on_proposal_accepted(*to_replica_id, input);
                proof {
                    if self.checking@ {
                        lemma_response_keeps_agreement(o0, sent, *to_replica_id, *input);
                    }
                }
                let ghost vv = verdict@;
                match verdict {
                    OracleVerdict::Decided(v) => {
                        let ids = self.oracle.responders(input.request_id);
                        let mut line = String::new();
                        line.append("[ORACLE] value accepted by majority of replicas: majority=");
                        push_decimal(&mut line, self.oracle.majority() as u64);
                        line.append(" ");
                        input.request_id.push_text(&mut line);
                        line.append(" value=");
                        line.append(v.as_str());
                        line.append(" replicas=");
                        push_debug_ids(&mut line, &ids);
                        assert(line@ =~= decision_text(self.oracle@.majority, input.request_id, v@, ids@));
                        self.activity_log.record(line);
                    },
                    OracleVerdict::Conflict { decided, accepted } => {
                        proof {
                            if old(self).checking() is Some {
                                assert(old(self).checking()->0 == o0.majority);
                                assert(sent == old(self)@.sent.to_set());
                                assert(conflict_borne_out(sent, o0.majority, vv));
                                assert(vv == VerdictView::Conflict(decided@, accepted@));
                                let w1 = choose|rid: RequestId| #[trigger] answered_by_majority(sent, o0.majority, rid, decided@);
                                let w2 = choose|rid: RequestId| #[trigger] answered_by_majority(sent, o0.majority, rid, accepted@);
                                assert(answered_by_majority(old(self)@.sent.to_set(), old(self).checking()->0, w1, decided@));
                                assert(answered_by_majority(old(self)@.sent.to_set(), old(self).checking()->0, w2, accepted@));
                            }
                        }
                        assert(self.queue@ == after_pop);
                        return Err(AgreementViolation { decided, accepted });
                    },
                    _ => {},
                }
            },
            _ => {},
        }
        assert(self.queue@ == after_pop);
        Ok(Some(message))
    }

    /// Puts a message in flight without logging it; it counts as handed to
    /// the bus.
    pub fn add_message(&mut self, message: PendingMessage)
        requires
            old(self).wf(),
        ensures
            final(self).wf(),
            final(self).checking() == old(self).checking(),
            final(self)@ == (BusView {
                queued: old(self)@.queued.push(message@),
                sent: old(self)@.sent.push(message@),
                ..old(self)@
            }),
    {
        let ghost m = message@;
        proof {
            self.sent@ = self.sent@.push(m);
            if self.checking@ {
                assert(old(self).sent@.to_set().subset_of(self.sent@.to_set())) by {
                    assert forall|x: MessageView| old(self).sent@.to_set().contains(x) implies self.sent@.to_set().contains(x) by {
                        let k = choose|k: int| 0 <= k < old(self).sent@.len() && old(self).sent@[k] == x;
                        assert(self.sent@[k] == x);
                    }
                }
                lemma_oracle_agrees_grows(self.oracle@, old(self).sent@.to_set(), self.sent@.to_set());
            }
        }
        self.queue.push(message);
        proof {
            assert forall|j: int| 0 <= j < self.queue@.len() implies self.sent@.contains(#[trigger] self.queue@[j]) by {
                if j < old(self).queue@.len() {
                    assert(old(self).sent@.contains(self.queue@[j]));
                    let k = choose|k: int| 0 <= k < old(self).sent@.len() && old(self).sent@[k] == self.queue@[j];
                    assert(self.sent@[k] == self.queue@[j]);
                } else {
                    assert(self.sent@[self.sent@.len() - 1] == m);
                }
            }
        }
    }

    fn enqueue(&mut self, message: PendingMessage)
        requires
            old(self).wf(),
        ensures
            final(self).wf(),
            final(self).checking() == old(self).checking(),
            final(self)@ == old(self)@.after_send(message@),
    {
        let line = message.to_activity_log_event(EventType::Queue);
        self.activity_log.record(line);
        let ghost m = message@;
        proof {
            self.sent@ = self.sent@.push(m);
            if self.checking@ {
                assert(old(self).sent@.to_set().subset_of(self.sent@.to_set())) by {
                    assert forall|x: MessageView| old(self).sent@.to_set().contains(x) implies self.sent@.to_set().contains(x) by {
                        let k = choose|k: int| 0 <= k < old(self).sent@.len() && old(self).sent@[k] == x;
                        assert(self.sent@[k] == x);
                    }
                }
                lemma_oracle_agrees_grows(self.oracle@, old(self).sent@.to_set(), self.sent@.to_set());
            }
        }
        self.queue.push(message);
        proof {
            assert forall|j: int| 0 <= j < self.queue@.len() implies self.sent@.contains(#[trigger] self.queue@[j]) by {
                if j < old(self).queue@.len() {
                    assert(old(self).sent@.contains(self.queue@[j]));
                    let k = choose|k: int| 0 <= k < old(self).sent@.len() && old(self).sent@[k] == self.queue@[j];
                    assert(self.sent@[k] == self.queue@[j]);
                } else {
                    assert(self.sent@[self.sent@.len() - 1] == m);
                }
            }
        }
    }
}

impl MessageBus for SimMessageBus {
    closed spec fn sent(&self) -> Seq<MessageView> {
        self.sent@
    }

    closed spec fn inv(&self) -> bool {
        self.wf()
    }

    closed spec fn queued(&self) -> Seq<MessageView> {
        self.queue@
    }

    closed spec fn log(&self) -> Seq<Seq<char>> {
        self.activity_log@
    }

    open spec fn queue_line(m: MessageView) -> Seq<char> {
        event_text(m, EventType::Queue)
    }

    closed spec fn checking(&self) -> Option<nat> {
        if self.checking@ {
            Some(self.oracle@.majority)
        } else {
            None
        }
    }

    fn send_start_proposal(&mut self, to_replica_id: ReplicaId, value: String)
        ensures
            final(self)@ == old(self)@.after_send(MessageView::StartProposal(to_replica_id, value@)),
    {
        self.enqueue(PendingMessage::StartProposal(to_replica_id, value));
    }

    fn send_prepare(&mut self, to_replica_id: ReplicaId, input: PrepareInput)
        ensures
            final(self)@ == old(self)@.after_send(MessageView::Prepare(to_replica_id, input)),
    {
        self.enqueue(PendingMessage::Prepare(to_replica_id, input));
    }

    fn send_prepare_response(&mut self, to_replica_id: ReplicaId, input: PrepareOutput)
        ensures
            final(self)@ == old(self)@.after_send(MessageView::PrepareResponse(to_replica_id, input@)),
    {
        self.enqueue(PendingMessage::PrepareResponse(to_replica_id, input));
    }

    fn send_accept(&mut self, to_replica_id: ReplicaId, input: AcceptInput)
        ensures
            final(self)@ == old(self)@.after_send(MessageView::Accept(to_replica_id, input@)),
    {
        self.enqueue(PendingMessage::Accept(to_replica_id, input));
    }

    fn send_accept_response(&mut self, to_replica_id: ReplicaId, input: AcceptOutput)
        ensures
            final(self)@ == old(self)@.after_send(MessageView::AcceptResponse(to_replica_id, input)),
    {
        self.enqueue(PendingMessage::AcceptResponse(to_replica_id, input));
    }
}

impl SimMessageBus {
    /// What the bus has ever been handed is what `sent` says, what is in
    /// flight is what `queued` says, and its invariant is `wf`.
    pub proof fn lemma_sent(&self)
        ensures
            self.sent() == self@.sent,
            self.queued() == self@.queued,
            self.log() == self@.log,
            self.inv() == self.wf(),
    {
    }

    /// A checking bus's decided value was answered by a majority among the
    /// messages sent.
    pub proof fn lemma_decided_was_answered(&self)
        requires
            self.wf(),
            self.checking() is Some,
            self@.oracle.decided is Some,
        ensures
            exists|rid: RequestId|
                #[trigger] answered_by_majority(self@.sent.to_set(), self.checking()->0, rid, self@.oracle.decided->0),
    {
        assert(self.checking@);
        let d = self.oracle@.decided->0;
        let w = choose|w: RequestId| #[trigger] answered_by_majority(self.sent@.to_set(), self.oracle@.majority, w, d);
        assert(answered_by_majority(self@.sent.to_set(), self.checking()->0, w, d));
    }

    /// Every message in flight was sent: the bus makes up no message.
    pub proof fn lemma_in_flight_were_sent(&self)
        requires
            self.wf(),
        ensures
            forall|i: int| 0 <= i < self@.queued.len() ==> self@.sent.contains(#[trigger] self@.queued[i]),
    {
    }
}

} // verus!
