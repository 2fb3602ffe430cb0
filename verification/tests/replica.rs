use paxos::contracts::{DurableState, MessageBus, Storage};
use paxos::oracle::{Oracle, OracleVerdict};
use paxos::replica::{Config, Replica};
use paxos::simulation::in_memory_storage::InMemoryStorage;
use paxos::types::{AcceptInput, AcceptOutput, PrepareInput, PrepareOutput, ReplicaId, RequestId};

#[derive(Debug)]
enum Sent {
    StartProposal(ReplicaId, String),
    Prepare(ReplicaId, PrepareInput),
    PrepareResponse(ReplicaId, PrepareOutput),
    Accept(ReplicaId, AcceptInput),
    AcceptResponse(ReplicaId, AcceptOutput),
}

#[derive(Default)]
struct RecordingBus {
    sent: Vec<Sent>,
}

impl MessageBus for RecordingBus {
    fn send_start_proposal(&mut self, to_replica_id: ReplicaId, value: String) {
        self.sent.push(Sent::StartProposal(to_replica_id, value));
    }
    fn send_prepare(&mut self, to_replica_id: ReplicaId, input: PrepareInput) {
        self.sent.push(Sent::Prepare(to_replica_id, input));
    }
    fn send_prepare_response(&mut self, to_replica_id: ReplicaId, input: PrepareOutput) {
        self.sent.push(Sent::PrepareResponse(to_replica_id, input));
    }
    fn send_accept(&mut self, to_replica_id: ReplicaId, input: AcceptInput) {
        self.sent.push(Sent::Accept(to_replica_id, input));
    }
    fn send_accept_response(&mut self, to_replica_id: ReplicaId, input: AcceptOutput) {
        self.sent.push(Sent::AcceptResponse(to_replica_id, input));
    }
}

/// Storage whose writes always fail.
#[derive(Debug)]
struct BrokenStorage;

impl Storage for BrokenStorage {
    fn load(&self) -> DurableState {
        DurableState::initial()
    }
    fn store(&mut self, _state: &DurableState) -> Result<(), std::io::Error> {
        Err(std::io::Error::new(std::io::ErrorKind::Other, "disk full"))
    }
}

fn replica(id: ReplicaId) -> Replica<InMemoryStorage> {
    Replica::new(Config { id, replicas: vec![1, 2, 3] }, InMemoryStorage::new())
}

fn response(from: ReplicaId, rid: RequestId, accepted: Option<(u64, &str)>) -> PrepareOutput {
    PrepareOutput {
        from_replica_id: from,
        request_id: rid,
        accepted_proposal_number: accepted.map(|a| a.0),
        accepted_value: accepted.map(|a| a.1.to_string()),
    }
}

fn accepts(bus: &RecordingBus) -> Vec<(ReplicaId, u64, String, RequestId)> {
    bus.sent
        .iter()
        .filter_map(|m| match m {
            Sent::Accept(to, a) => Some((*to, a.proposal_number, a.value.clone(), a.request_id)),
            _ => None,
        })
        .collect()
}

#[test]
fn new_replica_starts_from_its_storage() {
    let r = replica(1);
    assert_eq!(r.state().min_proposal_number, 0);
    assert_eq!(r.state().accepted_proposal_number, None);
    assert_eq!(r.state().accepted_value, None);
    assert_eq!(r.config().id, 1);
}

#[test]
fn start_proposal_sends_prepare_to_every_replica() {
    let mut r = replica(1);
    let mut bus = RecordingBus::default();
    r.on_start_proposal(&mut bus, "v".to_string()).unwrap();
    assert_eq!(r.state().min_proposal_number, 1);
    assert_eq!(bus.sent.len(), 3);
    for (i, m) in bus.sent.iter().enumerate() {
        match m {
            Sent::Prepare(to, p) => {
                assert_eq!(*to, (i + 1) as u32);
                assert_eq!(p.from_replica_id, 1);
                assert_eq!(p.proposal_number, 1);
                assert_eq!(p.request_id, RequestId::Prepare(1, 1));
            }
            other => panic!("unexpected {other:?}"),
        }
    }
    r.on_start_proposal(&mut bus, "w".to_string()).unwrap();
    assert_eq!(r.state().min_proposal_number, 2);
}

#[test]
fn prepare_is_promised_only_above_the_last_promise() {
    let mut r = replica(2);
    let mut bus = RecordingBus::default();
    let input = PrepareInput { from_replica_id: 1, request_id: RequestId::Prepare(1, 5), proposal_number: 5 };
    r.on_prepare(&mut bus, input).unwrap();
    assert_eq!(r.state().min_proposal_number, 5);
    assert_eq!(bus.sent.len(), 1);
    match &bus.sent[0] {
        Sent::PrepareResponse(to, out) => {
            assert_eq!(*to, 1);
            assert_eq!(out.from_replica_id, 2);
            assert_eq!(out.request_id, RequestId::Prepare(1, 5));
            assert_eq!(out.accepted_proposal_number, None);
            assert_eq!(out.accepted_value, None);
        }
        other => panic!("unexpected {other:?}"),
    }
    // Equal and lower numbers are ignored.
    r.on_prepare(&mut bus, input).unwrap();
    let lower = PrepareInput { proposal_number: 4, ..input };
    r.on_prepare(&mut bus, lower).unwrap();
    assert_eq!(bus.sent.len(), 1);
    assert_eq!(r.state().min_proposal_number, 5);
}

#[test]
fn accept_at_or_above_promise_is_accepted_and_reported_by_later_promises() {
    let mut r = replica(3);
    let mut bus = RecordingBus::default();
    r.on_prepare(&mut bus, PrepareInput { from_replica_id: 1, request_id: RequestId::Prepare(1, 2), proposal_number: 2 })
        .unwrap();
    // Below the promise: ignored.
    r.on_accept(
        &mut bus,
        AcceptInput { from_replica_id: 1, request_id: RequestId::Accept(1, 1), proposal_number: 1, value: "old".into() },
    )
    .unwrap();
    assert_eq!(bus.sent.len(), 1);
    assert_eq!(r.state().accepted_value, None);
    // At the promise: accepted.
    r.on_accept(
        &mut bus,
        AcceptInput { from_replica_id: 1, request_id: RequestId::Accept(1, 2), proposal_number: 2, value: "v".into() },
    )
    .unwrap();
    assert_eq!(r.state().accepted_proposal_number, Some(2));
    assert_eq!(r.state().accepted_value.as_deref(), Some("v"));
    assert_eq!(r.state().min_proposal_number, 2);
    match &bus.sent[1] {
        Sent::AcceptResponse(to, out) => {
            assert_eq!(*to, 1);
            assert_eq!(*out, AcceptOutput { from_replica_id: 3, request_id: RequestId::Accept(1, 2), min_proposal_number: 2 });
        }
        other => panic!("unexpected {other:?}"),
    }
    // A later promise reports what was accepted.
    r.on_prepare(&mut bus, PrepareInput { from_replica_id: 2, request_id: RequestId::Prepare(2, 7), proposal_number: 7 })
        .unwrap();
    match &bus.sent[2] {
        Sent::PrepareResponse(to, out) => {
            assert_eq!(*to, 2);
            assert_eq!(out.accepted_proposal_number, Some(2));
            assert_eq!(out.accepted_value.as_deref(), Some("v"));
        }
        other => panic!("unexpected {other:?}"),
    }
}

#[test]
fn majority_of_empty_promises_proposes_own_value() {
    let mut r = replica(1);
    let mut bus = RecordingBus::default();
    r.on_start_proposal(&mut bus, "mine".to_string()).unwrap();
    let rid = RequestId::Prepare(1, 1);
    r.on_prepare_response(&mut bus, response(2, rid, None));
    assert!(accepts(&bus).is_empty());
    // The same response again does not count twice.
    r.on_prepare_response(&mut bus, response(2, rid, None));
    assert!(accepts(&bus).is_empty());
    r.on_prepare_response(&mut bus, response(3, rid, None));
    let a = accepts(&bus);
    assert_eq!(a.len(), 3);
    for (i, (to, n, v, id)) in a.iter().enumerate() {
        assert_eq!(*to, (i + 1) as u32);
        assert_eq!(*n, 1);
        assert_eq!(v, "mine");
        assert_eq!(*id, RequestId::Accept(1, 1));
    }
    // The round is over: more responses do nothing.
    r.on_prepare_response(&mut bus, response(1, rid, None));
    assert_eq!(accepts(&bus).len(), 3);
}

#[test]
fn majority_proposes_highest_accepted_value() {
    let mut r = replica(1);
    let mut bus = RecordingBus::default();
    r.on_start_proposal(&mut bus, "mine".to_string()).unwrap();
    let rid = RequestId::Prepare(1, 1);
    r.on_prepare_response(&mut bus, response(2, rid, Some((3, "three"))));
    r.on_prepare_response(&mut bus, response(3, rid, Some((7, "seven"))));
    let a = accepts(&bus);
    assert_eq!(a.len(), 3);
    assert!(a.iter().all(|(_, n, v, _)| *n == 1 && v == "seven"));
}

#[test]
fn responses_for_unknown_rounds_are_ignored() {
    let mut r = replica(1);
    let mut bus = RecordingBus::default();
    r.on_prepare_response(&mut bus, response(2, RequestId::Prepare(1, 9), None));
    r.on_prepare_response(&mut bus, response(3, RequestId::Prepare(1, 9), None));
    assert!(bus.sent.is_empty());
    r.on_accept_response(AcceptOutput { from_replica_id: 2, request_id: RequestId::Accept(1, 1), min_proposal_number: 0 });
    assert!(bus.sent.is_empty());
}

#[test]
fn failed_store_changes_nothing_and_sends_nothing() {
    let mut r = Replica::new(Config { id: 1, replicas: vec![1, 2, 3] }, BrokenStorage);
    let mut bus = RecordingBus::default();
    assert!(r.on_start_proposal(&mut bus, "v".to_string()).is_err());
    assert!(r
        .on_prepare(&mut bus, PrepareInput { from_replica_id: 2, request_id: RequestId::Prepare(2, 1), proposal_number: 1 })
        .is_err());
    assert!(r
        .on_accept(
            &mut bus,
            AcceptInput { from_replica_id: 2, request_id: RequestId::Accept(2, 1), proposal_number: 1, value: "x".into() }
        )
        .is_err());
    assert!(bus.sent.is_empty());
    assert_eq!(r.state().min_proposal_number, 0);
    assert_eq!(r.state().accepted_value, None);
}

#[test]
fn replica_rebuilt_from_its_storage_resumes_its_state() {
    let mut r = replica(2);
    let mut bus = RecordingBus::default();
    r.on_prepare(&mut bus, PrepareInput { from_replica_id: 1, request_id: RequestId::Prepare(1, 4), proposal_number: 4 })
        .unwrap();
    r.on_accept(
        &mut bus,
        AcceptInput { from_replica_id: 1, request_id: RequestId::Accept(1, 4), proposal_number: 4, value: "v".into() },
    )
    .unwrap();
    let (config, storage) = r.into_parts();
    let restarted = Replica::new(config, storage);
    assert_eq!(restarted.state().min_proposal_number, 4);
    assert_eq!(restarted.state().accepted_proposal_number, Some(4));
    assert_eq!(restarted.state().accepted_value.as_deref(), Some("v"));
}

#[test]
fn in_memory_storage_gives_back_what_was_stored() {
    let mut s = InMemoryStorage::new();
    assert_eq!(s.load().min_proposal_number, 0);
    let state = DurableState { min_proposal_number: 3, accepted_proposal_number: Some(2), accepted_value: Some("x".into()) };
    assert!(s.store(&state).is_ok());
    let loaded = s.load();
    assert_eq!(loaded.min_proposal_number, 3);
    assert_eq!(loaded.accepted_proposal_number, Some(2));
    assert_eq!(loaded.accepted_value.as_deref(), Some("x"));
    let d = InMemoryStorage::default();
    assert_eq!(d.load().accepted_value, None);
}

fn last_accept_response(bus: &RecordingBus) -> AcceptOutput {
    match bus.sent.last() {
        Some(Sent::AcceptResponse(_, out)) => *out,
        other => panic!("unexpected {other:?}"),
    }
}

fn last_prepare_response(bus: &RecordingBus) -> PrepareOutput {
    match bus.sent.last() {
        Some(Sent::PrepareResponse(_, out)) => out.duplicate(),
        other => panic!("unexpected {other:?}"),
    }
}

/// With five replicas a replica can accept a proposal numbered above its
/// promise without raising the promise, and later fall back to an older
/// proposal; a later round then picks the older value up, and two different
/// values are each accepted by a majority.
#[test]
fn five_replicas_can_choose_two_values() {
    let ids: Vec<u32> = vec![1, 2, 3, 4, 5];
    let mut r: Vec<Replica<InMemoryStorage>> =
        ids.iter().map(|id| Replica::new(Config { id: *id, replicas: ids.clone() }, InMemoryStorage::new())).collect();
    let mut bus = RecordingBus::default();
    let mut oracle = Oracle::new(3);

    // Replica 1 runs round 1 with replicas 2, 3 and 4, and asks to accept "a".
    r[0].on_start_proposal(&mut bus, "a".to_string()).unwrap();
    let p1 = PrepareInput { from_replica_id: 1, request_id: RequestId::Prepare(1, 1), proposal_number: 1 };
    for k in [1, 2, 3] {
        r[k].on_prepare(&mut bus, p1).unwrap();
        let out = last_prepare_response(&bus);
        r[0].on_prepare_response(&mut bus, out);
    }
    assert!(accepts(&bus).iter().any(|(_, n, v, _)| *n == 1 && v == "a"));

    // Replica 5 runs round 2 with replicas 2, 3 and 4, and asks to accept "b".
    r[4].on_start_proposal(&mut bus, "b".to_string()).unwrap();
    r[4].on_start_proposal(&mut bus, "b".to_string()).unwrap();
    let p2 = PrepareInput { from_replica_id: 5, request_id: RequestId::Prepare(5, 2), proposal_number: 2 };
    for k in [1, 2, 3] {
        r[k].on_prepare(&mut bus, p2).unwrap();
        let out = last_prepare_response(&bus);
        r[4].on_prepare_response(&mut bus, out);
    }
    let b = AcceptInput { from_replica_id: 5, request_id: RequestId::Accept(5, 2), proposal_number: 2, value: "b".into() };
    oracle.on_accept_sent(1, &b);
    // Replicas 1, 2 and 3 accept "b": a majority.
    let mut verdicts = Vec::new();
    for k in [0, 1, 2] {
        r[k].on_accept(&mut bus, b.duplicate()).unwrap();
        verdicts.push(oracle.on_proposal_accepted(5, &last_accept_response(&bus)));
    }
    assert!(matches!(verdicts.last(), Some(OracleVerdict::Decided(v)) if v == "b"));
    // Replica 1 had only promised round 1, so the late accept of round 1 is taken.
    let a = AcceptInput { from_replica_id: 1, request_id: RequestId::Accept(1, 1), proposal_number: 1, value: "a".into() };
    r[0].on_accept(&mut bus, a).unwrap();
    assert_eq!(r[0].state().accepted_value.as_deref(), Some("a"));

    // Replica 2 runs round 3 with replicas 1, 4 and 5: the highest accepted
    // proposal it hears of is round 1's "a".
    r[1].on_start_proposal(&mut bus, "c".to_string()).unwrap();
    let p3 = PrepareInput { from_replica_id: 2, request_id: RequestId::Prepare(2, 3), proposal_number: 3 };
    for k in [0, 3, 4] {
        r[k].on_prepare(&mut bus, p3).unwrap();
        let out = last_prepare_response(&bus);
        r[1].on_prepare_response(&mut bus, out);
    }
    assert!(accepts(&bus).iter().any(|(_, n, v, _)| *n == 3 && v == "a"));
    let a3 = AcceptInput { from_replica_id: 2, request_id: RequestId::Accept(2, 3), proposal_number: 3, value: "a".into() };
    oracle.on_accept_sent(1, &a3);
    let mut last = None;
    for k in [0, 3, 4] {
        r[k].on_accept(&mut bus, a3.duplicate()).unwrap();
        last = Some(oracle.on_proposal_accepted(2, &last_accept_response(&bus)));
    }
    match last {
        Some(OracleVerdict::Conflict { decided, accepted }) => {
            assert_eq!(decided, "b");
            assert_eq!(accepted, "a");
        }
        other => panic!("unexpected {other:?}"),
    }
}

#[test]
fn a_response_without_its_value_is_kept_below_a_majority() {
    let mut bus = RecordingBus::default();
    let mut r = Replica::new(Config { id: 1, replicas: vec![1, 2, 3, 4, 5] }, InMemoryStorage::new());
    assert!(r.on_start_proposal(&mut bus, "V(1, 0)".to_string()).is_ok());
    let rid = RequestId::Prepare(1, 1);
    bus.sent.clear();
    let odd = PrepareOutput {
        from_replica_id: 2,
        request_id: rid,
        accepted_proposal_number: Some(0),
        accepted_value: None,
    };
    r.on_prepare_response(&mut bus, odd);
    assert!(bus.sent.is_empty());
    // Two more responses make a majority of five; the highest accepted
    // proposal reported comes with its value, so that value is proposed.
    r.on_prepare_response(&mut bus, response(3, rid, Some((1, "a"))));
    assert!(bus.sent.is_empty());
    r.on_prepare_response(&mut bus, response(4, rid, None));
    let sent = accepts(&bus);
    assert_eq!(sent.len(), 5);
    assert!(sent.iter().all(|(_, n, v, id)| *n == 1 && v == "a" && *id == RequestId::Accept(1, 1)));
}
