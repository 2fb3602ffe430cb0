use paxos::oracle::Oracle;
use paxos::simulation::activity_log::ActivityLog;
use paxos::simulation::message_bus::{EventType, PendingMessage, SimMessageBus};
use paxos::types::{AcceptInput, AcceptOutput, PrepareInput, RequestId};
use rand::SeedableRng;

#[test]
fn request_ids_read_rid_r_p() {
    assert_eq!(RequestId::Prepare(1, 1).to_string(), "RID(R1, P1)");
    assert_eq!(RequestId::Accept(2, 7).to_string(), "RID(R2, P7)");
}

#[test]
fn queued_and_received_start_proposal_lines() {
    let m = PendingMessage::StartProposal(1, "V(1, 0)".to_string());
    assert_eq!(
        m.to_activity_log_event(EventType::Queue),
        "[BUS] Simulator -> Replica(1) QUEUED StartProposal(V(1, 0))"
    );
    assert_eq!(
        m.to_activity_log_event(EventType::Receive),
        "[BUS] Simulator -> Replica(1) RECEIVED StartProposal(V(1, 0))"
    );
}

#[test]
fn received_line_is_the_queued_line_with_received() {
    let messages = vec![
        PendingMessage::StartProposal(2, "V(2, 1)".to_string()),
        PendingMessage::Prepare(3, PrepareInput { from_replica_id: 1, request_id: RequestId::Prepare(1, 1), proposal_number: 1 }),
        PendingMessage::Accept(
            2,
            AcceptInput { from_replica_id: 1, request_id: RequestId::Accept(1, 1), proposal_number: 1, value: "V(1, 0)".to_string() },
        ),
        PendingMessage::AcceptResponse(1, AcceptOutput { from_replica_id: 3, request_id: RequestId::Accept(1, 1), min_proposal_number: 1 }),
    ];
    for m in messages {
        let queued = m.to_activity_log_event(EventType::Queue);
        assert_eq!(m.to_activity_log_event(EventType::Receive), queued.replacen("QUEUED", "RECEIVED", 1));
        let dropped = m.to_activity_log_event(EventType::Drop);
        assert_eq!(m.to_activity_log_event(EventType::Duplicate), dropped.replacen("DROP", "DUPLICATE", 1));
    }
    assert_eq!(
        PendingMessage::Prepare(3, PrepareInput { from_replica_id: 1, request_id: RequestId::Prepare(1, 1), proposal_number: 1 })
            .to_activity_log_event(EventType::Queue),
        "[BUS] Replica(1) -> Replica(3) QUEUED Prepare(RID(R1, P1))"
    );
}

#[test]
fn decision_line_names_majority_round_value_and_replicas() {
    let mut bus = SimMessageBus::new(Oracle::new(2), ActivityLog::new());
    let mut rng = rand::rngs::StdRng::seed_from_u64(1);
    let rid = RequestId::Accept(2, 1);
    bus.add_message(PendingMessage::Accept(
        1,
        AcceptInput { from_replica_id: 2, request_id: rid, proposal_number: 1, value: "V(2, 1)".to_string() },
    ));
    assert!(bus.next_message(&mut rng).is_ok());
    bus.add_message(PendingMessage::AcceptResponse(2, AcceptOutput { from_replica_id: 3, request_id: rid, min_proposal_number: 1 }));
    assert!(bus.next_message(&mut rng).is_ok());
    bus.add_message(PendingMessage::AcceptResponse(2, AcceptOutput { from_replica_id: 1, request_id: rid, min_proposal_number: 1 }));
    assert!(bus.next_message(&mut rng).is_ok());
    let log = bus.take_events().unwrap();
    assert_eq!(log, "[ORACLE] value accepted by majority of replicas: majority=2 RID(R2, P1) value=V(2, 1) replicas=[3, 1]");
    assert_eq!(bus.decided_value(), &Some("V(2, 1)".to_string()));
}
