use paxos::oracle::Oracle;
use paxos::replica::{Config, Replica};
use paxos::simulation::activity_log::ActivityLog;
use paxos::simulation::file_system::SimFileSystem;
use paxos::simulation::in_memory_storage::InMemoryStorage;
use paxos::simulation::message_bus::SimMessageBus;
use paxos::simulation::simulator::{ActionSimulator, ActionSimulatorConfig, Node, SimulationFailure};
use rand::{Rng, SeedableRng};

fn simulate(seed: u64, max_actions: u32) -> (Result<(), SimulationFailure>, bool, Option<String>) {
    simulate_with(vec![1, 2, 3], seed, max_actions)
}

fn build(servers: Vec<u32>, seed: u64, max_actions: u32) -> ActionSimulator<InMemoryStorage> {
    let mut rng = rand::rngs::StdRng::seed_from_u64(seed);
    let config = ActionSimulatorConfig { max_actions, max_user_requests: rng.gen::<u32>() % 100 + 1 };
    let majority = servers.len() / 2 + 1;
    let bus = SimMessageBus::new(Oracle::new(majority), ActivityLog::new());
    let nodes: Vec<Node<InMemoryStorage>> = servers
        .iter()
        .map(|id| Node {
            replica: Replica::new(Config { id: *id, replicas: servers.clone() }, InMemoryStorage::new()),
            fs: SimFileSystem::new(),
        })
        .collect();
    ActionSimulator::new(config, rng, nodes, bus)
}

fn simulate_with(servers: Vec<u32>, seed: u64, max_actions: u32) -> (Result<(), SimulationFailure>, bool, Option<String>) {
    let mut sim = build(servers, seed, max_actions);
    let result = sim.run();
    (result, sim.is_quiet(), sim.decided_value().clone())
}

#[test]
fn simulations_decide_at_most_one_value_and_drain_the_network() {
    for seed in 0..300u64 {
        let (result, quiet, _) = simulate(seed, 100);
        assert!(result.is_ok(), "seed {seed}: {result:?}");
        assert!(quiet, "seed {seed}");
    }
}

#[test]
fn simulation_with_no_actions_is_quiet() {
    let (result, quiet, decided) = simulate(7, 0);
    assert!(result.is_ok());
    assert!(quiet);
    assert_eq!(decided, None);
}

#[test]
fn short_simulations_reach_decisions() {
    // With few actions there is often no crash, and draining the network
    // then completes a round.
    let decided = (0..100u64).filter(|seed| simulate(*seed, 3).2.is_some()).count();
    assert!(decided > 0);
}

#[test]
fn four_replica_simulations_decide_at_most_one_value() {
    for seed in 0..200u64 {
        let (result, quiet, _) = simulate_with(vec![1, 2, 3, 4], seed, 100);
        assert!(result.is_ok(), "seed {seed}: {result:?}");
        assert!(quiet, "seed {seed}");
    }
}

#[test]
fn an_empty_network_has_nothing_to_deliver() {
    let mut sim = build(vec![1, 2, 3], 11, 0);
    assert!(sim.run_actions().is_ok());
    assert!(matches!(sim.deliver_next(), Ok(false)));
    assert!(sim.is_quiet());
}

#[test]
fn delivering_one_by_one_drains_the_network() {
    let mut sim = build(vec![1, 2, 3], 5, 50);
    assert!(sim.run_actions().is_ok());
    let mut steps = 0u32;
    loop {
        match sim.deliver_next() {
            Ok(true) => steps += 1,
            Ok(false) => break,
            Err(e) => panic!("{e:?}"),
        }
    }
    assert!(sim.is_quiet());
    assert!(steps < 100_000);
}

#[test]
fn restarted_node_keeps_taking_part() {
    let mut sim = build(vec![1, 2, 3], 21, 30);
    assert!(sim.run_actions().is_ok());
    let before = sim.decided_value().clone();
    let id = sim.choose_replica();
    assert!([1, 2, 3].contains(&id));
    // The new replica resumes from what the old one stored, so the run goes
    // on as Paxos allows and a decided value stays decided.
    sim.restart_node(id);
    loop {
        match sim.deliver_next() {
            Ok(true) => {}
            Ok(false) => break,
            Err(e) => panic!("{e:?}"),
        }
    }
    assert!(sim.is_quiet());
    if before.is_some() {
        assert_eq!(sim.decided_value(), &before);
    }
}

#[test]
fn restarting_an_unknown_replica_changes_nothing() {
    let mut sim = build(vec![1, 2, 3], 4, 10);
    assert!(sim.run_actions().is_ok());
    sim.restart_node(99);
    assert!(sim.run().is_ok());
    assert!(sim.is_quiet());
}

#[test]
fn events_are_taken_once() {
    let mut sim = build(vec![1, 2, 3], 3, 20);
    assert!(sim.run().is_ok());
    let first = sim.take_events();
    assert!(first.is_some());
    assert!(first.unwrap().contains("[BUS] "));
    assert_eq!(sim.take_events(), None);
}

#[test]
fn a_finished_simulation_hands_back_where_its_generator_stopped() {
    let mut a = build(vec![1, 2, 3], 9, 40);
    let mut b = build(vec![1, 2, 3], 9, 40);
    assert!(a.run().is_ok());
    assert!(b.run().is_ok());
    let mut ra = a.into_rng();
    let mut rb = b.into_rng();
    assert_eq!(ra.gen::<u64>(), rb.gen::<u64>());
    let mut fresh = rand::rngs::StdRng::seed_from_u64(9);
    let _ = fresh.gen::<u32>();
    assert_ne!(ra.gen::<u64>(), fresh.gen::<u64>());
}
