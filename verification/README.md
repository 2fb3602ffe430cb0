# paxos

Single-decree Paxos replicas, a deterministic simulation that runs them
against a lossy, reordering, duplicating network, and an oracle that watches
for two different decided values. The library is written in Verus and proved.

## Layout

- `src/replica.rs`: the replica. Each handler (`on_start_proposal`,
  `on_prepare`, `on_prepare_response`, `on_accept`, `on_accept_response`) is
  proved to do what the spec functions `after_*` of `ReplicaView` say, to
  store its durable state before anything is sent, and to leave the replica
  unchanged when storage fails.
- `src/agreement.rs`: the protocol as a system of replicas and a set of sent
  messages. `lemma_agreement` proves that with three or four replicas no two
  different values are ever chosen, whatever the order of deliveries, losses,
  duplicates and restarts. With five replicas this does not hold (an acceptor
  does not raise its promise when it accepts); a test in `tests/replica.rs`
  shows such a run.
- `src/oracle.rs`: the oracle that counts accept responses and reports a
  conflicting decision.
- `src/simulation/`: the simulated network (`message_bus.rs`), a file system
  with a cache that a restart loses (`file_system.rs`, `path.rs`), in-memory
  storage, the activity log, and the simulator (`simulator.rs`). `run` is
  proved to end (every message in flight may cost the network only so much)
  with the network empty unless a failure stopped it, and a simulation that
  starts with three or four fresh replicas is proved never to report an
  agreement violation; when their storage never fails, such a run is proved
  to succeed. On success, `run` states each state it went through: one step
  per random action (`action_step`), then one delivery after the other until
  nothing is in flight. A restarted node resumes from the durable state it
  stored.
- `src/contracts.rs`, `src/types.rs`, `src/text.rs`, `src/assoc.rs`: shared
  types, the traits for a message bus and for storage, text formatting, and
  association lists.
- `app/`: the program: file-backed storage (serde_json), the std I/O traits
  over the simulated file system, and a driver that runs seeded simulations
  on one thread per core (`SEED`, `MAX_THREADS`, `MAX_ITERS`,
  `MAX_ACTIONS`).
- `tests/`: tests of the file system, the replicas and the simulation.
