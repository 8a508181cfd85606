# ipc_broker

A message broker for local inter-process communication: workers register
named objects, clients call their methods through the broker, and clients
publish and subscribe to events on object topics. Services can be declared
so that the broker starts their worker when the first call for them arrives.

The routing logic is written in Verus and verified; the asynchronous runtime
around it is ordinary Rust.

## Layout

- `src/` — the verified library.
  - `broker.rs`: the broker's routing state (registered objects, connected
    clients, subscriptions, pending calls, on-demand services). Each handler
    turns one message into a new state and a list of actions (messages to
    deliver, services to start); its contract is a transition of the model
    `BrokerView`, and the laws at the end of the file relate transitions
    (a call's result returns to its caller once, subscribers receive events,
    each subscriber once, queued calls reach a started service, a
    disconnected client leaves no trace and cleaning up twice changes
    nothing, a running service belongs to its worker, messages go only to
    connected clients).
  - `framing.rs`: length-prefixed packets, with a round-trip law.
  - `rpc.rs`, `json.rs`: the protocol's messages and JSON values.
  - `activate.rs`: service activation entries and service state.
  - `client.rs`, `worker.rs`: the decisions of clients and workers (which
    requests a worker serves, its object slots, when its supervisor
    retries).
  - `calculator.rs`: the example workers' calculator objects.
  - `signature.rs`, `render.rs`: the `rob` tool's argument signatures and
    its display of JSON values.
  - `address.rs`, `logger.rs`: the announced TCP address, the listeners
    started (TCP and local in every mode) and the log level.
  - `table.rs`: a string-keyed map with a `Map` model.
- `app/` — the Tokio runtime: listeners (TCP, and the Unix socket or, on
  Windows, the named pipe), per-connection tasks, the client handle with
  its typed `remote_call`, the worker runtime, logging, JSON
  (de)serialization, the `rob` command line and the demonstration clients,
  publishers, subscribers and workers (each run when the program is
  invoked under its name, such as `rob` or `example_worker`).
- `tests/` — tests of the library.
