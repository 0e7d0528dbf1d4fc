# GhostBuster

Runtime verification of BGP routers. A monitor sees the messages that a router receives and sends, in
an order that may differ from the one in which the router has processed them. It keeps every state
that the router can be in, and accuses the router only of what no such state explains.

The library is written in Verus: what the functions do is stated in their contracts and proved.

## Layout

`src/` holds the verified library.

| Modules | What they are about |
|---|---|
| `bgp`, `keyed`, `pairs`, `number_set`, `text`, `strings`, `sorting` | routes, messages, and the collections they are kept in |
| `import`, `session_monitor`, `forking_monitor`, `reordering_monitoring`, `numbering`, `arena` | the monitor of a router |
| `serializability` | whether the orders that the sessions rely on fit together |
| `traces`, `monitor_laws`, `trace_test` | what the monitor says of whole traces: a correct router is not accused |
| `monitoring`, `controller`, `recording` | monitoring a network from recorded messages |
| `failure`, `queue`, `session_queue`, `session_filter`, `failure_queue`, `dispatch_queue`, `geo_distances` | failures, and queues of messages that show them |
| `reordering_session`, `reordering_queue`, `reordering_measurement`, `restriction`, `random` | queues that deliver messages in a random order, which each session keeps |
| `simulation`, `generator`, `reconfiguration`, `ground_truth`, `run`, `testbed`, `config` | experiments on emulated routers |
| `evaluation`, `workload`, `scenarios`, `state_comparison`, `distance`, `performance` | experiments in simulation |
| `route_map`, `formatting` | route maps, and texts |

Random numbers come from `rand`, graphs from `petgraph`, storage from `typed-arena`, and networks in
CIDR notation are parsed by `ipnet`. What is believed of these is written above each such function.

`tests/` runs the library. `app/` holds the programs: it simulates networks with `bgpsim`, tells the
library what simulated routers do with a route, and reads and writes files.

Times are whole numbers of nanoseconds, and probabilities are fractions.
