# Smart home

A model of a smart home: rooms that hold devices under distinct names, homes
that hold rooms, and the reports they give; the text line protocol of a
network power socket, from the client's side and from the simulator's side;
and the key/value configuration of a thermometer simulator.

- `src/` is the library, verified with Verus. Each public function states in
  its contract what it returns or changes; `src/laws.rs` states what holds
  across operations (what a read gives back after a write, the protocol's
  round trips, the configuration rules).
- `app/` is the program around it: TCP and UDP connections, threads, timers,
  and the devices whose readings are floating-point numbers. Run it with no
  argument for the smart home example (`--start-simulators` starts both
  simulators in-process), or with `socket-simulator <listen-address>` or
  `thermometer-simulator <config-file>`.
- `tests/` runs the library on concrete values.
