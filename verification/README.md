# websocket_balancer

A balancer for websocket traffic. Clients belong to distributions; each
distribution is routed to one backend location, and can be moved to another one
while its clients stay connected.

- `src/` is the library, written in Verus. It holds the decisions: the frame
  codec (`frame`, `message`, `wire`, `write_buffer`), the handshake (`handshake`,
  `text`, `string_map`), the choice of locations (`location_manager`, `uri`,
  `connect`), the bookkeeping of clients, connections and moves (`websocket`,
  `proxy`), and the operator's commands (`console`). Every function states what
  it does in its contract, and what holds of several functions together stands in
  the proof functions whose names begin with `law_`.
- `app/` is ordinary Rust around the library: sockets, timers, tasks and locks. It
  performs what the library decides and reports back what happened.
- `tests/` runs the library on concrete values.

What the library takes on trust is what it says of the outside functions that it
calls: those of `http`, `httparse`, `memchr`, `bytes`, `dashmap` and `rand`, and
three conversions of `std`. Each call stands behind a wrapper or has a stated
specification, with a comment that names what is called.
