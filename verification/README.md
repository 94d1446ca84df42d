# veil

The decisions of an honest-front relay, of its client and of its measurement rig, written in Verus:
executable Rust whose behaviour is stated in contracts and proved.

- `src/protocol`: tickets, the session-bound auth record, variable-length integers, frames.
- `src/relay`: the ticket store, the routing of a connection to the tunnel or to the cover site, and
  the tunnel's forwarding rules.
- `src/client`: the method-selecting state machine, scoring per network, the veil-front probe and
  the data-plane session. All of it without I/O: sockets and clocks are the caller's.
- `src/trace`: what an observer gets from a capture. TCP reassembly, TLS record framing, features
  of a connection, and how well they tell two sets of captures apart. Times are whole microseconds
  and statistics are exact fractions.
- `src/buffers.rs`, `src/crypto.rs`, `src/encoding.rs`, and the slicing functions in
  `src/trace/packet.rs`: the calls into outside crates, with what is relied on of each.

Functions named `law_...` state what holds across functions: that a record is bound to its session,
that refused connections all look alike, that a capture gives back the records of the stream itself,
and so on.

`app/` holds the program `veil-trace` and the drivers for sockets, clocks and the database. The byte
format of frames and the pacing of cover traffic are supplied to the drivers by their caller.
