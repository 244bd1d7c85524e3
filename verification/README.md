# tcp_control

The control block of a TCP connection, for a stack that accepts connections, written and proved
in Verus.

- `src/seqnum.rs`: sequence numbers that wrap around, and their order.
- `src/reno.rs`: the congestion window, after TCP Reno.
- `src/inflight.rs`: packets that were sent and are not acknowledged yet.
- `src/send_window.rs`: what those packets carry byte by byte, and what an acknowledgement leaves.
- `src/reassembly.rs`: data that arrived ahead of its turn.
- `src/segment.rs`: the states of a connection and the classes of incoming segments.
- `src/tcb.rs`: the control block itself.
- `src/laws.rs`: what holds of a control block as a whole.
- `app/`: headers parsed by `etherparse`, and logging.

The congestion control, the packets in flight and the control block each have a view in plain
mathematical values, and every operation on them says in its contract what it makes of that view.

`Tcb::new` is told whether the build is a debug build. If it is, connections send from a fixed
sequence number on; if not, the number is drawn from `rand`, and nothing is claimed of it.
