//! The control block of a TCP connection seen from the accepting side: sequence numbers that
//! wrap around, the congestion window, the packets in flight, the data received out of order,
//! and the classification of every incoming segment.

pub mod inflight;
pub mod laws;
pub mod reassembly;
pub mod reno;
pub mod segment;
pub mod send_window;
pub mod seqnum;
pub mod tcb;
