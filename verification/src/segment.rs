//! Incoming segments: what is read of their headers, and how they are classified.

use crate::seqnum::SeqNum;
use vstd::prelude::*;

verus! {

/// The state of a connection. A connection is always accepted, never opened, so it starts in
/// [`TcpState::Listen`].
#[derive(Debug, Clone, Copy, PartialEq, Eq, Structural)]
pub enum TcpState {
    Listen,
    SynReceived,
    Established,
    /// This side closes first; followed by `FinWait2`, `TimeWait` and `Closed`.
    FinWait1,
    FinWait2,
    TimeWait,
    /// The other side closes first; followed by `LastAck` and `Closed`.
    CloseWait,
    LastAck,
    Closed,
}

/// What an incoming segment is to the connection.
#[derive(Debug, Clone, Copy, PartialEq, Eq, Structural)]
pub enum PacketStatus {
    WindowUpdate,
    Invalid,
    RetransmissionRequest,
    NewPacket,
    Ack,
    KeepAlive,
    Fin,
    DuplicateAck,
    OutOfOrder,
}

/// The fields of a TCP header that the control block reads.
#[derive(Debug, Clone, Copy, PartialEq, Eq, Structural)]
pub struct SegmentHeader {
    pub sequence_number: u32,
    pub acknowledgment_number: u32,
    pub window_size: u16,
    pub fin: bool,
    pub ack: bool,
}

/// What a segment with payload that starts at `seq` is to a receiver that expects `expected`
/// next: data in turn, data ahead of its turn, or data that was there before.
pub open spec fn data_status(seq: SeqNum, expected: SeqNum) -> PacketStatus {
    if seq == expected {
        PacketStatus::NewPacket
    } else if seq.is_after(expected) {
        PacketStatus::OutOfOrder
    } else {
        PacketStatus::Invalid
    }
}

/// Classifies a segment with payload by its start and by what is expected next.
pub(crate) fn classify_data(seq: SeqNum, expected: SeqNum) -> (status: PacketStatus)
    ensures
        status == data_status(seq, expected),
{
    if seq == expected {
        PacketStatus::NewPacket
    } else if seq > expected {
        PacketStatus::OutOfOrder
    } else {
        PacketStatus::Invalid
    }
}

} // verus!
