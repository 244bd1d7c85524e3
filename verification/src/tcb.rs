//! The control block of one connection.

use crate::inflight::{
    acknowledge, acknowledged_len, first_starting_at, lemma_first_index_in_range,
    position_starting_at, retain_ending_after, segments, take_acknowledged, wire_len,
    InflightPacket, Segment,
};
use crate::reassembly::{buffered, buffered_len, payloads, UnorderedPacket};
use crate::reno::{smaller, Reno, RenoView};
use crate::segment::{classify_data, data_status, PacketStatus, SegmentHeader, TcpState};
use crate::seqnum::SeqNum;
use std::collections::{BTreeMap, VecDeque};
use vstd::prelude::*;

verus! {

/// The number of bytes that may wait for their turn.
pub const READ_BUFFER_SIZE: usize = 16384;

/// The number of duplicate acknowledgements that ask for a retransmission.
pub const MAX_COUNT_FOR_DUP_ACK: usize = 3;

/// The sequence number from which connections of a debug build send.
pub const DEBUG_INITIAL_SEQ: u32 = 100;

/// The state of a control block in plain values.
#[verifier::ext_equal]
pub struct TcbView {
    /// The sequence number of the next byte to be sent.
    pub seq: SeqNum,
    /// The sequence number of the next byte expected from the peer.
    pub ack: SeqNum,
    /// The latest acknowledgement of the peer.
    pub last_received_ack: SeqNum,
    /// How often in a row the peer repeated that acknowledgement.
    pub duplicate_ack_count: nat,
    pub state: TcpState,
    pub reno: RenoView,
    /// What was sent and is not acknowledged yet.
    pub inflight: Seq<Segment>,
    /// What arrived ahead of its turn, each payload under the sequence number of its start.
    pub unordered: Map<u32, Seq<u8>>,
}

impl TcbView {
    /// A new connection that sends from `seq` on, expects `ack` next, and has the maximum
    /// segment size `mss`.
    pub open spec fn fresh(seq: SeqNum, ack: SeqNum, mss: nat) -> TcbView {
        TcbView {
            seq,
            ack,
            last_received_ack: seq,
            duplicate_ack_count: 0,
            state: TcpState::Listen,
            reno: RenoView::fresh(mss),
            inflight: Seq::empty(),
            unordered: Map::empty(),
        }
    }

    /// Finitely many payloads wait, the count of duplicates fits its counter, and the congestion
    /// control is well-formed.
    pub open spec fn wf(self) -> bool {
        &&& self.unordered.dom().finite()
        &&& self.duplicate_ack_count <= usize::MAX
        &&& self.reno.wf()
    }

    /// Whether `rcvd_ack` repeats the latest acknowledgement while sent data is outstanding.
    pub open spec fn is_duplicate_ack(self, rcvd_ack: SeqNum) -> bool {
        rcvd_ack == self.last_received_ack && rcvd_ack.is_before(self.seq)
    }

    /// After `rcvd_ack` was counted: one more duplicate, or none in a row.
    pub open spec fn after_counting(self, rcvd_ack: SeqNum) -> TcbView {
        TcbView {
            duplicate_ack_count: if self.is_duplicate_ack(rcvd_ack) {
                smaller(self.duplicate_ack_count + 1, usize::MAX as nat)
            } else {
                0
            },
            ..self
        }
    }

    /// After `payload` arrived at `seq`: it waits, unless it starts before what is expected
    /// next. What waited at the same place is replaced.
    pub open spec fn after_unordered(self, seq: SeqNum, payload: Seq<u8>) -> TcbView {
        if seq.is_before(self.ack) {
            self
        } else {
            TcbView { unordered: self.unordered.insert(seq.0, payload), ..self }
        }
    }

    /// The waiting payload whose turn it is.
    pub open spec fn ready(self) -> Option<Seq<u8>> {
        if self.unordered.contains_key(self.ack.0) {
            Some(self.unordered[self.ack.0])
        } else {
            None
        }
    }

    /// After the waiting payload whose turn it is was handed out.
    pub open spec fn after_ready(self) -> TcbView {
        match self.ready() {
            Some(payload) => TcbView {
                ack: self.ack.plus(payload.len() as int),
                unordered: self.unordered.remove(self.ack.0),
                ..self
            },
            None => self,
        }
    }

    /// The number of bytes that may still be stored ahead of their turn.
    pub open spec fn available(self) -> int {
        if buffered(self.unordered) < READ_BUFFER_SIZE {
            READ_BUFFER_SIZE - buffered(self.unordered)
        } else {
            0
        }
    }

    /// After `payload` was sent: it is in flight, and the next byte follows it.
    pub open spec fn after_sent(self, payload: Seq<u8>) -> TcbView {
        TcbView {
            inflight: self.inflight.push(Segment { seq: self.seq, payload }),
            seq: self.seq.plus(payload.len() as int),
            ..self
        }
    }

    /// After the peer acknowledged everything before `ack`: what it covers is no longer in
    /// flight, and the congestion window learns how far it reached into a packet.
    pub open spec fn after_queue_update(self, ack: SeqNum) -> TcbView {
        TcbView {
            inflight: acknowledge(self.inflight, ack),
            reno: match acknowledged_len(self.inflight, ack) {
                Some(len) => self.reno.after_ack(len as nat),
                None => self.reno,
            },
            ..self
        }
    }

    /// After the peer's latest acknowledgement became `ack`. Only an established connection
    /// takes packets out of flight.
    pub open spec fn after_last_received_ack(self, ack: SeqNum) -> TcbView {
        let noted = TcbView { last_received_ack: ack, ..self };
        if self.state == TcpState::Established {
            noted.after_queue_update(ack)
        } else {
            noted
        }
    }

    /// The congestion window cut to the 16 bits of a window field.
    pub open spec fn cwnd_low_bits(self) -> int {
        self.reno.cwnd as int % 0x1_0000
    }

    /// The congestion window, or the largest window that a window field can hold.
    pub open spec fn effective_send_window(self) -> nat {
        smaller(self.reno.cwnd, u16::MAX as nat)
    }

    /// The number of bytes sent after the latest acknowledgement.
    pub open spec fn outstanding(self) -> int {
        self.seq.ahead_of(self.last_received_ack)
    }

    /// Whether this side has sent its farewell and the other has not.
    pub open spec fn awaits_fin(self) -> bool {
        self.state == TcpState::FinWait1 || self.state == TcpState::FinWait2
    }

    /// What a segment is to a connection that still takes data.
    pub open spec fn transfer_status(
        self,
        header: SegmentHeader,
        payload: Seq<u8>,
    ) -> PacketStatus {
        let rcvd_ack = SeqNum(header.acknowledgment_number);
        let rcvd_seq = SeqNum(header.sequence_number);
        if rcvd_ack.is_before(self.last_received_ack) {
            PacketStatus::Invalid
        } else if payload.len() > 0 {
            data_status(rcvd_seq, self.ack)
        } else if self.awaits_fin() && header.fin && header.ack {
            PacketStatus::Fin
        } else if rcvd_ack != self.last_received_ack {
            PacketStatus::Ack
        } else if header.window_size != self.cwnd_low_bits() {
            PacketStatus::WindowUpdate
        } else if self.awaits_fin() {
            PacketStatus::DuplicateAck
        } else if rcvd_seq == self.ack.plus(-1) {
            PacketStatus::KeepAlive
        } else if self.seq != self.last_received_ack && self.duplicate_ack_count
            >= MAX_COUNT_FOR_DUP_ACK {
            PacketStatus::RetransmissionRequest
        } else {
            PacketStatus::DuplicateAck
        }
    }

    /// What a segment is to the connection.
    pub open spec fn packet_status(self, header: SegmentHeader, payload: Seq<u8>) -> PacketStatus {
        let rcvd_ack = SeqNum(header.acknowledgment_number);
        let rcvd_seq = SeqNum(header.sequence_number);
        if rcvd_ack.is_after(self.seq) {
            PacketStatus::Invalid
        } else {
            match self.state {
                TcpState::Listen | TcpState::Closed => PacketStatus::Invalid,
                TcpState::SynReceived => if header.ack && rcvd_ack == self.seq && rcvd_seq
                    == self.ack {
                    PacketStatus::Ack
                } else {
                    PacketStatus::Invalid
                },
                TcpState::Established | TcpState::FinWait1 | TcpState::FinWait2 => {
                    self.transfer_status(header, payload)
                },
                TcpState::CloseWait => if rcvd_ack.is_after(self.last_received_ack) {
                    if payload.len() > 0 {
                        PacketStatus::Invalid
                    } else {
                        PacketStatus::Ack
                    }
                } else if header.window_size != self.cwnd_low_bits() {
                    PacketStatus::WindowUpdate
                } else {
                    PacketStatus::DuplicateAck
                },
                TcpState::LastAck => if header.ack && rcvd_ack.is_after(self.last_received_ack)
                    && payload.len() == 0 {
                    PacketStatus::Ack
                } else {
                    PacketStatus::Invalid
                },
                TcpState::TimeWait => if header.fin && header.ack && rcvd_ack == self.seq
                    && rcvd_seq == self.ack.plus(-1) {
                    PacketStatus::Fin
                } else {
                    PacketStatus::Invalid
                },
            }
        }
    }
}

/// Declares `std::io::Error`, which stands in the result type of
/// [`Tcb::add_inflight_packet`] and is never made or looked into here.
#[verifier::external_type_specification]
#[verifier::external_body]
pub struct ExIoError(std::io::Error);

/// Draws the initial sequence number of a connection with `rand::Rng::random`, from the
/// generator of the thread that `rand::rng` hands out. Any number can come back, so nothing is
/// claimed of it. `rand::rng` panics where the operating system gives no seed for the generator
/// of the thread, and the draw where it gives none when that generator is due for a new one;
/// no argument can rule out either.
#[verifier::external_body]
fn random_u32() -> (number: u32)
{
    rand::Rng::random::<u32>(&mut rand::rng())
}

/// The control block of one connection.
#[derive(Debug)]
pub struct Tcb {
    seq: SeqNum,
    ack: SeqNum,
    last_received_ack: SeqNum,
    duplicate_ack_count: usize,
    state: TcpState,
    reno: Reno,
    inflight_packets: VecDeque<InflightPacket>,
    unordered_packets: BTreeMap<u32, UnorderedPacket>,
}

impl View for Tcb {
    type V = TcbView;

    closed spec fn view(&self) -> TcbView {
        TcbView {
            seq: self.seq,
            ack: self.ack,
            last_received_ack: self.last_received_ack,
            duplicate_ack_count: self.duplicate_ack_count as nat,
            state: self.state,
            reno: self.reno@,
            inflight: segments(self.inflight_packets@),
            unordered: payloads(self.unordered_packets@),
        }
    }
}

impl Tcb {
    /// A control block is well-formed where its congestion control is.
    proof fn lemma_wf(self)
        requires
            self.reno@.wf(),
        ensures
            self@.wf(),
    {
        assert(self@.unordered.dom() =~= self.unordered_packets@.dom());
    }

    /// Classifies a segment.
    pub fn check_pkt_type(&self, tcp_header: &SegmentHeader, payload: &[u8]) -> (status:
        PacketStatus)
        ensures
            status == self@.packet_status(*tcp_header, payload@),
            self@.wf(),
    {
        proof {
            use_type_invariant(&self.reno);
            self.lemma_wf();
        }
        let rcvd_ack = SeqNum(tcp_header.acknowledgment_number);
        let rcvd_seq = SeqNum(tcp_header.sequence_number);
        let rcvd_window: u16 = tcp_header.window_size;
        let has_fin = tcp_header.fin;
        let has_ack = tcp_header.ack;

        let cwnd: u16 = self.get_send_window_low_bits();
        let last_received_ack = self.last_received_ack;
        let local_seq = self.seq;
        let local_ack = self.ack;
        let duplicate_ack_count: usize = self.get_duplicate_ack_count();

        if rcvd_ack > local_seq {
            return PacketStatus::Invalid;
        }
        match self.state {
            TcpState::Listen => PacketStatus::Invalid,
            TcpState::SynReceived => {
                if has_ack && rcvd_ack == local_seq && rcvd_seq == local_ack {
                    PacketStatus::Ack  // the handshake is complete
                } else {
                    PacketStatus::Invalid
                }
            },
            TcpState::Established => {
                if rcvd_ack < last_received_ack {
                    PacketStatus::Invalid  // stale acknowledgement
                } else if !payload.is_empty() {
                    classify_data(rcvd_seq, local_ack)
                } else if rcvd_ack > last_received_ack {
                    PacketStatus::Ack
                } else if rcvd_window != cwnd {
                    PacketStatus::WindowUpdate
                } else if rcvd_seq == local_ack - 1 {
                    PacketStatus::KeepAlive
                } else if local_seq != last_received_ack && duplicate_ack_count
                    >= MAX_COUNT_FOR_DUP_ACK {
                    PacketStatus::RetransmissionRequest
                } else {
                    PacketStatus::DuplicateAck
                }
            },
            TcpState::FinWait1 | TcpState::FinWait2 => {
                if rcvd_ack < last_received_ack {
                    PacketStatus::Invalid
                } else if !payload.is_empty() {
                    classify_data(rcvd_seq, local_ack)
                } else if has_fin && has_ack {
                    PacketStatus::Fin  // the other side is closed
                } else if rcvd_ack > last_received_ack {
                    PacketStatus::Ack  // confirms our farewell
                } else if rcvd_window != cwnd {
                    PacketStatus::WindowUpdate
                } else {
                    PacketStatus::DuplicateAck
                }
            },
            TcpState::CloseWait => {
                if rcvd_ack <= last_received_ack {
                    if rcvd_window != cwnd {
                        PacketStatus::WindowUpdate
                    } else {
                        PacketStatus::DuplicateAck  // the other side waits for our farewell
                    }
                } else if !payload.is_empty() {
                    PacketStatus::Invalid  // no data is taken after the other side has closed
                } else {
                    PacketStatus::Ack
                }
            },
            TcpState::LastAck => {
                if has_ack && rcvd_ack > last_received_ack && payload.is_empty() {
                    PacketStatus::Ack  // confirms our farewell
                } else {
                    PacketStatus::Invalid
                }
            },
            TcpState::TimeWait => {
                if has_fin && has_ack && rcvd_ack == local_seq && rcvd_seq == local_ack - 1 {
                    PacketStatus::Fin  // the farewell was sent again
                } else {
                    PacketStatus::Invalid
                }
            },
            TcpState::Closed => PacketStatus::Invalid,
        }
    }

    /// Takes everything before `ack` out of flight, and tells the congestion control how far
    /// `ack` reached into the packet that holds the last acknowledged byte.
    pub fn update_inflight_packet_queue(&mut self, ack: SeqNum)
        ensures
            final(self)@ == old(self)@.after_queue_update(ack),
            final(self)@.wf(),
    {
        proof {
            use_type_invariant(&self.reno);
            self.lemma_wf();
        }
        if let Some(distance) = take_acknowledged(&mut self.inflight_packets, ack) {
            self.reno.on_ack(distance);
        }
        retain_ending_after(&mut self.inflight_packets, ack);
    }

    /// Notes `ack` as the latest acknowledgement of the peer, and takes what it covers out of
    /// flight where the connection is established.
    pub fn update_last_received_ack(&mut self, ack: SeqNum)
        ensures
            final(self)@ == old(self)@.after_last_received_ack(ack),
            final(self)@.wf(),
    {
        proof {
            use_type_invariant(&self.reno);
            self.lemma_wf();
        }
        self.last_received_ack = ack;

        if self.state != TcpState::Established {
            return;
        }
        self.update_inflight_packet_queue(ack);
    }

    /// A new connection that expects `ack` next and has the maximum segment size `mss`. It sends
    /// from a random sequence number on, and in a debug build always from the same one.
    pub fn new(ack: SeqNum, mss: usize, debug_build: bool) -> (tcb: Tcb)
        ensures
            tcb@ == TcbView::fresh(tcb@.seq, ack, mss as nat),
            debug_build ==> tcb@.seq == SeqNum(DEBUG_INITIAL_SEQ),
            tcb@.wf(),
    {
        let seq: u32 = if debug_build {
            DEBUG_INITIAL_SEQ
        } else {
            random_u32()
        };
        Tcb::with_initial_seq(SeqNum::from(seq), ack, mss)
    }

    /// A new connection that sends from `seq` on, expects `ack` next, and has the maximum
    /// segment size `mss`.
    pub fn with_initial_seq(seq: SeqNum, ack: SeqNum, mss: usize) -> (tcb: Tcb)
        ensures
            tcb@ == TcbView::fresh(seq, ack, mss as nat),
            tcb@.wf(),
    {
        let tcb = Tcb {
            seq,
            ack,
            last_received_ack: seq,
            duplicate_ack_count: 0,
            state: TcpState::Listen,
            reno: Reno::new(mss),
            inflight_packets: VecDeque::new(),
            unordered_packets: BTreeMap::new(),
        };
        assert(tcb@ =~= TcbView::fresh(seq, ack, mss as nat));
        tcb
    }

    /// Counts the acknowledgement `rcvd_ack` as a duplicate where it repeats the latest one while
    /// sent data is outstanding, and starts to count anew where it does not.
    pub fn update_duplicate_ack_count(&mut self, rcvd_ack: SeqNum)
        ensures
            final(self)@ == old(self)@.after_counting(rcvd_ack),
            final(self)@.wf(),
    {
        proof {
            use_type_invariant(&self.reno);
            self.lemma_wf();
        }
        if rcvd_ack == self.last_received_ack && rcvd_ack < self.seq {
            self.duplicate_ack_count = self.duplicate_ack_count.saturating_add(1);
        } else {
            self.duplicate_ack_count = 0;
        }
    }

    /// Stores a payload that arrived ahead of its turn; one that starts before what is expected
    /// next is dropped.
    pub fn add_unordered_packet(&mut self, seq: SeqNum, buf: Vec<u8>)
        ensures
            final(self)@ == old(self)@.after_unordered(seq, buf@),
            final(self)@.wf(),
    {
        proof {
            use_type_invariant(&self.reno);
            self.lemma_wf();
        }
        if seq < self.ack {
            return;
        }
        self.unordered_packets.insert(seq.0, UnorderedPacket::new(buf));
        assert(self@.unordered =~= old(self)@.unordered.insert(seq.0, buf@));
    }

    /// Hands out the waiting payload whose turn it is, and expects what follows it next.
    pub fn get_unordered_packets(&mut self) -> (payload: Option<Vec<u8>>)
        ensures
            match payload {
                Some(bytes) => old(self)@.ready() == Some(bytes@),
                None => old(self)@.ready() is None,
            },
            final(self)@ == old(self)@.after_ready(),
            final(self)@.wf(),
    {
        proof {
            use_type_invariant(&self.reno);
            self.lemma_wf();
        }
        let removed = self.unordered_packets.remove(&self.ack.0);
        assert(self@.unordered =~= old(self)@.unordered.remove(old(self)@.ack.0));
        match removed {
            Some(packet) => {
                self.ack = self.ack + wire_len(packet.payload.len());
                Some(packet.payload)
            },
            None => {
                assert(self@.unordered =~= old(self)@.unordered);
                None
            },
        }
    }

    /// The number of bytes that may still be stored ahead of their turn.
    pub fn get_available_read_buffer_size(&self) -> (size: usize)
        ensures
            size == self@.available(),
            self@.wf(),
    {
        proof {
            use_type_invariant(&self.reno);
            self.lemma_wf();
        }
        READ_BUFFER_SIZE.saturating_sub(buffered_len(&self.unordered_packets))
    }

    /// The window to announce to the peer.
    pub fn get_recv_window(&self) -> (window: u16)
        ensures
            window == self@.available(),
    {
        self.get_available_read_buffer_size() as u16
    }

    /// Puts a packet with the payload `buf` in flight, and sends what follows it next. This never
    /// fails.
    pub fn add_inflight_packet(&mut self, buf: Vec<u8>) -> (result: std::io::Result<()>)
        ensures
            result == Ok::<(), std::io::Error>(()),
            final(self)@ == old(self)@.after_sent(buf@),
            final(self)@.wf(),
    {
        proof {
            use_type_invariant(&self.reno);
            self.lemma_wf();
        }
        let buf_len: u32 = wire_len(buf.len());
        self.inflight_packets.push_back(InflightPacket::new(self.seq, buf));
        self.seq = self.seq + buf_len;
        assert(self@.inflight =~= old(self)@.after_sent(buf@).inflight);
        Ok(())
    }

    /// The first packet in flight that starts at `seq`.
    pub fn find_inflight_packet(&self, seq: SeqNum) -> (packet: Option<&InflightPacket>)
        ensures
            match (packet, first_starting_at(self@.inflight, seq)) {
                (Some(p), Some(i)) => p@ == self@.inflight[i],
                (None, None) => true,
                _ => false,
            },
    {
        match position_starting_at(&self.inflight_packets, seq) {
            Some(index) => {
                proof {
                    lemma_first_index_in_range(self@.inflight, |p: Segment| p.seq == seq);
                }
                Some(&self.inflight_packets[index])
            },
            None => None,
        }
    }

    /// All packets in flight.
    pub fn get_all_inflight_packets(&self) -> (packets: &VecDeque<InflightPacket>)
        ensures
            segments(packets@) == self@.inflight,
    {
        &self.inflight_packets
    }

    /// Whether as much is outstanding as the congestion window allows.
    pub fn is_send_buffer_full(&self) -> (full: bool)
        ensures
            full == (self@.outstanding() >= self@.effective_send_window()),
    {
        let effective_window: u32 = self.get_effective_send_window() as u32;
        (self.seq - self.last_received_ack).0 >= effective_window
    }

    /// The congestion window, or the largest window that a window field can hold.
    pub fn get_effective_send_window(&self) -> (window: u16)
        ensures
            window == self@.effective_send_window(),
    {
        self.reno.window().min(u16::MAX as usize) as u16
    }

    /// The congestion window cut to the 16 bits of a window field, as it is held against the
    /// window of an incoming segment.
    pub fn get_send_window_low_bits(&self) -> (window: u16)
        ensures
            window == self@.cwnd_low_bits(),
    {
        low_bits(self.reno.window())
    }

    /// Takes note of the window that the peer announced. The ceiling of the congestion window is
    /// above every window that the peer can announce, so nothing changes.
    pub fn update_send_window(&mut self, window: u16)
        ensures
            final(self)@ == (TcbView {
                reno: old(self)@.reno.after_remote_window(window as nat),
                ..old(self)@
            }),
            final(self)@ == old(self)@,
            final(self)@.wf(),
    {
        proof {
            use_type_invariant(&self.reno);
            self.lemma_wf();
        }
        self.reno.set_remote_window(window as usize);
    }

    /// Lowers the slow start threshold.
    pub fn on_duplicate_ack(&mut self)
        ensures
            final(self)@ == (TcbView { reno: old(self)@.reno.after_duplicate_ack(), ..old(self)@ }),
            final(self)@.wf(),
    {
        proof {
            use_type_invariant(&self.reno);
            self.lemma_wf();
        }
        self.reno.on_duplicate_ack();
    }

    /// Halves the congestion window after the transmission of a packet timed out.
    pub fn on_retransmit(&mut self)
        ensures
            final(self)@ == (TcbView { reno: old(self)@.reno.after_retransmit(), ..old(self)@ }),
            final(self)@.wf(),
    {
        proof {
            use_type_invariant(&self.reno);
            self.lemma_wf();
        }
        self.reno.on_retransmit();
    }

    /// Counts one sequence number as sent.
    pub fn increase_seq(&mut self)
        ensures
            final(self)@ == (TcbView { seq: old(self)@.seq.plus(1), ..old(self)@ }),
            final(self)@.wf(),
    {
        proof {
            use_type_invariant(&self.reno);
            self.lemma_wf();
        }
        self.seq = self.seq + 1;
    }

    /// Counts one sequence number as received.
    pub fn increase_ack(&mut self)
        ensures
            final(self)@ == (TcbView { ack: old(self)@.ack.plus(1), ..old(self)@ }),
            final(self)@.wf(),
    {
        proof {
            use_type_invariant(&self.reno);
            self.lemma_wf();
        }
        self.ack = self.ack + 1;
    }

    /// Puts the connection into another state.
    pub fn change_state(&mut self, state: TcpState)
        ensures
            final(self)@ == (TcbView { state, ..old(self)@ }),
            final(self)@.wf(),
    {
        proof {
            use_type_invariant(&self.reno);
            self.lemma_wf();
        }
        self.state = state;
    }

    /// How often in a row the peer repeated its latest acknowledgement.
    pub fn get_duplicate_ack_count(&self) -> (count: usize)
        ensures
            count == self@.duplicate_ack_count,
            self@.wf(),
    {
        proof {
            use_type_invariant(&self.reno);
            self.lemma_wf();
        }
        self.duplicate_ack_count
    }

    /// The sequence number of the next byte to be sent.
    pub fn get_seq(&self) -> (seq: SeqNum)
        ensures
            seq == self@.seq,
    {
        self.seq
    }

    /// The sequence number of the next byte expected from the peer.
    pub fn get_ack(&self) -> (ack: SeqNum)
        ensures
            ack == self@.ack,
    {
        self.ack
    }

    /// The latest acknowledgement of the peer.
    pub fn get_last_received_ack(&self) -> (ack: SeqNum)
        ensures
            ack == self@.last_received_ack,
    {
        self.last_received_ack
    }

    /// The state of the connection.
    pub fn get_state(&self) -> (state: TcpState)
        ensures
            state == self@.state,
    {
        self.state
    }
}

/// The lowest 16 bits of a window.
fn low_bits(window: usize) -> (bits: u16)
    ensures
        bits == window as int % 0x1_0000,
{
    let bits: u16 = #[verifier::truncate] (window as u16);
    assert((window as u16) as u64 == (window as u64) % 0x1_0000u64) by (bit_vector);
    bits
}

} // verus!
