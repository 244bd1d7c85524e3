//! What holds of a control block as a whole, whatever calls it sees.

use crate::inflight::{acknowledge, first_starting_at, Segment};
use crate::reassembly::{buffered, law_buffered_bytes_add_up, lemma_buffered_remove};
use crate::reno::{larger, smaller, INITIAL_CWND, INITIAL_RWND};
use crate::segment::{PacketStatus, SegmentHeader, TcpState};
use crate::send_window::{
    carries, in_send_window, law_acknowledge_keeps_exactly_the_rest,
    law_acknowledge_moves_the_window, law_acknowledged_len_counts_the_bytes_of_its_segment,
    law_reached_segment_is_cut_and_moves_to_the_end, law_repeated_acknowledgement_changes_nothing,
    law_sending_extends_the_window, law_sent_packet_is_found,
    law_untouched_segments_keep_their_order, none_opposite, reached_by,
};
use crate::seqnum::{half_space, seq_space, SeqNum};
use crate::tcb::{TcbView, DEBUG_INITIAL_SEQ, MAX_COUNT_FOR_DUP_ACK, READ_BUFFER_SIZE};
use vstd::prelude::*;

verus! {

/// A new connection is well-formed and has nothing in flight, nothing outstanding and nothing
/// waiting; it may send, offers its whole read buffer, and takes no segment yet.
pub proof fn law_new_connection(
    seq: SeqNum,
    ack: SeqNum,
    mss: usize,
    header: SegmentHeader,
    payload: Seq<u8>,
)
    ensures
        ({
            let fresh = TcbView::fresh(seq, ack, mss as nat);
            &&& fresh.wf()
            &&& in_send_window(fresh.inflight, fresh.last_received_ack, fresh.seq)
            &&& fresh.outstanding() == 0
            &&& fresh.outstanding() < fresh.effective_send_window()
            &&& fresh.available() == READ_BUFFER_SIZE
            &&& fresh.ready() is None
            &&& fresh.packet_status(header, payload) == PacketStatus::Invalid
        }),
{
}

/// A payload that is stored at the place that is expected next is handed out by the next call,
/// and what is expected next moves behind it. If nothing waited in that place, the call leaves
/// waiting what waited before.
pub proof fn law_stored_payload_is_handed_out(t: TcbView, payload: Seq<u8>)
    ensures
        t.after_unordered(t.ack, payload).ready() == Some(payload),
        t.after_unordered(t.ack, payload).after_ready().ack == t.ack.plus(payload.len() as int),
        t.ready() is None ==> t.after_unordered(t.ack, payload).after_ready().unordered
            == t.unordered,
{
    assert(t.after_unordered(t.ack, payload).after_ready().unordered =~= t.unordered.remove(
        t.ack.0,
    ));
    if t.ready() is None {
        assert(t.unordered.remove(t.ack.0) =~= t.unordered);
    }
}

/// A payload that does not start before what is expected next waits under its place, also for
/// as long as other places are filled or emptied; one that does is dropped.
pub proof fn law_waiting_payloads_are_kept(
    t: TcbView,
    seq: SeqNum,
    payload: Seq<u8>,
    other: SeqNum,
    other_payload: Seq<u8>,
)
    ensures
        seq.is_before(t.ack) ==> t.after_unordered(seq, payload) == t,
        !seq.is_before(t.ack) ==> t.after_unordered(seq, payload).unordered.contains_key(seq.0)
            && t.after_unordered(seq, payload).unordered[seq.0] == payload,
        t.unordered.contains_key(seq.0) && seq != other ==> t.after_unordered(
            other,
            other_payload,
        ).unordered.contains_key(seq.0) && t.after_unordered(other, other_payload).unordered[seq.0]
            == t.unordered[seq.0],
        t.unordered.contains_key(seq.0) && seq != t.ack ==> t.after_ready().unordered.contains_key(
            seq.0,
        ) && t.after_ready().unordered[seq.0] == t.unordered[seq.0],
{
}

/// Storing a payload in a free place takes its length out of the buffer, and handing a payload
/// out gives its length back.
pub proof fn law_buffer_is_accounted_for(t: TcbView, seq: SeqNum, payload: Seq<u8>)
    requires
        t.wf(),
    ensures
        !seq.is_before(t.ack) && !t.unordered.contains_key(seq.0) ==> buffered(
            t.after_unordered(seq, payload).unordered,
        ) == buffered(t.unordered) + payload.len(),
        match t.ready() {
            Some(out) => buffered(t.after_ready().unordered) == buffered(t.unordered) - out.len(),
            None => t.after_ready() == t,
        },
        0 <= t.available() <= READ_BUFFER_SIZE,
{
    if !seq.is_before(t.ack) && !t.unordered.contains_key(seq.0) {
        let filled = t.unordered.insert(seq.0, payload);
        lemma_buffered_remove(filled, seq.0);
        assert(filled.remove(seq.0) =~= t.unordered);
    }
    if t.ready() is Some {
        lemma_buffered_remove(t.unordered, t.ack.0);
    }
}

/// The bytes that `calls` calls in a row hand out.
pub open spec fn handed_out(t: TcbView, calls: nat) -> Seq<u8>
    decreases calls,
{
    if calls == 0 {
        Seq::empty()
    } else {
        let first = match t.ready() {
            Some(payload) => payload,
            None => Seq::empty(),
        };
        first + handed_out(t.after_ready(), (calls - 1) as nat)
    }
}

/// The control block after `calls` calls in a row.
pub open spec fn after_handing_out(t: TcbView, calls: nat) -> TcbView
    decreases calls,
{
    if calls == 0 {
        t
    } else {
        after_handing_out(t.after_ready(), (calls - 1) as nat)
    }
}

/// What is expected next always moves on by exactly the number of bytes handed out.
pub proof fn law_expected_moves_with_the_bytes(t: TcbView, calls: nat)
    ensures
        after_handing_out(t, calls).ack == t.ack.plus(handed_out(t, calls).len() as int),
    decreases calls,
{
    if calls > 0 {
        law_expected_moves_with_the_bytes(t.after_ready(), (calls - 1) as nat);
    }
}

/// The number of bytes in a series of payloads.
pub open spec fn total_len(chunks: Seq<Seq<u8>>) -> nat
    decreases chunks.len(),
{
    if chunks.len() == 0 {
        0
    } else {
        chunks.first().len() + total_len(chunks.drop_first())
    }
}

/// The payloads of a series one after the other.
pub open spec fn joined(chunks: Seq<Seq<u8>>) -> Seq<u8>
    decreases chunks.len(),
{
    if chunks.len() == 0 {
        Seq::empty()
    } else {
        chunks.first() + joined(chunks.drop_first())
    }
}

/// Whether the payload at `i` of a series waits behind the ones before it, which start with what
/// is expected next.
pub open spec fn waits_in_turn(t: TcbView, chunks: Seq<Seq<u8>>, i: int) -> bool {
    let place = t.ack.plus(total_len(chunks.take(i)) as int);
    t.unordered.contains_key(place.0) && t.unordered[place.0] == chunks[i]
}

/// Whether the payloads of a series wait one behind the other, from what is expected next on.
pub open spec fn wait_in_line(t: TcbView, chunks: Seq<Seq<u8>>) -> bool {
    forall|i: int| 0 <= i < chunks.len() ==> #[trigger] waits_in_turn(t, chunks, i)
}

proof fn lemma_total_len_grows(chunks: Seq<Seq<u8>>, i: int)
    requires
        0 <= i < chunks.len(),
    ensures
        total_len(chunks.take(i)) + chunks[i].len() <= total_len(chunks),
    decreases chunks.len(),
{
    if i > 0 {
        lemma_total_len_grows(chunks.drop_first(), i - 1);
        assert(chunks.take(i).drop_first() =~= chunks.drop_first().take(i - 1));
    }
}

/// Payloads that wait one behind the other come out in order and whole, in whatever order they
/// arrived: as many calls as there are payloads hand out all their bytes. Only the last of them
/// may be empty, and the others together are shorter than the sequence space: else two of them
/// would wait in one place.
pub proof fn law_payloads_come_out_in_order(t: TcbView, chunks: Seq<Seq<u8>>)
    requires
        wait_in_line(t, chunks),
        forall|i: int| 0 <= i < chunks.len() - 1 ==> (#[trigger] chunks[i]).len() > 0,
        chunks.len() > 0 ==> total_len(chunks.drop_last()) < seq_space(),
    ensures
        handed_out(t, chunks.len()) == joined(chunks),
        after_handing_out(t, chunks.len()).ack == t.ack.plus(joined(chunks).len() as int),
    decreases chunks.len(),
{
    law_expected_moves_with_the_bytes(t, chunks.len());
    if chunks.len() > 0 {
        let rest = chunks.drop_first();
        let next = t.after_ready();
        assert(chunks.take(0).len() == 0);
        assert(waits_in_turn(t, chunks, 0));
        assert(t.ack.plus(0) == t.ack);
        assert(t.ready() == Some(chunks[0]));
        assert forall|i: int| 0 <= i < rest.len() implies #[trigger] waits_in_turn(
            next,
            rest,
            i,
        ) by {
            let before = chunks.take(i + 1);
            assert(waits_in_turn(t, chunks, i + 1));
            assert(before.drop_first() =~= rest.take(i));
            if i + 1 < chunks.len() - 1 {
                lemma_total_len_grows(chunks.drop_last(), i + 1);
                assert(chunks.drop_last().take(i + 1) =~= before);
            } else {
                assert(chunks.drop_last() =~= before);
            }
            let place = t.ack.plus(total_len(before) as int);
            assert(place == next.ack.plus(total_len(rest.take(i)) as int));
            assert(0 < total_len(before) < seq_space());
            assert(place.0 != t.ack.0);
        }
        assert forall|i: int| 0 <= i < rest.len() - 1 implies (#[trigger] rest[i]).len() > 0 by {
            assert(rest[i] == chunks[i + 1]);
        }
        if rest.len() > 0 {
            assert(chunks.drop_last().drop_first() =~= rest.drop_last());
        }
        law_payloads_come_out_in_order(next, rest);
    }
}

/// A packet that is sent can be found again by the sequence number that was next when it was
/// sent, unless one that started there was in flight before.
pub proof fn law_sent_packet_can_be_found(t: TcbView, payload: Seq<u8>)
    requires
        first_starting_at(t.inflight, t.seq) is None,
    ensures
        ({
            let sent = t.after_sent(payload);
            &&& first_starting_at(sent.inflight, t.seq) == Some(t.inflight.len() as int)
            &&& sent.inflight[t.inflight.len() as int] == (Segment { seq: t.seq, payload })
        }),
{
    law_sent_packet_is_found(t.inflight, Segment { seq: t.seq, payload });
}

/// What is sent from a window of packets in flight is in flight, byte for byte, beside what was
/// there, as long as the window does not exceed half a circle.
pub proof fn law_sent_bytes_are_in_flight(
    t: TcbView,
    una: SeqNum,
    payload: Seq<u8>,
    s: SeqNum,
    b: u8,
)
    requires
        in_send_window(t.inflight, una, t.seq),
        t.seq.ahead_of(una) + payload.len() <= half_space(),
    ensures
        in_send_window(t.after_sent(payload).inflight, una, t.after_sent(payload).seq),
        carries(t.after_sent(payload).inflight, s, b) <==> carries(t.inflight, s, b) || (Segment {
            seq: t.seq,
            payload,
        }).byte_at(s) == Some(b),
{
    law_sending_extends_the_window(t.inflight, una, t.seq, payload, s, b);
}

/// On an established connection an acknowledgement within the window takes exactly the bytes
/// before it out of flight, and a second one like it changes nothing more.
pub proof fn law_acknowledged_bytes_leave_flight(
    t: TcbView,
    una: SeqNum,
    ack: SeqNum,
    s: SeqNum,
    b: u8,
)
    requires
        t.state == TcpState::Established,
        in_send_window(t.inflight, una, t.seq),
        ack.ahead_of(una) <= t.seq.ahead_of(una),
        none_opposite(t.inflight, ack),
    ensures
        ({
            let acked = t.after_last_received_ack(ack);
            &&& acked.last_received_ack == ack
            &&& in_send_window(acked.inflight, ack, acked.seq)
            &&& carries(acked.inflight, s, b) <==> carries(t.inflight, s, b) && s.ahead_of(una)
                >= ack.ahead_of(una)
            &&& acked.after_last_received_ack(ack) == acked
        }),
{
    law_acknowledge_moves_the_window(t.inflight, una, t.seq, ack);
    law_acknowledge_keeps_exactly_the_rest(t.inflight, una, t.seq, ack, s, b);
    law_repeated_acknowledgement_changes_nothing(t.inflight, una, t.seq, ack);
}

/// In any other state an acknowledgement is only noted.
pub proof fn law_other_states_only_note_the_ack(t: TcbView, ack: SeqNum)
    requires
        t.state != TcpState::Established,
    ensures
        t.after_last_received_ack(ack) == (TcbView { last_received_ack: ack, ..t }),
{
}

/// The number of outstanding bytes grows by what is sent, as long as it is less than the sequence
/// space, and is zero once everything is acknowledged. So whoever sends only while the buffer is
/// not full exceeds the window by less than the last payload.
pub proof fn law_outstanding_bytes(t: TcbView, payload: Seq<u8>)
    ensures
        t.outstanding() + payload.len() < seq_space() ==> t.after_sent(payload).outstanding()
            == t.outstanding() + payload.len(),
        t.outstanding() < t.effective_send_window() ==> t.after_sent(payload).outstanding()
            < t.effective_send_window() + payload.len(),
        t.after_last_received_ack(t.seq).outstanding() == 0,
{
}

/// Announced windows change nothing on a well-formed connection: its ceiling is above every
/// window that a window field can hold.
pub proof fn law_announced_windows_change_nothing(t: TcbView, window: u16)
    requires
        t.wf(),
    ensures
        (TcbView { reno: t.reno.after_remote_window(window as nat), ..t }) == t,
{
}

/// The window that is compared with the one in a header is the window that may be sent, where a
/// window field can hold it.
pub proof fn law_small_windows_are_whole(t: TcbView)
    requires
        t.reno.cwnd <= u16::MAX,
    ensures
        t.cwnd_low_bits() == t.reno.cwnd,
        t.effective_send_window() == t.reno.cwnd,
{
}

/// The control block after the acknowledgement `rcvd_ack` was counted `times` times in a row.
pub open spec fn after_counting_all(t: TcbView, rcvd_ack: SeqNum, times: nat) -> TcbView
    decreases times,
{
    if times == 0 {
        t
    } else {
        after_counting_all(t, rcvd_ack, (times - 1) as nat).after_counting(rcvd_ack)
    }
}

/// Duplicates in a row are counted one by one, up to the limit of the counter, and change
/// nothing else.
pub proof fn law_duplicates_are_counted(t: TcbView, rcvd_ack: SeqNum, times: nat)
    requires
        t.wf(),
        t.is_duplicate_ack(rcvd_ack),
    ensures
        after_counting_all(t, rcvd_ack, times) == (TcbView {
            duplicate_ack_count: smaller(t.duplicate_ack_count + times, usize::MAX as nat),
            ..t
        }),
    decreases times,
{
    if times > 0 {
        law_duplicates_are_counted(t, rcvd_ack, (times - 1) as nat);
    }
}

/// Any other acknowledgement starts the count anew.
pub proof fn law_progress_resets_the_count(t: TcbView, rcvd_ack: SeqNum)
    requires
        !t.is_duplicate_ack(rcvd_ack),
    ensures
        t.after_counting(rcvd_ack).duplicate_ack_count == 0,
{
}

/// Three or more duplicates in a row make the next one, if it is a bare acknowledgement that
/// changes no window and probes nothing, a request for a retransmission.
pub proof fn law_three_duplicates_ask_for_retransmission(
    t: TcbView,
    header: SegmentHeader,
    times: nat,
)
    requires
        t.wf(),
        t.state == TcpState::Established,
        t.is_duplicate_ack(SeqNum(header.acknowledgment_number)),
        header.window_size == t.cwnd_low_bits(),
        SeqNum(header.sequence_number) != t.ack.plus(-1),
        times >= MAX_COUNT_FOR_DUP_ACK,
    ensures
        after_counting_all(t, SeqNum(header.acknowledgment_number), times).packet_status(
            header,
            Seq::empty(),
        ) == PacketStatus::RetransmissionRequest,
{
    law_duplicates_are_counted(t, SeqNum(header.acknowledgment_number), times);
}

/// An acknowledgement of something that was never sent makes a segment invalid in every state,
/// and so does one that the peer has already gone beyond while data is exchanged.
pub proof fn law_senseless_acks_are_invalid(t: TcbView, header: SegmentHeader, payload: Seq<u8>)
    ensures
        SeqNum(header.acknowledgment_number).is_after(t.seq) ==> t.packet_status(header, payload)
            == PacketStatus::Invalid,
        SeqNum(header.acknowledgment_number).is_before(t.last_received_ack) && takes_data(t)
            ==> t.packet_status(header, payload) == PacketStatus::Invalid,
        t.state == TcpState::Listen || t.state == TcpState::Closed ==> t.packet_status(
            header,
            payload,
        ) == PacketStatus::Invalid,
{
}

/// Whether the connection takes data.
pub open spec fn takes_data(t: TcbView) -> bool {
    t.state == TcpState::Established || t.awaits_fin()
}

/// Whether the acknowledgement of a segment lies between the latest one and what was sent.
pub open spec fn ack_is_current(t: TcbView, header: SegmentHeader) -> bool {
    &&& !SeqNum(header.acknowledgment_number).is_after(t.seq)
    &&& !SeqNum(header.acknowledgment_number).is_before(t.last_received_ack)
}

/// A segment is new data just where the connection takes data, the acknowledgement is current,
/// and there is a payload that starts at what is expected next; it is out of order just where
/// the payload starts after that.
pub proof fn law_when_data_is_taken(t: TcbView, header: SegmentHeader, payload: Seq<u8>)
    ensures
        t.packet_status(header, payload) == PacketStatus::NewPacket <==> {
            &&& takes_data(t)
            &&& ack_is_current(t, header)
            &&& payload.len() > 0
            &&& SeqNum(header.sequence_number) == t.ack
        },
        t.packet_status(header, payload) == PacketStatus::OutOfOrder <==> {
            &&& takes_data(t)
            &&& ack_is_current(t, header)
            &&& payload.len() > 0
            &&& SeqNum(header.sequence_number).is_after(t.ack)
        },
{
}

/// The payload of a segment that counts as new is handed out as soon as it is stored, that of
/// one out of order waits, and that of one refused as old is not stored.
pub proof fn law_classified_data_is_stored(t: TcbView, header: SegmentHeader, payload: Seq<u8>)
    ensures
        ({
            let seq = SeqNum(header.sequence_number);
            let status = t.packet_status(header, payload);
            let stored = t.after_unordered(seq, payload);
            &&& status == PacketStatus::NewPacket ==> stored.ready() == Some(payload)
            &&& status == PacketStatus::OutOfOrder ==> stored.unordered == t.unordered.insert(
                seq.0,
                payload,
            )
            &&& takes_data(t) && ack_is_current(t, header) && payload.len() > 0 && status
                == PacketStatus::Invalid ==> stored == t
        }),
{
}

/// A segment is a farewell just where this side has said its own and a bare one comes with a
/// current acknowledgement, or where the connection lingers and the last one comes again.
pub proof fn law_when_a_farewell_is_taken(t: TcbView, header: SegmentHeader, payload: Seq<u8>)
    ensures
        t.packet_status(header, payload) == PacketStatus::Fin <==> header.fin && header.ack && {
            ||| t.awaits_fin() && ack_is_current(t, header) && payload.len() == 0
            ||| {
                &&& t.state == TcpState::TimeWait
                &&& SeqNum(header.acknowledgment_number) == t.seq
                &&& SeqNum(header.sequence_number) == t.ack.plus(-1)
            }
        },
{
}

/// A segment asks for a retransmission just where an established connection has data
/// outstanding, the peer repeated its acknowledgement often enough, and a bare segment repeats
/// it once more, with the window unchanged, and not as a keep-alive probe. It is such a probe
/// just where it starts one before what is expected next.
pub proof fn law_when_data_is_sent_again(t: TcbView, header: SegmentHeader, payload: Seq<u8>)
    ensures
        ({
            let repeats = {
                &&& t.state == TcpState::Established
                &&& payload.len() == 0
                &&& SeqNum(header.acknowledgment_number) == t.last_received_ack
                &&& !t.last_received_ack.is_after(t.seq)
                &&& header.window_size == t.cwnd_low_bits()
            };
            let probes = SeqNum(header.sequence_number) == t.ack.plus(-1);
            &&& t.packet_status(header, payload) == PacketStatus::KeepAlive <==> repeats && probes
            &&& t.packet_status(header, payload) == PacketStatus::RetransmissionRequest
                <==> repeats && !probes && t.outstanding() > 0 && t.duplicate_ack_count
                >= MAX_COUNT_FOR_DUP_ACK
        }),
{
}

/// A segment acknowledges something just where it completes the handshake, or where it is bare
/// and goes beyond the latest acknowledgement but not beyond what was sent, on a connection that
/// takes data and gets no farewell, on one that the other side has closed, or on one that waits
/// for its last acknowledgement.
pub proof fn law_when_an_acknowledgement_is_taken(
    t: TcbView,
    header: SegmentHeader,
    payload: Seq<u8>,
)
    ensures
        ({
            let rcvd_ack = SeqNum(header.acknowledgment_number);
            let advances = {
                &&& !rcvd_ack.is_after(t.seq)
                &&& rcvd_ack.is_after(t.last_received_ack)
                &&& payload.len() == 0
            };
            t.packet_status(header, payload) == PacketStatus::Ack <==> {
                ||| {
                    &&& t.state == TcpState::SynReceived
                    &&& header.ack
                    &&& rcvd_ack == t.seq
                    &&& SeqNum(header.sequence_number) == t.ack
                }
                ||| advances && t.state == TcpState::Established
                ||| advances && t.awaits_fin() && !(header.fin && header.ack)
                ||| advances && t.state == TcpState::CloseWait
                ||| advances && t.state == TcpState::LastAck && header.ack
            }
        }),
{
}

/// A segment is a window update just where it acknowledges nothing new and its window differs
/// from the congestion window: on a connection that takes data, where it is bare, repeats the
/// latest acknowledgement and is no farewell; on one that the other side has closed, where its
/// acknowledgement is not beyond the latest one.
pub proof fn law_when_a_window_update_is_taken(
    t: TcbView,
    header: SegmentHeader,
    payload: Seq<u8>,
)
    ensures
        ({
            let rcvd_ack = SeqNum(header.acknowledgment_number);
            t.packet_status(header, payload) == PacketStatus::WindowUpdate <==> {
                &&& !rcvd_ack.is_after(t.seq)
                &&& header.window_size != t.cwnd_low_bits()
                &&& {
                    ||| {
                        &&& takes_data(t)
                        &&& rcvd_ack == t.last_received_ack
                        &&& payload.len() == 0
                        &&& !(t.awaits_fin() && header.fin && header.ack)
                    }
                    ||| t.state == TcpState::CloseWait && !rcvd_ack.is_after(t.last_received_ack)
                }
            }
        }),
{
}

/// A segment is a duplicate acknowledgement just where it acknowledges nothing new and leaves the
/// window as it is: on a connection that takes data, where it is bare, repeats the latest
/// acknowledgement, is no farewell, and, if the connection is established, neither probes nor
/// asks for a retransmission; on one that the other side has closed, where its acknowledgement is
/// not beyond the latest one.
pub proof fn law_when_a_duplicate_is_seen(t: TcbView, header: SegmentHeader, payload: Seq<u8>)
    ensures
        ({
            let rcvd_ack = SeqNum(header.acknowledgment_number);
            let probes = SeqNum(header.sequence_number) == t.ack.plus(-1);
            let asks = t.outstanding() > 0 && t.duplicate_ack_count >= MAX_COUNT_FOR_DUP_ACK;
            t.packet_status(header, payload) == PacketStatus::DuplicateAck <==> {
                &&& !rcvd_ack.is_after(t.seq)
                &&& header.window_size == t.cwnd_low_bits()
                &&& {
                    ||| {
                        &&& takes_data(t)
                        &&& rcvd_ack == t.last_received_ack
                        &&& payload.len() == 0
                        &&& !(t.awaits_fin() && header.fin && header.ack)
                        &&& t.state == TcpState::Established ==> !probes && !asks
                    }
                    ||| t.state == TcpState::CloseWait && !rcvd_ack.is_after(t.last_received_ack)
                }
            }
        }),
{
}

/// A segment is invalid just where it acknowledges something that was never sent, or where the
/// connection is not open, or not yet open and the segment does not complete the handshake, or
/// takes data and the acknowledgement is stale or the payload old, or was closed by the other
/// side and a new acknowledgement comes with data, or waits for its last acknowledgement or for
/// the farewell to come again and the segment is something else.
pub proof fn law_when_a_segment_is_invalid(t: TcbView, header: SegmentHeader, payload: Seq<u8>)
    ensures
        ({
            let rcvd_ack = SeqNum(header.acknowledgment_number);
            let rcvd_seq = SeqNum(header.sequence_number);
            t.packet_status(header, payload) == PacketStatus::Invalid <==> {
                ||| rcvd_ack.is_after(t.seq)
                ||| t.state == TcpState::Listen
                ||| t.state == TcpState::Closed
                ||| t.state == TcpState::SynReceived && !(header.ack && rcvd_ack == t.seq
                    && rcvd_seq == t.ack)
                ||| takes_data(t) && rcvd_ack.is_before(t.last_received_ack)
                ||| takes_data(t) && payload.len() > 0 && rcvd_seq.is_before(t.ack)
                ||| t.state == TcpState::CloseWait && rcvd_ack.is_after(t.last_received_ack)
                    && payload.len() > 0
                ||| t.state == TcpState::LastAck && !(header.ack && rcvd_ack.is_after(
                    t.last_received_ack,
                ) && payload.len() == 0)
                ||| t.state == TcpState::TimeWait && !(header.fin && header.ack && rcvd_ack == t.seq
                    && rcvd_seq == t.ack.plus(-1))
            }
        }),
{
}

/// Of the payload only whether there is one bears on the classification.
pub proof fn law_only_presence_of_payload_counts(
    t: TcbView,
    header: SegmentHeader,
    a: Seq<u8>,
    b: Seq<u8>,
)
    requires
        a.len() == 0 <==> b.len() == 0,
    ensures
        t.packet_status(header, a) == t.packet_status(header, b),
{
}

/// What can happen to a control block.
pub enum TcbEvent {
    Sent(Seq<u8>),
    LastReceivedAck(SeqNum),
    QueueUpdate(SeqNum),
    Counted(SeqNum),
    Stored(SeqNum, Seq<u8>),
    HandedOut,
    WindowAnnounced(u16),
    DuplicateAck,
    Retransmit,
    SeqIncreased,
    AckIncreased,
    StateChanged(TcpState),
}

/// The control block after one event.
pub open spec fn after_event(t: TcbView, event: TcbEvent) -> TcbView {
    match event {
        TcbEvent::Sent(payload) => t.after_sent(payload),
        TcbEvent::LastReceivedAck(ack) => t.after_last_received_ack(ack),
        TcbEvent::QueueUpdate(ack) => t.after_queue_update(ack),
        TcbEvent::Counted(rcvd_ack) => t.after_counting(rcvd_ack),
        TcbEvent::Stored(seq, payload) => t.after_unordered(seq, payload),
        TcbEvent::HandedOut => t.after_ready(),
        TcbEvent::WindowAnnounced(window) => TcbView {
            reno: t.reno.after_remote_window(window as nat),
            ..t
        },
        TcbEvent::DuplicateAck => TcbView { reno: t.reno.after_duplicate_ack(), ..t },
        TcbEvent::Retransmit => TcbView { reno: t.reno.after_retransmit(), ..t },
        TcbEvent::SeqIncreased => TcbView { seq: t.seq.plus(1), ..t },
        TcbEvent::AckIncreased => TcbView { ack: t.ack.plus(1), ..t },
        TcbEvent::StateChanged(state) => TcbView { state, ..t },
    }
}

/// The control block after a series of events.
pub open spec fn after_events(t: TcbView, events: Seq<TcbEvent>) -> TcbView
    decreases events.len(),
{
    if events.len() == 0 {
        t
    } else {
        after_event(after_events(t, events.drop_last()), events.last())
    }
}

/// Through its whole life a connection stays well-formed, keeps its segment size and its ceiling,
/// and has a congestion window that is not below the initial one, or the segment size where that
/// is smaller, nor above the ceiling, or the segment size where that is larger.
pub proof fn law_whole_life(
    seq: SeqNum,
    ack: SeqNum,
    mss: usize,
    events: Seq<TcbEvent>,
)
    ensures
        ({
            let t = after_events(TcbView::fresh(seq, ack, mss as nat), events);
            &&& t.wf()
            &&& t.reno.min_cwnd == mss
            &&& t.reno.rwnd == INITIAL_RWND
            &&& smaller(INITIAL_CWND as nat, mss as nat) <= t.reno.cwnd
            &&& t.reno.cwnd <= larger(INITIAL_RWND as nat, mss as nat)
        }),
    decreases events.len(),
{
    if events.len() > 0 {
        law_whole_life(seq, ack, mss, events.drop_last());
    }
}

/// Only a change of state moves the state of a connection, only sending moves what is sent next,
/// and only receiving moves what is expected next.
pub proof fn law_what_moves_what(t: TcbView, event: TcbEvent)
    ensures
        after_event(t, event).state != t.state ==> event is StateChanged,
        after_event(t, event).seq != t.seq ==> event is Sent || event is SeqIncreased,
        after_event(t, event).ack != t.ack ==> event is HandedOut || event is AckIncreased,
        after_event(t, event).last_received_ack != t.last_received_ack
            ==> event is LastReceivedAck,
        after_event(t, event).duplicate_ack_count != t.duplicate_ack_count ==> event is Counted,
        after_event(t, event).inflight != t.inflight ==> event is Sent || event is LastReceivedAck
            || event is QueueUpdate,
        after_event(t, event).unordered != t.unordered ==> event is Stored || event is HandedOut,
{
}

/// A new connection listens, has counted no duplicate, takes its own initial sequence number for
/// acknowledged, starts with a window of 2048 bytes under a ceiling of 65536 and without a
/// threshold, and holds nothing.
pub proof fn law_where_a_connection_starts(seq: SeqNum, ack: SeqNum, mss: nat)
    ensures
        ({
            let fresh = TcbView::fresh(seq, ack, mss);
            &&& fresh.seq == seq
            &&& fresh.ack == ack
            &&& fresh.last_received_ack == seq
            &&& fresh.duplicate_ack_count == 0
            &&& fresh.state == TcpState::Listen
            &&& fresh.reno.cwnd == 2048
            &&& fresh.reno.min_cwnd == mss
            &&& fresh.reno.ssthresh == usize::MAX
            &&& fresh.reno.rwnd == 65536
            &&& fresh.inflight.len() == 0
            &&& forall|k: u32| !fresh.unordered.contains_key(k)
        }),
        DEBUG_INITIAL_SEQ == 100,
{
}

/// An acknowledgement that equals the latest one while something was sent after it raises the
/// count of duplicates by one, up to the limit of the counter, whatever else the connection
/// holds; every other acknowledgement sets it to zero. Nothing but the count changes.
pub proof fn law_counting_in_plain_numbers(t: TcbView, rcvd_ack: SeqNum)
    ensures
        ({
            let counted = t.after_counting(rcvd_ack);
            let repeats = {
                &&& rcvd_ack.0 == t.last_received_ack.0
                &&& 1 <= (t.seq.0 - rcvd_ack.0) % 0x1_0000_0000 <= 0x8000_0000
            };
            &&& repeats && t.duplicate_ack_count < usize::MAX ==> counted.duplicate_ack_count
                == t.duplicate_ack_count + 1
            &&& repeats && t.duplicate_ack_count >= usize::MAX ==> counted.duplicate_ack_count
                == usize::MAX
            &&& !repeats ==> counted.duplicate_ack_count == 0
            &&& counted.seq == t.seq
            &&& counted.ack == t.ack
            &&& counted.last_received_ack == t.last_received_ack
            &&& counted.state == t.state
            &&& counted.reno == t.reno
            &&& counted.inflight == t.inflight
            &&& counted.unordered == t.unordered
        }),
{
}

/// What is offered and what is buffered fill the read buffer of 16384 bytes exactly, as long as
/// no more is buffered; beyond that nothing is offered.
pub proof fn law_buffer_is_offered_to_the_last_byte(t: TcbView)
    ensures
        buffered(t.unordered) <= 16384 ==> t.available() + buffered(t.unordered) == 16384,
        buffered(t.unordered) >= 16384 ==> t.available() == 0,
{
}

/// Storing a payload that fits in a free place lowers what is offered by exactly its length, and
/// handing a payload out of a buffer that is not overfull raises it by exactly its length.
pub proof fn law_offer_follows_the_payloads(t: TcbView, seq: SeqNum, payload: Seq<u8>)
    requires
        t.wf(),
    ensures
        !seq.is_before(t.ack) && !t.unordered.contains_key(seq.0) && payload.len() <= t.available()
            ==> t.after_unordered(seq, payload).available() == t.available() - payload.len(),
        !seq.is_before(t.ack) && !t.unordered.contains_key(seq.0) && payload.len() > t.available()
            ==> t.after_unordered(seq, payload).available() == 0,
        seq.is_before(t.ack) ==> t.after_unordered(seq, payload).available() == t.available(),
        t.unordered.contains_key(t.ack.0) && buffered(t.unordered) <= 16384
            ==> t.after_ready().available() == t.available() + t.unordered[t.ack.0].len(),
        !t.unordered.contains_key(t.ack.0) ==> t.after_ready().available() == t.available(),
{
    law_buffered_bytes_add_up(t.unordered, seq.0, payload);
    law_buffered_bytes_add_up(t.unordered, t.ack.0, payload);
}

/// A payload that starts one step to half a circle before what is expected next is dropped. Any
/// other waits under its start, in place of what waited there; what waits under any other number
/// is what waited there before, and nothing else of the connection changes.
pub proof fn law_storing_touches_one_place(t: TcbView, seq: SeqNum, payload: Seq<u8>, k: u32)
    ensures
        ({
            let stored = t.after_unordered(seq, payload);
            let late = 1 <= (t.ack.0 - seq.0) % 0x1_0000_0000 <= 0x8000_0000;
            &&& late ==> stored == t
            &&& !late ==> stored.unordered.contains_key(seq.0) && stored.unordered[seq.0] == payload
            &&& k != seq.0 ==> (stored.unordered.contains_key(k) <==> t.unordered.contains_key(k))
            &&& k != seq.0 && t.unordered.contains_key(k) ==> stored.unordered[k] == t.unordered[k]
            &&& stored.seq == t.seq
            &&& stored.ack == t.ack
            &&& stored.last_received_ack == t.last_received_ack
            &&& stored.duplicate_ack_count == t.duplicate_ack_count
            &&& stored.state == t.state
            &&& stored.reno == t.reno
            &&& stored.inflight == t.inflight
        }),
{
}

/// What is handed out is what waits under the number expected next, whole; that number moves by
/// its length, its place becomes free, and what waits under any other number goes on waiting.
/// Where nothing waits there, nothing is handed out and nothing changes.
pub proof fn law_handing_out_empties_one_place(t: TcbView, k: u32)
    ensures
        ({
            let after = t.after_ready();
            &&& t.unordered.contains_key(t.ack.0) ==> {
                &&& t.ready() == Some(t.unordered[t.ack.0])
                &&& (t.ack.0 + t.unordered[t.ack.0].len() - after.ack.0) % 0x1_0000_0000 == 0
                &&& !after.unordered.contains_key(t.ack.0)
            }
            &&& !t.unordered.contains_key(t.ack.0) ==> t.ready() is None && after == t
            &&& k != t.ack.0 ==> (after.unordered.contains_key(k) <==> t.unordered.contains_key(k))
            &&& k != t.ack.0 && t.unordered.contains_key(k) ==> after.unordered[k]
                == t.unordered[k]
            &&& after.seq == t.seq
            &&& after.last_received_ack == t.last_received_ack
            &&& after.duplicate_ack_count == t.duplicate_ack_count
            &&& after.state == t.state
            &&& after.reno == t.reno
            &&& after.inflight == t.inflight
        }),
{
}

/// Sending puts one segment behind the ones in flight, with the sequence number that was next and
/// the payload as it is, and moves that number by the length of the payload. The others stay
/// where they are, and nothing else of the connection changes.
pub proof fn law_sending_adds_one_segment(t: TcbView, payload: Seq<u8>, i: int)
    ensures
        ({
            let sent = t.after_sent(payload);
            &&& sent.inflight.len() == t.inflight.len() + 1
            &&& sent.inflight.last().seq == t.seq
            &&& sent.inflight.last().payload == payload
            &&& 0 <= i < t.inflight.len() ==> sent.inflight[i] == t.inflight[i]
            &&& (t.seq.0 + payload.len() - sent.seq.0) % 0x1_0000_0000 == 0
            &&& sent.ack == t.ack
            &&& sent.last_received_ack == t.last_received_ack
            &&& sent.duplicate_ack_count == t.duplicate_ack_count
            &&& sent.state == t.state
            &&& sent.reno == t.reno
            &&& sent.unordered == t.unordered
        }),
{
}

/// An acknowledgement works on the packets in flight and on the congestion control alone. Noting
/// it as the latest one does the same work on an established connection, and no work on any
/// other.
pub proof fn law_acknowledgement_touches_only_flight_and_window(t: TcbView, ack: SeqNum)
    ensures
        ({
            let updated = t.after_queue_update(ack);
            let noted = t.after_last_received_ack(ack);
            &&& updated.inflight == acknowledge(t.inflight, ack)
            &&& updated.seq == t.seq
            &&& updated.ack == t.ack
            &&& updated.last_received_ack == t.last_received_ack
            &&& updated.duplicate_ack_count == t.duplicate_ack_count
            &&& updated.state == t.state
            &&& updated.unordered == t.unordered
            &&& noted.last_received_ack == ack
            &&& noted.seq == t.seq
            &&& noted.ack == t.ack
            &&& noted.duplicate_ack_count == t.duplicate_ack_count
            &&& noted.state == t.state
            &&& noted.unordered == t.unordered
            &&& t.state == TcpState::Established ==> noted.inflight == updated.inflight
                && noted.reno == updated.reno
            &&& t.state != TcpState::Established ==> noted.inflight == t.inflight && noted.reno
                == t.reno
        }),
{
}

/// The congestion control hears of an acknowledgement just where it reaches into a segment, and
/// then of the number of steps from the start of the first such segment to it.
pub proof fn law_congestion_control_hears_the_reach(t: TcbView, ack: SeqNum, hit: int)
    ensures
        (forall|i: int| 0 <= i < t.inflight.len() ==> !reached_by(#[trigger] t.inflight[i], ack))
            ==> t.after_queue_update(ack).reno == t.reno,
        0 <= hit < t.inflight.len() && reached_by(t.inflight[hit], ack) && (forall|j: int|
            0 <= j < hit ==> !reached_by(#[trigger] t.inflight[j], ack)) ==> t.after_queue_update(
            ack,
        ).reno == t.reno.after_ack(
            ((ack.0 - t.inflight[hit].seq.0) % 0x1_0000_0000) as nat,
        ),
{
    if forall|i: int| 0 <= i < t.inflight.len() ==> !reached_by(#[trigger] t.inflight[i], ack) {
        let kept = law_untouched_segments_keep_their_order(t.inflight, ack);
    }
    if 0 <= hit < t.inflight.len() && reached_by(t.inflight[hit], ack) && (forall|j: int|
        0 <= j < hit ==> !reached_by(#[trigger] t.inflight[j], ack)) {
        let kept = law_reached_segment_is_cut_and_moves_to_the_end(t.inflight, ack, hit);
    }
}

/// On an established connection an acknowledgement within the window that lies after the start of
/// the segment at `i` and not after its end opens the congestion window: below the threshold by
/// exactly the bytes of that segment before it, from the threshold on by exactly one segment
/// size, where the sum is not above the ceiling, and else up to the ceiling.
pub proof fn law_acknowledged_bytes_open_the_window(t: TcbView, una: SeqNum, ack: SeqNum, i: int)
    requires
        t.state == TcpState::Established,
        in_send_window(t.inflight, una, t.seq),
        ack.ahead_of(una) <= t.seq.ahead_of(una),
        none_opposite(t.inflight, ack),
        0 <= i < t.inflight.len(),
        t.inflight[i].seq.ahead_of(una) < ack.ahead_of(una) <= t.inflight[i].seq.ahead_of(una)
            + t.inflight[i].payload.len(),
        t.reno.min_cwnd <= t.reno.cwnd,
        t.reno.min_cwnd <= t.reno.rwnd,
    ensures
        ({
            let before = t.reno;
            let after = t.after_last_received_ack(ack).reno;
            let bytes = ack.ahead_of(una) - t.inflight[i].seq.ahead_of(una);
            &&& before.cwnd < before.ssthresh && before.cwnd + bytes <= before.rwnd ==> after.cwnd
                == before.cwnd + bytes
            &&& before.cwnd < before.ssthresh && before.cwnd + bytes >= before.rwnd ==> after.cwnd
                == before.rwnd
            &&& before.cwnd >= before.ssthresh && before.cwnd + before.min_cwnd <= before.rwnd
                ==> after.cwnd == before.cwnd + before.min_cwnd
            &&& before.cwnd >= before.ssthresh && before.cwnd + before.min_cwnd >= before.rwnd
                ==> after.cwnd == before.rwnd
        }),
{
    law_acknowledged_len_counts_the_bytes_of_its_segment(t.inflight, una, t.seq, ack);
}

/// An acknowledgement within the window that lies so in no segment leaves the congestion control
/// as it is.
pub proof fn law_acknowledgement_of_no_segment_leaves_the_window(
    t: TcbView,
    una: SeqNum,
    ack: SeqNum,
)
    requires
        in_send_window(t.inflight, una, t.seq),
        ack.ahead_of(una) <= t.seq.ahead_of(una),
        none_opposite(t.inflight, ack),
        forall|i: int|
            0 <= i < t.inflight.len() ==> !((#[trigger] t.inflight[i]).seq.ahead_of(una)
                < ack.ahead_of(una) <= t.inflight[i].seq.ahead_of(una)
                + t.inflight[i].payload.len()),
    ensures
        t.after_queue_update(ack).reno == t.reno,
        t.after_last_received_ack(ack).reno == t.reno,
{
    law_acknowledged_len_counts_the_bytes_of_its_segment(t.inflight, una, t.seq, ack);
}

/// The window that may be used is the congestion window where that is at most 65535, and else
/// that number. The low bits differ from the congestion window by whole multiples of 65536. The
/// outstanding bytes lead from the latest acknowledgement to what is sent next.
pub proof fn law_windows_in_plain_numbers(t: TcbView)
    ensures
        t.reno.cwnd <= 65535 ==> t.effective_send_window() == t.reno.cwnd,
        t.reno.cwnd >= 65535 ==> t.effective_send_window() == 65535,
        0 <= t.cwnd_low_bits() < 65536,
        (t.reno.cwnd - t.cwnd_low_bits()) % 65536 == 0,
        0 <= t.outstanding() < 0x1_0000_0000,
        (t.last_received_ack.0 + t.outstanding() - t.seq.0) % 0x1_0000_0000 == 0,
{
}

/// The connection takes data while it is established or waits for the farewell of the other side;
/// an acknowledgement is current where it is neither after what was sent nor before the latest
/// one; and three duplicates ask for a retransmission.
pub proof fn law_terms_of_the_classification(t: TcbView, header: SegmentHeader)
    ensures
        t.awaits_fin() <==> t.state == TcpState::FinWait1 || t.state == TcpState::FinWait2,
        takes_data(t) <==> t.state == TcpState::Established || t.state == TcpState::FinWait1
            || t.state == TcpState::FinWait2,
        ack_is_current(t, header) <==> {
            let beyond = (header.acknowledgment_number - t.seq.0) % 0x1_0000_0000;
            let behind = (t.last_received_ack.0 - header.acknowledgment_number) % 0x1_0000_0000;
            (beyond == 0 || beyond >= 0x8000_0000) && (behind == 0 || behind > 0x8000_0000)
        },
        MAX_COUNT_FOR_DUP_ACK == 3,
        READ_BUFFER_SIZE == 16384,
{
}

} // verus!
