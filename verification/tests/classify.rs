use tcp_control::segment::{PacketStatus, SegmentHeader, TcpState};
use tcp_control::seqnum::SeqNum;
use tcp_control::tcb::Tcb;

/// A connection that has sent the four bytes from 100 on and got an acknowledgement of none, and
/// that expects 500 next. Its window is 2048.
fn connection(state: TcpState) -> Tcb {
    let mut tcb = Tcb::with_initial_seq(SeqNum(100), SeqNum(500), 1480);
    tcb.change_state(state);
    assert!(tcb.add_inflight_packet(vec![1, 2, 3, 4]).is_ok());
    tcb
}

fn bare(seq: u32, ack: u32) -> SegmentHeader {
    SegmentHeader {
        sequence_number: seq,
        acknowledgment_number: ack,
        window_size: 2048,
        fin: false,
        ack: true,
    }
}

fn with_window(header: SegmentHeader, window_size: u16) -> SegmentHeader {
    SegmentHeader { window_size, ..header }
}

fn with_fin(header: SegmentHeader) -> SegmentHeader {
    SegmentHeader { fin: true, ..header }
}

fn without_ack(header: SegmentHeader) -> SegmentHeader {
    SegmentHeader { ack: false, ..header }
}

const ALL_STATES: [TcpState; 9] = [
    TcpState::Listen,
    TcpState::SynReceived,
    TcpState::Established,
    TcpState::FinWait1,
    TcpState::FinWait2,
    TcpState::TimeWait,
    TcpState::CloseWait,
    TcpState::LastAck,
    TcpState::Closed,
];

#[test]
fn an_ack_beyond_what_was_sent_is_invalid_in_every_state() {
    for state in ALL_STATES {
        let tcb = connection(state);
        assert_eq!(tcb.check_pkt_type(&bare(500, 105), &[]), PacketStatus::Invalid);
        assert_eq!(tcb.check_pkt_type(&bare(500, 105), &[1]), PacketStatus::Invalid);
    }
}

#[test]
fn listen_and_closed_take_nothing() {
    for state in [TcpState::Listen, TcpState::Closed] {
        let tcb = connection(state);
        assert_eq!(tcb.check_pkt_type(&bare(500, 104), &[]), PacketStatus::Invalid);
        assert_eq!(tcb.check_pkt_type(&bare(500, 100), &[1]), PacketStatus::Invalid);
    }
}

#[test]
fn the_handshake_is_completed_exactly() {
    let tcb = connection(TcpState::SynReceived);
    assert_eq!(tcb.check_pkt_type(&bare(500, 104), &[]), PacketStatus::Ack);
    assert_eq!(tcb.check_pkt_type(&bare(501, 104), &[]), PacketStatus::Invalid);
    assert_eq!(tcb.check_pkt_type(&bare(500, 103), &[]), PacketStatus::Invalid);
    assert_eq!(tcb.check_pkt_type(&without_ack(bare(500, 104)), &[]), PacketStatus::Invalid);
}

#[test]
fn data_is_classified_by_its_place() {
    for state in [TcpState::Established, TcpState::FinWait1, TcpState::FinWait2] {
        let tcb = connection(state);
        for ack in [100, 102] {
            assert_eq!(tcb.check_pkt_type(&bare(499, ack), &[1]), PacketStatus::Invalid);
            assert_eq!(tcb.check_pkt_type(&bare(500, ack), &[1]), PacketStatus::NewPacket);
            assert_eq!(tcb.check_pkt_type(&bare(501, ack), &[1, 2]), PacketStatus::OutOfOrder);
            assert_eq!(tcb.check_pkt_type(&with_fin(bare(500, ack)), &[1]), PacketStatus::NewPacket);
        }
        assert_eq!(tcb.check_pkt_type(&bare(500, 99), &[1]), PacketStatus::Invalid);
    }
}

#[test]
fn classified_data_is_stored_accordingly() {
    let mut tcb = connection(TcpState::Established);
    assert_eq!(tcb.check_pkt_type(&bare(502, 100), &[3]), PacketStatus::OutOfOrder);
    tcb.add_unordered_packet(SeqNum(502), vec![3]);
    assert_eq!(tcb.get_unordered_packets(), None);
    assert_eq!(tcb.check_pkt_type(&bare(500, 100), &[1, 2]), PacketStatus::NewPacket);
    tcb.add_unordered_packet(SeqNum(500), vec![1, 2]);
    assert_eq!(tcb.get_unordered_packets(), Some(vec![1, 2]));
    assert_eq!(tcb.get_unordered_packets(), Some(vec![3]));
    assert_eq!(tcb.check_pkt_type(&bare(502, 100), &[3]), PacketStatus::Invalid);
    tcb.add_unordered_packet(SeqNum(502), vec![3]);
    assert_eq!(tcb.get_available_read_buffer_size(), 16384);
}

#[test]
fn bare_segments_on_an_established_connection() {
    let tcb = connection(TcpState::Established);
    assert_eq!(tcb.check_pkt_type(&bare(500, 99), &[]), PacketStatus::Invalid);
    assert_eq!(tcb.check_pkt_type(&bare(500, 104), &[]), PacketStatus::Ack);
    assert_eq!(tcb.check_pkt_type(&with_fin(bare(500, 104)), &[]), PacketStatus::Ack);
    assert_eq!(tcb.check_pkt_type(&with_window(bare(500, 100), 2047), &[]), PacketStatus::WindowUpdate);
    assert_eq!(tcb.check_pkt_type(&bare(499, 100), &[]), PacketStatus::KeepAlive);
    assert_eq!(tcb.check_pkt_type(&bare(500, 100), &[]), PacketStatus::DuplicateAck);
}

#[test]
fn three_duplicates_ask_for_a_retransmission() {
    let mut tcb = connection(TcpState::Established);
    for _ in 0..2 {
        tcb.update_duplicate_ack_count(SeqNum(100));
        assert_eq!(tcb.check_pkt_type(&bare(500, 100), &[]), PacketStatus::DuplicateAck);
    }
    tcb.update_duplicate_ack_count(SeqNum(100));
    assert_eq!(tcb.check_pkt_type(&bare(500, 100), &[]), PacketStatus::RetransmissionRequest);
    assert_eq!(tcb.check_pkt_type(&bare(499, 100), &[]), PacketStatus::KeepAlive);
    tcb.change_state(TcpState::FinWait1);
    assert_eq!(tcb.check_pkt_type(&bare(500, 100), &[]), PacketStatus::DuplicateAck);
}

#[test]
fn without_outstanding_data_nothing_is_sent_again() {
    let mut tcb = connection(TcpState::Established);
    for _ in 0..3 {
        tcb.update_duplicate_ack_count(SeqNum(100));
    }
    tcb.update_last_received_ack(SeqNum(104));
    // The window has grown by the acknowledged bytes.
    let header = with_window(bare(500, 104), 2052);
    assert_eq!(tcb.get_duplicate_ack_count(), 3);
    assert_eq!(tcb.check_pkt_type(&header, &[]), PacketStatus::DuplicateAck);
}

#[test]
fn bare_segments_after_our_farewell() {
    for state in [TcpState::FinWait1, TcpState::FinWait2] {
        let tcb = connection(state);
        for ack in [100, 104] {
            assert_eq!(tcb.check_pkt_type(&with_fin(bare(500, ack)), &[]), PacketStatus::Fin);
        }
        assert_eq!(tcb.check_pkt_type(&with_fin(bare(500, 99)), &[]), PacketStatus::Invalid);
        assert_eq!(tcb.check_pkt_type(&bare(500, 104), &[]), PacketStatus::Ack);
        let unacknowledged = without_ack(with_fin(bare(500, 104)));
        assert_eq!(tcb.check_pkt_type(&unacknowledged, &[]), PacketStatus::Ack);
        assert_eq!(tcb.check_pkt_type(&with_window(bare(500, 100), 1), &[]), PacketStatus::WindowUpdate);
        assert_eq!(tcb.check_pkt_type(&bare(500, 100), &[]), PacketStatus::DuplicateAck);
        assert_eq!(tcb.check_pkt_type(&bare(499, 100), &[]), PacketStatus::DuplicateAck);
    }
}

#[test]
fn segments_after_their_farewell() {
    let tcb = connection(TcpState::CloseWait);
    assert_eq!(tcb.check_pkt_type(&bare(500, 99), &[]), PacketStatus::DuplicateAck);
    assert_eq!(tcb.check_pkt_type(&bare(500, 100), &[1]), PacketStatus::DuplicateAck);
    assert_eq!(tcb.check_pkt_type(&with_window(bare(500, 100), 1), &[]), PacketStatus::WindowUpdate);
    assert_eq!(tcb.check_pkt_type(&bare(500, 101), &[1]), PacketStatus::Invalid);
    assert_eq!(tcb.check_pkt_type(&bare(500, 101), &[]), PacketStatus::Ack);
}

#[test]
fn the_last_ack_must_be_bare_and_new() {
    let tcb = connection(TcpState::LastAck);
    assert_eq!(tcb.check_pkt_type(&bare(500, 104), &[]), PacketStatus::Ack);
    assert_eq!(tcb.check_pkt_type(&bare(500, 104), &[1]), PacketStatus::Invalid);
    assert_eq!(tcb.check_pkt_type(&bare(500, 100), &[]), PacketStatus::Invalid);
    assert_eq!(tcb.check_pkt_type(&without_ack(bare(500, 104)), &[]), PacketStatus::Invalid);
}

#[test]
fn a_farewell_sent_again_is_recognised() {
    let tcb = connection(TcpState::TimeWait);
    assert_eq!(tcb.check_pkt_type(&with_fin(bare(499, 104)), &[]), PacketStatus::Fin);
    assert_eq!(tcb.check_pkt_type(&with_fin(bare(499, 104)), &[1]), PacketStatus::Fin);
    assert_eq!(tcb.check_pkt_type(&with_fin(bare(500, 104)), &[]), PacketStatus::Invalid);
    assert_eq!(tcb.check_pkt_type(&with_fin(bare(499, 103)), &[]), PacketStatus::Invalid);
    assert_eq!(tcb.check_pkt_type(&bare(499, 104), &[]), PacketStatus::Invalid);
}

#[test]
fn the_window_is_compared_in_16_bits() {
    let mut tcb = Tcb::with_initial_seq(SeqNum(0), SeqNum(500), 1480);
    tcb.change_state(TcpState::Established);
    assert!(tcb.add_inflight_packet(vec![0; 70_000]).is_ok());
    tcb.update_last_received_ack(SeqNum(70_000));
    // The window is 65536, which is zero in 16 bits.
    let header = bare(500, 70_000);
    assert_eq!(tcb.check_pkt_type(&with_window(header, 0), &[]), PacketStatus::DuplicateAck);
    assert_eq!(tcb.check_pkt_type(&with_window(header, 65535), &[]), PacketStatus::WindowUpdate);
}

#[test]
fn the_content_of_a_payload_does_not_matter() {
    let tcb = connection(TcpState::Established);
    assert_eq!(
        tcb.check_pkt_type(&bare(500, 100), &[1]),
        tcb.check_pkt_type(&bare(500, 100), &[9, 9, 9])
    );
}
