use tcp_control::segment::TcpState;
use tcp_control::seqnum::SeqNum;
use tcp_control::tcb::Tcb;

fn established(seq: u32) -> Tcb {
    let mut tcb = Tcb::with_initial_seq(SeqNum(seq), SeqNum(500), 1480);
    tcb.change_state(TcpState::Established);
    tcb
}

fn in_flight(tcb: &Tcb) -> Vec<(u32, Vec<u8>)> {
    let mut packets = Vec::new();
    for p in tcb.get_all_inflight_packets() {
        packets.push((p.seq.0, p.payload.clone()));
    }
    packets
}

#[test]
fn a_new_connection_has_nothing_outstanding() {
    let tcb = Tcb::with_initial_seq(SeqNum(100), SeqNum(500), 1480);
    assert_eq!(tcb.get_seq(), SeqNum(100));
    assert_eq!(tcb.get_ack(), SeqNum(500));
    assert_eq!(tcb.get_last_received_ack(), SeqNum(100));
    assert_eq!(tcb.get_duplicate_ack_count(), 0);
    assert_eq!(tcb.get_state(), TcpState::Listen);
    assert_eq!(tcb.get_effective_send_window(), 2048);
    assert_eq!(tcb.get_recv_window(), 16384);
    assert!(tcb.get_all_inflight_packets().is_empty());
    assert!(!tcb.is_send_buffer_full());
}

#[test]
fn a_random_start_is_otherwise_a_new_connection() {
    let tcb = Tcb::new(SeqNum(500), 1480, false);
    assert_eq!(tcb.get_last_received_ack(), tcb.get_seq());
    assert_eq!(tcb.get_ack(), SeqNum(500));
    assert_eq!(tcb.get_state(), TcpState::Listen);
    assert!(!tcb.is_send_buffer_full());
    let mut differs = false;
    for _ in 0..8 {
        if Tcb::new(SeqNum(500), 1480, false).get_seq() != tcb.get_seq() {
            differs = true;
        }
    }
    assert!(differs);
}

#[test]
fn sent_packets_are_in_flight_and_found() {
    let mut tcb = established(u32::MAX);
    assert!(tcb.add_inflight_packet(vec![1, 2, 3]).is_ok());
    assert!(tcb.add_inflight_packet(vec![4, 5]).is_ok());
    assert_eq!(tcb.get_seq(), SeqNum(4));
    assert_eq!(in_flight(&tcb), vec![(u32::MAX, vec![1, 2, 3]), (2, vec![4, 5])]);
    assert_eq!(tcb.find_inflight_packet(SeqNum(2)).unwrap().payload, vec![4, 5]);
    assert!(tcb.find_inflight_packet(SeqNum(1)).is_none());
}

#[test]
fn the_first_packet_at_a_place_is_found() {
    let mut tcb = established(10);
    assert!(tcb.add_inflight_packet(vec![]).is_ok());
    assert!(tcb.add_inflight_packet(vec![9]).is_ok());
    assert_eq!(tcb.find_inflight_packet(SeqNum(10)).unwrap().payload.len(), 0);
}

#[test]
fn an_acknowledgement_leaves_exactly_the_rest() {
    let mut tcb = established(u32::MAX);
    assert!(tcb.add_inflight_packet(vec![1, 2, 3]).is_ok());
    assert!(tcb.add_inflight_packet(vec![4, 5]).is_ok());
    tcb.update_last_received_ack(SeqNum(1));
    assert_eq!(tcb.get_last_received_ack(), SeqNum(1));
    // What is left of the packet stands at the end.
    assert_eq!(in_flight(&tcb), vec![(2, vec![4, 5]), (1, vec![3])]);
    assert_eq!(tcb.get_effective_send_window(), 2050);
    // Once more changes nothing.
    tcb.update_last_received_ack(SeqNum(1));
    assert_eq!(in_flight(&tcb), vec![(2, vec![4, 5]), (1, vec![3])]);
    assert_eq!(tcb.get_effective_send_window(), 2050);
    // Everything is acknowledged.
    tcb.update_last_received_ack(SeqNum(4));
    assert_eq!(in_flight(&tcb), vec![]);
    assert_eq!(tcb.get_effective_send_window(), 2052);
    assert!(!tcb.is_send_buffer_full());
}

#[test]
fn a_cumulative_acknowledgement_drops_all_before_it() {
    let mut tcb = established(100);
    assert!(tcb.add_inflight_packet(vec![1, 2]).is_ok());
    assert!(tcb.add_inflight_packet(vec![3, 4]).is_ok());
    assert!(tcb.add_inflight_packet(vec![5, 6]).is_ok());
    tcb.update_inflight_packet_queue(SeqNum(104));
    assert_eq!(in_flight(&tcb), vec![(104, vec![5, 6])]);
    assert_eq!(tcb.get_last_received_ack(), SeqNum(100));
    assert_eq!(tcb.get_effective_send_window(), 2050);
}

#[test]
fn an_acknowledgement_of_nothing_sent_keeps_all() {
    let mut tcb = established(100);
    assert!(tcb.add_inflight_packet(vec![1, 2]).is_ok());
    tcb.update_inflight_packet_queue(SeqNum(100));
    assert_eq!(in_flight(&tcb), vec![(100, vec![1, 2])]);
    assert_eq!(tcb.get_effective_send_window(), 2048);
}

#[test]
fn only_an_established_connection_takes_packets_out_of_flight() {
    let mut tcb = Tcb::with_initial_seq(SeqNum(100), SeqNum(500), 1480);
    tcb.change_state(TcpState::FinWait1);
    assert!(tcb.add_inflight_packet(vec![1, 2]).is_ok());
    tcb.update_last_received_ack(SeqNum(102));
    assert_eq!(tcb.get_last_received_ack(), SeqNum(102));
    assert_eq!(in_flight(&tcb), vec![(100, vec![1, 2])]);
}

#[test]
fn a_full_window_fills_the_send_buffer() {
    let mut tcb = established(u32::MAX - 5);
    assert!(tcb.add_inflight_packet(vec![0; 2047]).is_ok());
    assert!(!tcb.is_send_buffer_full());
    tcb.increase_seq();
    assert!(tcb.is_send_buffer_full());
}

#[test]
fn a_window_beyond_16_bits_is_cut_for_sending() {
    let mut tcb = established(0);
    assert!(tcb.add_inflight_packet(vec![0; 70_000]).is_ok());
    assert_eq!(tcb.get_send_window_low_bits(), 2048);
    tcb.update_last_received_ack(SeqNum(70_000));
    assert_eq!(tcb.get_effective_send_window(), 65535);
    assert_eq!(tcb.get_send_window_low_bits(), 0);
}

#[test]
fn losses_lower_the_window_and_its_growth() {
    let mut tcb = established(0);
    tcb.on_retransmit();
    assert_eq!(tcb.get_effective_send_window(), 1480);
    tcb.on_duplicate_ack();
    assert!(tcb.add_inflight_packet(vec![0; 10]).is_ok());
    tcb.update_last_received_ack(SeqNum(10));
    assert_eq!(tcb.get_effective_send_window(), 2960);
}

#[test]
fn announced_windows_change_nothing() {
    let mut tcb = established(0);
    tcb.update_send_window(10);
    tcb.update_send_window(u16::MAX);
    assert_eq!(tcb.get_effective_send_window(), 2048);
    assert!(tcb.add_inflight_packet(vec![0; 100]).is_ok());
    tcb.update_last_received_ack(SeqNum(100));
    assert_eq!(tcb.get_effective_send_window(), 2148);
}

#[test]
fn duplicates_are_counted_until_progress() {
    let mut tcb = established(100);
    // Nothing is outstanding, so nothing is a duplicate.
    tcb.update_duplicate_ack_count(SeqNum(100));
    assert_eq!(tcb.get_duplicate_ack_count(), 0);
    assert!(tcb.add_inflight_packet(vec![1, 2, 3]).is_ok());
    tcb.update_duplicate_ack_count(SeqNum(100));
    tcb.update_duplicate_ack_count(SeqNum(100));
    assert_eq!(tcb.get_duplicate_ack_count(), 2);
    tcb.update_duplicate_ack_count(SeqNum(101));
    assert_eq!(tcb.get_duplicate_ack_count(), 0);
}

#[test]
fn the_window_stays_in_bounds_through_a_whole_life() {
    for mss in [536, 1480, 4096] {
        let mut tcb = Tcb::with_initial_seq(SeqNum(u32::MAX - 100), SeqNum(500), mss);
        tcb.change_state(TcpState::Established);
        for round in 0..200 {
            assert!(tcb.add_inflight_packet(vec![0; 3000]).is_ok());
            tcb.update_send_window(round);
            if round % 7 == 3 {
                tcb.on_duplicate_ack();
            }
            if round % 11 == 5 {
                tcb.on_retransmit();
            }
            if round % 2 == 0 {
                tcb.update_last_received_ack(tcb.get_seq());
                assert!(tcb.get_all_inflight_packets().is_empty());
            }
            let window = tcb.get_effective_send_window();
            assert!(window as usize >= mss.min(2048));
        }
    }
}

#[test]
fn a_debug_build_always_starts_at_the_same_place() {
    for _ in 0..3 {
        let tcb = Tcb::new(SeqNum(500), 1480, true);
        assert_eq!(tcb.get_seq(), SeqNum(100));
        assert_eq!(tcb.get_last_received_ack(), SeqNum(100));
        assert_eq!(tcb.get_ack(), SeqNum(500));
        assert_eq!(tcb.get_state(), TcpState::Listen);
    }
}
