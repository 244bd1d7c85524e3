use tcp_control::seqnum::SeqNum;
use tcp_control::tcb::Tcb;

fn expecting(ack: u32) -> Tcb {
    Tcb::with_initial_seq(SeqNum(100), SeqNum(ack), 1480)
}

#[test]
fn a_payload_in_turn_is_handed_out() {
    let mut tcb = expecting(u32::MAX);
    tcb.add_unordered_packet(SeqNum(u32::MAX), vec![1, 2, 3]);
    assert_eq!(tcb.get_unordered_packets(), Some(vec![1, 2, 3]));
    assert_eq!(tcb.get_ack(), SeqNum(2));
    assert_eq!(tcb.get_unordered_packets(), None);
    assert_eq!(tcb.get_ack(), SeqNum(2));
}

#[test]
fn payloads_come_out_in_order() {
    let mut tcb = expecting(u32::MAX - 1);
    tcb.add_unordered_packet(SeqNum(3), vec![6]);
    tcb.add_unordered_packet(SeqNum(0), vec![3, 4, 5]);
    assert_eq!(tcb.get_unordered_packets(), None);
    tcb.add_unordered_packet(SeqNum(u32::MAX - 1), vec![1, 2]);
    assert_eq!(tcb.get_unordered_packets(), Some(vec![1, 2]));
    assert_eq!(tcb.get_unordered_packets(), Some(vec![3, 4, 5]));
    assert_eq!(tcb.get_unordered_packets(), Some(vec![6]));
    assert_eq!(tcb.get_unordered_packets(), None);
    assert_eq!(tcb.get_ack(), SeqNum(4));
}

#[test]
fn a_late_payload_is_dropped() {
    let mut tcb = expecting(500);
    tcb.add_unordered_packet(SeqNum(499), vec![1, 2, 3]);
    assert_eq!(tcb.get_available_read_buffer_size(), 16384);
    assert_eq!(tcb.get_unordered_packets(), None);
}

#[test]
fn a_second_payload_in_one_place_replaces_the_first() {
    let mut tcb = expecting(500);
    tcb.add_unordered_packet(SeqNum(500), vec![1, 2, 3]);
    tcb.add_unordered_packet(SeqNum(500), vec![4]);
    assert_eq!(tcb.get_available_read_buffer_size(), 16383);
    assert_eq!(tcb.get_unordered_packets(), Some(vec![4]));
    assert_eq!(tcb.get_ack(), SeqNum(501));
}

#[test]
fn the_buffer_is_accounted_for() {
    let mut tcb = expecting(500);
    tcb.add_unordered_packet(SeqNum(500), vec![0; 384]);
    tcb.add_unordered_packet(SeqNum(5000), vec![0; 1000]);
    assert_eq!(tcb.get_available_read_buffer_size(), 15000);
    assert_eq!(tcb.get_recv_window(), 15000);
    assert!(tcb.get_unordered_packets().is_some());
    assert_eq!(tcb.get_available_read_buffer_size(), 15384);
}

#[test]
fn an_overfull_buffer_offers_nothing() {
    let mut tcb = expecting(500);
    tcb.add_unordered_packet(SeqNum(501), vec![0; 16384]);
    assert_eq!(tcb.get_available_read_buffer_size(), 0);
    tcb.add_unordered_packet(SeqNum(40000), vec![0; 5]);
    assert_eq!(tcb.get_available_read_buffer_size(), 0);
    assert_eq!(tcb.get_recv_window(), 0);
}

#[test]
fn receiving_leaves_the_sending_side_alone() {
    let mut tcb = expecting(500);
    assert!(tcb.add_inflight_packet(vec![1]).is_ok());
    tcb.add_unordered_packet(SeqNum(500), vec![1, 2]);
    assert!(tcb.get_unordered_packets().is_some());
    tcb.increase_ack();
    assert_eq!(tcb.get_ack(), SeqNum(503));
    assert_eq!(tcb.get_seq(), SeqNum(101));
    assert_eq!(tcb.get_last_received_ack(), SeqNum(100));
    assert_eq!(tcb.get_all_inflight_packets().len(), 1);
}
