use tcp_control::inflight::InflightPacket;

#[test]
fn test_in_flight_packet() {
    let p = InflightPacket::new((u32::MAX - 1).into(), vec![10, 20, 30, 40, 50]);

    assert!(p.contains_seq_num((u32::MAX - 1).into()));
    assert!(p.contains_seq_num(u32::MAX.into()));
    assert!(p.contains_seq_num(0.into()));
    assert!(p.contains_seq_num(1.into()));
    assert!(p.contains_seq_num(2.into()));

    assert!(!p.contains_seq_num(3.into()));
}

#[test]
fn an_empty_packet_holds_nothing_nearby() {
    let p = InflightPacket::new(10.into(), vec![]);
    assert!(!p.contains_seq_num(9.into()));
    assert!(!p.contains_seq_num(10.into()));
    assert!(!p.contains_seq_num(11.into()));
}

#[test]
fn a_packet_does_not_hold_what_lies_before_it() {
    let p = InflightPacket::new(0.into(), vec![1, 2]);
    assert!(!p.contains_seq_num(u32::MAX.into()));
    assert!(p.contains_seq_num(0.into()));
    assert!(p.contains_seq_num(1.into()));
    assert!(!p.contains_seq_num(2.into()));
}
