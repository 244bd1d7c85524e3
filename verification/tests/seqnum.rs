use tcp_control::seqnum::SeqNum;

#[test]
fn arithmetic_wraps_around() {
    assert_eq!(SeqNum(u32::MAX) + 1, SeqNum(0));
    assert_eq!(SeqNum(u32::MAX - 1) + 5, SeqNum(3));
    assert_eq!(SeqNum(0) - 1, SeqNum(u32::MAX));
    assert_eq!(SeqNum(2) - SeqNum(u32::MAX), SeqNum(3));
    assert_eq!(SeqNum(2).distance(SeqNum(u32::MAX)), 3);
    assert_eq!(SeqNum(7).distance(SeqNum(7)), 0);
    assert_eq!(SeqNum::from(9), SeqNum(9));
}

#[test]
fn order_follows_the_shorter_way() {
    assert!(SeqNum(1) < SeqNum(2));
    assert!(SeqNum(2) > SeqNum(1));
    assert!(SeqNum(u32::MAX) < SeqNum(0));
    assert!(SeqNum(0) > SeqNum(u32::MAX));
    assert!(SeqNum(5) <= SeqNum(5));
    assert!(!(SeqNum(5) < SeqNum(5)));
    assert!(SeqNum(0) < SeqNum(0x7fff_ffff));
    assert!(SeqNum(0) > SeqNum(0x8000_0001));
}

#[test]
fn half_a_circle_apart_each_is_before_the_other() {
    assert!(SeqNum(0) < SeqNum(0x8000_0000));
    assert!(SeqNum(0x8000_0000) < SeqNum(0));
}

#[test]
fn before_is_transitive_within_half_a_circle() {
    let a = SeqNum(u32::MAX - 10);
    let b = SeqNum(5);
    let c = SeqNum(0x4000_0000);
    assert!(a < b && b < c && a < c);
    assert_eq!(c.distance(a), b.distance(a) + c.distance(b));
}

#[test]
fn steps_and_shifts() {
    let a = SeqNum(u32::MAX - 3);
    assert_eq!((a + 10).distance(a), 10);
    assert_eq!(a + SeqNum(20).distance(a), SeqNum(20));
    assert_eq!(a + 3 + 4, a + 7);
    assert_eq!((a + 9).distance(SeqNum(4) + 9), a.distance(SeqNum(4)));
}
