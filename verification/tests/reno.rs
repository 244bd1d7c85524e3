use tcp_control::reno::Reno;

#[test]
fn test_reno() {
    let remote_window: usize = 64 * 1024;

    for i in 0..10 {
        for j in 0..9 {
            let mut reno = Reno::new(1480);
            reno.set_mss(1480);

            // Set remote window.
            reno.set_remote_window(remote_window);

            reno.on_ack(4096);

            let mut n: usize = i;
            for _ in 0..j {
                n *= i;
            }

            if i & 1 == 0 {
                reno.on_retransmit();
            } else {
                reno.on_duplicate_ack();
            }

            reno.on_ack(n);

            let cwnd = reno.window();
            println!("Reno: elapsed = , cwnd = {}", cwnd);

            assert!(cwnd >= reno.min_cwnd());
            assert!(reno.window() <= remote_window);
        }
    }
}

#[test]
fn reno_min_cwnd() {
    let remote_window = 64 * 1024;

    let mut reno = Reno::new(1480);
    reno.set_remote_window(remote_window);

    for _ in 0..100 {
        reno.on_retransmit();
        assert!(reno.window() >= reno.min_cwnd());
    }
}

#[test]
fn reno_set_rwnd() {
    let mut reno = Reno::new(1480);
    reno.set_remote_window(64 * 1024 * 1024);

    println!("{reno:?}");
}

#[test]
fn slow_start_adds_what_is_acknowledged() {
    let mut reno = Reno::new(1480);
    assert_eq!(reno.window(), 2048);
    assert_eq!(reno.min_cwnd(), 1480);
    reno.on_ack(1000);
    assert_eq!(reno.window(), 3048);
}

#[test]
fn after_slow_start_one_segment_is_added() {
    let mut reno = Reno::new(1480);
    reno.on_duplicate_ack();
    assert_eq!(reno.window(), 2048);
    reno.on_ack(40000);
    assert_eq!(reno.window(), 3528);
    reno.on_ack(1);
    assert_eq!(reno.window(), 5008);
}

#[test]
fn window_is_capped_and_the_cap_only_rises() {
    let mut reno = Reno::new(1480);
    reno.set_remote_window(1000);
    reno.on_ack(usize::MAX);
    assert_eq!(reno.window(), 65536);
    reno.set_remote_window(100_000);
    reno.on_ack(usize::MAX);
    assert_eq!(reno.window(), 100_000);
    reno.set_remote_window(70_000);
    reno.on_ack(1);
    assert_eq!(reno.window(), 100_000);
}

#[test]
fn retransmission_halves_down_to_the_floor() {
    let mut reno = Reno::new(300);
    reno.on_retransmit();
    assert_eq!(reno.window(), 1024);
    reno.on_retransmit();
    assert_eq!(reno.window(), 512);
    reno.on_retransmit();
    assert_eq!(reno.window(), 300);
    reno.on_retransmit();
    assert_eq!(reno.window(), 300);
}

#[test]
fn a_floor_above_the_initial_window_lifts_it_later() {
    let mut reno = Reno::new(4096);
    assert_eq!(reno.window(), 2048);
    reno.on_ack(0);
    assert_eq!(reno.window(), 4096);
}

#[test]
fn a_floor_above_the_cap_wins() {
    let mut reno = Reno::new(100_000);
    reno.on_ack(1);
    assert_eq!(reno.window(), 100_000);
    reno.set_mss(10);
    assert_eq!(reno.window(), 100_000);
    assert_eq!(reno.min_cwnd(), 10);
}

#[test]
fn the_default_floor_is_the_initial_window() {
    let reno = Reno::default();
    assert_eq!(reno.window(), 2048);
    assert_eq!(reno.min_cwnd(), 2048);
}
