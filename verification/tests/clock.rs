use mcom::clock::{seconds, to_thousandths, Clock, Elapsed};
use std::time::Duration;

#[test]
fn seconds_print_like_doubles() {
    let mut n: u64 = 1;
    let mut spans = vec![0, 999, 499_999, 500_000, 500_001, 1_500_000, 2_500_000, 999_499_999];
    spans.extend([999_500_000, 999_999_999, 1_000_500_000, 1_000_499_999, 86_400_000_500_000]);
    for i in 0..4000u64 {
        n = n.wrapping_mul(6364136223846793005).wrapping_add(1442695040888963407);
        spans.push(n >> (i % 60));
        spans.push((n >> (i % 60)) / 500_000 * 500_000);
    }
    for nanos in spans {
        let want = format!("{:.3}", Duration::from_nanos(nanos).as_secs_f64());
        assert_eq!(seconds(Elapsed { nanos }), want, "{nanos}");
    }
}

#[test]
fn thousandths_round_halves_to_even() {
    assert_eq!(to_thousandths(Elapsed { nanos: 62_500_000 }), 62);
    assert_eq!(to_thousandths(Elapsed { nanos: 1_500_000_000 }), 1500);
    assert_eq!(Elapsed::from_millis(1500).nanos, 1_500_000_000);
}

#[test]
fn clocks_move_forward() {
    let c = Clock::start();
    let a = c.read();
    let b = c.read();
    assert!(a.mono <= b.mono);
    assert!(a.wall.secs > 1_500_000_000);
    assert!(a.wall.nanos < 1_000_000_000);
    assert!(a.wall.offset.abs() < 86_400);
}
