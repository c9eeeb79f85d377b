use topiq::listener::{next_backoff_ms, PingTracker, ACCEPT_BACKOFF_MAX_MS, ACCEPT_BACKOFF_START_MS};
use topiq::text::push_decimal;

#[test]
fn accept_backoff_doubles_up_to_the_cap() {
    let mut ms = ACCEPT_BACKOFF_START_MS;
    let mut seen = vec![ms];
    for _ in 0..8 {
        ms = next_backoff_ms(ms);
        seen.push(ms);
    }
    assert_eq!(seen, vec![1, 2, 4, 8, 16, 32, 64, 64, 64]);
    assert_eq!(next_backoff_ms(u64::MAX), ACCEPT_BACKOFF_MAX_MS);
}

#[test]
fn no_double_ping() {
    let mut t = PingTracker::new();
    assert!(t.on_tick());
    assert!(!t.on_tick());
    t.on_frame();
    assert!(t.on_tick());
}

fn decimal(n: u64) -> String {
    let mut s = String::from("n=");
    push_decimal(&mut s, n);
    s
}

#[test]
fn decimal_rendering() {
    assert_eq!(decimal(0), "n=0");
    assert_eq!(decimal(9), "n=9");
    assert_eq!(decimal(10), "n=10");
    assert_eq!(decimal(65536), "n=65536");
    assert_eq!(decimal(u64::MAX), "n=18446744073709551615");
}
