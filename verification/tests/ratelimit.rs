use mini_dns::ratelimit::RateLimiter;
use mini_dns::time::Duration;
use mini_dns::net::{IpAddr, Ipv4Addr};

fn ip(last: u8) -> IpAddr {
    IpAddr::V4(Ipv4Addr::new(127, 0, 0, last))
}

#[test]
fn disabled_allows_everything() {
    let mut limiter = RateLimiter::disabled();
    for _ in 0..1000 {
        assert!(limiter.allow(ip(1)));
    }
}

#[test]
fn enforces_limit_per_client() {
    let mut limiter = RateLimiter::new(3, Duration::from_secs(60));
    assert!(limiter.allow(ip(1)));
    assert!(limiter.allow(ip(1)));
    assert!(limiter.allow(ip(1)));
    assert!(!limiter.allow(ip(1))); // 4th exceeds the limit

    // A different client has its own budget.
    assert!(limiter.allow(ip(2)));
}

#[test]
fn cleanup_drops_idle_clients_bounding_memory() {
    let mut limiter = RateLimiter::new(5, Duration::from_millis(10));
    for i in 0..50 {
        limiter.allow(ip(i));
    }
    assert_eq!(limiter.tracked_clients(), 50);

    // Once every window has elapsed, cleanup must reclaim all of them.
    let later = limiter.now() + 25_000_000;
    limiter.cleanup_at(later);
    assert_eq!(limiter.tracked_clients(), 0);
}

#[test]
fn cleanup_keeps_clients_within_their_window() {
    let mut limiter = RateLimiter::new(5, Duration::from_secs(60));
    limiter.allow(ip(1));
    limiter.cleanup(); // window still open -> kept
    assert_eq!(limiter.tracked_clients(), 1);
}
