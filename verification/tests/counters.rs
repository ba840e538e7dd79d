use mini_dns::blocklist::Blocklist;
use mini_dns::cache::Cache;
use mini_dns::dns::record::DnsRecord;
use mini_dns::dnssec::{
    canonical_name, canonical_rdata, key_tag_from_rdata, DnssecError, DnssecKeys, SigningKey,
};
use mini_dns::metrics::Metrics;
use mini_dns::net::{IpAddr, Ipv4Addr};
use mini_dns::ratelimit::RateLimiter;
use mini_dns::time::Duration;
use ring::signature::{KeyPair, UnparsedPublicKey, ED25519};

const SECOND: u64 = 1_000_000_000;

#[test]
fn metrics_text() {
    let mut m = Metrics::default();
    m.inc_total();
    m.inc_total();
    m.inc_authoritative();
    m.inc_cache_hit();
    m.inc_forwarded();
    m.inc_coalesced();
    m.inc_rate_limited();
    m.inc_blocked();
    m.inc_error();
    assert_eq!(
        m.summary(),
        "total=2 authoritative=1 cache_hits=1 forwarded=1 coalesced=1 rate_limited=1 blocked=1 \
         errors=1"
    );
    let text = m.prometheus();
    assert!(text.starts_with(
        "# HELP mini_dns_queries_total Total queries received\n\
         # TYPE mini_dns_queries_total counter\nmini_dns_queries_total 2\n"
    ));
    assert!(text.ends_with(
        "# HELP mini_dns_errors_total Packets that failed to parse or forward\n\
         # TYPE mini_dns_errors_total counter\nmini_dns_errors_total 1\n"
    ));
    assert_eq!(text.lines().count(), 24);
}

#[test]
fn windows_open_anew() {
    let mut limiter = RateLimiter::new(2, Duration::from_secs(1));
    let ip = IpAddr::V4(Ipv4Addr::new(192, 0, 2, 1));
    assert!(limiter.allow_at(ip, 0));
    assert!(limiter.allow_at(ip, 1));
    assert!(!limiter.allow_at(ip, SECOND - 1));
    // The window began with the first query.
    assert!(limiter.allow_at(ip, SECOND));
    assert!(limiter.allow_at(ip, SECOND + 1));
    assert!(!limiter.allow_at(ip, SECOND + 2));
}

#[test]
fn cleaning_up_changes_nothing_for_clients() {
    let ip = |n: u8| IpAddr::V4(Ipv4Addr::new(192, 0, 2, n));
    let mut limiter = RateLimiter::new(1, Duration::from_secs(1));
    assert!(limiter.allow_at(ip(1), 0));
    assert!(limiter.allow_at(ip(2), SECOND / 2));
    limiter.cleanup_at(SECOND);
    assert_eq!(limiter.tracked_clients(), 1);
    assert!(limiter.allow_at(ip(1), SECOND));
    assert!(!limiter.allow_at(ip(2), SECOND));

    // A limiter that is cleaned up decides like one that is not.
    let queries = |clean: bool| {
        let mut limiter = RateLimiter::new(1, Duration::from_secs(1));
        let mut allowed = vec![];
        for n in 0..40 {
            if clean && n == 20 {
                limiter.cleanup_at(n * SECOND / 5);
            }
            allowed.push(limiter.allow_at(ip((n % 3) as u8), n * SECOND / 5));
        }
        allowed
    };
    assert_eq!(queries(true), queries(false));
    assert!(queries(true).contains(&false));
}

#[test]
fn v4_and_v6_clients_are_apart() {
    let mut limiter = RateLimiter::new(1, Duration::from_secs(60));
    assert!(limiter.allow_at(IpAddr::parse("0.0.0.1").unwrap(), 0));
    assert!(limiter.allow_at(IpAddr::parse("::1").unwrap(), 0));
    assert_eq!(limiter.tracked_clients(), 2);
}

#[test]
fn clocks_run_on() {
    let limiter = RateLimiter::disabled();
    let first = limiter.now();
    let mut later = limiter.now();
    while later == first {
        later = limiter.now();
    }
    assert!(later > first);
}

#[test]
fn entries_expire() {
    let mut cache: Cache<u8> = Cache::new(8);
    cache.insert_at("a.example", 1, vec![1, 2], 10, 5);
    assert_eq!(cache.get_at("A.example", 1, 10 * SECOND + 4), Some(vec![1, 2]));
    assert_eq!(cache.get_at("a.example", 1, 10 * SECOND + 5), None);
    // An expired entry is gone for good.
    assert_eq!(cache.get_at("a.example", 1, 5), None);
}

#[test]
fn a_cache_of_no_capacity_holds_nothing() {
    let mut cache: Cache<u8> = Cache::new(0);
    cache.insert_at("a.example", 1, vec![1], 10, 0);
    assert_eq!(cache.get_at("a.example", 1, 0), None);
}

#[test]
fn a_full_cache_starts_over() {
    let mut cache: Cache<u8> = Cache::new(2);
    cache.insert_at("a", 1, vec![1], 10, 0);
    cache.insert_at("b", 1, vec![2], 10, 0);
    // A known key does not count as new.
    cache.insert_at("a", 1, vec![3], 10, 0);
    assert_eq!(cache.get_at("b", 1, 0), Some(vec![2]));
    cache.insert_at("c", 1, vec![4], 10, 0);
    assert_eq!(cache.get_at("a", 1, 0), None);
    assert_eq!(cache.get_at("b", 1, 0), None);
    assert_eq!(cache.get_at("c", 1, 0), Some(vec![4]));
}

#[test]
fn names_and_types_are_cached_apart() {
    let mut cache: Cache<u8> = Cache::new(8);
    cache.insert_at("1:x", 1, vec![1], 10, 0);
    cache.insert_at("x", 11, vec![2], 10, 0);
    assert_eq!(cache.get_at("1:x", 1, 0), Some(vec![1]));
    assert_eq!(cache.get_at("x", 11, 0), Some(vec![2]));
    assert_eq!(cache.get_at("x", 1, 0), None);
}

#[test]
fn blocklist_files() {
    let text = "; comment\n# comment\n\nAds.Example.COM\n*.tracker.com\nnot a name\na_b.com\n\
                a.*.com\n";
    let (mut list, bad) = Blocklist::from_text("block.txt".to_string(), text);
    assert_eq!(list.len(), 2);
    assert_eq!(bad, vec![6, 7, 8]);
    assert!(list.path().is_some());
    assert!(list.is_blocked("ads.example.com"));
    assert!(list.is_blocked("a.b.Tracker.com"));
    assert!(!list.is_blocked("tracker.com"));

    list.reload("other.com\n");
    assert!(list.is_blocked("other.com"));
    assert!(!list.is_blocked("ads.example.com"));
}

#[test]
fn names_beyond_ascii_are_lowered_too() {
    let list = Blocklist::from_domains(vec!["B\u{DC}CHER.example".to_string()]);
    assert!(list.is_blocked("b\u{FC}cher.EXAMPLE"));
}

#[test]
fn key_tags_add_up() {
    assert_eq!(key_tag_from_rdata(&[]), 0);
    assert_eq!(key_tag_from_rdata(&[0x01]), 0x0100);
    // 0xFFFF + 0xFFFF carries over: 0x1FFFE + 1, cut to 16 bits.
    assert_eq!(key_tag_from_rdata(&[0xFF, 0xFF, 0xFF, 0xFF]), 0xFFFF);
}

#[test]
fn canonical_forms() {
    let mut out = vec![];
    canonical_name("Example.COM", &mut out);
    assert_eq!(out, b"\x07example\x03com\x00");
    let mx = DnsRecord::MX {
        domain: "a".to_string(),
        preference: 10,
        exchange: "Mail.A".to_string(),
        ttl: 1,
    };
    assert_eq!(canonical_rdata(&mx), b"\x00\x0a\x04mail\x01a\x00");
    let txt = |text: &str| DnsRecord::TXT {
        domain: "a".to_string(),
        text: text.to_string(),
        ttl: 1,
    };
    assert_eq!(canonical_rdata(&txt("hi")), b"\x02hi");
    assert_eq!(canonical_rdata(&txt("")), b"\x00");
    let ds = DnsRecord::DS {
        domain: "a".to_string(),
        key_tag: 0x0102,
        algorithm: 15,
        digest_type: 2,
        digest: vec![7, 8],
        ttl: 1,
    };
    assert_eq!(canonical_rdata(&ds), [1, 2, 15, 2, 7, 8]);
    let nsec = DnsRecord::NSEC {
        domain: "a".to_string(),
        next_name: "B.a".to_string(),
        type_bitmap: vec![0, 1, 0x40],
        ttl: 1,
    };
    assert_eq!(canonical_rdata(&nsec), b"\x01b\x01a\x00\x00\x01\x40");
    let rrsig = DnsRecord::RRSIG {
        domain: "a".to_string(),
        type_covered: 1,
        algorithm: 15,
        labels: 1,
        original_ttl: 2,
        signature_expiration: 3,
        signature_inception: 4,
        key_tag: 5,
        signer_name: "A".to_string(),
        signature: vec![9],
        ttl: 1,
    };
    assert_eq!(
        canonical_rdata(&rrsig),
        [0, 1, 15, 1, 0, 0, 0, 2, 0, 0, 0, 3, 0, 0, 0, 4, 0, 5, 1, b'a', 0, 9]
    );
}

#[test]
fn keys_are_read_back() {
    let key = SigningKey::generate("example.com").unwrap();
    assert_eq!(key.private_key.len(), 32);
    let again = SigningKey::from_private_key("example.com", key.private_key.clone()).unwrap();
    assert_eq!(again.public_key, key.public_key);
    assert_eq!(again.key_tag(), key.key_tag());
    let pair = ring::signature::Ed25519KeyPair::from_seed_unchecked(&key.private_key).unwrap();
    assert_eq!(pair.public_key().as_ref(), &key.public_key[..]);
    assert!(matches!(
        SigningKey::from_private_key("example.com", vec![1, 2, 3]),
        Err(DnssecError::KeyRejected)
    ));
    // Keys are made anew each time.
    assert_ne!(SigningKey::generate("example.com").unwrap().private_key, key.private_key);
}

#[test]
fn signatures_can_be_verified() {
    // RFC 8032, section 7.1, test 1.
    let private_key = b"\x9d\x61\xb1\x9d\xef\xfd\x5a\x60\xba\x84\x4a\xf4\x92\xec\x2c\xc4\
                        \x44\x49\xc5\x69\x7b\x32\x69\x19\x70\x3b\xac\x03\x1c\xae\x7f\x60";
    let key = SigningKey::from_private_key("Example.com", private_key.to_vec()).unwrap();
    assert_eq!(&key.public_key[..4], b"\xd7\x5a\x98\x01");
    let tag = key.key_tag().to_be_bytes();
    let public_key = key.public_key.clone();

    let a = DnsRecord::A {
        domain: "www.Example.com".to_string(),
        addr: Ipv4Addr::new(192, 0, 2, 1),
        ttl: 9,
    };
    let keys = DnssecKeys::of_key(key);
    let signature = match keys.sign_rrset(&[a], "Example.com", 60, 1, 2) {
        Ok(DnsRecord::RRSIG { signature, .. }) => signature,
        other => panic!("{:?}", other),
    };
    let mut data = b"\x00\x01\x0f\x03\x00\x00\x00\x3c\x00\x00\x00\x02\x00\x00\x00\x01".to_vec();
    data.extend_from_slice(&tag);
    data.extend_from_slice(b"\x07example\x03com\x00\x03www\x07example\x03com\x00");
    data.extend_from_slice(b"\x00\x01\x00\x01\x00\x00\x00\x3c\x00\x04\xc0\x00\x02\x01");
    assert!(UnparsedPublicKey::new(&ED25519, &public_key).verify(&data, &signature).is_ok());
}

#[test]
fn a_key_makes_a_set() {
    let key = SigningKey::from_private_key("example.com", vec![7; 32]).unwrap();
    let tag = key.key_tag();
    let keys = DnssecKeys::of_key(key);
    assert!(keys.is_enabled());
    assert_eq!(keys.keys.len(), 1);
    assert_eq!((keys.keys[0].zone_name.as_str(), keys.keys[0].key_tag()), ("example.com", tag));
}

#[test]
fn signing_needs_a_key() {
    let a = DnsRecord::A {
        domain: "example.com".to_string(),
        addr: Ipv4Addr::new(192, 0, 2, 1),
        ttl: 60,
    };
    let none = DnssecKeys::default();
    assert!(!none.is_enabled());
    assert!(matches!(
        none.sign_rrset(&[a.clone()], "example.com", 60, 1, 2),
        Err(DnssecError::NoKeys)
    ));

    // Signatures are the same for the same data, and differ with it.
    let keys = DnssecKeys::single("example.com").unwrap();
    assert!(keys.is_enabled());
    let signature = |expiration: u32| match keys.sign_rrset(
        &[a.clone()],
        "example.com",
        60,
        1,
        expiration,
    ) {
        Ok(DnsRecord::RRSIG { signature, .. }) => signature,
        other => panic!("{:?}", other),
    };
    assert_eq!(signature(2), signature(2));
    assert_ne!(signature(2), signature(3));
    let public = UnparsedPublicKey::new(&ED25519, &keys.keys[0].public_key);
    assert!(public.verify(b"something else", &signature(2)).is_err());
}
