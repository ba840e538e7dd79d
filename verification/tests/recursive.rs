use mini_dns::net::Ipv4Addr;
use mini_dns::recursive::{delegation_zone, minimized_qname, root_hints, RecursiveResolver};

#[test]
fn root_hints_are_valid_addresses() {
    let hints = root_hints();
    assert_eq!(hints.len(), 13);
    for (name, ip) in hints {
        assert_eq!(Ipv4Addr::parse(&ip.text()), Some(ip), "invalid IP for {name}");
    }
    assert_eq!(root_hints()[12], ("m.root-servers.net", Ipv4Addr::new(202, 12, 27, 33)));
}

#[test]
fn resolver_starts_empty() {
    let r = RecursiveResolver::new();
    assert!(!r.has_delegation("com"));
}

#[test]
fn delegation_zone_strips_first_label() {
    assert_eq!(
        delegation_zone("www.example.com", &["ns1.example.com".to_string()]),
        "example.com"
    );
    assert_eq!(
        delegation_zone("example.com", &["a.gtld-servers.net".to_string()]),
        "com"
    );
}

#[test]
fn minimized_qname_at_root_queries_tld() {
    // At root (empty current_zone), query the TLD only.
    assert_eq!(minimized_qname("www.example.com", ""), "com");
    assert_eq!(minimized_qname("example.com", ""), "com");
    assert_eq!(minimized_qname("com", ""), "com");
}

#[test]
fn minimized_qname_at_tld_queries_next_label() {
    // At .com zone, query example.com (2 labels).
    assert_eq!(minimized_qname("www.example.com", "com"), "example.com");
    assert_eq!(minimized_qname("a.b.example.com", "com"), "example.com");
}

#[test]
fn minimized_qname_at_authoritative_queries_full_name() {
    // At example.com zone, query the full name.
    assert_eq!(minimized_qname("www.example.com", "example.com"), "www.example.com");
    assert_eq!(minimized_qname("example.com", "example.com"), "example.com");
}

#[test]
fn minimized_qname_deep_subdomain() {
    // a.b.c.example.com at root → "com"
    assert_eq!(minimized_qname("a.b.c.example.com", ""), "com");
    // at "com" → "example.com"
    assert_eq!(minimized_qname("a.b.c.example.com", "com"), "example.com");
    // at "example.com" → "c.example.com" (one more label)
    assert_eq!(minimized_qname("a.b.c.example.com", "example.com"), "c.example.com");
    // at "c.example.com" → "b.c.example.com"
    assert_eq!(minimized_qname("a.b.c.example.com", "c.example.com"), "b.c.example.com");
    // at "b.c.example.com" → full name
    assert_eq!(minimized_qname("a.b.c.example.com", "b.c.example.com"), "a.b.c.example.com");
}
