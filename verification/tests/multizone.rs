use mini_dns::config::{ForwardRule, ForwardRules, Zone, ZoneSet};
use mini_dns::dns::header::DnsHeader;
use mini_dns::dns::packet::DnsPacket;
use mini_dns::dns::question::DnsQuestion;
use mini_dns::dns::record::DnsRecord;
use mini_dns::net::{Ipv4Addr, SocketAddr};

/// A query for `name` type A.
fn a_query(name: &str) -> DnsPacket {
    DnsPacket {
        header: DnsHeader {
            id: 1,
            flags: 0x0100,
            questions: 1,
            answers: 0,
            authorities: 0,
            additionals: 0,
        },
        questions: vec![DnsQuestion {
            qname: name.to_string(),
            qtype: 1,
            qclass: 1,
        }],
        answers: vec![],
        authorities: vec![],
        additionals: vec![],
    }
}

/// Two zones: `example.com` and `internal`, each with an A record at the apex
/// and a SOA (so the origin is tracked). Queries for each must resolve from
/// the correct zone, and NXDOMAIN within a zone must carry that zone's SOA.
#[test]
fn multi_zone_resolves_from_correct_zone() {
    let mut zone1 = Zone::new();
    zone1.insert(
        "example.com".to_string(),
        vec![
            DnsRecord::SOA {
                domain: "example.com".to_string(),
                mname: "ns1.example.com".to_string(),
                rname: "admin.example.com".to_string(),
                serial: 1,
                refresh: 7200,
                retry: 3600,
                expire: 1_209_600,
                minimum: 60,
                ttl: 3600,
            },
            DnsRecord::A {
                domain: "example.com".to_string(),
                addr: Ipv4Addr::new(192, 0, 2, 1),
                ttl: 3600,
            },
        ],
    );

    let mut zone2 = Zone::new();
    zone2.insert(
        "internal".to_string(),
        vec![
            DnsRecord::SOA {
                domain: "internal".to_string(),
                mname: "ns1.internal".to_string(),
                rname: "admin.internal".to_string(),
                serial: 1,
                refresh: 7200,
                retry: 3600,
                expire: 1_209_600,
                minimum: 60,
                ttl: 3600,
            },
            DnsRecord::A {
                domain: "internal".to_string(),
                addr: Ipv4Addr::new(10, 0, 0, 1),
                ttl: 3600,
            },
        ],
    );

    let zones = ZoneSet::new(vec![
        mini_dns::config::AuthZone {
            origin: "example.com".to_string(),
            records: zone1,
        },
        mini_dns::config::AuthZone {
            origin: "internal".to_string(),
            records: zone2,
        },
    ]);

    // Query example.com — resolves from zone 1.
    let r1 = a_query("example.com").build_response(&zones);
    assert_eq!(r1.answers.len(), 1);
    match &r1.answers[0] {
        DnsRecord::A { addr, .. } => assert_eq!(addr.text(), "192.0.2.1"),
        other => panic!("expected A from zone1, got {:?}", other),
    }

    // Query internal — resolves from zone 2.
    let r2 = a_query("internal").build_response(&zones);
    assert_eq!(r2.answers.len(), 1);
    match &r2.answers[0] {
        DnsRecord::A { addr, .. } => assert_eq!(addr.text(), "10.0.0.1"),
        other => panic!("expected A from zone2, got {:?}", other),
    }
}

/// NXDOMAIN within a specific zone must carry THAT zone's SOA, not the other
/// zone's SOA.
#[test]
fn multi_zone_nxdomain_carries_correct_soa() {
    let mut zone1 = Zone::new();
    zone1.insert(
        "example.com".to_string(),
        vec![DnsRecord::SOA {
            domain: "example.com".to_string(),
            mname: "ns1.example.com".to_string(),
            rname: "admin.example.com".to_string(),
            serial: 1,
            refresh: 7200,
            retry: 3600,
            expire: 1_209_600,
            minimum: 60,
            ttl: 3600,
        }],
    );

    let mut zone2 = Zone::new();
    zone2.insert(
        "internal".to_string(),
        vec![DnsRecord::SOA {
            domain: "internal".to_string(),
            mname: "ns1.internal".to_string(),
            rname: "admin.internal".to_string(),
            serial: 99,
            refresh: 7200,
            retry: 3600,
            expire: 1_209_600,
            minimum: 60,
            ttl: 3600,
        }],
    );

    let zones = ZoneSet::new(vec![
        mini_dns::config::AuthZone {
            origin: "example.com".to_string(),
            records: zone1,
        },
        mini_dns::config::AuthZone {
            origin: "internal".to_string(),
            records: zone2,
        },
    ]);

    // NXDOMAIN for missing.example.com — must carry example.com's SOA.
    let r = a_query("missing.example.com").build_response(&zones);
    assert_eq!(r.answers.len(), 0);
    assert_eq!(r.header.flags & 0x000F, 3); // NXDOMAIN
    assert_eq!(r.authorities.len(), 1);
    match &r.authorities[0] {
        DnsRecord::SOA { mname, .. } => assert_eq!(mname, "ns1.example.com"),
        other => panic!("expected example.com SOA, got {:?}", other),
    }

    // NXDOMAIN for missing.internal — must carry internal's SOA.
    let r2 = a_query("missing.internal").build_response(&zones);
    assert_eq!(r2.authorities.len(), 1);
    match &r2.authorities[0] {
        DnsRecord::SOA { mname, .. } => assert_eq!(mname, "ns1.internal"),
        other => panic!("expected internal SOA, got {:?}", other),
    }
}

/// A query for a name that doesn't fall within any zone must NOT be
/// authoritative and must NOT carry an SOA.
#[test]
fn multi_zone_name_outside_all_zones_no_aa() {
    let mut zone = Zone::new();
    zone.insert(
        "example.com".to_string(),
        vec![DnsRecord::SOA {
            domain: "example.com".to_string(),
            mname: "ns1.example.com".to_string(),
            rname: "admin.example.com".to_string(),
            serial: 1,
            refresh: 7200,
            retry: 3600,
            expire: 1_209_600,
            minimum: 60,
            ttl: 3600,
        }],
    );
    let zones = ZoneSet::from_single("example.com".to_string(), zone);

    let r = a_query("other.org").build_response(&zones);
    assert_eq!(r.answers.len(), 0);
    assert_eq!(r.header.flags & 0x000F, 3); // NXDOMAIN
    assert_eq!(r.header.flags & 0x0400, 0); // not authoritative
    assert_eq!(r.authorities.len(), 0); // no SOA
}

/// Conditional forwarding: longest-suffix match selects the upstream.
#[test]
fn conditional_forwarding_longest_suffix_wins() {
    let internal: SocketAddr = SocketAddr::parse("10.0.0.1:53").unwrap();
    let corp: SocketAddr = SocketAddr::parse("10.0.0.2:53").unwrap();
    let default: SocketAddr = SocketAddr::parse("1.1.1.1:53").unwrap();

    let rules = ForwardRules::new(
        Some(default),
        vec![
            ForwardRule {
                suffix: "corp.example.com".to_string(),
                upstream: corp,
            },
            ForwardRule {
                suffix: "example.com".to_string(),
                upstream: internal,
            },
        ],
    );

    // host.corp.example.com -> corp (longer suffix match)
    assert_eq!(
        rules.match_name("host.corp.example.com"),
        Some(corp)
    );
    // host.example.com -> internal
    assert_eq!(rules.match_name("host.example.com"), Some(internal));
    // example.com itself -> internal (exact match)
    assert_eq!(rules.match_name("example.com"), Some(internal));
    // other.org -> default
    assert_eq!(rules.match_name("other.org"), Some(default));
}

/// Conditional forwarding with no default: unmatched names get no upstream.
#[test]
fn conditional_forwarding_no_default_unmatched() {
    let corp: SocketAddr = SocketAddr::parse("10.0.0.2:53").unwrap();
    let rules = ForwardRules::new(
        None,
        vec![ForwardRule {
            suffix: "corp.example.com".to_string(),
            upstream: corp,
        }],
    );

    assert_eq!(rules.match_name("host.corp.example.com"), Some(corp));
    assert_eq!(rules.match_name("other.org"), None);
}

/// A zone set built from records alone takes its origin from the SOA record.
#[test]
fn origin_of_bare_records() {
    let mut zone = Zone::new();
    zone.insert(
        "example.com".to_string(),
        vec![DnsRecord::SOA {
            domain: "example.com".to_string(),
            mname: "m".to_string(),
            rname: "r".to_string(),
            serial: 1,
            refresh: 2,
            retry: 3,
            expire: 4,
            minimum: 5,
            ttl: 6,
        }],
    );
    let zones = ZoneSet::from_records(zone);
    assert_eq!(zones.zones()[0].origin, "example.com");
    assert!(zones.find("a.example.com").is_some());
    assert!(zones.find("other.org").is_none());

    // Without one the origin is empty, and covers every name.
    let zones = ZoneSet::from_records(Zone::new());
    assert!(zones.find("other.org").is_some());
    assert!(ZoneSet::empty().is_empty());
}

/// An exact name wins over a wildcard, and a closer wildcard over one further up.
#[test]
fn wildcards_give_way() {
    let a = |name: &str, last: u8| DnsRecord::A {
        domain: name.to_string(),
        addr: Ipv4Addr::new(192, 0, 2, last),
        ttl: 60,
    };
    let mut zone = Zone::new();
    for (name, last) in [("*.example.com", 1), ("*.a.example.com", 2), ("b.example.com", 3)] {
        zone.insert(name.to_string(), vec![a(name, last)]);
    }
    let found = |name: &str| match &a_query(name).build_response(&zone).answers[0] {
        DnsRecord::A { addr, domain, .. } => {
            assert_eq!(domain, name);
            addr.octets()[3]
        }
        other => panic!("{:?}", other),
    };
    assert_eq!(found("b.example.com"), 3);
    assert_eq!(found("x.y.example.com"), 1);
    assert_eq!(found("x.a.example.com"), 2);
    assert_eq!(found("x.y.a.example.com"), 2);
    assert_eq!(a_query("example.com").build_response(&zone).answers.len(), 0);
}

/// CNAME loops end, and no alias is answered twice.
#[test]
fn alias_loops_end() {
    let mut zone = Zone::new();
    for (name, alias) in [("a.x", "B.x"), ("b.x", "c.x"), ("c.x", "a.x")] {
        zone.insert(
            name.to_string(),
            vec![DnsRecord::CNAME {
                domain: name.to_string(),
                alias: alias.to_string(),
                ttl: 60,
            }],
        );
    }
    let response = a_query("a.x").build_response(&zone);
    let owners: Vec<&str> = response.answers.iter().map(|r| r.domain()).collect();
    assert_eq!(owners, ["a.x", "b.x", "c.x"]);
    assert_eq!(response.header.flags, 0x8500);
}

/// The zone with the longest origin answers, in whatever order the zones are given.
#[test]
fn the_closest_zone_answers() {
    let zone = |origin: &str, last: u8| {
        let mut records = Zone::new();
        records.insert(
            "*.corp.example.com".to_string(),
            vec![DnsRecord::A {
                domain: "*.corp.example.com".to_string(),
                addr: Ipv4Addr::new(192, 0, 2, last),
                ttl: 60,
            }],
        );
        mini_dns::config::AuthZone { origin: origin.to_string(), records }
    };
    for order in [["example.com", "corp.example.com", ""], ["", "corp.example.com", "example.com"]] {
        let zones = ZoneSet::new(
            order.iter().map(|origin| zone(origin, origin.len() as u8)).collect(),
        );
        assert_eq!(zones.find("a.corp.example.com").unwrap().origin, "corp.example.com");
        assert_eq!(zones.find("notcorp.example.com").unwrap().origin, "example.com");
        assert_eq!(zones.find("other.org").unwrap().origin, "");
        match &a_query("a.corp.example.com").build_response(&zones).answers[0] {
            DnsRecord::A { addr, .. } => assert_eq!(addr.octets()[3], 16),
            other => panic!("{:?}", other),
        }
    }
}

/// Of rules with suffixes of the same length, the first one that is given wins.
#[test]
fn rules_of_the_same_length_stay_in_order() {
    let rule = |suffix: &str, upstream: &str| ForwardRule {
        suffix: suffix.to_string(),
        upstream: SocketAddr::parse(upstream).unwrap(),
    };
    let rules = ForwardRules::new(
        None,
        vec![
            rule("x.com", "10.0.0.1:53"),
            rule("a.x.com", "10.0.0.2:53"),
            rule("x.com", "10.0.0.3:53"),
        ],
    );
    let order: Vec<String> = rules.rules().iter().map(|r| r.suffix.clone()).collect();
    assert_eq!(order, ["a.x.com", "x.com", "x.com"]);
    assert_eq!(rules.match_name("b.x.com"), SocketAddr::parse("10.0.0.1:53"));
}
