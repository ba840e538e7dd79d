use mini_dns::config::{
    forward_rules_from_settings, parse_line, parse_upstream_addr, parse_zone_file,
    zone_with_inferred_origin, zones_from_settings, ForwardRuleSettings, Settings,
    UpstreamSettings, ZoneLineError, ZoneSettings,
};
use mini_dns::dns::record::DnsRecord;
use mini_dns::net::{Ipv4Addr, Ipv6Addr, SocketAddr};

fn error(line: &str) -> ZoneLineError {
    match parse_line(line) {
        Err(e) => e,
        other => panic!("expected an error for {line}, got {:?}", other),
    }
}

fn record(line: &str) -> DnsRecord {
    match parse_line(line) {
        Ok(Some((_, r))) => r,
        other => panic!("expected a record for {line}, got {:?}", other),
    }
}

#[test]
fn every_line_error() {
    assert_eq!(error("example.com. 3600 A"), ZoneLineError::TooFewFields);
    assert_eq!(error("example.com. soon A 192.0.2.1"), ZoneLineError::InvalidTtl);
    assert_eq!(error("example.com. 4294967296 A 192.0.2.1"), ZoneLineError::InvalidTtl);
    assert_eq!(error("example.com. 1 A 192.0.2.256"), ZoneLineError::InvalidIpv4);
    assert_eq!(error("example.com. 1 A 192.0.2.1 192.0.2.2"), ZoneLineError::InvalidIpv4);
    assert_eq!(error("example.com. 1 AAAA 2001:db8::g"), ZoneLineError::InvalidIpv6);
    assert_eq!(error("example.com. 1 MX 10"), ZoneLineError::MxFields);
    assert_eq!(error("example.com. 1 MX ten mail"), ZoneLineError::MxPreference);
    assert_eq!(error("_s._tcp.a. 1 SRV 1 2 3"), ZoneLineError::SrvFields);
    assert_eq!(error("_s._tcp.a. 1 SRV x 2 3 t"), ZoneLineError::SrvPriority);
    assert_eq!(error("_s._tcp.a. 1 SRV 1 x 3 t"), ZoneLineError::SrvWeight);
    assert_eq!(error("_s._tcp.a. 1 SRV 1 2 70000 t"), ZoneLineError::SrvPort);
    assert_eq!(error("example.com. 1 CAA 0 issue"), ZoneLineError::CaaFields);
    assert_eq!(error("example.com. 1 CAA 256 issue ca.org"), ZoneLineError::CaaFlags);
    assert_eq!(error("a. 1 SOA m r 1 2 3 4"), ZoneLineError::SoaFields);
    assert_eq!(error("a. 1 SOA m r x 2 3 4 5"), ZoneLineError::SoaSerial);
    assert_eq!(error("a. 1 SOA m r 1 x 3 4 5"), ZoneLineError::SoaRefresh);
    assert_eq!(error("a. 1 SOA m r 1 2 x 4 5"), ZoneLineError::SoaRetry);
    assert_eq!(error("a. 1 SOA m r 1 2 3 x 5"), ZoneLineError::SoaExpire);
    assert_eq!(error("a. 1 SOA m r 1 2 3 4 x"), ZoneLineError::SoaMinimum);
    assert_eq!(ZoneLineError::InvalidTtl.message(), "invalid TTL");
    assert_eq!(
        ZoneLineError::SoaFields.message(),
        "SOA record requires 7 fields (mname rname serial refresh retry expire minimum)"
    );
}

#[test]
fn every_record_type() {
    match record("example.com. 1 AAAA 2001:db8::1") {
        DnsRecord::AAAA { addr, .. } => assert_eq!(addr, Ipv6Addr::parse("2001:db8::1").unwrap()),
        other => panic!("{:?}", other),
    }
    match record("example.com. 1 MX 10 mail.example.com.") {
        DnsRecord::MX { preference, exchange, .. } => {
            assert_eq!((preference, exchange.as_str()), (10, "mail.example.com"))
        }
        other => panic!("{:?}", other),
    }
    match record("example.com. 1 TXT \"v=spf1   -all\"") {
        // Runs of white space between words count as one.
        DnsRecord::TXT { text, .. } => assert_eq!(text, "v=spf1 -all"),
        other => panic!("{:?}", other),
    }
    match record("example.com. 1 NS ns1.example.com.") {
        DnsRecord::NS { nameserver, .. } => assert_eq!(nameserver, "ns1.example.com"),
        other => panic!("{:?}", other),
    }
    match record("1.2.0.192.in-addr.arpa. 1 PTR host.example.com.") {
        DnsRecord::PTR { ptrdname, .. } => assert_eq!(ptrdname, "host.example.com"),
        other => panic!("{:?}", other),
    }
    match record("_sip._tcp.example.com. 1 SRV 10 60 5060 sip.example.com.") {
        DnsRecord::SRV { priority, weight, port, target, .. } => {
            assert_eq!((priority, weight, port), (10, 60, 5060));
            assert_eq!(target, "sip.example.com");
        }
        other => panic!("{:?}", other),
    }
    match record("example.com. 1 CAA 0 issue \"letsencrypt.org\"") {
        DnsRecord::CAA { flags, tag, value, .. } => {
            assert_eq!((flags, tag.as_str(), value.as_str()), (0, "issue", "letsencrypt.org"))
        }
        other => panic!("{:?}", other),
    }
    match record("example.com. 3600 SOA ns1.example.com. admin.example.com. 1 7200 3600 1209600 60")
    {
        DnsRecord::SOA { mname, rname, serial, refresh, retry, expire, minimum, ttl, .. } => {
            assert_eq!((mname.as_str(), rname.as_str()), ("ns1.example.com", "admin.example.com"));
            assert_eq!((serial, refresh, retry, expire, minimum), (1, 7200, 3600, 1209600, 60));
            assert_eq!(ttl, 3600);
        }
        other => panic!("{:?}", other),
    }
}

#[test]
fn unsupported_types_are_passed_over() {
    assert!(matches!(parse_line("example.com. 1 HINFO cpu os"), Ok(None)));
    // Type names are matched as they stand.
    assert!(matches!(parse_line("example.com. 1 a 192.0.2.1"), Ok(None)));
}

#[test]
fn owner_is_lowered_and_loses_its_dot() {
    match parse_line("WWW.Example.COM. 60 A 192.0.2.1") {
        Ok(Some((name, DnsRecord::A { domain, ttl, .. }))) => {
            assert_eq!((name.as_str(), domain.as_str(), ttl), (
                "www.example.com",
                "www.example.com",
                60
            ));
        }
        other => panic!("{:?}", other),
    }
}

#[test]
fn a_bad_line_is_reported_and_skipped() {
    let good = "a.example. 1 A 192.0.2.1\nb.example. 1 A 192.0.2.2\n";
    let mixed =
        "; comment\n\na.example. 1 A 192.0.2.1\nnonsense\n   \r\nb.example. 1 A 192.0.2.2\r\n";
    let (zone, errors) = parse_zone_file(mixed);
    let (expected, none) = parse_zone_file(good);
    assert_eq!(errors, vec![(4, ZoneLineError::TooFewFields)]);
    assert!(none.is_empty());
    assert_eq!(zone.len(), expected.len());
    for name in ["a.example", "b.example"] {
        assert_eq!(
            format!("{:?}", zone.get(name).unwrap()),
            format!("{:?}", expected.get(name).unwrap())
        );
    }
}

#[test]
fn records_of_one_owner_stay_in_order() {
    let (zone, _) = parse_zone_file("x. 1 A 192.0.2.2\nx. 1 A 192.0.2.1\n");
    let records = zone.get("x").unwrap();
    assert_eq!(records.len(), 2);
    match (&records[0], &records[1]) {
        (DnsRecord::A { addr: a, .. }, DnsRecord::A { addr: b, .. }) => {
            assert_eq!(*a, Ipv4Addr::new(192, 0, 2, 2));
            assert_eq!(*b, Ipv4Addr::new(192, 0, 2, 1));
        }
        other => panic!("{:?}", other),
    }
    assert!(zone.get("y").is_none());
}

#[test]
fn origin_comes_from_the_soa_record() {
    let (zone, _) = zone_with_inferred_origin(
        "www.example.com. 1 A 192.0.2.1\nexample.com. 1 SOA m r 1 2 3 4 5\n",
    );
    assert_eq!(zone.origin, "example.com");
}

#[test]
fn zones_are_built_from_settings() {
    let settings = Settings {
        zone: Some(vec![
            ZoneSettings { origin: "Example.COM".to_string(), file: "a.zone".to_string() },
            ZoneSettings { origin: "internal".to_string(), file: "b.zone".to_string() },
        ]),
        ..Settings::default()
    };
    let contents = vec![
        "example.com. 1 A 192.0.2.1\n".to_string(),
        "bad\ninternal. 1 A 10.0.0.1\n".to_string(),
    ];
    let (zones, errors) = zones_from_settings(&settings, &contents);
    assert_eq!(zones.len(), 2);
    assert_eq!(zones.find("www.example.com").unwrap().origin, "example.com");
    assert_eq!(zones.find("internal").unwrap().origin, "internal");
    assert!(zones.find("other.org").is_none());
    assert_eq!(zones.record_count(), 2);
    assert_eq!(errors.len(), 2);
    assert_eq!(errors[0], (0, vec![]));
    assert_eq!(errors[1], (1, vec![(1, ZoneLineError::TooFewFields)]));
}

#[test]
fn upstream_addresses() {
    let with_port = SocketAddr::parse("9.9.9.9:5353").unwrap();
    assert_eq!(parse_upstream_addr("9.9.9.9:5353").unwrap(), with_port);
    let default_port = SocketAddr::parse("9.9.9.9:53").unwrap();
    assert_eq!(parse_upstream_addr("9.9.9.9").unwrap(), default_port);
    let v6 = SocketAddr::parse("[2001:db8::1]:53").unwrap();
    assert_eq!(parse_upstream_addr("[2001:db8::1]:53").unwrap(), v6);
    assert_eq!(parse_upstream_addr("[2001:db8::1]").unwrap(), v6);
    assert_eq!(parse_upstream_addr("dns.example").unwrap_err().text, "dns.example");
}

#[test]
fn forward_rules_come_from_settings() {
    let rule = |suffix: &str, upstream: &str| ForwardRuleSettings {
        suffix: suffix.to_string(),
        upstream: upstream.to_string(),
    };
    let settings = |default: Option<&str>, rules: Vec<ForwardRuleSettings>| Settings {
        upstream: Some(UpstreamSettings {
            default: default.map(|s| s.to_string()),
            rules: Some(rules),
            ..UpstreamSettings::default()
        }),
        ..Settings::default()
    };
    let rules = forward_rules_from_settings(&settings(
        Some("1.1.1.1"),
        vec![rule("example.com", "10.0.0.1"), rule("Corp.Example.COM", "10.0.0.2:54")],
    ))
    .unwrap();
    assert_eq!(rules.default_upstream(), SocketAddr::parse("1.1.1.1:53"));
    assert_eq!(rules.rules().len(), 2);
    assert_eq!(rules.match_name("a.corp.example.com"), SocketAddr::parse("10.0.0.2:54"));
    assert_eq!(rules.match_name("b.example.com"), SocketAddr::parse("10.0.0.1:53"));
    assert_eq!(rules.match_name("notexample.com"), SocketAddr::parse("1.1.1.1:53"));

    let none = forward_rules_from_settings(&Settings::default()).unwrap();
    assert!(!none.is_enabled());

    // The default is looked at first, then the rules in order.
    let bad = settings(Some("x"), vec![rule("a", "y")]);
    assert_eq!(forward_rules_from_settings(&bad).unwrap_err().text, "x");
    let bad = settings(None, vec![rule("a", "1.1.1.1"), rule("b", "y")]);
    assert_eq!(forward_rules_from_settings(&bad).unwrap_err().text, "y");
}
