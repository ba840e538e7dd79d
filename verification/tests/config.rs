use mini_dns::config::parse_zone_file;

#[test]
fn test_load_zone_file() {
    let content = "example.com. 3600 A 192.0.2.1\nwww.example.com. 3600 CNAME example.com.\n";

    let (zone, errors) = parse_zone_file(content);

    assert!(errors.is_empty());
    assert_eq!(zone.len(), 2);
    assert!(zone.contains_key("example.com"));
    assert!(zone.contains_key("www.example.com"));

    let a_record = &zone.get("example.com").unwrap()[0];
    if let mini_dns::dns::record::DnsRecord::A { domain, addr, ttl } = a_record {
        assert_eq!(domain, "example.com");
        assert_eq!(addr.text(), "192.0.2.1");
        assert_eq!(*ttl, 3600);
    } else {
        panic!("Expected A record");
    }

    let cname_record = &zone.get("www.example.com").unwrap()[0];
    if let mini_dns::dns::record::DnsRecord::CNAME { domain, alias, ttl } = cname_record {
        assert_eq!(domain, "www.example.com");
        assert_eq!(alias, "example.com");
        assert_eq!(*ttl, 3600);
    } else {
        panic!("Expected CNAME record");
    }
}
