use mini_dns::cache::Cache;
use mini_dns::dns::record::DnsRecord;
use mini_dns::net::Ipv4Addr;

fn a_record(ttl: u32) -> DnsRecord {
    DnsRecord::A {
        domain: "example.com".to_string(),
        addr: Ipv4Addr::new(192, 0, 2, 1),
        ttl,
    }
}

#[test]
fn hit_and_case_insensitive() {
    let mut cache = Cache::new(8);
    cache.insert("Example.com", 1, vec![a_record(3600)], 3600);
    assert_eq!(cache.get("example.com", 1).unwrap().len(), 1);
    assert!(cache.get("example.com", 28).is_none()); // wrong type
}

#[test]
fn zero_ttl_not_cached() {
    let mut cache = Cache::new(8);
    cache.insert("example.com", 1, vec![a_record(0)], 0);
    assert!(cache.get("example.com", 1).is_none());
}

#[test]
fn empty_records_not_cached() {
    let mut cache = Cache::new(8);
    cache.insert("example.com", 1, Vec::<DnsRecord>::new(), 3600);
    assert!(cache.get("example.com", 1).is_none());
}
