use mini_dns::acl::Acl;
use mini_dns::net::IpAddr;

fn ip(s: &str) -> IpAddr {
    IpAddr::parse(s).unwrap()
}

#[test]
fn v4_cidr_match() {
    let acl = Acl::parse(&["10.0.0.0/8".to_string()]).unwrap();
    assert!(acl.is_allowed(&ip("10.1.2.3")));
    assert!(acl.is_allowed(&ip("10.255.255.255")));
    assert!(!acl.is_allowed(&ip("11.0.0.0")));
}

#[test]
fn single_host_match() {
    let acl = Acl::parse(&["192.168.1.5".to_string()]).unwrap();
    assert!(acl.is_allowed(&ip("192.168.1.5")));
    assert!(!acl.is_allowed(&ip("192.168.1.6")));
}

#[test]
fn deny_all_when_empty() {
    let acl = Acl::deny_all();
    assert!(!acl.is_allowed(&ip("10.0.0.1")));
}

#[test]
fn v6_cidr_match() {
    let acl = Acl::parse(&["2001:db8::/32".to_string()]).unwrap();
    assert!(acl.is_allowed(&ip("2001:db8::1")));
    assert!(!acl.is_allowed(&ip("2001:db9::1")));
}

#[test]
fn mixed_v4_v6_entries() {
    let acl = Acl::parse(&[
        "10.0.0.0/8".to_string(),
        "2001:db8::/32".to_string(),
    ])
    .unwrap();
    assert!(acl.is_allowed(&ip("10.1.1.1")));
    assert!(acl.is_allowed(&ip("2001:db8::1")));
    assert!(!acl.is_allowed(&ip("8.8.8.8")));
}
