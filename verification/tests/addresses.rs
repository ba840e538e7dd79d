use mini_dns::acl::{Acl, CidrError};
use mini_dns::net::{IpAddr, Ipv4Addr, Ipv6Addr, SocketAddr};

#[test]
fn ipv4_text_and_back() {
    let a = Ipv4Addr::new(192, 0, 2, 1);
    assert_eq!(a.text(), "192.0.2.1");
    assert_eq!(a.octets(), [192, 0, 2, 1]);
    assert_eq!(Ipv4Addr::parse("192.0.2.1"), Some(a));
    for bad in ["", "1.2.3", "1.2.3.4.5", "256.0.0.1", "01.2.3.4", "1.2.3.4 ", "a.b.c.d"] {
        assert_eq!(Ipv4Addr::parse(bad), None, "{bad}");
    }
}

#[test]
fn ipv6_notations() {
    let a = Ipv6Addr::new(0x2001, 0xdb8, 0, 0, 0, 0, 0, 1);
    for s in ["2001:db8::1", "2001:0DB8:0:0:0:0:0:1", "2001:db8:0:0::0:1"] {
        assert_eq!(Ipv6Addr::parse(s), Some(a), "{s}");
    }
    assert_eq!(Ipv6Addr::parse("::"), Some(Ipv6Addr::new(0, 0, 0, 0, 0, 0, 0, 0)));
    assert_eq!(
        Ipv6Addr::parse("64:ff9b::192.0.2.1"),
        Some(Ipv6Addr::new(0x64, 0xff9b, 0, 0, 0, 0, 0xc000, 0x201))
    );
    for bad in ["", ":", "1:2:3:4:5:6:7", "1::2::3", "12345::", "g::", "1:2:3:4:5:6:7:8:9"] {
        assert_eq!(Ipv6Addr::parse(bad), None, "{bad}");
    }
}

#[test]
fn sockets() {
    let v4 = SocketAddr::parse("192.0.2.1:53").unwrap();
    assert_eq!((v4.ip, v4.port), (IpAddr::V4(Ipv4Addr::new(192, 0, 2, 1)), 53));
    let v6 = SocketAddr::parse("[::1]:853").unwrap();
    assert_eq!((v6.ip, v6.port), (IpAddr::parse("::1").unwrap(), 853));
    for bad in ["192.0.2.1", "::1:53", "[::1]", "192.0.2.1:65536", "192.0.2.1:"] {
        assert_eq!(SocketAddr::parse(bad), None, "{bad}");
    }
}

#[test]
fn every_acl_error() {
    let reason = |s: &str| Acl::parse(&[s.to_string()]).unwrap_err().reason;
    assert_eq!(reason("10.0.0.0/x"), CidrError::InvalidPrefix);
    assert_eq!(reason("10.0.0.0/256"), CidrError::InvalidPrefix);
    assert_eq!(reason("10.0.0.0/33"), CidrError::PrefixTooLong);
    assert_eq!(reason("::/129"), CidrError::PrefixTooLong);
    assert_eq!(reason("host/8"), CidrError::InvalidAddress);
    assert_eq!(reason("host"), CidrError::InvalidAddress);

    // The first bad entry is the one that is told, without the space around it.
    let e = Acl::parse(&["::1".to_string(), " bad ".to_string(), "x".to_string()]).unwrap_err();
    assert_eq!(e.entry, "bad");
}

#[test]
fn acl_entries() {
    let allows = |entry: &str, ip: &str| {
        Acl::parse(&[entry.to_string()]).unwrap().is_allowed(&IpAddr::parse(ip).unwrap())
    };
    // A prefix of 0 takes everything of its version, and nothing of the other.
    assert!(allows("0.0.0.0/0", "203.0.113.7"));
    assert!(!allows("0.0.0.0/0", "::1"));
    assert!(allows("::/0", "2001:db8::1"));
    // Bits beyond the prefix do not count.
    assert!(allows("10.1.2.3/8", "10.9.9.9"));
    assert!(allows("10.0.0.1/32", "10.0.0.1"));
    assert!(!allows("10.0.0.1/32", "10.0.0.0"));
    assert!(allows("2001:db8::1/128", "2001:db8::1"));
    assert!(!allows("2001:db8::1/128", "2001:db8::2"));
    // Blank entries are skipped.
    assert!(!allows("  ", "10.0.0.1"));
}
