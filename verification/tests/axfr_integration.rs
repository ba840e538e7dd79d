//! Zone transfers over a stream transport with 2-byte length framing.

use mini_dns::acl::Acl;
use mini_dns::cache::Cache;
use mini_dns::config::{ForwardRules, Zone, ZoneSet};
use mini_dns::dns::header::DnsHeader;
use mini_dns::dns::packet::DnsPacket;
use mini_dns::dns::question::DnsQuestion;
use mini_dns::dns::record::DnsRecord;
use mini_dns::forwarder::{frame_len, tcp_frame};
use mini_dns::net::{IpAddr, Ipv4Addr};
use mini_dns::ratelimit::RateLimiter;
use mini_dns::state::{Resolution, ServerState, Transport};

fn localhost() -> IpAddr {
    IpAddr::V4(Ipv4Addr::new(127, 0, 0, 1))
}

fn axfr_zone() -> ZoneSet {
    let mut zone = Zone::new();
    zone.insert(
        "example.com".to_string(),
        vec![
            DnsRecord::SOA {
                domain: "example.com".to_string(),
                mname: "ns1.example.com".to_string(),
                rname: "admin.example.com".to_string(),
                serial: 1,
                refresh: 7200,
                retry: 3600,
                expire: 1_209_600,
                minimum: 60,
                ttl: 3600,
            },
            DnsRecord::A {
                domain: "example.com".to_string(),
                addr: Ipv4Addr::parse("192.0.2.1").unwrap(),
                ttl: 3600,
            },
            DnsRecord::NS {
                domain: "example.com".to_string(),
                nameserver: "ns1.example.com".to_string(),
                ttl: 3600,
            },
        ],
    );
    zone.insert(
        "www.example.com".to_string(),
        vec![DnsRecord::A {
            domain: "www.example.com".to_string(),
            addr: Ipv4Addr::parse("192.0.2.2").unwrap(),
            ttl: 3600,
        }],
    );
    ZoneSet::from_single("example.com".to_string(), zone)
}

fn axfr_query(zone_name: &str) -> Vec<u8> {
    DnsPacket {
        header: DnsHeader {
            id: 42,
            flags: 0x0100,
            questions: 1,
            answers: 0,
            authorities: 0,
            additionals: 0,
        },
        questions: vec![DnsQuestion {
            qname: zone_name.to_string(),
            qtype: 252, // AXFR
            qclass: 1,
        }],
        answers: vec![],
        authorities: vec![],
        additionals: vec![],
    }
    .to_bytes()
}

/// Sends a message as a stream transport frames it, and takes the framed response
/// apart again.
fn exchange(state: &mut ServerState, msg: &[u8], client: IpAddr) -> Vec<u8> {
    let sent = tcp_frame(msg);
    let len = frame_len(&sent[..2]);
    assert_eq!(sent.len(), 2 + len);
    let response = match state.resolve(&sent[2..], client, Transport::Tcp) {
        Resolution::Ready(bytes) => bytes,
        other => panic!("expected a response, got {:?}", other),
    };
    let framed = tcp_frame(&response);
    let len = frame_len(&framed[..2]);
    assert_eq!(framed.len(), 2 + len);
    framed[2..].to_vec()
}

#[test]
fn axfr_allowed_over_tcp() {
    let mut state = ServerState::new(
        axfr_zone(),
        None,
        ForwardRules::none(),
        Cache::new(16),
        RateLimiter::disabled(),
    )
    .with_axfr_acl(Acl::parse(&["127.0.0.0/8".to_string()]).unwrap());

    let resp = exchange(&mut state, &axfr_query("example.com"), localhost());
    let packet = DnsPacket::from_bytes(&resp).unwrap();

    // AXFR response: SOA, A, NS, www A, SOA = 5+ records.
    assert!(packet.answers.len() >= 5);
    // First and last must be SOA.
    assert!(matches!(packet.answers[0], DnsRecord::SOA { .. }));
    assert!(matches!(
        packet.answers[packet.answers.len() - 1],
        DnsRecord::SOA { .. }
    ));
    // AA bit set.
    assert_ne!(packet.header.flags & 0x0400, 0);
}

#[test]
fn axfr_denied_over_tcp() {
    let mut state = ServerState::new(
        axfr_zone(),
        None,
        ForwardRules::none(),
        Cache::new(16),
        RateLimiter::disabled(),
    )
    .with_axfr_acl(Acl::deny_all()); // deny all

    let resp = exchange(&mut state, &axfr_query("example.com"), localhost());
    let packet = DnsPacket::from_bytes(&resp).unwrap();

    assert_eq!(packet.header.flags & 0x000F, 5); // REFUSED
    assert_eq!(packet.answers.len(), 0);
}
