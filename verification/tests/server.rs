use mini_dns::config::{Zone, ZoneSet};
use mini_dns::dns::packet::DnsPacket;
use mini_dns::dns::record::DnsRecord;
use mini_dns::forwarder::{frame_len, tcp_frame};
use mini_dns::metrics::Metrics;
use mini_dns::net::{IpAddr, Ipv4Addr};
use mini_dns::server::{metrics_page, DEFAULT_ADDR};
use mini_dns::state::{Resolution, ServerState, Transport};

/// A query packet for `example.com` A (shared by the integration tests).
const QUERY: &[u8] = &[
    0xab, 0xcd, // ID
    0x01, 0x00, // Flags: standard query
    0x00, 0x01, // Questions: 1
    0x00, 0x00, // Answers: 0
    0x00, 0x00, // Authorities: 0
    0x00, 0x00, // Additionals: 0
    0x07, b'e', b'x', b'a', b'm', b'p', b'l', b'e', // "example"
    0x03, b'c', b'o', b'm', // "com"
    0x00, // Null terminator
    0x00, 0x01, // QTYPE: A
    0x00, 0x01, // QCLASS: IN
];

fn example_zone() -> ZoneSet {
    let mut zone = Zone::new();
    zone.insert(
        "example.com".to_string(),
        vec![DnsRecord::A {
            domain: "example.com".to_string(),
            addr: Ipv4Addr::parse("192.0.2.1").unwrap(),
            ttl: 3600,
        }],
    );
    ZoneSet::from_single("example.com".to_string(), zone)
}

/// Sends a message as a stream transport frames it, and takes the framed response
/// apart again.
fn exchange(state: &mut ServerState, msg: &[u8], client: IpAddr) -> Vec<u8> {
    let sent = tcp_frame(msg);
    let len = frame_len(&sent[..2]);
    assert_eq!(sent.len(), 2 + len);
    let response = match state.resolve(&sent[2..], client, Transport::Tcp) {
        Resolution::Ready(bytes) => bytes,
        other => panic!("expected a response, got {:?}", other),
    };
    let framed = tcp_frame(&response);
    let len = frame_len(&framed[..2]);
    assert_eq!(framed.len(), 2 + len);
    framed[2..].to_vec()
}

fn localhost() -> IpAddr {
    IpAddr::V4(Ipv4Addr::new(127, 0, 0, 1))
}

#[test]
fn test_server_integration() {
    let mut state = ServerState::authoritative(example_zone());

    // A local answer is ready in the first pass.
    let response = match state.resolve_local(QUERY, localhost(), Transport::Udp) {
        Resolution::Ready(bytes) => bytes,
        other => panic!("expected a response, got {:?}", other),
    };

    // Parse the response
    let response_packet = DnsPacket::from_bytes(&response).unwrap();

    // Assert that the response is correct
    assert_eq!(response_packet.header.id, 0xabcd);
    assert_eq!(response_packet.answers.len(), 1);
    if let DnsRecord::A { addr, .. } = &response_packet.answers[0] {
        assert_eq!(addr.text(), "192.0.2.1");
    } else {
        panic!("Expected an A record in the response");
    }
}

#[test]
fn test_server_tcp() {
    let mut state = ServerState::authoritative(example_zone());

    // DNS-over-TCP frames each message with a 2-byte big-endian length prefix.
    let msg = exchange(&mut state, QUERY, localhost());

    let response_packet = DnsPacket::from_bytes(&msg).unwrap();
    assert_eq!(response_packet.header.id, 0xabcd);
    assert_eq!(response_packet.answers.len(), 1);
    match &response_packet.answers[0] {
        DnsRecord::A { addr, .. } => assert_eq!(addr.text(), "192.0.2.1"),
        other => panic!("Expected an A record, got {:?}", other),
    }
}

#[test]
fn metrics_listener_serves_its_pages() {
    let mut metrics = Metrics::default();
    metrics.inc_total();

    let page = metrics_page("/metrics", &metrics, false);
    assert_eq!(page.status, 200);
    assert_eq!(page.content_type, "text/plain; version=0.0.4");
    assert_eq!(page.body, metrics.prometheus());

    let page = metrics_page("/healthz", &metrics, false);
    assert_eq!((page.status, page.body.as_str()), (200, "ok\n"));
    let page = metrics_page("/healthz", &metrics, true);
    assert_eq!((page.status, page.body.as_str()), (503, "shutting down\n"));

    let page = metrics_page("/", &metrics, false);
    assert_eq!((page.status, page.body.as_str()), (404, ""));
    assert_eq!(page.content_type, "text/plain");
}

#[test]
fn default_address() {
    assert_eq!(DEFAULT_ADDR, "127.0.0.1:8888");
}
