use base64::Engine;
use mini_dns::config::{Zone, ZoneSet};
use mini_dns::dns::header::DnsHeader;
use mini_dns::dns::packet::DnsPacket;
use mini_dns::dns::question::DnsQuestion;
use mini_dns::dns::record::DnsRecord;
use mini_dns::doh::{self, DohResponse, HttpResolution};
use mini_dns::forwarder::{frame_len, tcp_frame};
use mini_dns::net::{IpAddr, Ipv4Addr};
use mini_dns::state::{Resolution, ServerState, Transport};

fn client() -> IpAddr {
    IpAddr::V4(Ipv4Addr::new(127, 0, 0, 1))
}

fn example_zone() -> ZoneSet {
    let mut zone = Zone::new();
    zone.insert(
        "example.com".to_string(),
        vec![DnsRecord::A {
            domain: "example.com".to_string(),
            addr: Ipv4Addr::new(192, 0, 2, 1),
            ttl: 3600,
        }],
    );
    ZoneSet::from_single("example.com".to_string(), zone)
}

fn query_bytes(name: &str) -> Vec<u8> {
    DnsPacket {
        header: DnsHeader {
            id: 0xbeef,
            flags: 0x0100,
            questions: 1,
            answers: 0,
            authorities: 0,
            additionals: 0,
        },
        questions: vec![DnsQuestion {
            qname: name.to_string(),
            qtype: 1,
            qclass: 1,
        }],
        answers: vec![],
        authorities: vec![],
        additionals: vec![],
    }
    .to_bytes()
}

/// The response to a request that needs no upstream.
fn http(
    state: &mut ServerState,
    method: &str,
    target: &str,
    body: &[u8],
    client: IpAddr,
) -> DohResponse {
    match doh::resolve_http(state, method, target, body, client) {
        HttpResolution::Response(response) => response,
        HttpResolution::Forward(ctx) => panic!("not expected to go upstream: {:?}", ctx),
    }
}

/// Sends a message as a stream transport frames it, and takes the framed response
/// apart again.
fn exchange(state: &mut ServerState, msg: &[u8], client: IpAddr) -> Vec<u8> {
    let sent = tcp_frame(msg);
    let len = frame_len(&sent[..2]);
    assert_eq!(sent.len(), 2 + len);
    let response = match state.resolve(&sent[2..], client, Transport::Tcp) {
        Resolution::Ready(bytes) => bytes,
        other => panic!("expected a response, got {:?}", other),
    };
    let framed = tcp_frame(&response);
    let len = frame_len(&framed[..2]);
    assert_eq!(framed.len(), 2 + len);
    framed[2..].to_vec()
}

#[test]
fn doh_post_resolves() {
    let mut state = ServerState::authoritative(example_zone());
    let resp = http(&mut state, "POST", "/dns-query", &query_bytes("example.com"), client());
    assert_eq!(resp.status, 200);
    let packet = DnsPacket::from_bytes(&resp.body).unwrap();
    assert_eq!(packet.answers.len(), 1);
}

#[test]
fn doh_get_resolves() {
    let mut state = ServerState::authoritative(example_zone());
    let encoded =
        base64::engine::general_purpose::URL_SAFE_NO_PAD.encode(query_bytes("example.com"));
    let target = format!("/dns-query?dns={encoded}");
    let resp = http(&mut state, "GET", &target, &[], client());
    assert_eq!(resp.status, 200);
    let packet = DnsPacket::from_bytes(&resp.body).unwrap();
    assert_eq!(packet.answers.len(), 1);
}

#[test]
fn doh_rejects_bad_requests() {
    let mut state = ServerState::authoritative(example_zone());
    // Wrong path.
    assert_eq!(
        http(&mut state, "POST", "/wrong", &query_bytes("example.com"), client())
            .status,
        404
    );
    // Unsupported method.
    assert_eq!(
        http(&mut state, "PUT", "/dns-query", &query_bytes("example.com"), client())
            .status,
        405
    );
    // GET without a dns parameter.
    assert_eq!(
        http(&mut state, "GET", "/dns-query", &[], client())
            .status,
        400
    );
}

#[test]
fn dot_integration() {
    let mut state = ServerState::authoritative(example_zone());

    // Length-framed query (DNS-over-TLS uses the same framing as DNS-over-TCP).
    let msg = exchange(&mut state, &query_bytes("example.com"), client());

    let packet = DnsPacket::from_bytes(&msg).unwrap();
    assert_eq!(packet.header.id, 0xbeef);
    assert_eq!(packet.answers.len(), 1);
    match &packet.answers[0] {
        DnsRecord::A { addr, .. } => assert_eq!(addr.text(), "192.0.2.1"),
        other => panic!("expected A record, got {:?}", other),
    }
}
