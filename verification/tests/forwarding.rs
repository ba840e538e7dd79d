use mini_dns::cache::Cache;
use mini_dns::config::{ForwardRules, ZoneSet};
use mini_dns::dns::header::DnsHeader;
use mini_dns::dns::packet::DnsPacket;
use mini_dns::dns::question::DnsQuestion;
use mini_dns::dns::record::DnsRecord;
use mini_dns::net::{IpAddr, Ipv4Addr, SocketAddr};
use mini_dns::ratelimit::RateLimiter;
use mini_dns::state::{replay, ForwardRoute, Resolution, ServerState, Transport};
use mini_dns::time::Duration;

fn upstream() -> SocketAddr {
    SocketAddr::parse("127.0.0.1:5300").unwrap()
}

/// A fake upstream resolver that answers every A query with 203.0.113.7.
fn fake_upstream(query: &[u8]) -> Vec<u8> {
    let request = DnsPacket::from_bytes(query).unwrap();
    let question = DnsQuestion {
        qname: request.questions[0].qname.clone(),
        qtype: request.questions[0].qtype,
        qclass: request.questions[0].qclass,
    };
    let answer = DnsRecord::A {
        domain: question.qname.clone(),
        addr: Ipv4Addr::new(203, 0, 113, 7),
        ttl: 300,
    };
    DnsPacket {
        header: DnsHeader {
            id: request.header.id,
            flags: 0x8180, // response, RA, NOERROR
            questions: 1,
            answers: 1,
            authorities: 0,
            additionals: 0,
        },
        questions: vec![question],
        answers: vec![answer],
        authorities: vec![],
        additionals: vec![],
    }
    .to_bytes()
}

/// Resolves a query, asking the fake upstream where it has to be forwarded.
fn resolve(
    state: &mut ServerState,
    query: &[u8],
    client: IpAddr,
    transport: Transport,
) -> Option<Vec<u8>> {
    match state.resolve(query, client, transport) {
        Resolution::Ready(bytes) => Some(bytes),
        Resolution::Drop => None,
        Resolution::Forward(ctx) => {
            assert_eq!(state.begin_forward(&ctx), Some(ForwardRoute::Upstream(upstream())));
            let reply = fake_upstream(&ctx.raw);
            let now = state.cache.now();
            let raw = state.finish_forward(&ctx, Some(reply), now);
            Some(replay(&raw, &ctx.request, transport))
        }
    }
}

fn query_bytes(name: &str) -> Vec<u8> {
    DnsPacket {
        header: DnsHeader {
            id: 0x1111,
            flags: 0x0100, // RD set (recursion desired)
            questions: 1,
            answers: 0,
            authorities: 0,
            additionals: 0,
        },
        questions: vec![DnsQuestion {
            qname: name.to_string(),
            qtype: 1, // A
            qclass: 1,
        }],
        answers: vec![],
        authorities: vec![],
        additionals: vec![],
    }
    .to_bytes()
}

#[test]
fn forwards_unknown_names_and_caches() {
    let mut state = ServerState::new(
        ZoneSet::empty(), // no zone -> everything is forwarded
        None,
        ForwardRules::single(upstream()),
        Cache::new(16),
        RateLimiter::disabled(),
    );
    let client = IpAddr::V4(Ipv4Addr::new(127, 0, 0, 1));
    let query = query_bytes("notlocal.example");

    // First query: forwarded to upstream.
    let resp = resolve(&mut state, &query, client, Transport::Udp).expect("response");
    let packet = DnsPacket::from_bytes(&resp).unwrap();
    assert_eq!(packet.answers.len(), 1);
    match &packet.answers[0] {
        DnsRecord::A { addr, .. } => assert_eq!(addr.text(), "203.0.113.7"),
        other => panic!("expected A, got {:?}", other),
    }
    assert_eq!(state.metrics.forwarded(), 1);
    assert_eq!(state.metrics.cache_hits(), 0);

    // Second identical query: served from cache, not forwarded again.
    let resp2 = resolve(&mut state, &query, client, Transport::Udp).expect("response");
    let packet2 = DnsPacket::from_bytes(&resp2).unwrap();
    assert_eq!(packet2.answers.len(), 1);
    assert_eq!(state.metrics.forwarded(), 1); // unchanged
    assert_eq!(state.metrics.cache_hits(), 1);
}

#[test]
fn rate_limiter_drops_excess_queries() {
    let mut state = ServerState::new(
        ZoneSet::empty(),
        None,
        ForwardRules::single(upstream()),
        Cache::new(16),
        RateLimiter::new(2, Duration::from_secs(60)),
    );
    let client = IpAddr::V4(Ipv4Addr::new(127, 0, 0, 2));
    let query = query_bytes("a.example");

    assert!(resolve(&mut state, &query, client, Transport::Udp).is_some());
    assert!(resolve(&mut state, &query, client, Transport::Udp).is_some());
    // Third within the window is dropped.
    assert!(resolve(&mut state, &query, client, Transport::Udp).is_none());
    assert_eq!(state.metrics.rate_limited(), 1);
}
