use mini_dns::cache::Cache;
use mini_dns::config::{parse_zone_file, ForwardRules, ZoneSet};
use mini_dns::dns::header::DnsHeader;
use mini_dns::dns::packet::DnsPacket;
use mini_dns::dns::question::DnsQuestion;
use mini_dns::dns::record::DnsRecord;
use mini_dns::flight::Flights;
use mini_dns::forwarder::{
    frame_len, is_truncated, judge_datagram, next_step, tcp_frame, Datagram, NextStep, MAX_STALE,
};
use mini_dns::net::{IpAddr, Ipv4Addr, SocketAddr};
use mini_dns::ratelimit::RateLimiter;
use mini_dns::state::{
    align_edns, cache_ttl, follow, replay, ForwardCtx, ForwardRoute, Resolution, ServerState,
    Times, Transport,
};
use mini_dns::time::epoch_field;

fn client() -> IpAddr {
    IpAddr::V4(Ipv4Addr::new(127, 0, 0, 1))
}

fn query(id: u16, name: &str, flags: u16) -> Vec<u8> {
    DnsPacket {
        header: DnsHeader {
            id,
            flags,
            questions: 1,
            answers: 0,
            authorities: 0,
            additionals: 0,
        },
        questions: vec![DnsQuestion { qname: name.to_string(), qtype: 1, qclass: 1 }],
        answers: vec![],
        authorities: vec![],
        additionals: vec![],
    }
    .to_bytes()
}

fn a(ttl: u32) -> DnsRecord {
    DnsRecord::A { domain: "a.example".to_string(), addr: Ipv4Addr::new(203, 0, 113, 7), ttl }
}

fn soa(minimum: u32) -> DnsRecord {
    DnsRecord::SOA {
        domain: "example".to_string(),
        mname: "m".to_string(),
        rname: "r".to_string(),
        serial: 1,
        refresh: 2,
        retry: 3,
        expire: 4,
        minimum,
        ttl: 9,
    }
}

fn response(flags: u16, answers: Vec<DnsRecord>, authorities: Vec<DnsRecord>) -> DnsPacket {
    DnsPacket {
        header: DnsHeader {
            id: 0x7777,
            flags,
            questions: 0,
            answers: answers.len() as u16,
            authorities: authorities.len() as u16,
            additionals: 0,
        },
        questions: vec![],
        answers,
        authorities,
        additionals: vec![],
    }
}

fn forwarding_state() -> ServerState {
    ServerState::new(
        ZoneSet::empty(),
        None,
        ForwardRules::single(SocketAddr::parse("9.9.9.9:53").unwrap()),
        Cache::new(16),
        RateLimiter::disabled(),
    )
}

fn at(cache: u64) -> Times {
    Times { limiter: 0, cache, unix: 0 }
}

fn forwarded(state: &mut ServerState, req: &[u8], now: u64) -> ForwardCtx {
    match state.resolve_local_at(req, client(), Transport::Tcp, at(now)) {
        Resolution::Forward(ctx) => ctx,
        other => panic!("expected to be forwarded, got {:?}", other),
    }
}

#[test]
fn cache_times() {
    assert_eq!(cache_ttl(&response(0x8180, vec![a(300), a(60), a(90)], vec![])), Some(60));
    // NXDOMAIN and NODATA last as long as the SOA minimum, within limits.
    assert_eq!(cache_ttl(&response(0x8183, vec![], vec![soa(120)])), Some(120));
    assert_eq!(cache_ttl(&response(0x8180, vec![], vec![soa(120)])), Some(120));
    assert_eq!(cache_ttl(&response(0x8183, vec![], vec![soa(86400)])), Some(3600));
    assert_eq!(cache_ttl(&response(0x8183, vec![], vec![])), Some(30));
    // Failures are not cached.
    assert_eq!(cache_ttl(&response(0x8182, vec![], vec![soa(120)])), None);
    assert_eq!(cache_ttl(&response(0x8182, vec![a(300)], vec![])), None);
    assert_eq!(cache_ttl(&response(0x8183, vec![a(300)], vec![])), Some(300));
}

#[test]
fn a_cached_reply_is_served_until_its_time_is_up() {
    let mut state = forwarding_state();
    let ctx = forwarded(&mut state, &query(1, "A.Example", 0x0100), 0);
    assert_eq!((ctx.name.as_str(), ctx.qtype), ("a.example", 1));
    assert!(state.begin_forward(&ctx).is_some());
    let reply = response(0x8180, vec![a(300)], vec![]).to_bytes();
    assert_eq!(state.finish_forward(&ctx, Some(reply.clone()), 0), reply);

    // Any client, in any case, gets it with its own ID.
    let second = 1_000_000_000;
    let again = query(2, "a.EXAMPLE", 0x0100);
    match state.resolve_local_at(&again, client(), Transport::Tcp, at(300 * second - 1)) {
        Resolution::Ready(bytes) => {
            assert_eq!(&bytes[..2], &[0, 2]);
            assert_eq!(&bytes[2..], &reply[2..]);
        }
        other => panic!("expected a cached response, got {:?}", other),
    }
    assert_eq!(state.metrics.cache_hits(), 1);
    forwarded(&mut state, &again, 300 * second);
}

#[test]
fn a_failed_query_is_answered_with_servfail_and_not_cached() {
    let mut state = forwarding_state();
    let req = query(3, "a.example", 0x0100);
    let ctx = forwarded(&mut state, &req, 0);
    state.begin_forward(&ctx);
    let raw = state.finish_forward(&ctx, None, 0);
    let packet = DnsPacket::from_bytes(&replay(&raw, &ctx.request, Transport::Udp)).unwrap();
    assert_eq!(packet.header.id, 3);
    assert_eq!(packet.header.flags, 0x8182);
    assert_eq!(state.metrics.errors(), 1);
    forwarded(&mut state, &req, 0);
}

#[test]
fn identical_queries_share_one_upstream_query() {
    let mut state = forwarding_state();
    let first = forwarded(&mut state, &query(1, "a.example", 0x0100), 0);
    let second = forwarded(&mut state, &query(2, "a.example", 0x0100), 0);
    let other = forwarded(&mut state, &query(3, "b.example", 0x0100), 0);
    let upstream = Some(ForwardRoute::Upstream(SocketAddr::parse("9.9.9.9:53").unwrap()));
    assert_eq!(state.begin_forward(&first), upstream);
    assert_eq!(state.begin_forward(&second), None);
    assert_eq!(state.begin_forward(&other), upstream);
    assert_eq!(state.begin_forward(&second), None);
    assert_eq!((state.metrics.forwarded(), state.metrics.coalesced()), (2, 2));

    let reply = response(0x8180, vec![a(0)], vec![]).to_bytes();
    let raw = state.finish_forward(&first, Some(reply), 0);
    let shared = follow(&second, Some(&raw));
    assert_eq!(&shared[..2], &[0, 2]);
    // A query that was given up leaves SERVFAIL to those who wait.
    let lost = DnsPacket::from_bytes(&follow(&second, None)).unwrap();
    assert_eq!((lost.header.id, lost.header.flags & 0x000F), (2, 2));

    // Once it is over, the next one asks again.
    assert_eq!(state.begin_forward(&second), upstream);
    state.abandon_forward(&second);
    assert_eq!(state.begin_forward(&first), upstream);
}

#[test]
fn flights() {
    let mut flights = Flights::new();
    assert!(flights.join("a", 1));
    assert!(!flights.join("a", 1));
    assert!(flights.join("a", 28));
    assert!(flights.join("b", 1));
    flights.land("a", 1);
    assert!(flights.join("a", 1));
    assert!(!flights.join("b", 1));
}

#[test]
fn without_recursion_desired_nothing_is_forwarded() {
    let mut state = forwarding_state();
    let req = query(4, "a.example", 0x0000);
    match state.resolve_local_at(&req, client(), Transport::Udp, at(0)) {
        Resolution::Ready(bytes) => {
            let packet = DnsPacket::from_bytes(&bytes).unwrap();
            // NXDOMAIN, with RA set since recursion is offered.
            assert_eq!(packet.header.flags, 0x8083);
        }
        other => panic!("expected a response, got {:?}", other),
    }
}

#[test]
fn recursive_mode_takes_what_no_rule_matches() {
    let mut state = ServerState::authoritative(ZoneSet::empty()).with_recursive();
    let ctx = forwarded(&mut state, &query(5, "a.example", 0x0100), 0);
    assert_eq!(state.begin_forward(&ctx), Some(ForwardRoute::Recursive));
}

#[test]
fn an_authoritative_server_knows_its_names_only() {
    let mut state = ServerState::authoritative(ZoneSet::empty());
    assert!(!state.recursion_available());
    match state.resolve_local_at(&query(6, "a.example", 0x0100), client(), Transport::Udp, at(0)) {
        Resolution::Ready(bytes) => {
            assert_eq!(DnsPacket::from_bytes(&bytes).unwrap().header.flags, 0x8103)
        }
        other => panic!("expected a response, got {:?}", other),
    }
}

#[test]
fn what_does_not_parse_is_dropped() {
    let mut state = ServerState::authoritative(ZoneSet::empty());
    assert!(matches!(state.resolve(&[1, 2, 3], client(), Transport::Tcp), Resolution::Drop));
    assert_eq!((state.metrics.total(), state.metrics.errors()), (1, 1));
}

#[test]
fn replayed_udp_responses_fit_the_client() {
    let request = |size: Option<u16>| {
        let mut p = DnsPacket::from_bytes(&query(9, "a.example", 0x0100)).unwrap();
        if let Some(udp_size) = size {
            p.additionals.push(DnsRecord::OPT { udp_size });
        }
        p
    };
    let mut upstream = response(0x8180, (0..40).map(|_| a(300)).collect(), vec![]);
    upstream.additionals.push(DnsRecord::OPT { udp_size: 4096 });
    let raw = upstream.to_bytes();
    assert!(raw.len() > 512 && raw.len() < 1232);

    // Without EDNS: no OPT record, and truncated.
    let small = DnsPacket::from_bytes(&replay(&raw, &request(None), Transport::Udp)).unwrap();
    assert_eq!(small.edns_udp_size(), None);
    assert_eq!(small.header.flags & 0x0200, 0x0200);
    // With EDNS: the size granted to this client, and whole.
    let large = DnsPacket::from_bytes(&replay(&raw, &request(Some(4096)), Transport::Udp)).unwrap();
    assert_eq!(large.edns_udp_size(), Some(1232));
    assert_eq!(large.answers.len(), 40);
    assert_eq!(large.header.id, 9);
    // What does not parse is relayed as it is, under the client's ID.
    assert_eq!(replay(&[1, 2, 3], &request(None), Transport::Udp), [0, 9, 3]);
    assert_eq!(replay(&[1], &request(None), Transport::Tcp), [1]);
}

#[test]
fn datagrams() {
    let asked = query(0x1234, "a.example", 0x0100);
    let mut reply = asked.clone();
    reply[2] = 0x81;
    assert_eq!(judge_datagram(&asked, &reply), Datagram::Answer);
    reply[2] = 0x83;
    assert!(is_truncated(&reply));
    assert_eq!(judge_datagram(&asked, &reply), Datagram::Truncated);
    reply[0] = 0x99;
    assert_eq!(judge_datagram(&asked, &reply), Datagram::Stale);
    assert_eq!(judge_datagram(&asked, &[0x12]), Datagram::Stale);
    // Of those that belong to other queries only so many are passed over.
    assert_eq!(next_step(&asked, &[0x12], 0), NextStep::Receive);
    assert_eq!(next_step(&asked, &[0x12], MAX_STALE - 2), NextStep::Receive);
    assert_eq!(next_step(&asked, &[0x12], MAX_STALE - 1), NextStep::GiveUp);
    assert_eq!(next_step(&asked, &asked, MAX_STALE - 1), NextStep::Take);
    assert_eq!(next_step(&asked, &[asked[0], asked[1], 0x82, 0], 0), NextStep::RetryTcp);
}

#[test]
fn frames() {
    let message = vec![7; 300];
    let framed = tcp_frame(&message);
    assert_eq!(&framed[..2], &[1, 44]);
    assert_eq!(frame_len(&framed[..2]), 300);
    assert_eq!(&framed[2..], &message[..]);
}

#[test]
fn local_names_are_not_forwarded() {
    let (zone, _) = parse_zone_file("a.example. 60 TXT here\n");
    let mut state = forwarding_state();
    state.replace_zones(ZoneSet::from_single("example".to_string(), zone));
    // The name exists, if not with this type: NODATA, with AA and RA.
    match state.resolve_local_at(&query(7, "A.example", 0x0100), client(), Transport::Udp, at(0)) {
        Resolution::Ready(bytes) => {
            let packet = DnsPacket::from_bytes(&bytes).unwrap();
            assert_eq!((packet.header.id, packet.header.flags), (7, 0x8580));
            assert_eq!(packet.answers.len(), 0);
        }
        other => panic!("expected a response, got {:?}", other),
    }
    // A name below the zone that does not exist goes upstream.
    forwarded(&mut state, &query(8, "b.example", 0x0100), 0);
}

#[test]
fn local_responses_fit_the_client() {
    let lines: String = (0..60).map(|i| format!("a.example. 60 A 192.0.2.{i}\n")).collect();
    let (zone, _) = parse_zone_file(&lines);
    let mut state =
        ServerState::authoritative(ZoneSet::from_single("example".to_string(), zone));
    let mut ask = |size: Option<u16>, transport: Transport| {
        let mut request = DnsPacket::from_bytes(&query(9, "a.example", 0x0100)).unwrap();
        if let Some(udp_size) = size {
            request.additionals.push(DnsRecord::OPT { udp_size });
        }
        match state.resolve_local_at(&request.to_bytes(), client(), transport, at(0)) {
            Resolution::Ready(bytes) => bytes,
            other => panic!("expected a response, got {:?}", other),
        }
    };
    // 60 answers of 16 octets each behind a header and a question.
    assert_eq!(ask(None, Transport::Tcp).len(), 12 + 15 + 60 * 16);
    let cut = ask(None, Transport::Udp);
    assert_eq!(cut.len(), 12 + 15);
    assert_eq!(cut[2] & 0x02, 0x02);
    let cut = ask(Some(900), Transport::Udp);
    assert_eq!(cut.len(), 12 + 15 + 11);
    let whole = ask(Some(1232), Transport::Udp);
    assert_eq!(whole.len(), 12 + 15 + 60 * 16 + 11);
    assert_eq!(whole[2] & 0x02, 0);
}

#[test]
fn opt_records_are_aligned_to_the_client() {
    let aligned = |had: Option<u16>, offered: Option<u16>, times: usize| {
        let opt = |size: Option<u16>| size.map(|udp_size| DnsRecord::OPT { udp_size });
        let mut request = DnsPacket::from_bytes(&query(9, "a.example", 0x0100)).unwrap();
        request.additionals.extend(opt(offered));
        let mut packet = response(0x8180, vec![a(60)], vec![soa(5)]);
        packet.additionals.push(a(1));
        packet.additionals.extend(opt(had));
        packet.additionals.push(a(2));
        for _ in 0..times {
            align_edns(&mut packet, &request);
        }
        assert_eq!((packet.header.flags, packet.answers.len()), (0x8180, 1));
        let ttls: Vec<u32> = packet
            .additionals
            .iter()
            .filter(|r| !matches!(r, DnsRecord::OPT { .. }))
            .map(|r| r.ttl())
            .collect();
        assert_eq!(ttls, [1, 2]);
        (packet.edns_udp_size(), packet.additionals.len())
    };
    for times in [1, 2] {
        assert_eq!(aligned(Some(4096), Some(900), times), (Some(900), 3));
        assert_eq!(aligned(None, Some(4096), times), (Some(1232), 3));
        assert_eq!(aligned(Some(4096), Some(100), times), (Some(512), 3));
        assert_eq!(aligned(Some(4096), None, times), (None, 2));
    }
}

#[test]
fn signature_times_have_32_bits() {
    assert_eq!(epoch_field(None), 0);
    assert_eq!(epoch_field(Some(1_700_000_000)), 1_700_000_000);
    assert_eq!(epoch_field(Some(0x1_0000_0005)), 5);
}
