use mini_dns::dns::error::DnsError;
use mini_dns::dns::header::DnsHeader;
use mini_dns::dns::packet::DnsPacket;
use mini_dns::dns::record::DnsRecord;
use mini_dns::net::{IpAddr, Ipv4Addr, SocketAddr};
use mini_dns::recursive::{
    accept_reply, build_query, minimized_qname, root_servers, RecursiveResolver, ReplyError, Step,
    MAX_DELEGATION_DEPTH,
};

const SECOND: u64 = 1_000_000_000;

fn reply(
    flags: u16,
    answers: Vec<DnsRecord>,
    authorities: Vec<DnsRecord>,
    additionals: Vec<DnsRecord>,
) -> DnsPacket {
    DnsPacket {
        header: DnsHeader {
            id: 1,
            flags,
            questions: 0,
            answers: answers.len() as u16,
            authorities: authorities.len() as u16,
            additionals: additionals.len() as u16,
        },
        questions: vec![],
        answers,
        authorities,
        additionals,
    }
}

fn a(name: &str, last: u8) -> DnsRecord {
    DnsRecord::A { domain: name.to_string(), addr: Ipv4Addr::new(192, 0, 2, last), ttl: 60 }
}

fn referral(server: &str, last: u8, ttl: u32) -> DnsPacket {
    reply(
        0x8000,
        vec![],
        vec![DnsRecord::NS { domain: "x".to_string(), nameserver: server.to_string(), ttl }],
        vec![a(&server.to_uppercase(), last)],
    )
}

fn server(last: u8) -> SocketAddr {
    SocketAddr::new(IpAddr::V4(Ipv4Addr::new(192, 0, 2, last)), 53)
}

fn done(step: Step) -> DnsPacket {
    match step {
        Step::Done(bytes) => DnsPacket::from_bytes(&bytes).unwrap(),
        Step::Ask => panic!("expected the walk to end"),
    }
}

#[test]
fn a_name_is_resolved_from_the_root_down() {
    let mut resolver = RecursiveResolver::new();
    let (mut walk, step) = resolver.begin_at("Example.com.", 1, 0x4242, 0);
    assert!(matches!(step, Step::Ask));
    assert_eq!(walk.servers, root_servers());
    assert_eq!((walk.server(0), walk.server(13)), (Some(root_servers()[0]), None));
    assert_eq!((walk.name.as_str(), walk.query_name.as_str()), ("example.com", "com"));

    let step = resolver.on_reply_at(&mut walk, Some(referral("a.gtld", 1, 600)), 0);
    assert!(matches!(step, Step::Ask));
    assert_eq!(walk.servers, vec![server(1)]);
    assert_eq!((walk.current_zone.as_str(), walk.query_name.as_str()), ("com", "example.com"));
    assert!(resolver.has_delegation("com"));

    let step = resolver.on_reply_at(&mut walk, Some(referral("ns.example.com", 2, 600)), 0);
    assert!(matches!(step, Step::Ask));
    assert_eq!(walk.servers, vec![server(2)]);
    assert_eq!((walk.query_name.as_str(), walk.depth), ("example.com", 3));

    let answer = reply(0x8400, vec![a("example.com", 9)], vec![], vec![]);
    let packet = done(resolver.on_reply_at(&mut walk, Some(answer), 0));
    // The client's ID; AA clear and RA set, for the answer is not our own.
    assert_eq!(packet.header.id, 0x4242);
    assert_eq!(packet.header.flags, 0x8080);
    assert_eq!(packet.answers.len(), 1);
}

#[test]
fn a_name_of_three_labels_is_resolved_from_the_root_down() {
    let mut resolver = RecursiveResolver::new();
    let (mut walk, _) = resolver.begin_at("www.example.com", 1, 7, 0);
    assert_eq!((walk.servers.clone(), walk.query_name.as_str()), (root_servers(), "com"));

    resolver.on_reply_at(&mut walk, Some(referral("a.gtld", 1, 600)), 0);
    assert_eq!((walk.servers.clone(), walk.query_name.as_str()), (vec![server(1)], "example.com"));
    resolver.on_reply_at(&mut walk, Some(referral("ns.example.com", 2, 600)), 0);
    assert_eq!(walk.servers, vec![server(2)]);
    assert_eq!(
        (walk.current_zone.as_str(), walk.query_name.as_str()),
        ("example.com", "www.example.com")
    );

    let answer = reply(0x8400, vec![a("www.example.com", 1)], vec![], vec![]);
    let packet = done(resolver.on_reply_at(&mut walk, Some(answer), 0));
    assert_eq!((packet.header.id, packet.header.flags), (7, 0x8080));
    match &packet.answers[..] {
        [DnsRecord::A { domain, addr, .. }] => {
            assert_eq!((domain.as_str(), addr.text().as_str()), ("www.example.com", "192.0.2.1"));
        }
        other => panic!("expected one address, got {:?}", other),
    }

    // The servers of each zone are known under its name.
    assert!(resolver.has_delegation("com") && resolver.has_delegation("example.com"));
    assert!(!resolver.has_delegation("www.example.com"));
    let (walk, _) = resolver.begin_at("mail.example.com", 1, 8, 0);
    assert_eq!(walk.servers, vec![server(2)]);
    assert_eq!(walk.query_name, "mail.example.com");
}

#[test]
fn the_root_is_not_asked_about_known_zones() {
    let mut resolver = RecursiveResolver::new();
    let (mut walk, _) = resolver.begin_at("example.com", 1, 7, 0);
    resolver.on_reply_at(&mut walk, Some(referral("a.gtld", 1, 60)), 0);

    // No servers are known for other.com, but those of com are.
    let (walk, _) = resolver.begin_at("www.other.com", 1, 8, 0);
    assert_eq!(walk.servers, vec![server(1)]);
    assert_eq!((walk.current_zone.as_str(), walk.query_name.as_str()), ("com", "other.com"));

    let (walk, _) = resolver.begin_at("www.other.com", 1, 8, 60 * SECOND);
    assert_eq!((walk.servers.clone(), walk.query_name.as_str()), (root_servers(), "com"));
    assert!(!resolver.has_delegation("com"));
}

#[test]
fn delegations_are_kept_as_long_as_they_allow() {
    let mut resolver = RecursiveResolver::new();
    let (mut walk, _) = resolver.begin_at("example.com", 1, 7, 0);
    resolver.on_reply_at(&mut walk, Some(referral("a.gtld", 1, 86400)), 0);
    let (walk, _) = resolver.begin_at("other.com", 1, 8, 86400 * SECOND - 1);
    assert_eq!(walk.servers, vec![server(1)]);
    let (walk, _) = resolver.begin_at("other.com", 1, 8, 86400 * SECOND);
    assert_eq!(walk.servers, root_servers());
}

#[test]
fn an_answer_for_part_of_the_name_starts_over() {
    let mut resolver = RecursiveResolver::new();
    let (mut walk, _) = resolver.begin_at("www.example.com", 1, 7, 0);
    resolver.on_reply_at(&mut walk, Some(referral("a.gtld", 1, 600)), 0);
    assert_eq!(walk.query_name, "example.com");
    let answer = reply(0x8400, vec![a("example.com", 9)], vec![], vec![]);
    let step = resolver.on_reply_at(&mut walk, Some(answer), 0);
    assert!(matches!(step, Step::Ask));
    assert_eq!(walk.servers, root_servers());
    assert_eq!((walk.current_zone.as_str(), walk.query_name.as_str()), ("", "www.example.com"));

    // From there on the full name is asked for.
    let step = resolver.on_reply_at(&mut walk, Some(referral("a.gtld", 3, 600)), 0);
    assert!(matches!(step, Step::Ask));
    assert_eq!(walk.servers, vec![server(3)]);
    assert_eq!(walk.query_name, "www.example.com");
    assert!(!resolver.has_delegation("www.example.com"));
    let answer = reply(0x8400, vec![a("www.example.com", 9)], vec![], vec![]);
    assert_eq!(done(resolver.on_reply_at(&mut walk, Some(answer), 0)).answers.len(), 1);
}

#[test]
fn a_name_below_one_without_records_is_resolved() {
    let mut resolver = RecursiveResolver::new();
    let (mut walk, _) = resolver.begin_at("a.b.example", 1, 7, 0);
    resolver.on_reply_at(&mut walk, Some(referral("ns.example", 1, 600)), 0);
    assert_eq!(walk.query_name, "b.example");
    // There is no record of b.example, and no delegation.
    resolver.on_reply_at(&mut walk, Some(reply(0x8400, vec![], vec![], vec![])), 0);
    assert_eq!(walk.query_name, "a.b.example");
    resolver.on_reply_at(&mut walk, Some(referral("ns.example", 1, 600)), 0);
    assert_eq!((walk.servers.clone(), walk.query_name.as_str()), (vec![server(1)], "a.b.example"));
    let answer = reply(0x8400, vec![a("a.b.example", 9)], vec![], vec![]);
    assert_eq!(done(resolver.on_reply_at(&mut walk, Some(answer), 0)).answers.len(), 1);
}

#[test]
fn a_walk_that_gets_no_reply_fails() {
    let mut resolver = RecursiveResolver::new();
    let (mut walk, _) = resolver.begin_at("example.com", 1, 7, 0);
    let packet = done(resolver.on_reply_at(&mut walk, None, 0));
    assert_eq!((packet.header.id, packet.header.flags & 0x000F), (7, 2));
    assert_eq!(packet.questions[0].qname, "example.com");
}

#[test]
fn a_walk_is_bounded() {
    let mut resolver = RecursiveResolver::new();
    let (mut walk, mut step) = resolver.begin_at("a.b.example.com", 1, 7, 0);
    let mut asked = 0;
    while matches!(step, Step::Ask) {
        asked += 1;
        // From one server to the next, over and over.
        step = resolver.on_reply_at(&mut walk, Some(referral("ns", 1, 600)), 0);
    }
    assert_eq!(asked, MAX_DELEGATION_DEPTH);
    assert_eq!(done(step).header.flags & 0x000F, 2);
}

#[test]
fn errors_of_servers_are_final() {
    let mut resolver = RecursiveResolver::new();
    let (mut walk, _) = resolver.begin_at("example.com", 1, 7, 0);
    let packet =
        done(resolver.on_reply_at(&mut walk, Some(reply(0x8005, vec![], vec![], vec![])), 0));
    assert_eq!(packet.header.flags & 0x000F, 5);
}

#[test]
fn nxdomain_counts_for_the_full_name_only() {
    let mut resolver = RecursiveResolver::new();
    let (mut walk, _) = resolver.begin_at("www.example.com", 1, 7, 0);
    let nxdomain = || Some(reply(0x8003, vec![], vec![], vec![]));
    assert!(matches!(resolver.on_reply_at(&mut walk, nxdomain(), 0), Step::Ask));

    let (mut walk, _) = resolver.begin_at("com", 1, 7, 0);
    assert_eq!(walk.query_name, "com");
    assert_eq!(done(resolver.on_reply_at(&mut walk, nxdomain(), 0)).header.flags & 0x000F, 3);
}

#[test]
fn delegations_are_remembered_for_their_time() {
    let mut resolver = RecursiveResolver::default();
    let (mut walk, _) = resolver.begin_at("example.com", 1, 7, 0);
    resolver.on_reply_at(&mut walk, Some(referral("a.gtld", 1, 60)), 0);
    assert!(resolver.has_delegation("com"));

    let (walk, _) = resolver.begin_at("other.com", 1, 8, 60 * SECOND - 1);
    assert_eq!(walk.servers, vec![server(1)]);
    assert_eq!((walk.current_zone.as_str(), walk.query_name.as_str()), ("com", "other.com"));
    let (walk, _) = resolver.begin_at("other.com", 1, 8, 60 * SECOND);
    assert_eq!(walk.servers, root_servers());
    assert!(!resolver.has_delegation("com"));
}

#[test]
fn queries_ask_for_a_larger_response() {
    let mut resolver = RecursiveResolver::new();
    let first = resolver.take_id();
    let second = resolver.take_id();
    assert_ne!(first, second);
    let q = build_query("example.com", 1, second);
    assert_eq!(q.header.id, second);
    assert_eq!(q.edns_udp_size(), Some(1232));
    assert_eq!(q.header.flags & 0x0100, 0); // recursion not desired
    assert_eq!(DnsPacket::from_bytes(&q.to_bytes()).unwrap().questions[0].qname, "example.com");
}

#[test]
fn replies_are_checked() {
    let bytes = reply(0x8000, vec![], vec![], vec![]).to_bytes();
    assert_eq!(accept_reply(&bytes, 1).unwrap().header.id, 1);
    assert!(matches!(accept_reply(&bytes, 2), Err(ReplyError::IdMismatch)));
    assert!(matches!(
        accept_reply(&bytes[..5], 1),
        Err(ReplyError::Malformed(DnsError::Truncated { what: "header" }))
    ));
}

#[test]
fn minimized_names_enclose_the_name() {
    assert_eq!(minimized_qname("a.b.c.d", "d"), "c.d");
    assert_eq!(minimized_qname("a", "x.y.z"), "a");
    assert_eq!(minimized_qname("", ""), "");
    assert_eq!(minimized_qname("a..b", ""), "b");
}
