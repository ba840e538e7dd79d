use mini_dns::cache::Cache;
use mini_dns::config::{ForwardRules, Zone, ZoneSet};
use mini_dns::dns::header::DnsHeader;
use mini_dns::dns::packet::DnsPacket;
use mini_dns::dns::question::DnsQuestion;
use mini_dns::dns::record::DnsRecord;
use mini_dns::doh::{
    body_len, extract_dns_param, find_subslice, head_progress, http_response, parse_head,
    request_body, request_query, resolve_http, response_head, DohResponse, HeadProgress,
    HttpResolution, MAX_BODY, MAX_HEAD,
};
use mini_dns::net::{IpAddr, Ipv4Addr, SocketAddr};
use mini_dns::ratelimit::RateLimiter;
use mini_dns::state::{Resolution, ServerState};
use mini_dns::time::Duration;

fn client() -> IpAddr {
    IpAddr::V4(Ipv4Addr::new(127, 0, 0, 1))
}

fn query(name: &str) -> Vec<u8> {
    DnsPacket {
        header: DnsHeader {
            id: 0,
            flags: 0x0100,
            questions: 1,
            answers: 0,
            authorities: 0,
            additionals: 0,
        },
        questions: vec![DnsQuestion { qname: name.to_string(), qtype: 1, qclass: 1 }],
        answers: vec![],
        authorities: vec![],
        additionals: vec![],
    }
    .to_bytes()
}

#[test]
fn base64url_is_decoded() {
    assert_eq!(extract_dns_param("dns=AAECAw"), Some(vec![0, 1, 2, 3]));
    assert_eq!(extract_dns_param("dns=AAEC"), Some(vec![0, 1, 2]));
    assert_eq!(extract_dns_param("dns=_-8"), Some(vec![0xff, 0xef]));
    assert_eq!(extract_dns_param("dns="), Some(vec![]));
    // The parameter may stand anywhere; the first one counts.
    assert_eq!(extract_dns_param("ct=x&dns=AA&dns=AQ"), Some(vec![0]));
    // Padding, other characters, loose bits and impossible lengths are refused.
    for bad in ["dns=AA==", "dns=A+==", "dns=A/A", "dns=AB", "dns=A", "dns=A A", "xdns=AA", ""] {
        assert_eq!(extract_dns_param(bad), None, "{bad}");
    }
    // So is the first parameter when it is bad, whatever follows.
    assert_eq!(extract_dns_param("dns=!&dns=AA"), None);
}

#[test]
fn requests_are_sorted_out() {
    assert_eq!(request_query("POST", "/dns-query", &[1]), Ok(vec![1]));
    assert_eq!(request_query("POST", "/dns-query?x", &[1]), Ok(vec![1]));
    assert_eq!(request_query("GET", "/dns-query?dns=AA", &[1]), Ok(vec![0]));
    assert_eq!(request_query("GET", "/dns-query?dns=", &[1]), Err(400));
    assert_eq!(request_query("GET", "/dns-query?", &[1]), Err(400));
    assert_eq!(request_query("GET", "/dns-query", &[1]), Err(400));
    assert_eq!(request_query("POST", "/dns-query", &[]), Err(400));
    assert_eq!(request_query("POST", "/dns-query", &vec![0; MAX_BODY]), Ok(vec![0; MAX_BODY]));
    assert_eq!(request_query("POST", "/dns-query", &vec![0; MAX_BODY + 1]), Err(400));
    assert_eq!(request_query("post", "/dns-query", &[1]), Err(405));
    assert_eq!(request_query("PUT", "/", &[1]), Err(404));
    assert_eq!(request_query("POST", "/dns-query/", &[1]), Err(404));
}

#[test]
fn outcomes_become_statuses() {
    match http_response(Resolution::Ready(vec![1, 2])) {
        HttpResolution::Response(r) => assert_eq!((r.status, r.body), (200, vec![1, 2])),
        other => panic!("{:?}", other),
    }
    match http_response(Resolution::Drop) {
        HttpResolution::Response(r) => assert_eq!((r.status, r.body), (400, vec![])),
        other => panic!("{:?}", other),
    }
}

#[test]
fn get_and_post_agree() {
    let mut zone = Zone::new();
    zone.insert(
        "example.com".to_string(),
        vec![DnsRecord::A {
            domain: "example.com".to_string(),
            addr: Ipv4Addr::new(192, 0, 2, 1),
            ttl: 60,
        }],
    );
    let mut state =
        ServerState::authoritative(ZoneSet::from_single("example.com".to_string(), zone));
    // The query for example.com A with ID 0, in base64url.
    let target = "/dns-query?dns=AAABAAABAAAAAAAAB2V4YW1wbGUDY29tAAABAAE";
    let posted = resolve_http(&mut state, "POST", "/dns-query", &query("example.com"), client());
    let got = resolve_http(&mut state, "GET", target, &[], client());
    match (posted, got) {
        (HttpResolution::Response(a), HttpResolution::Response(b)) => {
            assert_eq!((a.status, b.status), (200, 200));
            assert_eq!(a.body, b.body);
            assert_eq!(DnsPacket::from_bytes(&a.body).unwrap().answers.len(), 1);
        }
        other => panic!("{:?}", other),
    }
}

#[test]
fn unknown_names_go_upstream_over_http_too() {
    let mut state = ServerState::new(
        ZoneSet::empty(),
        None,
        ForwardRules::single(SocketAddr::parse("9.9.9.9:53").unwrap()),
        Cache::new(4),
        RateLimiter::new(1, Duration::from_secs(60)),
    );
    match resolve_http(&mut state, "POST", "/dns-query", &query("a.example"), client()) {
        HttpResolution::Forward(ctx) => assert_eq!(ctx.name, "a.example"),
        other => panic!("{:?}", other),
    }
    // The second query is over the limit.
    match resolve_http(&mut state, "POST", "/dns-query", &query("a.example"), client()) {
        HttpResolution::Response(r) => assert_eq!(r.status, 400),
        other => panic!("{:?}", other),
    }
}

#[test]
fn subslices() {
    assert_eq!(find_subslice(b"abcabc", b"ca"), Some(2));
    assert_eq!(find_subslice(b"abcabc", b"abc"), Some(0));
    assert_eq!(find_subslice(b"aaab", b"ab"), Some(2));
    assert_eq!(find_subslice(b"abc", b"abcd"), None);
    assert_eq!(find_subslice(b"abc", b"x"), None);
    assert_eq!(find_subslice(b"", b""), None);
}

#[test]
fn heads_are_found() {
    assert_eq!(head_progress(b"GET / HTTP/1.1\r\n"), HeadProgress::More);
    assert_eq!(head_progress(b"GET / HTTP/1.1\r\n\r\nbody"), HeadProgress::Complete(18));
    assert_eq!(head_progress(&vec![b'x'; MAX_HEAD]), HeadProgress::More);
    assert_eq!(head_progress(&vec![b'x'; MAX_HEAD + 1]), HeadProgress::TooLarge);
}

#[test]
fn heads_are_parsed() {
    let head = parse_head(b"POST /dns-query HTTP/1.1\r\nHost: x\r\ncontent-LENGTH :  29 \r\n\r\n");
    assert_eq!((head.method.as_str(), head.target.as_str()), ("POST", "/dns-query"));
    assert_eq!(head.content_length, 29);

    // The first length that can be read counts.
    let head = parse_head(b"GET /\r\nContent-Length: x\r\nContent-Length: 3\r\nContent-Length: 4");
    assert_eq!(head.content_length, 3);

    let head = parse_head(b"");
    assert_eq!((head.method.as_str(), head.target.as_str(), head.content_length), ("", "", 0));

    let head = parse_head(b"GET /\xFF HTTP/1.1\r\n\r\n");
    assert_eq!(head.target, "/\u{FFFD}");
}

#[test]
fn large_bodies_are_refused() {
    let head = |len: usize| {
        parse_head(format!("POST / HTTP/1.1\r\nContent-Length: {len}").as_bytes())
    };
    assert_eq!(body_len(&head(0)), Ok(0));
    assert_eq!(body_len(&head(MAX_BODY)), Ok(MAX_BODY));
    assert_eq!(body_len(&head(MAX_BODY + 1)), Err(413));
}

#[test]
fn bodies_are_cut_to_their_length() {
    assert_eq!(request_body(&[1, 2, 3], 2), [1, 2]);
    assert_eq!(request_body(&[1, 2, 3], 3), [1, 2, 3]);
    assert_eq!(request_body(&[1, 2, 3], 9), [1, 2, 3]);
}

#[test]
fn response_heads() {
    let head = |status: u16, n: usize| response_head(&DohResponse { status, body: vec![0; n] });
    assert_eq!(
        head(200, 45),
        "HTTP/1.1 200 OK\r\nContent-Type: application/dns-message\r\nContent-Length: 45\r\n\
         Connection: close\r\n\r\n"
    );
    for (status, reason) in [
        (400, "Bad Request"),
        (404, "Not Found"),
        (405, "Method Not Allowed"),
        (413, "Payload Too Large"),
        (431, "Request Header Fields Too Large"),
        (500, "Error"),
    ] {
        assert!(head(status, 0).starts_with(&format!("HTTP/1.1 {status} {reason}\r\n")));
        assert!(head(status, 0).contains("Content-Length: 0\r\n"));
    }
    let refused = DohResponse::error(404);
    assert_eq!((refused.status, refused.body.len()), (404, 0));
}
