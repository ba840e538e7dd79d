use mini_dns::dns::encoder::DnsPacketEncoder;
use mini_dns::dns::error::DnsError;
use mini_dns::dns::header::DnsHeader;
use mini_dns::dns::packet::DnsPacket;
use mini_dns::dns::question::DnsQuestion;
use mini_dns::dns::record::DnsRecord;
use mini_dns::net::{Ipv4Addr, Ipv6Addr};

fn header(questions: u16, answers: u16) -> Vec<u8> {
    let mut v = vec![0x12, 0x34, 0x81, 0x80];
    for n in [questions, answers, 0, 0] {
        v.extend_from_slice(&n.to_be_bytes());
    }
    v
}

/// A message with one answer for the root, with the given type and data.
fn answer(rtype: u16, rdata: &[u8]) -> Vec<u8> {
    let mut v = header(0, 1);
    v.push(0);
    v.extend_from_slice(&rtype.to_be_bytes());
    v.extend_from_slice(&[0, 1, 0, 0, 0, 60]);
    v.extend_from_slice(&(rdata.len() as u16).to_be_bytes());
    v.extend_from_slice(rdata);
    v
}

fn packet(answers: Vec<DnsRecord>) -> DnsPacket {
    DnsPacket {
        header: DnsHeader {
            id: 0x4242,
            flags: 0x8180,
            questions: 0,
            answers: answers.len() as u16,
            authorities: 0,
            additionals: 0,
        },
        questions: vec![],
        answers,
        authorities: vec![],
        additionals: vec![],
    }
}

fn truncated(bytes: &[u8]) -> &'static str {
    match DnsPacket::from_bytes(bytes) {
        Err(DnsError::Truncated { what }) => what,
        other => panic!("expected a truncated message, got {:?}", other),
    }
}

fn invalid(bytes: &[u8]) -> u16 {
    match DnsPacket::from_bytes(bytes) {
        Err(DnsError::InvalidRdata { rtype }) => rtype,
        other => panic!("expected invalid rdata, got {:?}", other),
    }
}

#[test]
fn every_truncation() {
    assert_eq!(truncated(&[0; 11]), "header");
    assert_eq!(truncated(&header(1, 0)), "name label length");

    let mut m = header(1, 0);
    m.push(0xC0);
    assert_eq!(truncated(&m), "name pointer");

    let mut m = header(1, 0);
    m.extend_from_slice(&[5, b'a']);
    assert_eq!(truncated(&m), "name label");

    let mut m = header(1, 0);
    m.extend_from_slice(&[0, 0, 1, 0]);
    assert_eq!(truncated(&m), "question");

    let mut m = header(0, 1);
    m.extend_from_slice(&[0, 0, 1, 0, 1]);
    assert_eq!(truncated(&m), "record header");

    let mut m = answer(1, &[192, 0, 2, 1]);
    m.pop();
    assert_eq!(truncated(&m), "record data");

    assert_eq!(truncated(&answer(16, &[3, b'a'])), "TXT character-string");
    assert_eq!(truncated(&answer(6, &[0, 0, 1, 2, 3])), "SOA record");
}

#[test]
fn every_invalid_rdata() {
    assert_eq!(invalid(&answer(1, &[1, 2, 3])), 1);
    assert_eq!(invalid(&answer(28, &[0; 15])), 28);
    assert_eq!(invalid(&answer(15, &[0, 10])), 15);
    assert_eq!(invalid(&answer(33, &[0; 5])), 33);
    assert_eq!(invalid(&answer(257, &[0])), 257);
    assert_eq!(invalid(&answer(257, &[0, 9, b'x'])), 257);
}

#[test]
fn malformed_dnssec_records_are_skipped() {
    let mut long_signer = vec![0; 18];
    long_signer.extend_from_slice(&[9, b'a']);
    let mut looping_signer = vec![0; 18];
    looping_signer.extend_from_slice(&[0xC0, 12 + 11 + 18]);
    for (rtype, data) in [
        (48, vec![1, 1, 3]),
        (46, vec![0; 17]),
        (46, long_signer),
        (46, looping_signer),
    ] {
        let mut m = answer(rtype, &data);
        m[7] = 2;
        m.extend_from_slice(&answer(1, &[192, 0, 2, 1])[12..]);
        let p = DnsPacket::from_bytes(&m).unwrap();
        assert_eq!(p.answers.len(), 1);
        assert!(matches!(p.answers[0], DnsRecord::A { .. }));
    }
}

#[test]
fn error_messages() {
    assert_eq!(
        DnsError::Truncated { what: "header" }.message(),
        "message truncated while reading header"
    );
    assert_eq!(
        DnsError::InvalidRdata { rtype: 28 }.message(),
        "invalid rdata length for record type 28"
    );
    assert_eq!(
        DnsError::PointerLoop.message(),
        "too many compression pointers (possible pointer loop)"
    );
}

#[test]
fn pointer_loops_are_told_apart() {
    let mut m = header(1, 0);
    m.extend_from_slice(&[0xC0, 0x0C]);
    assert_eq!(DnsPacket::from_bytes(&m).unwrap_err(), DnsError::PointerLoop);
}

#[test]
fn unknown_record_types_are_skipped() {
    let mut m = header(0, 2);
    m.extend_from_slice(&answer(99, &[1, 2, 3])[12..]);
    m.extend_from_slice(&answer(1, &[192, 0, 2, 1])[12..]);
    let p = DnsPacket::from_bytes(&m).unwrap();
    assert_eq!(p.answers.len(), 1);
    assert!(matches!(p.answers[0], DnsRecord::A { .. }));
}

#[test]
fn labels_that_are_not_utf8_are_read_with_replacements() {
    let mut m = header(1, 0);
    m.extend_from_slice(&[2, 0xFF, b'x', 0, 0, 1, 0, 1]);
    let p = DnsPacket::from_bytes(&m).unwrap();
    assert_eq!(p.questions[0].qname, "\u{FFFD}x");
}

#[test]
fn names_are_compressed() {
    let a = |name: &str| DnsRecord::A {
        domain: name.to_string(),
        addr: Ipv4Addr::new(192, 0, 2, 1),
        ttl: 60,
    };
    let m = packet(vec![a("www.example.com"), a("example.com"), a("www.example.com")]).to_bytes();
    let record = 10 + 4;
    // The first name in full, the second within it, the third all of it.
    assert_eq!(m.len(), 12 + (17 + record) + (2 + record) + (2 + record));
    let at = 12 + 17 + record;
    assert_eq!(&m[at..at + 2], &[0xC0, 16]);
    let at = at + 2 + record;
    assert_eq!(&m[at..at + 2], &[0xC0, 12]);

    let p = DnsPacket::from_bytes(&m).unwrap();
    let names: Vec<String> = p.answers.iter().map(|r| r.domain().to_string()).collect();
    assert_eq!(names, ["www.example.com", "example.com", "www.example.com"]);
}

#[test]
fn exact_octets_of_a_query() {
    let query = DnsPacket {
        header: DnsHeader {
            id: 0xabcd,
            flags: 0x0100,
            questions: 1,
            answers: 0,
            authorities: 0,
            additionals: 1,
        },
        questions: vec![DnsQuestion { qname: "a.bc".to_string(), qtype: 28, qclass: 1 }],
        answers: vec![],
        authorities: vec![],
        additionals: vec![DnsRecord::OPT { udp_size: 1232 }],
    };
    let expected = [
        0xab, 0xcd, 0x01, 0x00, 0, 1, 0, 0, 0, 0, 0, 1, // header
        1, b'a', 2, b'b', b'c', 0, 0, 28, 0, 1, // question
        0, 0, 41, 0x04, 0xd0, 0, 0, 0, 0, 0, 0, // OPT
    ];
    assert_eq!(query.to_bytes(), expected);
    assert_eq!(DnsPacketEncoder::to_bytes(&query), expected);
}

#[test]
fn the_header_counts_what_is_there() {
    let mut p = packet(vec![DnsRecord::A {
        domain: "a".to_string(),
        addr: Ipv4Addr::new(192, 0, 2, 1),
        ttl: 60,
    }]);
    p.header.answers = 7;
    let q = DnsPacket::from_bytes(&p.to_bytes()).unwrap();
    assert_eq!(q.header.answers, 1);
    assert_eq!(q.answers.len(), 1);
}

#[test]
fn dnssec_records_round_trip() {
    let p = packet(vec![
        DnsRecord::DNSKEY {
            domain: "example.com".to_string(),
            flags: 0x0101,
            protocol: 3,
            algorithm: 15,
            public_key: vec![7; 32],
            ttl: 3600,
        },
        DnsRecord::RRSIG {
            domain: "example.com".to_string(),
            type_covered: 48,
            algorithm: 15,
            labels: 2,
            original_ttl: 3600,
            signature_expiration: 2000,
            signature_inception: 1000,
            key_tag: 1030,
            signer_name: "example.com".to_string(),
            signature: vec![9; 64],
            ttl: 3600,
        },
    ]);
    let q = DnsPacket::from_bytes(&p.to_bytes()).unwrap();
    assert_eq!(format!("{:?}", q.answers), format!("{:?}", p.answers));
}

#[test]
fn long_text_is_split_into_strings_and_joined_again() {
    let text = "x".repeat(700);
    let p = packet(vec![DnsRecord::TXT {
        domain: "t".to_string(),
        text: text.clone(),
        ttl: 1,
    }]);
    let m = p.to_bytes();
    // 255 + 255 + 190 characters, each string with a length before it.
    assert_eq!(m.len(), 12 + 3 + 10 + 703);
    match &DnsPacket::from_bytes(&m).unwrap().answers[0] {
        DnsRecord::TXT { text: t, .. } => assert_eq!(*t, text),
        other => panic!("{:?}", other),
    }
}

#[test]
fn udp_responses_are_cut_to_what_the_client_takes() {
    let many: Vec<DnsRecord> = (0..60)
        .map(|i| DnsRecord::AAAA {
            domain: "example.com".to_string(),
            addr: Ipv6Addr::new(0x2001, 0xdb8, 0, 0, 0, 0, 0, i),
            ttl: 60,
        })
        .collect();
    let mut p = packet(many);
    assert!(p.to_bytes().len() > 1232);

    let cut = p.to_udp_bytes();
    assert!(cut.len() <= 512);
    let q = DnsPacket::from_bytes(&cut).unwrap();
    assert_eq!(q.header.flags & 0x0200, 0x0200);
    assert_eq!(q.header.id, 0x4242);
    assert_eq!(q.answers.len(), 0);

    // With room for it, the message goes out whole.
    p.answers.truncate(30);
    assert!(p.to_bytes().len() > 512 && p.to_bytes().len() + 11 <= 1232);
    p.additionals.push(DnsRecord::OPT { udp_size: 4096 });
    assert_eq!(p.to_udp_bytes(), p.to_bytes());
    assert_eq!(DnsPacket::from_bytes(&p.to_udp_bytes()).unwrap().header.flags & 0x0200, 0);
}
