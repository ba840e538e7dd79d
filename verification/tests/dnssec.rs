use mini_dns::dns::record::DnsRecord;
use mini_dns::dnssec::{
    canonical_name, key_tag_from_rdata, DnssecKeys, SigningKey, ALG_ED25519, FLAG_KSK, FLAG_ZONE,
};
use mini_dns::net::Ipv4Addr;
use ring::signature::{UnparsedPublicKey, ED25519};

#[test]
fn generate_key_and_build_dnskey() {
    let key = SigningKey::generate("example.com").unwrap();
    assert_eq!(key.algorithm, ALG_ED25519);
    assert_eq!(key.flags, FLAG_KSK | FLAG_ZONE);
    assert_eq!(key.public_key.len(), 32);

    let dnskey = key.dnskey_record(3600);
    match dnskey {
        DnsRecord::DNSKEY {
            domain,
            flags,
            protocol,
            algorithm,
            public_key,
            ttl,
        } => {
            assert_eq!(domain, "example.com");
            assert_eq!(flags, 0x0101);
            assert_eq!(protocol, 3);
            assert_eq!(algorithm, 15);
            assert_eq!(public_key.len(), 32);
            assert_eq!(ttl, 3600);
        }
        other => panic!("expected DNSKEY, got {:?}", other),
    }
}

#[test]
fn key_tag_is_nonzero() {
    let key = SigningKey::generate("example.com").unwrap();
    let tag = key.key_tag();
    // Key tag is a u16; just verify it runs without panic.
    let _ = tag;
}

#[test]
fn key_tag_from_rdata_known_value() {
    // RFC 4034 Appendix B example: a 4-byte RDATA of [0x01, 0x02, 0x03, 0x04]
    // ac = 0x0100 + 0x0002 + 0x0300 + 0x0004 = 0x0406
    // ac += (ac >> 16) = 0x0406 + 0 = 0x0406
    // key tag = 0x0406 = 1030
    assert_eq!(key_tag_from_rdata(&[0x01, 0x02, 0x03, 0x04]), 1030);
}

#[test]
fn sign_and_verify_a_record() {
    // Sign an A record RRset and verify the signature with the public key.
    let keys = DnssecKeys::single("example.com").unwrap();
    let a_record = DnsRecord::A {
        domain: "example.com".to_string(),
        addr: Ipv4Addr::parse("192.0.2.1").unwrap(),
        ttl: 3600,
    };

    let rrsig = keys
        .sign_rrset(
            &[a_record],
            "example.com",
            3600,
            1000,
            2000,
        )
        .unwrap();

    match &rrsig {
        DnsRecord::RRSIG {
            type_covered,
            algorithm,
            signature,
            signer_name,
            key_tag,
            ..
        } => {
            assert_eq!(*type_covered, 1); // A
            assert_eq!(*algorithm, 15); // ED25519
            assert_eq!(signer_name, "example.com");
            assert!(!signature.is_empty());

            // Verify the signature using the public key.
            let key = &keys.keys[0];
            let pub_key =
                UnparsedPublicKey::new(&ED25519, &key.public_key);

            // Rebuild the data that was signed.
            let mut to_verify = Vec::new();
            to_verify.extend_from_slice(&type_covered.to_be_bytes());
            to_verify.push(*algorithm);
            to_verify.push(2); // labels: "example.com" has 2 labels
            to_verify.extend_from_slice(&3600u32.to_be_bytes());
            to_verify.extend_from_slice(&2000u32.to_be_bytes());
            to_verify.extend_from_slice(&1000u32.to_be_bytes());
            to_verify.extend_from_slice(&key_tag.to_be_bytes());
            canonical_name("example.com", &mut to_verify);
            canonical_name("example.com", &mut to_verify);
            to_verify.extend_from_slice(&1u16.to_be_bytes()); // type A
            to_verify.extend_from_slice(&1u16.to_be_bytes()); // class IN
            to_verify.extend_from_slice(&3600u32.to_be_bytes());
            let rdata = [192, 0, 2, 1];
            to_verify.extend_from_slice(&(rdata.len() as u16).to_be_bytes());
            to_verify.extend_from_slice(&rdata);

            pub_key
                .verify(&to_verify, signature)
                .expect("RRSIG signature verification failed");
        }
        other => panic!("expected RRSIG, got {:?}", other),
    }
}

#[test]
fn sign_dnskey_rrset() {
    let keys = DnssecKeys::single("example.com").unwrap();
    let dnskey_records = keys.dnskey_records(3600);
    assert_eq!(dnskey_records.len(), 1);

    let rrsig = keys
        .sign_rrset(&dnskey_records, "example.com", 3600, 1000, 2000)
        .unwrap();

    match rrsig {
        DnsRecord::RRSIG { type_covered, .. } => {
            assert_eq!(type_covered, 48); // DNSKEY
        }
        other => panic!("expected RRSIG for DNSKEY, got {:?}", other),
    }
}
