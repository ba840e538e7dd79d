//! DNSSEC key management and signing support (RFC 4034/4035).
//!
//! This module provides:
//! - ED25519 key pair generation (algorithm 15, RFC 8080)
//! - DNSKEY record construction
//! - Key tag computation (RFC 4034 Appendix B)
//! - RRset signing with RRSIG generation
//!
//! NSEC chain construction for authenticated denial of existence is left as
//! future work.

use crate::bytes::{
    be_at, be_bytes, lemma_be_bytes_len, lemma_be_round_trip, lemma_pow256_small, low16, push_be,
    push_slice, push_u16, push_u32,
};
use crate::dns::encoder::{
    character_string_octets, label_octets, labels_octets, name_octets, plain_labels_octets,
    plain_name_octets, push_chunks, rdata_octets, MAX_POINTER_TARGET,
};
use crate::dns::record::{record_views, DnsRecord, RecordView};
use crate::dns::round_trip::labels_ok;
use crate::text::{
    after, before, first_of, is_ascii_text, lemma_cut, lemma_first_of, lemma_first_of_is,
    lemma_pieces_joined, lowercase, occurs, pieces, split, split_once, text_eq, texts, to_lowercase,
    trim_end_of, trim_tail,
};
use ring::rand::SystemRandom;
use ring::signature::{Ed25519KeyPair, KeyPair};
use std::sync::Arc;
use vstd::prelude::*;
use vstd::utf8::encode_utf8;

verus! {

/// DNSSEC algorithm code for ED25519 (RFC 8080).
pub const ALG_ED25519: u8 = 15;

/// DNSKEY flag bit: this key signs the zone's apex DNSKEY RRset (KSK).
pub const FLAG_KSK: u16 = 0x0001;

/// DNSKEY flag bit: this key signs the zone (ZSK / general-purpose).
pub const FLAG_ZONE: u16 = 0x0100;

/// Why a key could not be made or used.
#[derive(Debug, Clone, Copy, PartialEq, Eq, Structural)]
pub enum DnssecError {
    /// The key pair could not be generated.
    KeyGeneration,
    /// The private key has not the length of an Ed25519 key.
    KeyRejected,
    /// There is no key to sign with.
    NoKeys,
}

/// Octets of an Ed25519 private key.
pub const PRIVATE_KEY_LEN: usize = 32;

/// The Ed25519 public key that belongs to a private key.
pub uninterp spec fn ed25519_public_key(private_key: Seq<u8>) -> Seq<u8>;

/// The Ed25519 signature of a message with a private key.
pub uninterp spec fn ed25519_signature(private_key: Seq<u8>, message: Seq<u8>) -> Seq<u8>;

/// `ring::rand::generate` with the system's random numbers: 32 new octets, or nothing
/// where the random numbers failed. Which octets is not stated, since they are drawn
/// by chance.
#[verifier::external_body]
fn random_private_key() -> (r: Option<Vec<u8>>)
    ensures
        r matches Some(k) ==> k@.len() == 32,
{
    ring::rand::generate::<[u8; 32]>(&SystemRandom::new()).ok().map(|k| k.expose().to_vec())
}

/// `Ed25519KeyPair::from_seed_unchecked`, and the public key of the pair: 32 octets
/// that are a function of the private key alone. A private key of another length than
/// 32 octets is refused, and no other.
#[verifier::external_body]
fn public_key_of(private_key: &[u8]) -> (r: Option<Vec<u8>>)
    ensures
        match r {
            Some(k) => private_key@.len() == 32 && k@ == ed25519_public_key(private_key@)
                && k@.len() == 32,
            None => private_key@.len() != 32,
        },
{
    Ed25519KeyPair::from_seed_unchecked(private_key).ok().map(|k| k.public_key().as_ref().to_vec())
}

/// `Ed25519KeyPair::sign` with the pair of `Ed25519KeyPair::from_seed_unchecked`: a
/// signature of 64 octets, wherever the private key has the right length. Ed25519
/// signatures are a function of the key and the message.
#[verifier::external_body]
fn sign_with(private_key: &[u8], message: &[u8]) -> (r: Option<Vec<u8>>)
    ensures
        match r {
            Some(s) => private_key@.len() == 32 && s@ == ed25519_signature(
                private_key@,
                message@,
            ) && s@.len() == 64,
            None => private_key@.len() != 32,
        },
{
    Ed25519KeyPair::from_seed_unchecked(private_key).ok().map(|k| k.sign(message).as_ref().to_vec())
}

/// The sum of octets in which those at even places count 256 times.
pub open spec fn key_sum(rdata: Seq<u8>) -> nat
    decreases rdata.len(),
{
    if rdata.len() == 0 {
        0
    } else {
        key_sum(rdata.drop_last()) + (if rdata.len() % 2 == 1 {
            rdata.last() * 256
        } else {
            rdata.last() as int
        }) as nat
    }
}

/// The key tag of RFC 4034 Appendix B: the sum in 32 bits, its upper half added to
/// its lower half.
pub open spec fn key_tag_spec(rdata: Seq<u8>) -> u16 {
    let ac = key_sum(rdata) % 0x1_0000_0000;
    ((ac + ac / 0x1_0000) % 0x1_0000) as u16
}

/// Computes a DNSSEC key tag from canonical RDATA (RFC 4034 Appendix B).
pub fn key_tag_from_rdata(rdata: &[u8]) -> (r: u16)
    ensures
        r == key_tag_spec(rdata@),
{
    let mut ac: u64 = 0;
    let mut i: usize = 0;
    proof {
        assert(rdata@.take(0) =~= Seq::empty());
    }
    while i < rdata.len()
        invariant
            i <= rdata@.len(),
            ac == key_sum(rdata@.take(i as int)) % 0x1_0000_0000,
        decreases rdata@.len() - i,
    {
        let term: u64 = if i % 2 == 0 {
            rdata[i] as u64 * 256
        } else {
            rdata[i] as u64
        };
        proof {
            assert(rdata@.take(i + 1).drop_last() =~= rdata@.take(i as int));
            assert(rdata@.take(i + 1).last() == rdata@[i as int]);
            let s = key_sum(rdata@.take(i as int)) as int;
            vstd::arithmetic::div_mod::lemma_add_mod_noop(s, term as int, 0x1_0000_0000);
            vstd::arithmetic::div_mod::lemma_mod_twice(s, 0x1_0000_0000);
            vstd::arithmetic::div_mod::lemma_add_mod_noop(
                s % 0x1_0000_0000,
                term as int,
                0x1_0000_0000,
            );
        }
        ac = (ac + term) % 0x1_0000_0000;
        i = i + 1;
    }
    assert(rdata@.take(i as int) =~= rdata@);
    ((ac + ac / 0x1_0000) % 0x1_0000) as u16
}

/// A DNSSEC signing key pair (ED25519).
pub struct SigningKey {
    /// The zone apex name this key signs (e.g. `example.com`).
    pub zone_name: String,
    /// DNSKEY flags (KSK + ZSK for a single combined-signing key).
    pub flags: u16,
    /// The algorithm (always ED25519 = 15 in this implementation).
    pub algorithm: u8,
    /// The public key (raw ED25519 point, 32 bytes).
    pub public_key: Vec<u8>,
    /// The private key (raw ED25519 scalar, 32 bytes).
    pub private_key: Vec<u8>,
}

impl SigningKey {
    /// The data of the key's DNSKEY record.
    pub open spec fn rdata_spec(&self) -> Seq<u8> {
        be_bytes(self.flags as nat, 2) + seq![3u8, self.algorithm] + self.public_key@
    }

    /// The key's DNSKEY record.
    pub open spec fn dnskey_spec(&self, ttl: u32) -> RecordView {
        RecordView::DNSKEY {
            domain: self.zone_name@,
            flags: self.flags,
            protocol: 3,
            algorithm: self.algorithm,
            public_key: self.public_key@,
            ttl,
        }
    }

    /// Whether this is the signing key of a zone with the given private key: a combined
    /// KSK+ZSK.
    pub open spec fn is_key_of(&self, zone_name: Seq<char>, private_key: Seq<u8>) -> bool {
        &&& self.zone_name@ == zone_name
        &&& self.flags == 0x0101
        &&& self.algorithm == ALG_ED25519
        &&& self.private_key@ == private_key
        &&& self.private_key@.len() == PRIVATE_KEY_LEN
        &&& self.public_key@ == ed25519_public_key(private_key)
        &&& self.public_key@.len() == 32
    }

    /// Generates a new ED25519 key pair for `zone_name`.
    ///
    /// The key is a combined KSK+ZSK (flags `0x0101`), suitable for a small
    /// single-signer zone.
    pub fn generate(zone_name: &str) -> (r: Result<Self, DnssecError>)
        ensures
            match r {
                Ok(k) => k.is_key_of(zone_name@, k.private_key@),
                Err(e) => e == DnssecError::KeyGeneration,
            },
    {
        match random_private_key() {
            Some(private_key) => Self::from_private_key(zone_name, private_key),
            None => Err(DnssecError::KeyGeneration),
        }
    }

    /// Makes the signing key of a zone from a private key of 32 octets.
    pub fn from_private_key(zone_name: &str, private_key: Vec<u8>) -> (r: Result<
        Self,
        DnssecError,
    >)
        ensures
            match r {
                Ok(k) => k.is_key_of(zone_name@, private_key@),
                Err(e) => e == DnssecError::KeyRejected && private_key@.len() != PRIVATE_KEY_LEN,
            },
    {
        match public_key_of(private_key.as_slice()) {
            Some(public_key) => {
                assert(0x0001u16 | 0x0100u16 == 0x0101u16) by (bit_vector);
                Ok(
                    SigningKey {
                        zone_name: zone_name.to_owned(),
                        flags: FLAG_KSK | FLAG_ZONE,
                        algorithm: ALG_ED25519,
                        public_key,
                        private_key,
                    },
                )
            },
            None => Err(DnssecError::KeyRejected),
        }
    }

    /// Builds the DNSKEY resource record for this key, with the given TTL.
    pub fn dnskey_record(&self, ttl: u32) -> (r: DnsRecord)
        ensures
            r@ == self.dnskey_spec(ttl),
    {
        let public_key = self.public_key.clone();
        assert(public_key@ =~= self.public_key@);
        DnsRecord::DNSKEY {
            domain: self.zone_name.clone(),
            flags: self.flags,
            protocol: 3,  // RFC 4034 section 2.1.2: protocol MUST be 3 (DNSSEC)
            algorithm: self.algorithm,
            public_key,
            ttl,
        }
    }

    /// Computes the key tag for this key (RFC 4034 Appendix B).
    pub fn key_tag(&self) -> (r: u16)
        ensures
            r == key_tag_spec(self.rdata_spec()),
    {
        // Build the canonical DNSKEY RDATA: flags(2) + protocol(1) + algorithm(1) + public_key.
        let mut rdata: Vec<u8> = Vec::new();
        push_u16(&mut rdata, self.flags);
        rdata.push(3);
        rdata.push(self.algorithm);
        push_slice(&mut rdata, self.public_key.as_slice(), 0, self.public_key.len());
        assert(rdata@ =~= self.rdata_spec());
        key_tag_from_rdata(rdata.as_slice())
    }
}

/// The labels of a name in canonical form: each in lower case, after its length
/// in one octet, and an empty label at the end.
pub open spec fn canonical_labels(name: Seq<char>) -> Seq<u8>
    decreases name.len(),
{
    let label = encode_utf8(lowercase(before(name, '.')));
    let first = seq![(label.len() % 256) as u8] + label;
    if occurs(name, '.') {
        proof {
            lemma_first_of(name, '.');
        }
        first + canonical_labels(after(name, '.'))
    } else {
        first.push(0)
    }
}

/// A name in canonical form: lower case, uncompressed, without dots at its end.
pub open spec fn canonical_name_octets(name: Seq<char>) -> Seq<u8> {
    let n = trim_tail(name, Some('.'));
    if n.len() == 0 {
        seq![0u8]
    } else {
        canonical_labels(n)
    }
}

/// Writes a domain name in canonical form (lowercase, uncompressed) into `out`.
pub fn canonical_name(name: &str, out: &mut Vec<u8>)
    ensures
        final(out)@ == old(out)@ + canonical_name_octets(name@),
{
    let name = trim_end_of(name, Some('.'));
    if name.is_empty() {
        out.push(0);
        assert(out@ =~= old(out)@ + seq![0u8]);
        return;
    }
    let mut rest: &str = name;
    loop
        invariant_except_break
            out@ + canonical_labels(rest@) == old(out)@ + canonical_labels(name@),
        ensures
            out@ == old(out)@ + canonical_labels(name@),
        decreases rest@.len(),
    {
        let ghost here = out@;
        proof {
            lemma_cut(rest@, '.');
        }
        match split_once(rest, '.') {
            Some((label, tail)) => {
                push_canonical_label(label, out);
                proof {
                    assert(out@ + canonical_labels(tail@) =~= here + canonical_labels(rest@));
                }
                rest = tail;
            },
            None => {
                push_canonical_label(rest, out);
                out.push(0);
                proof {
                    assert(out@ =~= here + canonical_labels(rest@));
                }
                break ;
            },
        }
    }
}

fn push_canonical_label(label: &str, out: &mut Vec<u8>)
    ensures
        ({
            let b = encode_utf8(lowercase(label@));
            final(out)@ == old(out)@ + (seq![(b.len() % 256) as u8] + b)
        }),
{
    let lower = to_lowercase(label);
    let bytes = lower.as_str().as_bytes();
    out.push((bytes.len() % 256) as u8);
    push_slice(out, bytes, 0, bytes.len());
    proof {
        let b = encode_utf8(lowercase(label@));
        assert(bytes@.subrange(0, bytes@.len() as int) =~= b);
        assert(out@ =~= old(out)@ + (seq![(b.len() % 256) as u8] + b));
    }
}

/// The data of a record in canonical form: the names in it are lower case and
/// uncompressed; everything else is as on the wire.
pub open spec fn canonical_rdata_octets(r: RecordView) -> Seq<u8> {
    match r {
        RecordView::A { addr, .. } => addr.octets_spec(),
        RecordView::AAAA { addr, .. } => addr.octets_spec(),
        RecordView::CNAME { alias, .. } => canonical_name_octets(alias),
        RecordView::NS { nameserver, .. } => canonical_name_octets(nameserver),
        RecordView::PTR { ptrdname, .. } => canonical_name_octets(ptrdname),
        RecordView::MX { preference, exchange, .. } => be_bytes(preference as nat, 2)
            + canonical_name_octets(exchange),
        RecordView::SOA { mname, rname, serial, refresh, retry, expire, minimum, .. } =>
            canonical_name_octets(mname) + canonical_name_octets(rname) + be_bytes(
            serial as nat,
            4,
        ) + be_bytes(refresh as nat, 4) + be_bytes(retry as nat, 4) + be_bytes(expire as nat, 4)
            + be_bytes(minimum as nat, 4),
        RecordView::SRV { priority, weight, port, target, .. } => be_bytes(priority as nat, 2)
            + be_bytes(weight as nat, 2) + be_bytes(port as nat, 2) + canonical_name_octets(target),
        RecordView::CAA { flags, tag, value, .. } => seq![
            flags,
            (encode_utf8(tag).len() % 256) as u8,
        ] + encode_utf8(tag) + encode_utf8(value),
        RecordView::TXT { text, .. } => character_string_octets(text),
        RecordView::DNSKEY { flags, protocol, algorithm, public_key, .. } => be_bytes(
            flags as nat,
            2,
        ) + seq![protocol, algorithm] + public_key,
        RecordView::RRSIG {
            type_covered,
            algorithm,
            labels,
            original_ttl,
            signature_expiration,
            signature_inception,
            key_tag,
            signer_name,
            signature,
            ..
        } => be_bytes(type_covered as nat, 2) + seq![algorithm, labels] + be_bytes(
            original_ttl as nat,
            4,
        ) + be_bytes(signature_expiration as nat, 4) + be_bytes(signature_inception as nat, 4)
            + be_bytes(key_tag as nat, 2) + canonical_name_octets(signer_name) + signature,
        RecordView::DS { key_tag, algorithm, digest_type, digest, .. } => be_bytes(
            key_tag as nat,
            2,
        ) + seq![algorithm, digest_type] + digest,
        RecordView::NSEC { next_name, type_bitmap, .. } => canonical_name_octets(next_name)
            + type_bitmap,
        RecordView::OPT { .. } => Seq::empty(),
    }
}

fn push_text(out: &mut Vec<u8>, text: &String)
    ensures
        final(out)@ == old(out)@ + encode_utf8(text@),
{
    let bytes = text.as_str().as_bytes();
    push_slice(out, bytes, 0, bytes.len());
    assert(bytes@.subrange(0, bytes@.len() as int) =~= encode_utf8(text@));
}

/// Returns the canonical RDATA bytes for a record (for signing).
/// For names within RDATA, they are written in canonical (lowercase,
/// uncompressed) form. For other types, the raw RDATA is used.
pub fn canonical_rdata(record: &DnsRecord) -> (r: Vec<u8>)
    ensures
        r@ == canonical_rdata_octets(record@),
{
    let mut buf: Vec<u8> = Vec::new();
    match record {
        DnsRecord::A { addr, .. } => {
            push_be(&mut buf, addr.bits as u128, 4);
        },
        DnsRecord::AAAA { addr, .. } => {
            push_be(&mut buf, addr.bits, 16);
        },
        DnsRecord::CNAME { alias, .. } => {
            canonical_name(alias.as_str(), &mut buf);
        },
        DnsRecord::NS { nameserver, .. } => {
            canonical_name(nameserver.as_str(), &mut buf);
        },
        DnsRecord::PTR { ptrdname, .. } => {
            canonical_name(ptrdname.as_str(), &mut buf);
        },
        DnsRecord::MX { preference, exchange, .. } => {
            push_u16(&mut buf, *preference);
            canonical_name(exchange.as_str(), &mut buf);
        },
        DnsRecord::SOA { mname, rname, serial, refresh, retry, expire, minimum, .. } => {
            canonical_name(mname.as_str(), &mut buf);
            canonical_name(rname.as_str(), &mut buf);
            push_u32(&mut buf, *serial);
            push_u32(&mut buf, *refresh);
            push_u32(&mut buf, *retry);
            push_u32(&mut buf, *expire);
            push_u32(&mut buf, *minimum);
        },
        DnsRecord::SRV { priority, weight, port, target, .. } => {
            push_u16(&mut buf, *priority);
            push_u16(&mut buf, *weight);
            push_u16(&mut buf, *port);
            canonical_name(target.as_str(), &mut buf);
        },
        DnsRecord::CAA { flags, tag, value, .. } => {
            buf.push(*flags);
            buf.push((tag.as_str().as_bytes().len() % 256) as u8);
            push_text(&mut buf, tag);
            push_text(&mut buf, value);
        },
        DnsRecord::TXT { text, .. } => {
            // TXT rdata: sequence of length-prefixed character-strings.
            if text.as_str().is_empty() {
                buf.push(0);
            } else {
                push_chunks(&mut buf, text.as_str());
            }
        },
        DnsRecord::DNSKEY { flags, protocol, algorithm, public_key, .. } => {
            push_u16(&mut buf, *flags);
            buf.push(*protocol);
            buf.push(*algorithm);
            push_slice(&mut buf, public_key.as_slice(), 0, public_key.len());
        },
        DnsRecord::RRSIG {
            type_covered,
            algorithm,
            labels,
            original_ttl,
            signature_expiration,
            signature_inception,
            key_tag,
            signer_name,
            signature,
            ..
        } => {
            push_u16(&mut buf, *type_covered);
            buf.push(*algorithm);
            buf.push(*labels);
            push_u32(&mut buf, *original_ttl);
            push_u32(&mut buf, *signature_expiration);
            push_u32(&mut buf, *signature_inception);
            push_u16(&mut buf, *key_tag);
            canonical_name(signer_name.as_str(), &mut buf);
            push_slice(&mut buf, signature.as_slice(), 0, signature.len());
        },
        DnsRecord::DS { key_tag, algorithm, digest_type, digest, .. } => {
            push_u16(&mut buf, *key_tag);
            buf.push(*algorithm);
            buf.push(*digest_type);
            push_slice(&mut buf, digest.as_slice(), 0, digest.len());
        },
        DnsRecord::NSEC { next_name, type_bitmap, .. } => {
            canonical_name(next_name.as_str(), &mut buf);
            push_slice(&mut buf, type_bitmap.as_slice(), 0, type_bitmap.len());
        },
        DnsRecord::OPT { .. } => {},
    }
    assert(buf@ =~= canonical_rdata_octets(record@));
    buf
}

/// A record with the names in its data in lower case.
pub open spec fn rdata_lowered(r: RecordView) -> RecordView {
    match r {
        RecordView::CNAME { domain, alias, ttl } => RecordView::CNAME {
            domain,
            alias: lowercase(alias),
            ttl,
        },
        RecordView::NS { domain, nameserver, ttl } => RecordView::NS {
            domain,
            nameserver: lowercase(nameserver),
            ttl,
        },
        RecordView::PTR { domain, ptrdname, ttl } => RecordView::PTR {
            domain,
            ptrdname: lowercase(ptrdname),
            ttl,
        },
        RecordView::MX { domain, preference, exchange, ttl } => RecordView::MX {
            domain,
            preference,
            exchange: lowercase(exchange),
            ttl,
        },
        RecordView::SOA {
            domain,
            mname,
            rname,
            serial,
            refresh,
            retry,
            expire,
            minimum,
            ttl,
        } => RecordView::SOA {
            domain,
            mname: lowercase(mname),
            rname: lowercase(rname),
            serial,
            refresh,
            retry,
            expire,
            minimum,
            ttl,
        },
        RecordView::SRV { domain, priority, weight, port, target, ttl } => RecordView::SRV {
            domain,
            priority,
            weight,
            port,
            target: lowercase(target),
            ttl,
        },
        RecordView::RRSIG {
            domain,
            type_covered,
            algorithm,
            labels,
            original_ttl,
            signature_expiration,
            signature_inception,
            key_tag,
            signer_name,
            signature,
            ttl,
        } => RecordView::RRSIG {
            domain,
            type_covered,
            algorithm,
            labels,
            original_ttl,
            signature_expiration,
            signature_inception,
            key_tag,
            signer_name: lowercase(signer_name),
            signature,
            ttl,
        },
        RecordView::NSEC { domain, next_name, type_bitmap, ttl } => RecordView::NSEC {
            domain,
            next_name: lowercase(next_name),
            type_bitmap,
            ttl,
        },
        _ => r,
    }
}

/// Whether the lower-case form of a name is that of its labels, one by one.
pub open spec fn lowers_by_label(name: Seq<char>) -> bool {
    pieces(lowercase(name), '.') == pieces(name, '.').map_values(|l: Seq<char>| lowercase(l))
}

/// Names in ASCII are lowered label by label.
pub proof fn law_ascii_lowers_by_label(name: Seq<char>)
    requires
        is_ascii_text(name),
    ensures
        lowers_by_label(name),
    decreases name.len(),
{
    lemma_lowered_cut(name);
    lemma_cut(name, '.');
    if occurs(name, '.') {
        law_ascii_lowers_by_label(after(name, '.'));
    }
    assert(pieces(lowercase(name), '.') =~= pieces(name, '.').map_values(
        |l: Seq<char>| lowercase(l),
    ));
}

/// Whether a name is the root, or has no dot at its end, is lowered label by label, and
/// is made of labels that can be written whole.
pub open spec fn plain_name(name: Seq<char>) -> bool {
    name.len() == 0 || {
        &&& trim_tail(name, Some('.')) == name
        &&& lowers_by_label(name)
        &&& labels_ok(lowercase(name))
    }
}

/// Whether neither a name nor any that it lies below can be pointed at.
pub open spec fn unseen(name: Seq<char>, names: Map<Seq<char>, u16>) -> bool
    decreases name.len(),
{
    name.len() == 0 || {
        &&& !names.contains_key(name)
        &&& occurs(name, '.') ==> {
            proof {
                lemma_cut(name, '.');
            }
            unseen(after(name, '.'), names)
        }
    }
}

/// Whether the data of a record, written at offset `at`, can be written whole and
/// nothing in it can be compressed.
pub open spec fn written_out(r: RecordView, at: nat, names: Map<Seq<char>, u16>) -> bool {
    let fits = |name: Seq<char>| plain_name(name) && unseen(lowercase(name), names);
    match r {
        RecordView::CNAME { alias, .. } => fits(alias),
        RecordView::NS { nameserver, .. } => fits(nameserver),
        RecordView::PTR { ptrdname, .. } => fits(ptrdname),
        RecordView::MX { exchange, .. } => fits(exchange),
        RecordView::SOA { mname, rname, .. } => fits(mname) && plain_name(rname) && unseen(
            lowercase(rname),
            name_octets(lowercase(mname), at, names).names,
        ),
        RecordView::SRV { target, .. } => plain_name(target),
        RecordView::RRSIG { signer_name, .. } => plain_name(signer_name),
        RecordView::NSEC { next_name, .. } => plain_name(next_name),
        RecordView::CAA { tag, .. } => encode_utf8(tag).len() <= 255,
        _ => true,
    }
}

/// What is signed of a record is what goes on the wire: its data with the names in
/// lower case, as long as nothing in it is compressed or cut and lower case is a matter
/// of each label by itself.
pub proof fn law_canonical_rdata(r: RecordView, at: nat, names: Map<Seq<char>, u16>)
    requires
        written_out(r, at, names),
    ensures
        canonical_rdata_octets(r) == rdata_octets(rdata_lowered(r), at, names).bytes,
{
    match r {
        RecordView::CNAME { alias, .. } => lemma_canonical_name(alias, at, names),
        RecordView::NS { nameserver, .. } => lemma_canonical_name(nameserver, at, names),
        RecordView::PTR { ptrdname, .. } => lemma_canonical_name(ptrdname, at, names),
        RecordView::MX { preference, exchange, .. } => {
            lemma_be_bytes_len(preference as nat, 2);
            lemma_canonical_name(exchange, at + 2, names);
        },
        RecordView::SOA { mname, rname, .. } => {
            let m = name_octets(lowercase(mname), at, names);
            lemma_canonical_name(mname, at, names);
            lemma_canonical_name(rname, at + m.bytes.len(), m.names);
        },
        RecordView::SRV { target, .. } => lemma_canonical_plain_name(target),
        RecordView::RRSIG { signer_name, .. } => lemma_canonical_plain_name(signer_name),
        RecordView::NSEC { next_name, .. } => lemma_canonical_plain_name(next_name),
        _ => {},
    }
    assert(canonical_rdata_octets(r) =~= rdata_octets(rdata_lowered(r), at, names).bytes);
}

proof fn lemma_canonical_name(name: Seq<char>, at: nat, names: Map<Seq<char>, u16>)
    requires
        plain_name(name),
        unseen(lowercase(name), names),
    ensures
        canonical_name_octets(name) == name_octets(lowercase(name), at, names).bytes,
{
    lemma_canonical_plain_name(name);
    if lowercase(name).len() > 0 {
        lemma_unseen(lowercase(name), at, names);
    }
}

proof fn lemma_canonical_plain_name(name: Seq<char>)
    requires
        plain_name(name),
    ensures
        canonical_name_octets(name) == plain_name_octets(lowercase(name)),
        name.len() > 0 ==> lowercase(name).len() > 0,
{
    if name.len() == 0 {
        assert(is_ascii_text(name));
        assert(lowercase(name) =~= name);
    } else {
        lemma_labels_nonempty(lowercase(name));
        lemma_canonical_labels(name, lowercase(name));
    }
}

/// A name that can be written whole is not empty.
proof fn lemma_labels_nonempty(name: Seq<char>)
    requires
        labels_ok(name),
    ensures
        name.len() > 0,
{
    lemma_cut(name, '.');
    if name.len() == 0 {
        assert(before(name, '.') =~= name);
        assert(encode_utf8(name) =~= Seq::empty());
    }
}

proof fn lemma_canonical_labels(name: Seq<char>, low: Seq<char>)
    requires
        pieces(low, '.') == pieces(name, '.').map_values(|l: Seq<char>| lowercase(l)),
        labels_ok(low),
    ensures
        canonical_labels(name) == plain_labels_octets(low),
    decreases name.len(),
{
    let ps = pieces(name, '.');
    let qs = pieces(low, '.');
    lemma_cut(name, '.');
    lemma_cut(low, '.');
    assert(qs[0] == lowercase(ps[0]));
    if occurs(name, '.') {
        lemma_pieces_joined(after(name, '.'), '.');
    }
    if occurs(low, '.') {
        lemma_pieces_joined(after(low, '.'), '.');
    }
    assert(ps.len() == qs.len());
    assert(occurs(name, '.') == occurs(low, '.'));
    assert(before(low, '.') == lowercase(before(name, '.')));
    let label = encode_utf8(before(low, '.'));
    let first = seq![(label.len() % 256) as u8] + label;
    assert(first == label_octets(before(low, '.')));
    if occurs(name, '.') {
        assert(ps.skip(1) =~= pieces(after(name, '.'), '.'));
        assert(qs.skip(1) =~= pieces(after(low, '.'), '.'));
        assert(qs.skip(1) =~= ps.skip(1).map_values(|l: Seq<char>| lowercase(l)));
        lemma_canonical_labels(after(name, '.'), after(low, '.'));
        assert(canonical_labels(name) == first + canonical_labels(after(name, '.')));
        assert(plain_labels_octets(low) == first + plain_labels_octets(after(low, '.')));
    } else {
        assert(canonical_labels(name) == first.push(0));
        assert(plain_labels_octets(low) == first.push(0));
    }
}

/// ASCII names in lower case have their dots in the same places.
proof fn lemma_lowered_cut(name: Seq<char>)
    requires
        is_ascii_text(name),
    ensures
        is_ascii_text(before(name, '.')),
        occurs(lowercase(name), '.') == occurs(name, '.'),
        before(lowercase(name), '.') == lowercase(before(name, '.')),
        occurs(name, '.') ==> is_ascii_text(after(name, '.')),
        occurs(name, '.') ==> after(lowercase(name), '.') == lowercase(after(name, '.')),
{
    let low = lowercase(name);
    let i = first_of(name, '.');
    lemma_first_of(name, '.');
    lemma_first_of_is(low, '.', i);
    assert forall|j: int| 0 <= j < before(name, '.').len() implies (#[trigger] before(
        name,
        '.',
    )[j] as u32) < 128 by {
        assert(before(name, '.')[j] == name[j]);
    }
    assert(before(low, '.') =~= lowercase(before(name, '.')));
    if occurs(name, '.') {
        let rest = after(name, '.');
        assert forall|j: int| 0 <= j < rest.len() implies (#[trigger] rest[j] as u32) < 128 by {
            assert(rest[j] == name[j + i + 1]);
        }
        assert(after(low, '.') =~= lowercase(rest));
    }
}

/// A name that cannot be pointed at is written label by label.
proof fn lemma_unseen(name: Seq<char>, at: nat, names: Map<Seq<char>, u16>)
    requires
        name.len() > 0,
        labels_ok(name),
        unseen(name, names),
    ensures
        labels_octets(name, at, names).bytes == plain_labels_octets(name),
    decreases name.len(),
{
    lemma_cut(name, '.');
    if occurs(name, '.') {
        let rest = after(name, '.');
        let label = label_octets(before(name, '.'));
        let seen = if at <= MAX_POINTER_TARGET {
            names.insert(name, at as u16)
        } else {
            names
        };
        lemma_longer_seen(rest, names, name, at as u16);
        lemma_labels_nonempty(rest);
        lemma_unseen(rest, at + label.len(), seen);
    }
}

proof fn lemma_longer_seen(
    name: Seq<char>,
    names: Map<Seq<char>, u16>,
    longer: Seq<char>,
    at: u16,
)
    requires
        longer.len() > name.len(),
        unseen(name, names),
    ensures
        unseen(name, names.insert(longer, at)),
    decreases name.len(),
{
    lemma_cut(name, '.');
    if name.len() > 0 && occurs(name, '.') {
        lemma_longer_seen(after(name, '.'), names, longer, at);
    }
}

/// Whether a label counts in the `labels` field of a signature: the root and the
/// asterisk of a wildcard do not.
pub open spec fn counts_as_label(l: Seq<char>) -> bool {
    l.len() > 0 && l != "*"@
}

/// How many of the labels count.
pub open spec fn counted_labels(ls: Seq<Seq<char>>) -> nat
    decreases ls.len(),
{
    if ls.len() == 0 {
        0
    } else {
        counted_labels(ls.drop_last()) + (if counts_as_label(ls.last()) {
            1nat
        } else {
            0nat
        })
    }
}

/// The `labels` field of a signature over records of a name.
pub open spec fn labels_field(owner: Seq<char>) -> u8 {
    (counted_labels(pieces(owner, '.')) % 256) as u8
}

fn count_labels(owner: &str) -> (r: u8)
    ensures
        r == labels_field(owner@),
{
    let parts = split(owner, '.');
    let ghost ls = pieces(owner@, '.');
    let mut n: usize = 0;
    let mut i: usize = 0;
    proof {
        assert(ls.take(0) =~= Seq::empty());
        assert(texts(parts@).len() == parts@.len());
    }
    while i < parts.len()
        invariant
            i <= parts@.len(),
            n <= i,
            ls == texts(parts@),
            n == counted_labels(ls.take(i as int)),
        decreases parts@.len() - i,
    {
        proof {
            assert(ls.take(i + 1).drop_last() =~= ls.take(i as int));
            assert(ls.take(i + 1).last() == parts@[i as int]@);
        }
        if !parts[i].is_empty() && !text_eq(parts[i], "*") {
            n = n + 1;
        }
        i = i + 1;
    }
    assert(ls.take(i as int) =~= ls);
    (n % 256) as u8
}

/// What a signature is made of besides the signature itself.
pub struct SignatureFields {
    pub type_covered: u16,
    pub algorithm: u8,
    pub labels: u8,
    pub original_ttl: u32,
    pub expiration: u32,
    pub inception: u32,
    pub key_tag: u16,
}

/// The data of an RRSIG record up to the signature, in canonical form.
pub open spec fn signature_prefix(f: SignatureFields, signer: Seq<char>) -> Seq<u8> {
    be_bytes(f.type_covered as nat, 2) + seq![f.algorithm, f.labels] + be_bytes(
        f.original_ttl as nat,
        4,
    ) + be_bytes(f.expiration as nat, 4) + be_bytes(f.inception as nat, 4) + be_bytes(
        f.key_tag as nat,
        2,
    ) + canonical_name_octets(signer)
}

/// A record in canonical form, with the given TTL.
pub open spec fn canonical_record(r: RecordView, ttl: u32) -> Seq<u8> {
    canonical_name_octets(r.domain()) + be_bytes(r.rtype() as nat, 2) + be_bytes(1, 2) + be_bytes(
        ttl as nat,
        4,
    ) + be_bytes(canonical_rdata_octets(r).len() % 0x1_0000, 2) + canonical_rdata_octets(r)
}

/// Records in canonical form, one after the other.
pub open spec fn canonical_rrset(rs: Seq<RecordView>, ttl: u32) -> Seq<u8>
    decreases rs.len(),
{
    if rs.len() == 0 {
        Seq::empty()
    } else {
        canonical_rrset(rs.drop_last(), ttl) + canonical_record(rs.last(), ttl)
    }
}

/// The fields of the signature of a key over records.
pub open spec fn signature_fields(
    key: &SigningKey,
    rs: Seq<RecordView>,
    ttl: u32,
    inception: u32,
    expiration: u32,
) -> SignatureFields {
    SignatureFields {
        type_covered: rs[0].rtype(),
        algorithm: key.algorithm,
        labels: labels_field(rs[0].domain()),
        original_ttl: ttl,
        expiration,
        inception,
        key_tag: key_tag_spec(key.rdata_spec()),
    }
}

/// The RRSIG record of a key over records: the signature covers its own data up
/// to the signature, followed by the records in canonical form (RFC 4034 section
/// 3.1.8.1).
pub open spec fn rrsig_of(
    key: &SigningKey,
    rs: Seq<RecordView>,
    signer: Seq<char>,
    ttl: u32,
    inception: u32,
    expiration: u32,
) -> RecordView {
    let f = signature_fields(key, rs, ttl, inception, expiration);
    RecordView::RRSIG {
        domain: rs[0].domain(),
        type_covered: f.type_covered,
        algorithm: f.algorithm,
        labels: f.labels,
        original_ttl: ttl,
        signature_expiration: expiration,
        signature_inception: inception,
        key_tag: f.key_tag,
        signer_name: signer,
        signature: ed25519_signature(
            key.private_key@,
            signature_prefix(f, signer) + canonical_rrset(rs, ttl),
        ),
        ttl,
    }
}

/// A set of DNSSEC signing keys for a zone (typically one combined KSK+ZSK).
pub struct DnssecKeys {
    pub keys: Vec<Arc<SigningKey>>,
}

impl Default for DnssecKeys {
    /// No keys.
    fn default() -> (r: Self)
        ensures
            r.keys@.len() == 0,
    {
        DnssecKeys { keys: Vec::new() }
    }
}

/// The DNSKEY records of keys.
pub open spec fn dnskeys_of(keys: Seq<Arc<SigningKey>>, ttl: u32) -> Seq<RecordView> {
    keys.map_values(|k: Arc<SigningKey>| k.dnskey_spec(ttl))
}

impl DnssecKeys {
    /// Whether there is a key that can sign.
    pub open spec fn can_sign(&self) -> bool {
        self.keys@.len() > 0 && self.keys@[0].private_key@.len() == PRIVATE_KEY_LEN
    }

    /// Whether DNSSEC signing is enabled (at least one key is present).
    pub fn is_enabled(&self) -> (r: bool)
        ensures
            r == (self.keys@.len() > 0),
    {
        self.keys.len() > 0
    }

    /// Generates a single combined KSK+ZSK for `zone_name`.
    pub fn single(zone_name: &str) -> (r: Result<Self, DnssecError>)
        ensures
            match r {
                Ok(d) => d.keys@.len() == 1 && d.keys@[0].is_key_of(
                    zone_name@,
                    d.keys@[0].private_key@,
                ) && d.can_sign(),
                Err(e) => e == DnssecError::KeyGeneration,
            },
    {
        match SigningKey::generate(zone_name) {
            Ok(key) => Ok(Self::of_key(key)),
            Err(e) => Err(e),
        }
    }

    /// The set of one key.
    pub fn of_key(key: SigningKey) -> (r: Self)
        ensures
            r.keys@ == seq![Arc::new(key)],
    {
        let mut keys: Vec<Arc<SigningKey>> = Vec::new();
        keys.push(Arc::new(key));
        assert(keys@ =~= seq![Arc::new(key)]);
        DnssecKeys { keys }
    }

    /// Returns the DNSKEY records for all keys, with the given TTL.
    pub fn dnskey_records(&self, ttl: u32) -> (r: Vec<DnsRecord>)
        ensures
            record_views(r@) == dnskeys_of(self.keys@, ttl),
    {
        let mut out: Vec<DnsRecord> = Vec::new();
        let mut i: usize = 0;
        while i < self.keys.len()
            invariant
                i <= self.keys@.len(),
                out@.len() == i,
                forall|j: int| 0 <= j < i ==> (#[trigger] out@[j])@ == self.keys@[j].dnskey_spec(
                    ttl,
                ),
            decreases self.keys@.len() - i,
        {
            out.push(self.keys[i].dnskey_record(ttl));
            i = i + 1;
        }
        assert(record_views(out@) =~= dnskeys_of(self.keys@, ttl));
        out
    }

    /// Signs an RRset (a set of records with the same owner name and type)
    /// and returns the RRSIG record. Uses ED25519 (algorithm 15).
    ///
    /// The signature covers the canonical RRSIG RDATA (minus the signature
    /// field) followed by the canonical RRset data, per RFC 4034 section 3.1.8.
    pub fn sign_rrset(
        &self,
        records: &[DnsRecord],
        signer_name: &str,
        ttl: u32,
        inception: u32,
        expiration: u32,
    ) -> (r: Result<DnsRecord, DnssecError>)
        requires
            records@.len() > 0 || !self.can_sign(),
        ensures
            match r {
                Ok(x) => self.can_sign() && x@ == rrsig_of(
                    &self.keys@[0],
                    record_views(records@),
                    signer_name@,
                    ttl,
                    inception,
                    expiration,
                ),
                Err(DnssecError::NoKeys) => self.keys@.len() == 0,
                Err(DnssecError::KeyRejected) => self.keys@.len() > 0 && !self.can_sign(),
                Err(DnssecError::KeyGeneration) => false,
            },
    {
        if self.keys.len() == 0 {
            return Err(DnssecError::NoKeys);
        }
        if records.len() == 0 {
            return Err(DnssecError::KeyRejected);
        }
        let key = &self.keys[0];
        let ghost rs = record_views(records@);
        // Determine the type covered and owner name from the first record.
        let type_covered: u16 = records[0].record_type();
        let owner = records[0].domain().to_owned();
        // Count labels in the owner name (for the RRSIG "labels" field).
        // Wildcard names have one fewer label (the `*` doesn't count).
        let labels: u8 = count_labels(owner.as_str());
        let key_tag: u16 = key.key_tag();
        let ghost f = signature_fields(&self.keys@[0], rs, ttl, inception, expiration);
        // Build the data to sign: RRSIG RDATA (minus signature) + canonical RRset.
        let mut to_sign: Vec<u8> = Vec::new();
        push_u16(&mut to_sign, type_covered);
        to_sign.push(key.algorithm);
        to_sign.push(labels);
        push_u32(&mut to_sign, ttl);
        push_u32(&mut to_sign, expiration);
        push_u32(&mut to_sign, inception);
        push_u16(&mut to_sign, key_tag);
        // Signer name in canonical form: lowercase, uncompressed.
        canonical_name(signer_name, &mut to_sign);
        proof {
            assert(rs[0] == records@[0]@);
            assert(to_sign@ =~= signature_prefix(f, signer_name@));
            assert(rs.take(0) =~= Seq::empty());
            assert(signature_prefix(f, signer_name@) + canonical_rrset(rs.take(0), ttl)
                =~= to_sign@);
        }
        let mut i: usize = 0;
        while i < records.len()
            invariant
                i <= records@.len(),
                rs == record_views(records@),
                to_sign@ == signature_prefix(f, signer_name@) + canonical_rrset(
                    rs.take(i as int),
                    ttl,
                ),
            decreases records@.len() - i,
        {
            let r = &records[i];
            let ghost here = to_sign@;
            canonical_name(r.domain(), &mut to_sign);
            push_u16(&mut to_sign, r.record_type());
            push_u16(&mut to_sign, 1);  // class IN
            push_u32(&mut to_sign, ttl);
            let rdata = canonical_rdata(r);
            push_u16(&mut to_sign, low16(rdata.len()));
            push_slice(&mut to_sign, rdata.as_slice(), 0, rdata.len());
            proof {
                assert(rdata@.subrange(0, rdata@.len() as int) =~= rdata@);
                assert(rs.take(i + 1).drop_last() =~= rs.take(i as int));
                assert(rs.take(i + 1).last() == r@);
                assert(to_sign@ =~= here + canonical_record(r@, ttl));
                assert(to_sign@ =~= signature_prefix(f, signer_name@) + canonical_rrset(
                    rs.take(i + 1),
                    ttl,
                ));
            }
            i = i + 1;
        }
        assert(rs.take(i as int) =~= rs);
        // Sign with ED25519.
        match sign_with(key.private_key.as_slice(), to_sign.as_slice()) {
            Some(signature) => Ok(
                DnsRecord::RRSIG {
                    domain: owner,
                    type_covered,
                    algorithm: key.algorithm,
                    labels,
                    original_ttl: ttl,
                    signature_expiration: expiration,
                    signature_inception: inception,
                    key_tag,
                    signer_name: signer_name.to_owned(),
                    signature,
                    ttl,
                },
            ),
            None => Err(DnssecError::KeyRejected),
        }
    }
}

/// Records in canonical form stand one after the other, each once and in order: the form
/// of two runs of records is that of the first followed by that of the second, and the
/// form of one record is its own.
pub proof fn law_canonical_rrset(
    a: Seq<RecordView>,
    b: Seq<RecordView>,
    r: RecordView,
    ttl: u32,
)
    ensures
        canonical_rrset(a + b, ttl) == canonical_rrset(a, ttl) + canonical_rrset(b, ttl),
        canonical_rrset(seq![r], ttl) == canonical_record(r, ttl),
        canonical_rrset(a + b, ttl).len() == canonical_rrset(a, ttl).len() + canonical_rrset(
            b,
            ttl,
        ).len(),
    decreases b.len(),
{
    let none = Seq::<RecordView>::empty();
    assert(seq![r].drop_last() =~= none);
    assert(canonical_rrset(none, ttl) =~= Seq::empty());
    assert(canonical_rrset(seq![r], ttl) =~= canonical_record(r, ttl));
    if b.len() == 0 {
        assert(a + b =~= a);
        assert(canonical_rrset(a, ttl) + canonical_rrset(b, ttl) =~= canonical_rrset(a, ttl));
    } else {
        law_canonical_rrset(a, b.drop_last(), r, ttl);
        assert((a + b).drop_last() =~= a + b.drop_last());
        assert(canonical_rrset(a + b, ttl) =~= canonical_rrset(a, ttl) + canonical_rrset(b, ttl));
    }
}

/// A record in canonical form: the owner, type, class IN and the given TTL, the length of
/// the data, and at the end the data. Records of one owner and type whose data differ, and
/// fit in 16 bits, differ in it.
pub proof fn law_canonical_record(r: RecordView, s: RecordView, ttl: u32)
    requires
        r.domain() == s.domain(),
        r.rtype() == s.rtype(),
        canonical_rdata_octets(r).len() <= 0xFFFF,
        canonical_rdata_octets(s).len() <= 0xFFFF,
    ensures
        ({
            let c = canonical_record(r, ttl);
            let n = canonical_name_octets(r.domain()).len() as int;
            &&& c.len() == n + 10 + canonical_rdata_octets(r).len()
            &&& c.take(n) == canonical_name_octets(r.domain())
            &&& be_at(c, n, 2) == r.rtype()
            &&& be_at(c, n + 2, 2) == 1
            &&& be_at(c, n + 4, 4) == ttl
            &&& be_at(c, n + 8, 2) == canonical_rdata_octets(r).len()
            &&& c.skip(n + 10) == canonical_rdata_octets(r)
        }),
        canonical_record(r, ttl) == canonical_record(s, ttl) ==> canonical_rdata_octets(r)
            == canonical_rdata_octets(s),
{
    lemma_canonical_record(r, ttl);
    lemma_canonical_record(s, ttl);
}

proof fn lemma_canonical_record(r: RecordView, ttl: u32)
    requires
        canonical_rdata_octets(r).len() <= 0xFFFF,
    ensures
        ({
            let c = canonical_record(r, ttl);
            let n = canonical_name_octets(r.domain()).len() as int;
            &&& c.len() == n + 10 + canonical_rdata_octets(r).len()
            &&& c.take(n) == canonical_name_octets(r.domain())
            &&& be_at(c, n, 2) == r.rtype()
            &&& be_at(c, n + 2, 2) == 1
            &&& be_at(c, n + 4, 4) == ttl
            &&& be_at(c, n + 8, 2) == canonical_rdata_octets(r).len()
            &&& c.skip(n + 10) == canonical_rdata_octets(r)
        }),
{
    let c = canonical_record(r, ttl);
    let name = canonical_name_octets(r.domain());
    let data = canonical_rdata_octets(r);
    let n = name.len() as int;
    lemma_pow256_small();
    lemma_be_bytes_len(r.rtype() as nat, 2);
    lemma_be_bytes_len(1, 2);
    lemma_be_bytes_len(ttl as nat, 4);
    lemma_be_bytes_len(data.len(), 2);
    lemma_be_round_trip(r.rtype() as nat, 2);
    lemma_be_round_trip(1, 2);
    lemma_be_round_trip(ttl as nat, 4);
    lemma_be_round_trip(data.len(), 2);
    assert(data.len() % 0x1_0000 == data.len());
    assert(c.take(n) =~= name);
    assert(c.subrange(n, n + 2) =~= be_bytes(r.rtype() as nat, 2));
    assert(c.subrange(n + 2, n + 4) =~= be_bytes(1, 2));
    assert(c.subrange(n + 4, n + 8) =~= be_bytes(ttl as nat, 4));
    assert(c.subrange(n + 8, n + 10) =~= be_bytes(data.len(), 2));
    assert(c.skip(n + 10) =~= data);
}

/// A signature covers its own record's data up to the signature, followed by every one of
/// the records in canonical form: whichever record is picked, it stands in what is signed
/// between those before and those after it. The record of the signature tells what was
/// signed, by which key, for how long and under whose name.
pub proof fn law_signature_covers(
    key: &SigningKey,
    before: Seq<RecordView>,
    r: RecordView,
    after: Seq<RecordView>,
    signer: Seq<char>,
    ttl: u32,
    inception: u32,
    expiration: u32,
)
    ensures
        ({
            let rs = before + seq![r] + after;
            let sig = rrsig_of(key, rs, signer, ttl, inception, expiration);
            let data = canonical_rdata_octets(sig);
            &&& sig matches RecordView::RRSIG { signature, .. }
            &&& signature.len() <= data.len()
            &&& data.skip(data.len() - signature.len()) == signature
            &&& signature == ed25519_signature(
                key.private_key@,
                data.take(data.len() - signature.len()) + canonical_rrset(before, ttl)
                    + canonical_record(r, ttl) + canonical_rrset(after, ttl),
            )
        }),
        ({
            let rs = before + seq![r] + after;
            &&& rrsig_of(key, rs, signer, ttl, inception, expiration) matches RecordView::RRSIG {
                domain,
                type_covered,
                algorithm,
                original_ttl,
                signature_expiration,
                signature_inception,
                key_tag,
                signer_name,
                ttl: own_ttl,
                ..
            }
            &&& domain == rs[0].domain()
            &&& type_covered == rs[0].rtype()
            &&& algorithm == key.algorithm
            &&& original_ttl == ttl
            &&& own_ttl == ttl
            &&& signature_expiration == expiration
            &&& signature_inception == inception
            &&& key_tag == key_tag_spec(key.rdata_spec())
            &&& signer_name == signer
        }),
{
    let rs = before + seq![r] + after;
    let f = signature_fields(key, rs, ttl, inception, expiration);
    let prefix = signature_prefix(f, signer);
    let sig = rrsig_of(key, rs, signer, ttl, inception, expiration);
    let data = canonical_rdata_octets(sig);
    law_canonical_rrset(before + seq![r], after, r, ttl);
    law_canonical_rrset(before, seq![r], r, ttl);
    if let RecordView::RRSIG { signature, .. } = sig {
        assert(data =~= prefix + signature);
        assert(data.take(data.len() - signature.len()) =~= prefix);
        assert(data.skip(data.len() - signature.len()) =~= signature);
        assert(prefix + canonical_rrset(rs, ttl) =~= prefix + canonical_rrset(before, ttl)
            + canonical_record(r, ttl) + canonical_rrset(after, ttl));
    }
}

/// The sum behind a key tag: octets at even places count 256 times those at odd ones.
pub proof fn law_key_sum(a: Seq<u8>, b: Seq<u8>, x: u8, y: u8)
    requires
        a.len() % 2 == 0,
    ensures
        key_sum(a + b) == key_sum(a) + key_sum(b),
        key_sum(seq![x]) == 256 * x,
        key_sum(seq![x, y]) == 256 * x + y,
    decreases b.len(),
{
    assert(seq![x].drop_last() =~= Seq::empty());
    assert(seq![x, y].drop_last() =~= seq![x]);
    assert(key_sum(Seq::<u8>::empty()) == 0);
    if b.len() == 0 {
        assert(a + b =~= a);
    } else {
        law_key_sum(a, b.drop_last(), x, y);
        assert((a + b).drop_last() =~= a + b.drop_last());
    }
}

/// The labels of a name that count are those that are neither empty nor an asterisk.
pub proof fn law_counted_labels(ls: Seq<Seq<char>>)
    ensures
        counted_labels(ls) == ls.filter(|l: Seq<char>| l.len() > 0 && l != seq!['*']).len(),
    decreases ls.len(),
{
    reveal(Seq::filter);
    reveal_strlit("*");
    assert("*"@ =~= seq!['*']);
    if ls.len() > 0 {
        law_counted_labels(ls.drop_last());
    }
}

/// Every key is published, in order, with its flags and public key.
pub proof fn law_dnskeys(keys: Seq<Arc<SigningKey>>, ttl: u32, i: int)
    requires
        0 <= i < keys.len(),
    ensures
        dnskeys_of(keys, ttl).len() == keys.len(),
        dnskeys_of(keys, ttl)[i] == (RecordView::DNSKEY {
            domain: keys[i].zone_name@,
            flags: keys[i].flags,
            protocol: 3,
            algorithm: keys[i].algorithm,
            public_key: keys[i].public_key@,
            ttl,
        }),
        canonical_rdata_octets(dnskeys_of(keys, ttl)[i]) == keys[i].rdata_spec(),
{
    assert(canonical_rdata_octets(dnskeys_of(keys, ttl)[i]) =~= keys[i].rdata_spec());
}

} // verus!
