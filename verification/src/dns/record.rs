//! Resource records.

use crate::net::{Ipv4Addr, Ipv6Addr};
use vstd::prelude::*;

verus! {

/// `DnsRecord` represents a DNS resource record.
///
/// This enum defines the types of DNS records supported by the server.
#[allow(inconsistent_fields)]
#[derive(Debug)]
pub enum DnsRecord {
    /// An A record, which maps a domain name to an IPv4 address.
    A {
        domain: String,
        addr: Ipv4Addr,
        ttl: u32,
    },
    /// An AAAA record, which maps a domain name to an IPv6 address.
    AAAA {
        domain: String,
        addr: Ipv6Addr,
        ttl: u32,
    },
    /// A CNAME record, which maps a domain name to an alias.
    CNAME {
        domain: String,
        alias: String,
        ttl: u32,
    },
    /// An MX record, which names a mail exchange for the domain along with a
    /// preference (lower is preferred).
    MX {
        domain: String,
        preference: u16,
        exchange: String,
        ttl: u32,
    },
    /// A TXT record, which holds arbitrary descriptive text.
    TXT {
        domain: String,
        text: String,
        ttl: u32,
    },
    /// An NS record, which delegates a zone to an authoritative name server.
    NS {
        domain: String,
        nameserver: String,
        ttl: u32,
    },
    /// An SOA record, which holds administrative information about a zone: the
    /// primary name server, the mailbox of the administrator and the timers.
    SOA {
        domain: String,
        mname: String,
        rname: String,
        serial: u32,
        refresh: u32,
        retry: u32,
        expire: u32,
        minimum: u32,
        ttl: u32,
    },
    /// An SRV record, which names the host and port of a service.
    SRV {
        domain: String,
        priority: u16,
        weight: u16,
        port: u16,
        target: String,
        ttl: u32,
    },
    /// A PTR record, which maps an address name back to a host name.
    PTR {
        domain: String,
        ptrdname: String,
        ttl: u32,
    },
    /// A CAA record, which says who may issue certificates for the domain.
    CAA {
        domain: String,
        flags: u8,
        tag: String,
        value: String,
        ttl: u32,
    },
    /// The EDNS(0) pseudo-record, which carries the sender's UDP payload size.
    OPT {
        udp_size: u16,
    },
    /// A DNSKEY record, which publishes a zone's public key.
    DNSKEY {
        domain: String,
        flags: u16,
        protocol: u8,
        algorithm: u8,
        public_key: Vec<u8>,
        ttl: u32,
    },
    /// An RRSIG record, which signs the records of one name and type.
    RRSIG {
        domain: String,
        type_covered: u16,
        algorithm: u8,
        labels: u8,
        original_ttl: u32,
        signature_expiration: u32,
        signature_inception: u32,
        key_tag: u16,
        signer_name: String,
        signature: Vec<u8>,
        ttl: u32,
    },
    /// A DS record, which holds the digest of a child zone's key.
    DS {
        domain: String,
        key_tag: u16,
        algorithm: u8,
        digest_type: u8,
        digest: Vec<u8>,
        ttl: u32,
    },
    /// An NSEC record, which names the next owner and the types present.
    NSEC {
        domain: String,
        next_name: String,
        type_bitmap: Vec<u8>,
        ttl: u32,
    },
}

/// What a resource record says.
#[allow(inconsistent_fields)]
#[verifier::ext_equal]
pub enum RecordView {
    A { domain: Seq<char>, addr: Ipv4Addr, ttl: u32 },
    AAAA { domain: Seq<char>, addr: Ipv6Addr, ttl: u32 },
    CNAME { domain: Seq<char>, alias: Seq<char>, ttl: u32 },
    MX { domain: Seq<char>, preference: u16, exchange: Seq<char>, ttl: u32 },
    TXT { domain: Seq<char>, text: Seq<char>, ttl: u32 },
    NS { domain: Seq<char>, nameserver: Seq<char>, ttl: u32 },
    SOA {
        domain: Seq<char>,
        mname: Seq<char>,
        rname: Seq<char>,
        serial: u32,
        refresh: u32,
        retry: u32,
        expire: u32,
        minimum: u32,
        ttl: u32,
    },
    SRV { domain: Seq<char>, priority: u16, weight: u16, port: u16, target: Seq<char>, ttl: u32 },
    PTR { domain: Seq<char>, ptrdname: Seq<char>, ttl: u32 },
    CAA { domain: Seq<char>, flags: u8, tag: Seq<char>, value: Seq<char>, ttl: u32 },
    OPT { udp_size: u16 },
    DNSKEY {
        domain: Seq<char>,
        flags: u16,
        protocol: u8,
        algorithm: u8,
        public_key: Seq<u8>,
        ttl: u32,
    },
    RRSIG {
        domain: Seq<char>,
        type_covered: u16,
        algorithm: u8,
        labels: u8,
        original_ttl: u32,
        signature_expiration: u32,
        signature_inception: u32,
        key_tag: u16,
        signer_name: Seq<char>,
        signature: Seq<u8>,
        ttl: u32,
    },
    DS {
        domain: Seq<char>,
        key_tag: u16,
        algorithm: u8,
        digest_type: u8,
        digest: Seq<u8>,
        ttl: u32,
    },
    NSEC { domain: Seq<char>, next_name: Seq<char>, type_bitmap: Seq<u8>, ttl: u32 },
}

impl View for DnsRecord {
    type V = RecordView;

    open spec fn view(&self) -> RecordView {
        match self {
            DnsRecord::A { domain, addr, ttl } => RecordView::A {
                domain: domain@,
                addr: *addr,
                ttl: *ttl,
            },
            DnsRecord::AAAA { domain, addr, ttl } => RecordView::AAAA {
                domain: domain@,
                addr: *addr,
                ttl: *ttl,
            },
            DnsRecord::CNAME { domain, alias, ttl } => RecordView::CNAME {
                domain: domain@,
                alias: alias@,
                ttl: *ttl,
            },
            DnsRecord::MX { domain, preference, exchange, ttl } => RecordView::MX {
                domain: domain@,
                preference: *preference,
                exchange: exchange@,
                ttl: *ttl,
            },
            DnsRecord::TXT { domain, text, ttl } => RecordView::TXT {
                domain: domain@,
                text: text@,
                ttl: *ttl,
            },
            DnsRecord::NS { domain, nameserver, ttl } => RecordView::NS {
                domain: domain@,
                nameserver: nameserver@,
                ttl: *ttl,
            },
            DnsRecord::SOA {
                domain,
                mname,
                rname,
                serial,
                refresh,
                retry,
                expire,
                minimum,
                ttl,
            } => RecordView::SOA {
                domain: domain@,
                mname: mname@,
                rname: rname@,
                serial: *serial,
                refresh: *refresh,
                retry: *retry,
                expire: *expire,
                minimum: *minimum,
                ttl: *ttl,
            },
            DnsRecord::SRV { domain, priority, weight, port, target, ttl } => RecordView::SRV {
                domain: domain@,
                priority: *priority,
                weight: *weight,
                port: *port,
                target: target@,
                ttl: *ttl,
            },
            DnsRecord::PTR { domain, ptrdname, ttl } => RecordView::PTR {
                domain: domain@,
                ptrdname: ptrdname@,
                ttl: *ttl,
            },
            DnsRecord::CAA { domain, flags, tag, value, ttl } => RecordView::CAA {
                domain: domain@,
                flags: *flags,
                tag: tag@,
                value: value@,
                ttl: *ttl,
            },
            DnsRecord::OPT { udp_size } => RecordView::OPT { udp_size: *udp_size },
            DnsRecord::DNSKEY {
                domain,
                flags,
                protocol,
                algorithm,
                public_key,
                ttl,
            } => RecordView::DNSKEY {
                domain: domain@,
                flags: *flags,
                protocol: *protocol,
                algorithm: *algorithm,
                public_key: public_key@,
                ttl: *ttl,
            },
            DnsRecord::RRSIG {
                domain,
                type_covered,
                algorithm,
                labels,
                original_ttl,
                signature_expiration,
                signature_inception,
                key_tag,
                signer_name,
                signature,
                ttl,
            } => RecordView::RRSIG {
                domain: domain@,
                type_covered: *type_covered,
                algorithm: *algorithm,
                labels: *labels,
                original_ttl: *original_ttl,
                signature_expiration: *signature_expiration,
                signature_inception: *signature_inception,
                key_tag: *key_tag,
                signer_name: signer_name@,
                signature: signature@,
                ttl: *ttl,
            },
            DnsRecord::DS {
                domain,
                key_tag,
                algorithm,
                digest_type,
                digest,
                ttl,
            } => RecordView::DS {
                domain: domain@,
                key_tag: *key_tag,
                algorithm: *algorithm,
                digest_type: *digest_type,
                digest: digest@,
                ttl: *ttl,
            },
            DnsRecord::NSEC { domain, next_name, type_bitmap, ttl } => RecordView::NSEC {
                domain: domain@,
                next_name: next_name@,
                type_bitmap: type_bitmap@,
                ttl: *ttl,
            },
        }
    }
}

impl Clone for DnsRecord {
    fn clone(&self) -> (r: Self)
        ensures
            r@ == self@,
    {
        match self {
            DnsRecord::A { domain, addr, ttl } => DnsRecord::A {
                domain: domain.clone(),
                addr: *addr,
                ttl: *ttl,
            },
            DnsRecord::AAAA { domain, addr, ttl } => DnsRecord::AAAA {
                domain: domain.clone(),
                addr: *addr,
                ttl: *ttl,
            },
            DnsRecord::CNAME { domain, alias, ttl } => DnsRecord::CNAME {
                domain: domain.clone(),
                alias: alias.clone(),
                ttl: *ttl,
            },
            DnsRecord::MX { domain, preference, exchange, ttl } => DnsRecord::MX {
                domain: domain.clone(),
                preference: *preference,
                exchange: exchange.clone(),
                ttl: *ttl,
            },
            DnsRecord::TXT { domain, text, ttl } => DnsRecord::TXT {
                domain: domain.clone(),
                text: text.clone(),
                ttl: *ttl,
            },
            DnsRecord::NS { domain, nameserver, ttl } => DnsRecord::NS {
                domain: domain.clone(),
                nameserver: nameserver.clone(),
                ttl: *ttl,
            },
            DnsRecord::SOA {
                domain,
                mname,
                rname,
                serial,
                refresh,
                retry,
                expire,
                minimum,
                ttl,
            } => DnsRecord::SOA {
                domain: domain.clone(),
                mname: mname.clone(),
                rname: rname.clone(),
                serial: *serial,
                refresh: *refresh,
                retry: *retry,
                expire: *expire,
                minimum: *minimum,
                ttl: *ttl,
            },
            DnsRecord::SRV { domain, priority, weight, port, target, ttl } => DnsRecord::SRV {
                domain: domain.clone(),
                priority: *priority,
                weight: *weight,
                port: *port,
                target: target.clone(),
                ttl: *ttl,
            },
            DnsRecord::PTR { domain, ptrdname, ttl } => DnsRecord::PTR {
                domain: domain.clone(),
                ptrdname: ptrdname.clone(),
                ttl: *ttl,
            },
            DnsRecord::CAA { domain, flags, tag, value, ttl } => DnsRecord::CAA {
                domain: domain.clone(),
                flags: *flags,
                tag: tag.clone(),
                value: value.clone(),
                ttl: *ttl,
            },
            DnsRecord::OPT { udp_size } => DnsRecord::OPT { udp_size: *udp_size },
            DnsRecord::DNSKEY {
                domain,
                flags,
                protocol,
                algorithm,
                public_key,
                ttl,
            } => DnsRecord::DNSKEY {
                domain: domain.clone(),
                flags: *flags,
                protocol: *protocol,
                algorithm: *algorithm,
                public_key: copy_octets(public_key),
                ttl: *ttl,
            },
            DnsRecord::RRSIG {
                domain,
                type_covered,
                algorithm,
                labels,
                original_ttl,
                signature_expiration,
                signature_inception,
                key_tag,
                signer_name,
                signature,
                ttl,
            } => DnsRecord::RRSIG {
                domain: domain.clone(),
                type_covered: *type_covered,
                algorithm: *algorithm,
                labels: *labels,
                original_ttl: *original_ttl,
                signature_expiration: *signature_expiration,
                signature_inception: *signature_inception,
                key_tag: *key_tag,
                signer_name: signer_name.clone(),
                signature: copy_octets(signature),
                ttl: *ttl,
            },
            DnsRecord::DS {
                domain,
                key_tag,
                algorithm,
                digest_type,
                digest,
                ttl,
            } => DnsRecord::DS {
                domain: domain.clone(),
                key_tag: *key_tag,
                algorithm: *algorithm,
                digest_type: *digest_type,
                digest: copy_octets(digest),
                ttl: *ttl,
            },
            DnsRecord::NSEC { domain, next_name, type_bitmap, ttl } => DnsRecord::NSEC {
                domain: domain.clone(),
                next_name: next_name.clone(),
                type_bitmap: copy_octets(type_bitmap),
                ttl: *ttl,
            },
        }
    }
}

fn copy_octets(v: &Vec<u8>) -> (r: Vec<u8>)
    ensures
        r@ == v@,
{
    let r = v.clone();
    assert(r@ =~= v@);
    r
}

impl RecordView {
    /// The numeric type code.
    pub open spec fn rtype(self) -> u16 {
        match self {
            RecordView::A { .. } => DnsRecord::TYPE_A,
            RecordView::AAAA { .. } => DnsRecord::TYPE_AAAA,
            RecordView::CNAME { .. } => DnsRecord::TYPE_CNAME,
            RecordView::MX { .. } => DnsRecord::TYPE_MX,
            RecordView::TXT { .. } => DnsRecord::TYPE_TXT,
            RecordView::NS { .. } => DnsRecord::TYPE_NS,
            RecordView::SOA { .. } => DnsRecord::TYPE_SOA,
            RecordView::SRV { .. } => DnsRecord::TYPE_SRV,
            RecordView::PTR { .. } => DnsRecord::TYPE_PTR,
            RecordView::CAA { .. } => DnsRecord::TYPE_CAA,
            RecordView::OPT { .. } => DnsRecord::TYPE_OPT,
            RecordView::DNSKEY { .. } => DnsRecord::TYPE_DNSKEY,
            RecordView::RRSIG { .. } => DnsRecord::TYPE_RRSIG,
            RecordView::DS { .. } => DnsRecord::TYPE_DS,
            RecordView::NSEC { .. } => DnsRecord::TYPE_NSEC,
        }
    }

    /// The time-to-live in seconds; an OPT record has none.
    pub open spec fn ttl(self) -> u32 {
        match self {
            RecordView::A { ttl, .. } => ttl,
            RecordView::AAAA { ttl, .. } => ttl,
            RecordView::CNAME { ttl, .. } => ttl,
            RecordView::MX { ttl, .. } => ttl,
            RecordView::TXT { ttl, .. } => ttl,
            RecordView::NS { ttl, .. } => ttl,
            RecordView::SOA { ttl, .. } => ttl,
            RecordView::SRV { ttl, .. } => ttl,
            RecordView::PTR { ttl, .. } => ttl,
            RecordView::CAA { ttl, .. } => ttl,
            RecordView::OPT { .. } => 0,
            RecordView::DNSKEY { ttl, .. } => ttl,
            RecordView::RRSIG { ttl, .. } => ttl,
            RecordView::DS { ttl, .. } => ttl,
            RecordView::NSEC { ttl, .. } => ttl,
        }
    }

    /// The owner name; that of an OPT record is the root.
    pub open spec fn domain(self) -> Seq<char> {
        match self {
            RecordView::A { domain, .. } => domain,
            RecordView::AAAA { domain, .. } => domain,
            RecordView::CNAME { domain, .. } => domain,
            RecordView::MX { domain, .. } => domain,
            RecordView::TXT { domain, .. } => domain,
            RecordView::NS { domain, .. } => domain,
            RecordView::SOA { domain, .. } => domain,
            RecordView::SRV { domain, .. } => domain,
            RecordView::PTR { domain, .. } => domain,
            RecordView::CAA { domain, .. } => domain,
            RecordView::OPT { .. } => Seq::empty(),
            RecordView::DNSKEY { domain, .. } => domain,
            RecordView::RRSIG { domain, .. } => domain,
            RecordView::DS { domain, .. } => domain,
            RecordView::NSEC { domain, .. } => domain,
        }
    }

    /// The same record under another owner name. An OPT record has no owner to
    /// replace.
    pub open spec fn with_domain(self, name: Seq<char>) -> RecordView {
        match self {
            RecordView::A { addr, ttl, .. } => RecordView::A { domain: name, addr, ttl },
            RecordView::AAAA { addr, ttl, .. } => RecordView::AAAA { domain: name, addr, ttl },
            RecordView::CNAME { alias, ttl, .. } => RecordView::CNAME { domain: name, alias, ttl },
            RecordView::MX { preference, exchange, ttl, .. } => RecordView::MX {
                domain: name,
                preference,
                exchange,
                ttl,
            },
            RecordView::TXT { text, ttl, .. } => RecordView::TXT { domain: name, text, ttl },
            RecordView::NS { nameserver, ttl, .. } => RecordView::NS {
                domain: name,
                nameserver,
                ttl,
            },
            RecordView::SOA {
                mname,
                rname,
                serial,
                refresh,
                retry,
                expire,
                minimum,
                ttl,
                ..
            } => RecordView::SOA {
                domain: name,
                mname,
                rname,
                serial,
                refresh,
                retry,
                expire,
                minimum,
                ttl,
            },
            RecordView::SRV { priority, weight, port, target, ttl, .. } => RecordView::SRV {
                domain: name,
                priority,
                weight,
                port,
                target,
                ttl,
            },
            RecordView::PTR { ptrdname, ttl, .. } => RecordView::PTR {
                domain: name,
                ptrdname,
                ttl,
            },
            RecordView::CAA { flags, tag, value, ttl, .. } => RecordView::CAA {
                domain: name,
                flags,
                tag,
                value,
                ttl,
            },
            RecordView::OPT { .. } => self,
            RecordView::DNSKEY {
                flags,
                protocol,
                algorithm,
                public_key,
                ttl,
                ..
            } => RecordView::DNSKEY {
                domain: name,
                flags,
                protocol,
                algorithm,
                public_key,
                ttl,
            },
            RecordView::RRSIG {
                type_covered,
                algorithm,
                labels,
                original_ttl,
                signature_expiration,
                signature_inception,
                key_tag,
                signer_name,
                signature,
                ttl,
                ..
            } => RecordView::RRSIG {
                domain: name,
                type_covered,
                algorithm,
                labels,
                original_ttl,
                signature_expiration,
                signature_inception,
                key_tag,
                signer_name,
                signature,
                ttl,
            },
            RecordView::DS { key_tag, algorithm, digest_type, digest, ttl, .. } => RecordView::DS {
                domain: name,
                key_tag,
                algorithm,
                digest_type,
                digest,
                ttl,
            },
            RecordView::NSEC { next_name, type_bitmap, ttl, .. } => RecordView::NSEC {
                domain: name,
                next_name,
                type_bitmap,
                ttl,
            },
        }
    }
}

impl DnsRecord {
    /// The numeric type code for an A record.
    pub const TYPE_A: u16 = 1;

    /// The numeric type code for an NS record.
    pub const TYPE_NS: u16 = 2;

    /// The numeric type code for a CNAME record.
    pub const TYPE_CNAME: u16 = 5;

    /// The numeric type code for an SOA record.
    pub const TYPE_SOA: u16 = 6;

    /// The numeric type code for a PTR record.
    pub const TYPE_PTR: u16 = 12;

    /// The numeric type code for an MX record.
    pub const TYPE_MX: u16 = 15;

    /// The numeric type code for a TXT record.
    pub const TYPE_TXT: u16 = 16;

    /// The numeric type code for an AAAA record.
    pub const TYPE_AAAA: u16 = 28;

    /// The numeric type code for an SRV record.
    pub const TYPE_SRV: u16 = 33;

    /// The numeric type code for an OPT pseudo-record.
    pub const TYPE_OPT: u16 = 41;

    /// The numeric type code for a DS record.
    pub const TYPE_DS: u16 = 43;

    /// The numeric type code for an RRSIG record.
    pub const TYPE_RRSIG: u16 = 46;

    /// The numeric type code for an NSEC record.
    pub const TYPE_NSEC: u16 = 47;

    /// The numeric type code for a DNSKEY record.
    pub const TYPE_DNSKEY: u16 = 48;

    /// The numeric type code of a request for a zone transfer.
    pub const TYPE_AXFR: u16 = 252;

    /// The numeric type code for a CAA record.
    pub const TYPE_CAA: u16 = 257;

    /// Returns the DNS type code for this record.
    pub fn record_type(&self) -> (r: u16)
        ensures
            r == self@.rtype(),
    {
        match self {
            DnsRecord::A { .. } => Self::TYPE_A,
            DnsRecord::AAAA { .. } => Self::TYPE_AAAA,
            DnsRecord::CNAME { .. } => Self::TYPE_CNAME,
            DnsRecord::MX { .. } => Self::TYPE_MX,
            DnsRecord::TXT { .. } => Self::TYPE_TXT,
            DnsRecord::NS { .. } => Self::TYPE_NS,
            DnsRecord::SOA { .. } => Self::TYPE_SOA,
            DnsRecord::SRV { .. } => Self::TYPE_SRV,
            DnsRecord::PTR { .. } => Self::TYPE_PTR,
            DnsRecord::CAA { .. } => Self::TYPE_CAA,
            DnsRecord::OPT { .. } => Self::TYPE_OPT,
            DnsRecord::DNSKEY { .. } => Self::TYPE_DNSKEY,
            DnsRecord::RRSIG { .. } => Self::TYPE_RRSIG,
            DnsRecord::DS { .. } => Self::TYPE_DS,
            DnsRecord::NSEC { .. } => Self::TYPE_NSEC,
        }
    }

    /// Returns the TTL (time-to-live, in seconds) of this record.
    pub fn ttl(&self) -> (r: u32)
        ensures
            r == self@.ttl(),
    {
        match self {
            DnsRecord::A { ttl, .. } => *ttl,
            DnsRecord::AAAA { ttl, .. } => *ttl,
            DnsRecord::CNAME { ttl, .. } => *ttl,
            DnsRecord::MX { ttl, .. } => *ttl,
            DnsRecord::TXT { ttl, .. } => *ttl,
            DnsRecord::NS { ttl, .. } => *ttl,
            DnsRecord::SOA { ttl, .. } => *ttl,
            DnsRecord::SRV { ttl, .. } => *ttl,
            DnsRecord::PTR { ttl, .. } => *ttl,
            DnsRecord::CAA { ttl, .. } => *ttl,
            DnsRecord::OPT { .. } => 0,
            DnsRecord::DNSKEY { ttl, .. } => *ttl,
            DnsRecord::RRSIG { ttl, .. } => *ttl,
            DnsRecord::DS { ttl, .. } => *ttl,
            DnsRecord::NSEC { ttl, .. } => *ttl,
        }
    }

    /// Returns the domain name (owner) this record belongs to.
    pub fn domain(&self) -> (r: &str)
        ensures
            r@ == self@.domain(),
    {
        proof {
            reveal_strlit("");
            assert(""@ =~= Seq::empty());
        }
        match self {
            DnsRecord::A { domain, .. } => domain.as_str(),
            DnsRecord::AAAA { domain, .. } => domain.as_str(),
            DnsRecord::CNAME { domain, .. } => domain.as_str(),
            DnsRecord::MX { domain, .. } => domain.as_str(),
            DnsRecord::TXT { domain, .. } => domain.as_str(),
            DnsRecord::NS { domain, .. } => domain.as_str(),
            DnsRecord::SOA { domain, .. } => domain.as_str(),
            DnsRecord::SRV { domain, .. } => domain.as_str(),
            DnsRecord::PTR { domain, .. } => domain.as_str(),
            DnsRecord::CAA { domain, .. } => domain.as_str(),
            DnsRecord::OPT { .. } => "",
            DnsRecord::DNSKEY { domain, .. } => domain.as_str(),
            DnsRecord::RRSIG { domain, .. } => domain.as_str(),
            DnsRecord::DS { domain, .. } => domain.as_str(),
            DnsRecord::NSEC { domain, .. } => domain.as_str(),
        }
    }

    /// Returns a copy of this record with its owner name replaced.
    ///
    /// Used for wildcard synthesis, where a record stored under `*.example.com`
    /// must be returned with the actual queried name as its owner.
    pub fn with_domain(&self, name: String) -> (r: DnsRecord)
        ensures
            r@ == self@.with_domain(name@),
    {
        match self.clone() {
            DnsRecord::A { addr, ttl, .. } => DnsRecord::A { domain: name, addr, ttl },
            DnsRecord::AAAA { addr, ttl, .. } => DnsRecord::AAAA { domain: name, addr, ttl },
            DnsRecord::CNAME { alias, ttl, .. } => DnsRecord::CNAME { domain: name, alias, ttl },
            DnsRecord::MX { preference, exchange, ttl, .. } => DnsRecord::MX {
                domain: name,
                preference,
                exchange,
                ttl,
            },
            DnsRecord::TXT { text, ttl, .. } => DnsRecord::TXT { domain: name, text, ttl },
            DnsRecord::NS { nameserver, ttl, .. } => DnsRecord::NS {
                domain: name,
                nameserver,
                ttl,
            },
            DnsRecord::SOA {
                mname,
                rname,
                serial,
                refresh,
                retry,
                expire,
                minimum,
                ttl,
                ..
            } => DnsRecord::SOA {
                domain: name,
                mname,
                rname,
                serial,
                refresh,
                retry,
                expire,
                minimum,
                ttl,
            },
            DnsRecord::SRV { priority, weight, port, target, ttl, .. } => DnsRecord::SRV {
                domain: name,
                priority,
                weight,
                port,
                target,
                ttl,
            },
            DnsRecord::PTR { ptrdname, ttl, .. } => DnsRecord::PTR { domain: name, ptrdname, ttl },
            DnsRecord::CAA { flags, tag, value, ttl, .. } => DnsRecord::CAA {
                domain: name,
                flags,
                tag,
                value,
                ttl,
            },
            DnsRecord::OPT { udp_size } => DnsRecord::OPT { udp_size },
            DnsRecord::DNSKEY {
                flags,
                protocol,
                algorithm,
                public_key,
                ttl,
                ..
            } => DnsRecord::DNSKEY {
                domain: name,
                flags,
                protocol,
                algorithm,
                public_key,
                ttl,
            },
            DnsRecord::RRSIG {
                type_covered,
                algorithm,
                labels,
                original_ttl,
                signature_expiration,
                signature_inception,
                key_tag,
                signer_name,
                signature,
                ttl,
                ..
            } => DnsRecord::RRSIG {
                domain: name,
                type_covered,
                algorithm,
                labels,
                original_ttl,
                signature_expiration,
                signature_inception,
                key_tag,
                signer_name,
                signature,
                ttl,
            },
            DnsRecord::DS { key_tag, algorithm, digest_type, digest, ttl, .. } => DnsRecord::DS {
                domain: name,
                key_tag,
                algorithm,
                digest_type,
                digest,
                ttl,
            },
            DnsRecord::NSEC { next_name, type_bitmap, ttl, .. } => DnsRecord::NSEC {
                domain: name,
                next_name,
                type_bitmap,
                ttl,
            },
        }
    }
}

/// The views of a list of records.
pub open spec fn record_views(v: Seq<DnsRecord>) -> Seq<RecordView> {
    v.map_values(|r: DnsRecord| r@)
}

/// Copies a list of records.
pub fn clone_records(v: &Vec<DnsRecord>) -> (r: Vec<DnsRecord>)
    ensures
        record_views(r@) == record_views(v@),
        r@.len() == v@.len(),
{
    let r = v.clone();
    assert(record_views(r@) =~= record_views(v@));
    r
}

/// Every type of record has a number of its own.
pub proof fn law_types_apart(a: RecordView, b: RecordView)
    requires
        a.rtype() == b.rtype(),
    ensures
        a is A <==> b is A,
        a is AAAA <==> b is AAAA,
        a is CNAME <==> b is CNAME,
        a is MX <==> b is MX,
        a is TXT <==> b is TXT,
        a is NS <==> b is NS,
        a is SOA <==> b is SOA,
        a is SRV <==> b is SRV,
        a is PTR <==> b is PTR,
        a is CAA <==> b is CAA,
        a is OPT <==> b is OPT,
        a is DNSKEY <==> b is DNSKEY,
        a is RRSIG <==> b is RRSIG,
        a is DS <==> b is DS,
        a is NSEC <==> b is NSEC,
{
}

/// Putting a record under another owner changes the owner and nothing else: the type
/// and the time stay, and putting it back under its own owner gives the record again.
pub proof fn law_owner_replaced(r: RecordView, name: Seq<char>, other: Seq<char>)
    ensures
        r.with_domain(name).rtype() == r.rtype(),
        r.with_domain(name).ttl() == r.ttl(),
        !(r is OPT) ==> r.with_domain(name).domain() == name,
        r.with_domain(r.domain()) == r,
        r.with_domain(name).with_domain(other) == r.with_domain(other),
{
}

} // verus!
