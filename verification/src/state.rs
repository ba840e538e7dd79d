//! Server state and the top-level query resolution logic.

use crate::acl::{permits, Acl};
use crate::blocklist::{blocks, Blocklist};
use crate::bytes::{be_bytes, copy_range, lemma_be2, low16, push_slice, push_u16};
use crate::cache::{after_get, after_insert, cache_key, fresh, Cache, Entry};
use crate::config::{ForwardRules, Zone, ZoneSet};
use crate::dns::encoder::message_octets;
use crate::dns::error::DnsError;
use crate::dns::header::DnsHeader;
use crate::dns::packet::{
    clamp_udp_size, edns_size, granted_size, read_message, DnsPacket, PacketView,
};
use crate::dns::question::clone_questions;
use crate::dns::record::{record_views, DnsRecord, RecordView};
use crate::dns::resolver::response_to;
use crate::dnssec::{dnskeys_of, rrsig_of, DnssecKeys};
use crate::flight::Flights;
use crate::metrics::{next, Metrics};
use crate::net::{IpAddr, Ipv4Addr, Ipv6Addr, SocketAddr};
use crate::ratelimit::{ClientKey, RateLimiter, Window};
use crate::recursive::RecursiveResolver;
use crate::text::{ends_with, finishes_with, lowercase, text_eq, to_lowercase};
use crate::time::unix_seconds;
use crate::zone::{find_zone, first_soa, law_all_records, AuthZone};
use vstd::prelude::*;

verus! {

/// The transport a request arrived on, which determines response framing.
#[derive(Debug, Clone, Copy, PartialEq, Eq, Structural)]
pub enum Transport {
    /// UDP: responses are capped at 512 bytes (TC bit set if larger).
    Udp,
    /// TCP: responses may be any size.
    Tcp,
}

pub const RCODE_SERVFAIL: u16 = 2;

pub const RCODE_NXDOMAIN: u16 = 3;

pub const RCODE_REFUSED: u16 = 5;

pub const FLAG_RD: u16 = 0x0100;

pub const FLAG_RA: u16 = 0x0080;

pub const FLAG_AA: u16 = 0x0400;

/// Default TTL (seconds) for caching a negative result that lacks an SOA.
pub const NEG_TTL_DEFAULT: u32 = 30;

/// Upper bound (seconds) on negative-cache TTL derived from an SOA minimum.
pub const NEG_TTL_MAX: u32 = 3600;

/// TTL (seconds) of the DNSKEY records at a zone apex.
pub const DNSKEY_TTL: u32 = 3600;

/// How long signatures are valid, in seconds: 30 days.
pub const SIGNATURE_VALIDITY: u32 = 2_592_000;

/// A message in the form it has over a transport.
pub open spec fn encoded(p: PacketView, transport: Transport) -> Seq<u8> {
    match transport {
        Transport::Udp => p.udp_octets(),
        Transport::Tcp => message_octets(p),
    }
}

/// Encodes a synthesized response for the given transport.
pub fn encode(packet: &DnsPacket, transport: Transport) -> (r: Vec<u8>)
    ensures
        r@ == encoded(packet@, transport),
{
    match transport {
        Transport::Udp => packet.to_udp_bytes(),
        Transport::Tcp => packet.to_bytes(),
    }
}

/// A message with another transaction ID, if it is long enough to have one.
pub open spec fn with_id(message: Seq<u8>, id: u16) -> Seq<u8> {
    if message.len() >= 2 {
        be_bytes(id as nat, 2) + message.skip(2)
    } else {
        message
    }
}

/// Copies a DNS message with the 2-byte transaction ID at its start overwritten.
///
/// A single-flight follower shares the leader's response bytes, which carry the
/// leader's ID; this patches in the follower's own ID so the client accepts it.
fn patch_transaction_id(message: &[u8], id: u16) -> (r: Vec<u8>)
    ensures
        r@ == with_id(message@, id),
{
    let mut out: Vec<u8> = Vec::new();
    if message.len() >= 2 {
        push_u16(&mut out, id);
        push_slice(&mut out, message, 2, message.len());
        proof {
            assert(message@.subrange(2, message@.len() as int) =~= message@.skip(2));
        }
    } else {
        push_slice(&mut out, message, 0, message.len());
    }
    assert(out@ =~= with_id(message@, id));
    out
}

/// The records with the first OPT record replaced.
pub open spec fn opt_replaced(rs: Seq<RecordView>, size: u16) -> Seq<RecordView>
    decreases rs.len(),
{
    if rs.len() == 0 {
        rs
    } else if rs[0] is OPT {
        seq![RecordView::OPT { udp_size: size }] + rs.drop_first()
    } else {
        seq![rs[0]] + opt_replaced(rs.drop_first(), size)
    }
}

/// The records without OPT records.
pub open spec fn opt_stripped(rs: Seq<RecordView>) -> Seq<RecordView>
    decreases rs.len(),
{
    if rs.len() == 0 {
        rs
    } else if rs.last() is OPT {
        opt_stripped(rs.drop_last())
    } else {
        opt_stripped(rs.drop_last()).push(rs.last())
    }
}

/// The additional section with its OPT record aligned to what the client offered:
/// replaced or added where the client sent one, and left out otherwise.
pub open spec fn edns_aligned(rs: Seq<RecordView>, offered: Option<u16>) -> Seq<RecordView> {
    match offered {
        Some(size) => if edns_size(rs) is Some {
            opt_replaced(rs, granted_size(size))
        } else {
            rs.push(RecordView::OPT { udp_size: granted_size(size) })
        },
        None => opt_stripped(rs),
    }
}

/// A message with its OPT record aligned to what the client of `request` offered.
pub open spec fn aligned(p: PacketView, request: PacketView) -> PacketView {
    PacketView {
        additionals: edns_aligned(p.additionals, edns_size(request.additionals)),
        ..p
    }
}

/// A response as it is sent to the client of `request`: over TCP the octets as they
/// are, over UDP encoded anew for what this client can receive; either way with
/// the client's transaction ID. What cannot be parsed is relayed as it is.
pub open spec fn replayed(raw: Seq<u8>, request: PacketView, transport: Transport) -> Seq<u8> {
    match transport {
        Transport::Tcp => with_id(raw, request.header.id),
        Transport::Udp => match read_message(raw) {
            Ok(p) => (PacketView {
                header: DnsHeader { id: request.header.id, ..p.header },
                additionals: edns_aligned(p.additionals, edns_size(request.additionals)),
                ..p
            }).udp_octets(),
            Err(_) => with_id(raw, request.header.id),
        },
    }
}

/// Re-encodes a cached or forwarded raw DNS response for the current client's
/// transport and EDNS(0) UDP payload size.
///
/// For TCP the raw bytes are relayed with the transaction ID patched in (no
/// size limit). For UDP the response is parsed and re-encoded via
/// [`DnsPacket::to_udp_bytes`] using *this client's* EDNS size, not the
/// original querier's or the upstream's, so the TC (truncation) bit is set
/// correctly when the response exceeds what this client can receive.
pub fn replay(raw: &[u8], request: &DnsPacket, transport: Transport) -> (r: Vec<u8>)
    ensures
        r@ == replayed(raw@, request@, transport),
{
    match transport {
        Transport::Tcp => patch_transaction_id(raw, request.header.id),
        Transport::Udp => match DnsPacket::from_bytes(raw) {
            Ok(packet) => {
                let ghost p = packet@;
                let mut packet = packet;
                packet.header.id = request.header.id;
                align_edns(&mut packet, request);
                assert(packet@ =~= (PacketView {
                    header: DnsHeader { id: request.header.id, ..p.header },
                    additionals: edns_aligned(p.additionals, edns_size(request@.additionals)),
                    ..p
                }));
                packet.to_udp_bytes()
            },
            // Relay the raw bytes with the ID patched.
            Err(_) => patch_transaction_id(raw, request.header.id),
        },
    }
}

/// Aligns the response's OPT record with the current client's EDNS(0) negotiation.
///
/// The cached/forwarded response may carry an OPT record advertising a different
/// UDP payload size than this client (the upstream's receive size, or a previous
/// querier's). This replaces, adds, or strips the OPT record so that
/// [`DnsPacket::to_udp_bytes`] truncates at the right boundary for *this* client.
pub fn align_edns(packet: &mut DnsPacket, request: &DnsPacket)
    ensures
        final(packet)@ == aligned(old(packet)@, request@),
{
    let ghost goal = edns_aligned(packet@.additionals, edns_size(request@.additionals));
    match request.edns_udp_size() {
        Some(client_size) => {
            let negotiated: u16 = clamp_udp_size(client_size);
            if packet.edns_udp_size().is_some() {
                replace_opt(&mut packet.additionals, negotiated);
            } else {
                let ghost had = packet.additionals@;
                packet.additionals.push(DnsRecord::OPT { udp_size: negotiated });
                assert(record_views(packet.additionals@) =~= record_views(had).push(
                    RecordView::OPT { udp_size: negotiated },
                ));
            }
        },
        // Client didn't send EDNS: strip any OPT so the response fits within
        // the classic 512-byte UDP limit.
        None => {
            packet.additionals = without_opt(&packet.additionals);
        },
    }
    assert(packet@ =~= (PacketView { additionals: goal, ..old(packet)@ }));
}

fn replace_opt(records: &mut Vec<DnsRecord>, size: u16)
    ensures
        record_views(final(records)@) == opt_replaced(record_views(old(records)@), size),
{
    let ghost rs = record_views(records@);
    let mut i: usize = 0;
    proof {
        assert(rs.skip(0) =~= rs);
        assert(rs.take(0) + opt_replaced(rs, size) =~= opt_replaced(rs, size));
    }
    while i < records.len()
        invariant
            i <= records@.len(),
            records@ == old(records)@,
            rs == record_views(records@),
            opt_replaced(rs, size) == rs.take(i as int) + opt_replaced(rs.skip(i as int), size),
        decreases records@.len() - i,
    {
        let ghost left = rs.skip(i as int);
        proof {
            assert(left[0] == records@[i as int]@);
            assert(left.drop_first() =~= rs.skip(i + 1));
        }
        if let DnsRecord::OPT { .. } = &records[i] {
            records[i] = DnsRecord::OPT { udp_size: size };
            proof {
                assert(record_views(records@) =~= rs.take(i as int) + (seq![
                    RecordView::OPT { udp_size: size },
                ] + rs.skip(i + 1)));
            }
            return;
        }
        proof {
            assert(rs.take(i as int) + (seq![left[0]] + opt_replaced(rs.skip(i + 1), size))
                =~= rs.take(i + 1) + opt_replaced(rs.skip(i + 1), size));
        }
        i = i + 1;
    }
    proof {
        assert(rs.skip(i as int) =~= Seq::empty());
        assert(rs.take(i as int) + opt_replaced(rs.skip(i as int), size) =~= rs);
    }
}

fn without_opt(records: &Vec<DnsRecord>) -> (r: Vec<DnsRecord>)
    ensures
        record_views(r@) == opt_stripped(record_views(records@)),
{
    let ghost rs = record_views(records@);
    let mut out: Vec<DnsRecord> = Vec::new();
    let mut i: usize = 0;
    proof {
        assert(rs.take(0) =~= Seq::empty());
        assert(record_views(out@) =~= Seq::empty());
    }
    while i < records.len()
        invariant
            i <= records@.len(),
            rs == record_views(records@),
            record_views(out@) == opt_stripped(rs.take(i as int)),
        decreases records@.len() - i,
    {
        let ghost had = out@;
        proof {
            assert(rs.take(i + 1).drop_last() =~= rs.take(i as int));
            assert(rs.take(i + 1).last() == records@[i as int]@);
        }
        match &records[i] {
            DnsRecord::OPT { .. } => {},
            r => {
                out.push(r.clone());
                proof {
                    assert(record_views(out@) =~= record_views(had).push(out@.last()@));
                }
            },
        }
        i = i + 1;
    }
    assert(rs.take(i as int) =~= rs);
    out
}

/// The smallest TTL of records; `or` where there are none.
pub open spec fn least_ttl(rs: Seq<RecordView>, or: u32) -> u32
    decreases rs.len(),
{
    if rs.len() == 0 {
        or
    } else if rs.len() == 1 {
        rs[0].ttl()
    } else {
        let least = least_ttl(rs.drop_last(), or);
        if rs.last().ttl() < least {
            rs.last().ttl()
        } else {
            least
        }
    }
}

fn min_ttl(records: &Vec<DnsRecord>, or: u32) -> (r: u32)
    ensures
        r == least_ttl(record_views(records@), or),
{
    let ghost rs = record_views(records@);
    if records.len() == 0 {
        return or;
    }
    let mut least: u32 = records[0].ttl();
    let mut i: usize = 1;
    assert(rs.take(1)[0] == records@[0]@);
    while i < records.len()
        invariant
            1 <= i <= records@.len(),
            rs == record_views(records@),
            least == least_ttl(rs.take(i as int), or),
        decreases records@.len() - i,
    {
        proof {
            assert(rs.take(i + 1).drop_last() =~= rs.take(i as int));
            assert(rs.take(i + 1).last() == records@[i as int]@);
        }
        let t: u32 = records[i].ttl();
        if t < least {
            least = t;
        }
        i = i + 1;
    }
    assert(rs.take(i as int) =~= rs);
    least
}

/// For how long a response may be cached: one with NOERROR or NXDOMAIN for the
/// smallest TTL of its answers; without answers, for the minimum of the SOA record in
/// the authority section, at most an hour, and for half a minute without one. Other
/// responses are not cached.
pub open spec fn cache_ttl_spec(p: PacketView) -> Option<u32> {
    let rcode = p.header.flags & 0x000F;
    if rcode != 0 && rcode != RCODE_NXDOMAIN {
        None
    } else if p.answers.len() > 0 {
        Some(least_ttl(p.answers, 0))
    } else {
        match first_soa(p.authorities) {
            Some(RecordView::SOA { minimum, .. }) => Some(
                if minimum < NEG_TTL_MAX {
                    minimum
                } else {
                    NEG_TTL_MAX
                },
            ),
            _ => Some(NEG_TTL_DEFAULT),
        }
    }
}

/// Computes the cache TTL for a forwarded response, or `None` if it should not
/// be cached.
///
/// Positive answers use the smallest answer TTL. Negative results (NXDOMAIN or
/// NODATA) use the SOA minimum from the authority section (capped), or a small
/// default. SERVFAIL and other rcodes are not cached.
pub fn cache_ttl(packet: &DnsPacket) -> (r: Option<u32>)
    ensures
        r == cache_ttl_spec(packet@),
{
    let rcode: u16 = packet.header.flags & 0x000F;
    if rcode != 0 && rcode != RCODE_NXDOMAIN {
        return None;
    }
    assert(packet@.answers.len() == packet.answers@.len());
    if packet.answers.len() > 0 {
        return Some(min_ttl(&packet.answers, 0));
    }
    let ghost rs = packet@.authorities;
    let mut i: usize = 0;
    proof {
        assert(rs.skip(0) =~= rs);
    }
    while i < packet.authorities.len()
        invariant
            i <= packet.authorities@.len(),
            rs == record_views(packet.authorities@),
            first_soa(rs) == first_soa(rs.skip(i as int)),
            packet@.answers.len() == 0,
            rs == packet@.authorities,
            rcode == packet.header.flags & 0x000F,
            rcode == RCODE_NXDOMAIN || rcode == 0,
        decreases packet.authorities@.len() - i,
    {
        proof {
            assert(rs.skip(i as int)[0] == packet.authorities@[i as int]@);
            assert(rs.skip(i as int).drop_first() =~= rs.skip(i + 1));
        }
        if let DnsRecord::SOA { minimum, .. } = &packet.authorities[i] {
            return Some(
                if *minimum < NEG_TTL_MAX {
                    *minimum
                } else {
                    NEG_TTL_MAX
                },
            );
        }
        i = i + 1;
    }
    Some(NEG_TTL_DEFAULT)
}

/// A response that is not authoritative, with the questions of the request.
pub open spec fn synthesized(request: PacketView, rcode: u16) -> PacketView {
    PacketView {
        header: DnsHeader {
            id: request.header.id,
            flags: 0x8000u16 | (request.header.flags & FLAG_RD) | FLAG_RA | rcode,
            questions: (request.questions.len() % 0x1_0000) as u16,
            answers: 0,
            authorities: 0,
            additionals: 0,
        },
        questions: request.questions,
        answers: Seq::empty(),
        authorities: Seq::empty(),
        additionals: Seq::empty(),
    }
}

/// Builds a non-authoritative response (a refusal or an error) echoing the
/// request's questions, with RA set since recursion is available here.
pub fn synth_response(request: &DnsPacket, rcode: u16) -> (r: DnsPacket)
    ensures
        r@ == synthesized(request@, rcode),
{
    let r = DnsPacket {
        header: DnsHeader {
            id: request.header.id,
            flags: 0x8000 | (request.header.flags & FLAG_RD) | FLAG_RA | rcode,
            questions: low16(request.questions.len()),
            answers: 0,
            authorities: 0,
            additionals: 0,
        },
        questions: clone_questions(&request.questions),
        answers: Vec::new(),
        authorities: Vec::new(),
        additionals: Vec::new(),
    };
    proof {
        assert(request@.questions.len() == request.questions@.len());
        assert(r@ =~= synthesized(request@, rcode));
    }
    r
}

/// The well-known DNS64 NAT64 prefix `64:ff9b::/96` (RFC 6052 section 2.1).
pub fn dns64_well_known_prefix() -> (r: Ipv6Addr)
    ensures
        r.bits == 0x0064_ff9b_0000_0000_0000_0000_0000_0000,
{
    Ipv6Addr { bits: 0x0064_ff9b_0000_0000_0000_0000_0000_0000 }
}

/// The address in which an IPv4 address is embedded: the first 96 bits of the
/// prefix, and the IPv4 address in the last 32.
pub open spec fn embedded(prefix: Ipv6Addr, a: Ipv4Addr) -> Ipv6Addr {
    Ipv6Addr { bits: (prefix.bits / 0x1_0000_0000 * 0x1_0000_0000 + a.bits) as u128 }
}

/// An embedded address can be read off the address that embeds it.
pub proof fn law_embedded(prefix: Ipv6Addr, a: Ipv4Addr)
    ensures
        embedded(prefix, a).bits % 0x1_0000_0000 == a.bits,
        embedded(prefix, a).bits / 0x1_0000_0000 == prefix.bits / 0x1_0000_0000,
{
    let high = prefix.bits / 0x1_0000_0000;
    assert(high * 0x1_0000_0000 + a.bits <= u128::MAX);
}

/// The AAAA records that stand for the A records of a list, under the given owner.
pub open spec fn aaaa_for(rs: Seq<RecordView>, prefix: Ipv6Addr, owner: Seq<char>) -> Seq<
    RecordView,
>
    decreases rs.len(),
{
    if rs.len() == 0 {
        Seq::empty()
    } else {
        let rest = aaaa_for(rs.drop_last(), prefix, owner);
        match rs.last() {
            RecordView::A { addr, ttl, .. } => rest.push(
                RecordView::AAAA { domain: owner, addr: embedded(prefix, addr), ttl },
            ),
            _ => rest,
        }
    }
}

/// Whether any record of the list is an AAAA record.
pub open spec fn has_aaaa(rs: Seq<RecordView>) -> bool {
    exists|i: int| 0 <= i < rs.len() && (#[trigger] rs[i]) is AAAA
}

/// The AAAA records to synthesize for a name: those for the A records that the
/// zone holds under the very name.
pub open spec fn dns64_records(
    zones: Seq<AuthZone>,
    name: Seq<char>,
    prefix: Ipv6Addr,
) -> Seq<RecordView> {
    match find_zone(zones, name) {
        Some(z) => if z.records@.contains_key(name) {
            aaaa_for(z.records@[name], prefix, name)
        } else {
            Seq::empty()
        },
        None => Seq::empty(),
    }
}

/// A response to an AAAA query after DNS64: where it has no AAAA records and there
/// are A records for the name, its answers are synthesized from them.
pub open spec fn dns64_applied(
    response: PacketView,
    zones: Seq<AuthZone>,
    qname: Seq<char>,
    prefix: Ipv6Addr,
) -> PacketView {
    let records = dns64_records(zones, lowercase(qname), prefix);
    if has_aaaa(response.answers) || records.len() == 0 {
        response
    } else {
        PacketView {
            header: DnsHeader {
                flags: (response.header.flags & !0x000Fu16) | FLAG_AA,
                answers: (records.len() % 0x1_0000) as u16,
                authorities: 0,
                ..response.header
            },
            answers: records,
            authorities: Seq::empty(),
            ..response
        }
    }
}

fn any_aaaa(records: &Vec<DnsRecord>) -> (r: bool)
    ensures
        r == has_aaaa(record_views(records@)),
{
    let ghost rs = record_views(records@);
    let mut i: usize = 0;
    while i < records.len()
        invariant
            i <= records@.len(),
            rs == record_views(records@),
            forall|j: int| 0 <= j < i ==> !((#[trigger] rs[j]) is AAAA),
        decreases records@.len() - i,
    {
        assert(rs[i as int] == records@[i as int]@);
        if records[i].record_type() == DnsRecord::TYPE_AAAA {
            assert(rs[i as int] is AAAA);
            return true;
        }
        i = i + 1;
    }
    false
}

/// Embeds an IPv4 address in the last 32 bits of a NAT64 prefix to produce
/// a synthesized AAAA record with the given owner name.
fn synthesize_aaaa(prefix: &Ipv6Addr, ipv4: Ipv4Addr, ttl: u32, owner: &str) -> (r: DnsRecord)
    ensures
        r@ == (RecordView::AAAA { domain: owner@, addr: embedded(*prefix, ipv4), ttl }),
{
    let high: u128 = prefix.bits / 0x1_0000_0000;
    DnsRecord::AAAA {
        domain: owner.to_owned(),
        addr: Ipv6Addr { bits: high * 0x1_0000_0000 + ipv4.bits as u128 },
        ttl,
    }
}

fn synthesize_all(records: &Vec<DnsRecord>, prefix: &Ipv6Addr, owner: &str) -> (r: Vec<DnsRecord>)
    ensures
        record_views(r@) == aaaa_for(record_views(records@), *prefix, owner@),
{
    let ghost rs = record_views(records@);
    let mut out: Vec<DnsRecord> = Vec::new();
    let mut i: usize = 0;
    proof {
        assert(rs.take(0) =~= Seq::empty());
        assert(record_views(out@) =~= Seq::empty());
    }
    while i < records.len()
        invariant
            i <= records@.len(),
            rs == record_views(records@),
            record_views(out@) == aaaa_for(rs.take(i as int), *prefix, owner@),
        decreases records@.len() - i,
    {
        let ghost had = out@;
        proof {
            assert(rs.take(i + 1).drop_last() =~= rs.take(i as int));
            assert(rs.take(i + 1).last() == records@[i as int]@);
        }
        if let DnsRecord::A { addr, ttl, .. } = &records[i] {
            out.push(synthesize_aaaa(prefix, *addr, *ttl, owner));
            proof {
                assert(record_views(out@) =~= record_views(had).push(out@.last()@));
            }
        }
        i = i + 1;
    }
    assert(rs.take(i as int) =~= rs);
    out
}

/// DNS64 AAAA synthesis (RFC 6147).
///
/// When an AAAA query gets no native AAAA answers, this looks up A records for
/// the same name in the zone. If A records exist, it synthesizes AAAA records
/// by embedding the IPv4 address into the last 32 bits of the NAT64 `prefix`.
/// The synthesized records replace any NODATA response, and the AA bit is set
/// since the server is authoritative for the zone.
pub fn apply_dns64(response: &mut DnsPacket, zones: &ZoneSet, qname: &str, prefix: &Ipv6Addr)
    ensures
        final(response)@ == dns64_applied(old(response)@, zones.seq(), qname@, *prefix),
{
    // Only synthesize when there are no native AAAA answers.
    if any_aaaa(&response.answers) {
        return;
    }
    // Find the zone for this name and look up A records.
    let name = to_lowercase(qname);
    let zone = match zones.find(name.as_str()) {
        Some(z) => z,
        None => return,
    };
    let records = match zone.records.get(name.as_str()) {
        Some(r) => r,
        None => return,
    };
    // The owner name is the queried name (not the stored A record's owner, which
    // may differ after CNAME chasing).
    let made = synthesize_all(records, prefix, name.as_str());
    assert(record_views(made@).len() == made@.len());
    if made.len() == 0 {
        return;
    }
    // Replace the response: NOERROR with synthesized AAAA answers, AA set.
    response.header.flags = (response.header.flags & !0x000Fu16) | FLAG_AA;
    response.header.answers = low16(made.len());
    response.header.authorities = 0;
    response.answers = made;
    response.authorities = Vec::new();
    assert(response@ =~= dns64_applied(old(response)@, zones.seq(), qname@, *prefix));
}

/// What a record is grouped by for signing: its owner and type.
pub open spec fn group_key(r: RecordView) -> (Seq<char>, u16) {
    (r.domain(), r.rtype())
}

/// The owners and types of records, each once, in the order in which they first
/// occur.
pub open spec fn group_keys(rs: Seq<RecordView>) -> Seq<(Seq<char>, u16)>
    decreases rs.len(),
{
    if rs.len() == 0 {
        Seq::empty()
    } else {
        let keys = group_keys(rs.drop_last());
        if keys.contains(group_key(rs.last())) {
            keys
        } else {
            keys.push(group_key(rs.last()))
        }
    }
}

/// The records of one owner and type.
pub open spec fn group(rs: Seq<RecordView>, key: (Seq<char>, u16)) -> Seq<RecordView>
    decreases rs.len(),
{
    if rs.len() == 0 {
        Seq::empty()
    } else if group_key(rs.last()) == key {
        group(rs.drop_last(), key).push(rs.last())
    } else {
        group(rs.drop_last(), key)
    }
}

/// The end of the validity of a signature made at `now`, in the 32 bits that
/// hold it.
pub open spec fn expiration_of(now: u32) -> u32 {
    ((now + SIGNATURE_VALIDITY) % 0x1_0000_0000) as u32
}

/// The signature over the records of one owner and type.
pub open spec fn group_signature(
    keys: &DnssecKeys,
    rs: Seq<RecordView>,
    key: (Seq<char>, u16),
    signer: Seq<char>,
    now: u32,
) -> RecordView {
    let g = group(rs, key);
    rrsig_of(&keys.keys@[0], g, signer, least_ttl(g, 3600), now, expiration_of(now))
}

/// The signatures over all records, one for each owner and type.
pub open spec fn signatures(
    keys: &DnssecKeys,
    rs: Seq<RecordView>,
    signer: Seq<char>,
    now: u32,
) -> Seq<RecordView> {
    if keys.can_sign() {
        group_keys(rs).map_values(
            |k: (Seq<char>, u16)| group_signature(keys, rs, k, signer, now),
        )
    } else {
        Seq::empty()
    }
}

/// The answers to a query for the keys of a zone: the DNSKEY records, and the
/// signature over them if one can be made.
pub open spec fn apex_answers(keys: &DnssecKeys, name: Seq<char>, now: u32) -> Seq<RecordView> {
    let records = dnskeys_of(keys.keys@, DNSKEY_TTL);
    if keys.can_sign() {
        records.push(
            rrsig_of(&keys.keys@[0], records, name, DNSKEY_TTL, now, expiration_of(now)),
        )
    } else {
        records
    }
}

/// Whether a name is the apex of the zone that covers it.
pub open spec fn is_apex(zones: Seq<AuthZone>, name: Seq<char>) -> bool {
    find_zone(zones, name) matches Some(z) && z.origin@ == name
}

/// The apex of the zone that covers a name; empty where none does.
pub open spec fn signer_of(zones: Seq<AuthZone>, name: Seq<char>) -> Seq<char> {
    match find_zone(zones, name) {
        Some(z) => z.origin@,
        None => Seq::empty(),
    }
}

/// A response after DNSSEC. A query for DNSKEY records at a zone apex is answered
/// with the keys. Otherwise the answers are followed by their signatures, if the
/// zone has a name to sign with.
pub open spec fn dnssec_applied(
    response: PacketView,
    zones: Seq<AuthZone>,
    qname: Seq<char>,
    qtype: u16,
    keys: &DnssecKeys,
    now: u32,
) -> PacketView {
    let name = lowercase(qname);
    if qtype == DnsRecord::TYPE_DNSKEY && is_apex(zones, name) && keys.keys@.len() > 0 {
        let answers = apex_answers(keys, name, now);
        PacketView {
            header: DnsHeader {
                flags: (response.header.flags | FLAG_AA) & !0x000Fu16,
                answers: (answers.len() % 0x1_0000) as u16,
                authorities: 0,
                ..response.header
            },
            answers,
            authorities: Seq::empty(),
            ..response
        }
    } else {
        let signer = signer_of(zones, name);
        let sigs = signatures(keys, response.answers, signer, now);
        if signer.len() == 0 || sigs.len() == 0 {
            response
        } else {
            let answers = response.answers + sigs;
            PacketView {
                header: DnsHeader {
                    answers: (answers.len() % 0x1_0000) as u16,
                    ..response.header
                },
                answers,
                ..response
            }
        }
    }
}

/// A key is among those of the records if and only if one of them has it.
pub proof fn lemma_group_keys(rs: Seq<RecordView>)
    ensures
        forall|k: (Seq<char>, u16)| #[trigger]
            group_keys(rs).contains(k) <==> exists|i: int|
                0 <= i < rs.len() && group_key(#[trigger] rs[i]) == k,
    decreases rs.len(),
{
    if rs.len() > 0 {
        let init = rs.drop_last();
        let before = group_keys(init);
        let now = group_keys(rs);
        let last = group_key(rs.last());
        lemma_group_keys(init);
        assert forall|k: (Seq<char>, u16)| #[trigger] now.contains(k) <==> exists|i: int|
            0 <= i < rs.len() && group_key(#[trigger] rs[i]) == k by {
            if now.contains(k) {
                if before.contains(k) {
                    let i = choose|i: int|
                        0 <= i < init.len() && group_key(#[trigger] init[i]) == k;
                    assert(rs[i] == init[i]);
                } else {
                    let j = now.index_of(k);
                    assert(j == before.len());
                    assert(k == last);
                    assert(group_key(rs[rs.len() - 1]) == k);
                }
            }
            if exists|i: int| 0 <= i < rs.len() && group_key(#[trigger] rs[i]) == k {
                let i = choose|i: int| 0 <= i < rs.len() && group_key(#[trigger] rs[i]) == k;
                if i < init.len() {
                    assert(group_key(init[i]) == k);
                    assert(before.contains(k));
                    let j = before.index_of(k);
                    assert(now[j] == k);
                } else if before.contains(last) {
                    let j = before.index_of(last);
                    assert(now[j] == k);
                } else {
                    assert(now[before.len() as int] == k);
                }
            }
        }
    }
}

/// Collects the records of one owner and type.
fn collect_group(records: &Vec<DnsRecord>, owner: &str, rtype: u16) -> (r: Vec<DnsRecord>)
    ensures
        record_views(r@) == group(record_views(records@), (owner@, rtype)),
{
    let ghost rs = record_views(records@);
    let mut out: Vec<DnsRecord> = Vec::new();
    let mut i: usize = 0;
    proof {
        assert(rs.take(0) =~= Seq::empty());
        assert(record_views(out@) =~= Seq::empty());
    }
    while i < records.len()
        invariant
            i <= records@.len(),
            rs == record_views(records@),
            record_views(out@) == group(rs.take(i as int), (owner@, rtype)),
        decreases records@.len() - i,
    {
        let ghost had = out@;
        proof {
            assert(rs.take(i + 1).drop_last() =~= rs.take(i as int));
            assert(rs.take(i + 1).last() == records@[i as int]@);
        }
        if records[i].record_type() == rtype && text_eq(records[i].domain(), owner) {
            out.push(records[i].clone());
            proof {
                assert(record_views(out@) =~= record_views(had).push(out@.last()@));
            }
        }
        i = i + 1;
    }
    assert(rs.take(i as int) =~= rs);
    out
}

/// Whether a record of the owner and type stands before place `n`.
fn seen_before(records: &Vec<DnsRecord>, n: usize, owner: &str, rtype: u16) -> (r: bool)
    requires
        n <= records@.len(),
    ensures
        r == group_keys(record_views(records@).take(n as int)).contains((owner@, rtype)),
{
    let ghost rs = record_views(records@).take(n as int);
    let mut i: usize = 0;
    while i < n
        invariant
            i <= n <= records@.len(),
            rs == record_views(records@).take(n as int),
            forall|j: int| 0 <= j < i ==> group_key(#[trigger] rs[j]) != (owner@, rtype),
        decreases n - i,
    {
        assert(rs[i as int] == records@[i as int]@);
        if records[i].record_type() == rtype && text_eq(records[i].domain(), owner) {
            proof {
                assert(group_key(rs[i as int]) == (owner@, rtype));
                lemma_group_keys(rs);
            }
            return true;
        }
        i = i + 1;
    }
    proof {
        lemma_group_keys(rs);
    }
    false
}

/// A record is in its own group.
pub proof fn lemma_group_nonempty(rs: Seq<RecordView>, i: int)
    requires
        0 <= i < rs.len(),
    ensures
        group(rs, group_key(rs[i])).len() > 0,
    decreases rs.len(),
{
    if i < rs.len() - 1 {
        lemma_group_nonempty(rs.drop_last(), i);
    }
}

fn add_validity(now: u32) -> (r: u32)
    ensures
        r == expiration_of(now),
{
    ((now as u64 + SIGNATURE_VALIDITY as u64) % 0x1_0000_0000) as u32
}

/// Signs every group of records with the same owner and type.
fn sign_groups(records: &Vec<DnsRecord>, signer: &str, keys: &DnssecKeys, now: u32) -> (r: Vec<
    DnsRecord,
>)
    ensures
        record_views(r@) == signatures(keys, record_views(records@), signer@, now),
{
    let ghost rs = record_views(records@);
    let ghost sign = |k: (Seq<char>, u16)| group_signature(keys, rs, k, signer@, now);
    let mut out: Vec<DnsRecord> = Vec::new();
    let mut i: usize = 0;
    proof {
        assert(rs.take(0) =~= Seq::empty());
        assert(record_views(out@) =~= Seq::empty());
        assert(Seq::<(Seq<char>, u16)>::empty().map_values(sign) =~= Seq::empty());
    }
    while i < records.len()
        invariant
            i <= records@.len(),
            rs == record_views(records@),
            sign == (|k: (Seq<char>, u16)| group_signature(keys, rs, k, signer@, now)),
            record_views(out@) == (if keys.can_sign() {
                group_keys(rs.take(i as int)).map_values(sign)
            } else {
                Seq::empty()
            }),
        decreases records@.len() - i,
    {
        let ghost had = out@;
        let ghost so_far = group_keys(rs.take(i as int));
        let owner = records[i].domain();
        let rtype: u16 = records[i].record_type();
        proof {
            assert(rs.take(i + 1).drop_last() =~= rs.take(i as int));
            assert(rs.take(i + 1).last() == records@[i as int]@);
            assert(rs[i as int] == records@[i as int]@);
        }
        if !seen_before(records, i, owner, rtype) {
            let members = collect_group(records, owner, rtype);
            proof {
                lemma_group_nonempty(rs, i as int);
                assert(record_views(members@).len() == members@.len());
            }
            // Use the minimum TTL of the RRset as the signature's original_ttl.
            let ttl: u32 = min_ttl(&members, 3600);
            match keys.sign_rrset(members.as_slice(), signer, ttl, now, add_validity(now)) {
                Ok(rrsig) => {
                    out.push(rrsig);
                    proof {
                        assert(record_views(out@) =~= record_views(had).push(rrsig@));
                        assert(rrsig@ == sign(group_key(rs[i as int])));
                        assert(so_far.push(group_key(rs[i as int])).map_values(sign)
                            =~= so_far.map_values(sign).push(sign(group_key(rs[i as int]))));
                    }
                },
                Err(_) => {},
            }
        }
        i = i + 1;
    }
    proof {
        assert(rs.take(i as int) =~= rs);
        assert(record_views(out@) =~= signatures(keys, rs, signer@, now));
    }
    out
}

/// Applies DNSSEC signing to a response (RFC 4034/4035) at the time `now`, in
/// seconds since the Unix epoch.
///
/// - For DNSKEY queries at a zone apex: injects the zone's DNSKEY records.
/// - For any query with answers: signs each distinct RRset (grouped by owner
///   name + type) and appends RRSIG records to the answer section.
///
/// Signing uses the current time as inception and a 30-day expiry. The signer
/// name is the zone apex.
pub fn apply_dnssec(
    response: &mut DnsPacket,
    zones: &ZoneSet,
    qname: &str,
    qtype: u16,
    keys: &DnssecKeys,
    now: u32,
)
    ensures
        final(response)@ == dnssec_applied(
            old(response)@,
            zones.seq(),
            qname@,
            qtype,
            keys,
            now,
        ),
{
    let ghost goal = dnssec_applied(response@, zones.seq(), qname@, qtype, keys, now);
    let name = to_lowercase(qname);
    let signer: String = match zones.find(name.as_str()) {
        Some(z) => {
            // If this is a DNSKEY query at a zone apex, inject the DNSKEY records.
            if qtype == DnsRecord::TYPE_DNSKEY && text_eq(z.origin.as_str(), name.as_str())
                && keys.is_enabled() {
                inject_keys(response, name.as_str(), keys, now);
                return;
            }
            z.origin.clone()
        },
        None => {
            let none = String::new();
            assert(none@ =~= Seq::empty());
            none
        },
    };
    // Sign each answer RRset: group by (owner, type) and sign each group.
    if signer.as_str().is_empty() {
        return;
    }
    let mut sigs = sign_groups(&response.answers, signer.as_str(), keys, now);
    assert(record_views(sigs@).len() == sigs@.len());
    if sigs.len() == 0 {
        return;
    }
    // Append RRSIG records to the answer section.
    let ghost had = response.answers@;
    let ghost added = sigs@;
    response.answers.append(&mut sigs);
    response.header.answers = low16(response.answers.len());
    proof {
        assert(record_views(response.answers@) =~= record_views(had) + record_views(added));
        assert(record_views(response.answers@).len() == response.answers@.len());
        assert(response@ =~= goal);
    }
}

/// Answers a response with the keys of a zone.
fn inject_keys(response: &mut DnsPacket, name: &str, keys: &DnssecKeys, now: u32)
    requires
        keys.keys@.len() > 0,
    ensures
        final(response)@ == (PacketView {
            header: DnsHeader {
                flags: (old(response).header.flags | FLAG_AA) & !0x000Fu16,
                answers: (apex_answers(keys, name@, now).len() % 0x1_0000) as u16,
                authorities: 0,
                ..old(response)@.header
            },
            answers: apex_answers(keys, name@, now),
            authorities: Seq::empty(),
            ..old(response)@
        }),
{
    let mut answers = keys.dnskey_records(DNSKEY_TTL);
    assert(record_views(answers@).len() == answers@.len());
    // Sign the DNSKEY RRset and add the RRSIG.
    let ghost plain = answers@;
    match keys.sign_rrset(answers.as_slice(), name, DNSKEY_TTL, now, add_validity(now)) {
        Ok(rrsig) => {
            answers.push(rrsig);
            assert(record_views(answers@) =~= record_views(plain).push(rrsig@));
        },
        Err(_) => {},
    }
    assert(record_views(answers@) == apex_answers(keys, name@, now));
    assert(record_views(answers@).len() == answers@.len());
    response.header.flags = (response.header.flags | FLAG_AA) & !0x000Fu16;
    response.header.answers = low16(answers.len());
    response.header.authorities = 0;
    response.answers = answers;
    response.authorities = Vec::new();
    assert(response@.authorities =~= Seq::empty());
}

/// The records of a list that are not SOA records.
pub open spec fn non_soa(rs: Seq<RecordView>) -> Seq<RecordView>
    decreases rs.len(),
{
    if rs.len() == 0 {
        Seq::empty()
    } else if rs.last() is SOA {
        non_soa(rs.drop_last())
    } else {
        non_soa(rs.drop_last()).push(rs.last())
    }
}

/// The records of a zone transfer (RFC 5936): the SOA record, all other records by
/// owner name in order, and the SOA record again.
pub open spec fn transfer_of(zone: &Zone) -> Seq<RecordView> {
    let soa = match first_soa(zone.all()) {
        Some(r) => seq![r],
        None => Seq::empty(),
    };
    soa + non_soa(zone.all()) + soa
}

/// The answer to a request for a zone transfer.
pub open spec fn transfer_response(request: PacketView, zone: &Zone) -> PacketView {
    let records = transfer_of(zone);
    PacketView {
        header: DnsHeader {
            id: request.header.id,
            flags: 0x8000u16 | (request.header.flags & FLAG_RD) | FLAG_AA,
            questions: 1,
            answers: (records.len() % 0x1_0000) as u16,
            authorities: 0,
            additionals: 0,
        },
        questions: request.questions,
        answers: records,
        authorities: Seq::empty(),
        additionals: Seq::empty(),
    }
}

/// A transfer of a zone with an SOA record begins and ends with it, and holds every
/// other record once.
pub proof fn law_transfer_framed(zone: &Zone)
    requires
        first_soa(zone.all()) is Some,
    ensures
        transfer_of(zone).len() == non_soa(zone.all()).len() + 2,
        transfer_of(zone)[0] is SOA,
        transfer_of(zone).last() is SOA,
        transfer_of(zone)[0] == transfer_of(zone).last(),
        transfer_of(zone).subrange(1, transfer_of(zone).len() - 1) == non_soa(zone.all()),
{
    lemma_first_soa_is_soa(zone.all());
    assert(transfer_of(zone).subrange(1, transfer_of(zone).len() - 1) =~= non_soa(zone.all()));
}

proof fn lemma_first_soa_is_soa(rs: Seq<RecordView>)
    ensures
        first_soa(rs) matches Some(r) ==> r is SOA,
    decreases rs.len(),
{
    if rs.len() > 0 {
        lemma_first_soa_is_soa(rs.drop_first());
    }
}

/// Collects the records of a zone transfer.
fn collect_transfer(zone: &Zone) -> (r: Vec<DnsRecord>)
    ensures
        record_views(r@) == transfer_of(zone),
{
    let all = zone.all_records();
    let ghost rs = zone.all();
    let mut out: Vec<DnsRecord> = Vec::new();
    // SOA first (start of transfer).
    if let Some(soa) = zone.soa() {
        out.push(soa.clone());
    }
    let ghost head = record_views(out@);
    let mut i: usize = 0;
    proof {
        assert(rs.take(0) =~= Seq::empty());
        assert(record_views(out@) =~= head + Seq::<RecordView>::empty());
        assert(record_views(all@).len() == all@.len());
        match first_soa(rs) {
            Some(r) => {
                assert(head =~= seq![r]);
            },
            None => {
                assert(head =~= Seq::empty());
            },
        }
    }
    while i < all.len()
        invariant
            i <= all@.len(),
            rs == record_views(all@),
            record_views(out@) == head + non_soa(rs.take(i as int)),
        decreases all@.len() - i,
    {
        let ghost had = out@;
        proof {
            assert(rs.take(i + 1).drop_last() =~= rs.take(i as int));
            assert(rs.take(i + 1).last() == all@[i as int]@);
        }
        match &all[i] {
            DnsRecord::SOA { .. } => {},
            r => {
                out.push(r.clone());
                proof {
                    assert(record_views(out@) =~= record_views(had).push(out@.last()@));
                    assert(record_views(out@) =~= head + non_soa(rs.take(i + 1)));
                }
            },
        }
        i = i + 1;
    }
    assert(rs.take(i as int) =~= rs);
    // SOA last (end of transfer).
    let ghost had = out@;
    if let Some(soa) = zone.soa() {
        out.push(soa.clone());
        assert(record_views(out@) =~= record_views(had) + head);
    } else {
        assert(record_views(out@) =~= record_views(had) + head);
    }
    out
}

/// Everything needed to forward a query upstream and frame the reply.
#[derive(Debug)]
pub struct ForwardCtx {
    pub request: DnsPacket,
    pub raw: Vec<u8>,
    pub name: String,
    pub qtype: u16,
    /// The upstream resolver chosen for this query (via conditional forwarding).
    pub upstream: SocketAddr,
    pub transport: Transport,
}

/// What is forwarded, where to, and for which transport.
#[verifier::ext_equal]
pub struct ForwardView {
    pub request: PacketView,
    pub raw: Seq<u8>,
    pub name: Seq<char>,
    pub qtype: u16,
    pub upstream: SocketAddr,
    pub transport: Transport,
}

impl View for ForwardCtx {
    type V = ForwardView;

    open spec fn view(&self) -> ForwardView {
        ForwardView {
            request: self.request@,
            raw: self.raw@,
            name: self.name@,
            qtype: self.qtype,
            upstream: self.upstream,
            transport: self.transport,
        }
    }
}

/// Outcome of the synchronous first pass over a query.
///
/// Splitting the synchronous part ([`ServerState::resolve_local`]) from the
/// forwarding part lets the UDP fast path answer local/cached queries inline, and
/// only hand over to a task when a query must actually be forwarded upstream.
#[derive(Debug)]
pub enum Resolution {
    /// A response is ready to send.
    Ready(Vec<u8>),
    /// The query must be forwarded upstream (carries the work to do so).
    Forward(ForwardCtx),
    /// The query was dropped (rate-limited or unparseable); send nothing.
    Drop,
}

/// What comes of a query.
#[verifier::ext_equal]
pub enum Outcome {
    Ready(Seq<u8>),
    Forward(ForwardView),
    Drop,
}

impl View for Resolution {
    type V = Outcome;

    open spec fn view(&self) -> Outcome {
        match self {
            Resolution::Ready(b) => Outcome::Ready(b@),
            Resolution::Forward(c) => Outcome::Forward(c@),
            Resolution::Drop => Outcome::Drop,
        }
    }
}

/// The address that stands for recursive resolution in place of an upstream.
pub open spec fn recursive_sentinel_spec() -> SocketAddr {
    SocketAddr { ip: IpAddr::V4(Ipv4Addr { bits: 0 }), port: 0, scope_id: 0 }
}

/// The address that stands for recursive resolution in place of an upstream.
pub fn recursive_sentinel() -> (r: SocketAddr)
    ensures
        r == recursive_sentinel_spec(),
{
    SocketAddr { ip: IpAddr::V4(Ipv4Addr { bits: 0 }), port: 0, scope_id: 0 }
}

/// The readings of the clocks at which a query is handled: those of the rate
/// limiter and of the cache, in their nanoseconds, and the seconds since the Unix
/// epoch.
#[derive(Debug, Clone, Copy, PartialEq, Eq, Structural)]
pub struct Times {
    pub limiter: u64,
    pub cache: u64,
    pub unix: u32,
}

/// Where zones are reloaded from.
#[derive(Debug)]
pub enum ReloadSource<'a> {
    /// Nowhere: no path is configured.
    Nothing,
    /// A configuration file, with all its zones.
    Config(&'a String),
    /// A single zone file.
    ZoneFile(&'a String),
}

/// How a forwarded query is resolved.
#[derive(Debug, Clone, Copy, PartialEq, Eq, Structural)]
pub enum ForwardRoute {
    /// By walking down from the root.
    Recursive,
    /// By the given upstream resolver.
    Upstream(SocketAddr),
}

/// All state needed to answer queries: the zone set, conditional forwarding rules,
/// a cache, a rate limiter, and metrics.
pub struct ServerState {
    pub zones: ZoneSet,
    /// Path for hot-reload. When using a config file this is the config
    /// path (so SIGHUP reloads all zones from it); with a single `--zone` it
    /// is that zone file's path.
    pub zone_path: Option<String>,
    /// Conditional forwarding rules (per-domain upstream selection).
    pub forward_rules: ForwardRules,
    /// Optional full recursive resolver (iterative, root-hints based).
    /// When present, unknown names are resolved iteratively instead of
    /// forwarded to a stub upstream. Conditional forwarding rules still take
    /// precedence (matched names go to their configured upstream).
    pub recursive: Option<RecursiveResolver>,
    pub cache: Cache<u8>,
    pub limiter: RateLimiter,
    /// Optional domain blocklist (RPZ-style filtering).
    pub blocklist: Blocklist,
    /// Optional NAT64 prefix for DNS64 AAAA synthesis (RFC 6147).
    /// When set, AAAA queries for names that have only A records get
    /// synthesized AAAA records by embedding the IPv4 address in the prefix.
    pub dns64_prefix: Option<Ipv6Addr>,
    /// ACL controlling which client IPs may request AXFR (zone transfer).
    pub axfr_acl: Acl,
    /// Optional DNSSEC signing keys. When present, responses include DNSKEY
    /// records at zone apexes and RRSIG records over answer RRsets.
    pub dnssec_keys: Option<DnssecKeys>,
    /// The queries that are being asked upstream.
    pub flights: Flights,
    pub metrics: Metrics,
}

impl ServerState {
    /// Whether this server offers recursion (forwarding or recursive mode).
    pub open spec fn offers_recursion(&self) -> bool {
        self.forward_rules.enabled() || self.recursive is Some
    }

    /// Whether everything that is configured is as it was.
    pub open spec fn same_config(&self, other: &Self) -> bool {
        &&& self.zones == other.zones
        &&& self.zone_path == other.zone_path
        &&& self.forward_rules == other.forward_rules
        &&& self.recursive == other.recursive
        &&& self.blocklist == other.blocklist
        &&& self.dns64_prefix == other.dns64_prefix
        &&& self.axfr_acl == other.axfr_acl
        &&& self.dnssec_keys == other.dnssec_keys
        &&& self.limiter.same_limits(&other.limiter)
        &&& self.cache.capacity_spec() == other.cache.capacity_spec()
    }

    /// Whether a request asks for a name that the blocklist blocks.
    pub open spec fn is_blocked_query(&self, request: PacketView) -> bool {
        request.questions.len() > 0 && blocks(self.blocklist@, request.questions[0].qname)
    }

    /// The answer from the zones, with signatures and synthesized addresses as far
    /// as they are configured.
    pub open spec fn local_answer(&self, request: PacketView, unix: u32) -> PacketView {
        let plain = response_to(request, &self.zones);
        if request.questions.len() == 0 {
            plain
        } else {
            let q = request.questions[0];
            let signed = match self.dnssec_keys {
                Some(keys) => dnssec_applied(
                    plain,
                    self.zones.seq(),
                    q.qname,
                    q.qtype,
                    &keys,
                    unix,
                ),
                None => plain,
            };
            match self.dns64_prefix {
                Some(prefix) => if q.qtype == DnsRecord::TYPE_AAAA {
                    dns64_applied(signed, self.zones.seq(), q.qname, prefix)
                } else {
                    signed
                },
                None => signed,
            }
        }
    }

    /// Whether a request is for someone else to answer: the name is unknown here,
    /// the client wants recursion, and it is offered.
    pub open spec fn goes_upstream(&self, request: PacketView) -> bool {
        &&& response_to(request, &self.zones).header.flags & 0x000F == RCODE_NXDOMAIN
        &&& request.header.flags & FLAG_RD != 0
        &&& self.offers_recursion()
        &&& request.questions.len() > 0
    }

    /// What comes of a request that is neither dropped nor blocked.
    pub open spec fn request_outcome(
        &self,
        request: PacketView,
        raw: Seq<u8>,
        transport: Transport,
        t: Times,
    ) -> Outcome {
        let answer = self.local_answer(request, t.unix);
        if self.goes_upstream(request) {
            let name = lowercase(request.questions[0].qname);
            let qtype = request.questions[0].qtype;
            let key = cache_key(name, qtype);
            if fresh(self.cache@, key, t.cache) {
                Outcome::Ready(replayed(self.cache@[key].records@, request, transport))
            } else {
                match self.forward_rules.upstream_for(name) {
                    Some(upstream) => Outcome::Forward(
                        ForwardView { request, raw, name, qtype, upstream, transport },
                    ),
                    None => if self.recursive is Some {
                        Outcome::Forward(
                            ForwardView {
                                request,
                                raw,
                                name,
                                qtype,
                                upstream: recursive_sentinel_spec(),
                                transport,
                            },
                        )
                    } else {
                        Outcome::Ready(encoded(answer, transport))
                    },
                }
            }
        } else {
            let flags = if self.offers_recursion() {
                answer.header.flags | FLAG_RA
            } else {
                answer.header.flags
            };
            Outcome::Ready(
                encoded(
                    PacketView { header: DnsHeader { flags, ..answer.header }, ..answer },
                    transport,
                ),
            )
        }
    }

    /// What comes of a query in the first pass: it is dropped where the client is
    /// over its limit or the query does not parse; a blocked name does not exist.
    pub open spec fn local_outcome(
        &self,
        req: Seq<u8>,
        client: IpAddr,
        transport: Transport,
        t: Times,
    ) -> Outcome {
        if !self.limiter.allows(client, t.limiter) {
            Outcome::Drop
        } else {
            match read_message(req) {
                Err(_) => Outcome::Drop,
                Ok(request) => if self.is_blocked_query(request) {
                    Outcome::Ready(encoded(synthesized(request, RCODE_NXDOMAIN), transport))
                } else {
                    self.request_outcome(request, req, transport, t)
                },
            }
        }
    }

    /// The counters after the first pass.
    pub open spec fn local_metrics(&self, req: Seq<u8>, client: IpAddr, t: Times) -> Metrics {
        let m = Metrics { total: next(self.metrics.total), ..self.metrics };
        if !self.limiter.allows(client, t.limiter) {
            Metrics { rate_limited: next(m.rate_limited), ..m }
        } else {
            match read_message(req) {
                Err(_) => Metrics { errors: next(m.errors), ..m },
                Ok(request) => if self.is_blocked_query(request) {
                    Metrics { blocked: next(m.blocked), ..m }
                } else if self.goes_upstream(request) {
                    let name = lowercase(request.questions[0].qname);
                    let key = cache_key(name, request.questions[0].qtype);
                    if fresh(self.cache@, key, t.cache) {
                        Metrics { cache_hits: next(m.cache_hits), ..m }
                    } else if self.forward_rules.upstream_for(name) is Some || self.recursive
                        is Some {
                        m
                    } else {
                        Metrics { authoritative: next(m.authoritative), ..m }
                    }
                } else {
                    Metrics { authoritative: next(m.authoritative), ..m }
                },
            }
        }
    }

    /// The cache after the first pass: only a query that goes upstream looks into
    /// it.
    pub open spec fn local_cache(&self, req: Seq<u8>, client: IpAddr, t: Times) -> Map<
        Seq<char>,
        Entry<u8>,
    > {
        match read_message(req) {
            Ok(request) => if self.limiter.allows(client, t.limiter) && !self.is_blocked_query(
                request,
            ) && self.goes_upstream(request) {
                after_get(
                    self.cache@,
                    cache_key(
                        lowercase(request.questions[0].qname),
                        request.questions[0].qtype,
                    ),
                    t.cache,
                )
            } else {
                self.cache@
            },
            Err(_) => self.cache@,
        }
    }

    /// Builds full server state.
    pub fn new(
        zones: ZoneSet,
        zone_path: Option<String>,
        forward_rules: ForwardRules,
        cache: Cache<u8>,
        limiter: RateLimiter,
    ) -> (r: Self)
        ensures
            r.zones == zones,
            r.zone_path == zone_path,
            r.forward_rules == forward_rules,
            r.recursive is None,
            r.cache == cache,
            r.limiter == limiter,
            r.blocklist@ == Set::<Seq<char>>::empty(),
            r.blocklist.path_spec() is None,
            r.dns64_prefix is None,
            r.axfr_acl@.len() == 0,
            r.dnssec_keys is None,
            r.flights@ == Set::<(Seq<char>, u16)>::empty(),
            r.metrics == Metrics::zero(),
    {
        ServerState {
            zones,
            zone_path,
            forward_rules,
            recursive: None,
            cache,
            limiter,
            blocklist: Blocklist::empty(),
            dns64_prefix: None,
            axfr_acl: Acl::deny_all(),
            dnssec_keys: None,
            flights: Flights::new(),
            metrics: Metrics::default(),
        }
    }

    /// Sets the domain blocklist (builder-style chaining).
    pub fn with_blocklist(self, blocklist: Blocklist) -> (r: Self)
        ensures
            r == (ServerState { blocklist, ..self }),
    {
        ServerState { blocklist, ..self }
    }

    /// Enables DNS64 AAAA synthesis with the given NAT64 prefix (builder-style).
    pub fn with_dns64(self, prefix: Ipv6Addr) -> (r: Self)
        ensures
            r == (ServerState { dns64_prefix: Some(prefix), ..self }),
    {
        ServerState { dns64_prefix: Some(prefix), ..self }
    }

    /// Sets the AXFR (zone transfer) ACL (builder-style chaining).
    pub fn with_axfr_acl(self, acl: Acl) -> (r: Self)
        ensures
            r == (ServerState { axfr_acl: acl, ..self }),
    {
        ServerState { axfr_acl: acl, ..self }
    }

    /// Enables full iterative recursive resolution (builder-style).
    /// When set, unknown names are resolved from root instead of forwarded.
    pub fn with_recursive(self) -> (r: Self)
        ensures
            r.recursive matches Some(x) && x@.dom().is_empty() && x.id_spec() == 1,
            r == (ServerState { recursive: r.recursive, ..self }),
    {
        let resolver = RecursiveResolver::new();
        assert(resolver@.dom() =~= Set::empty());
        ServerState { recursive: Some(resolver), ..self }
    }

    /// Enables DNSSEC signing of responses (builder-style).
    /// When set, the server publishes DNSKEY records and signs answer RRsets.
    pub fn with_dnssec(self, keys: DnssecKeys) -> (r: Self)
        ensures
            r == (ServerState { dnssec_keys: Some(keys), ..self }),
    {
        ServerState { dnssec_keys: Some(keys), ..self }
    }

    /// Convenience constructor for a purely authoritative server (no forwarding,
    /// no rate limiting).
    pub fn authoritative(zones: ZoneSet) -> (r: Self)
        ensures
            r.zones == zones,
            r.zone_path is None,
            !r.offers_recursion(),
            r.limiter.max_spec() == 0,
            r.limiter@ == Map::<ClientKey, Window>::empty(),
            r.cache.capacity_spec() == 1024,
            r.cache@ == Map::<Seq<char>, Entry<u8>>::empty(),
            r.blocklist@.is_empty(),
            r.blocklist.path_spec() is None,
            r.dns64_prefix is None,
            r.axfr_acl@.len() == 0,
            r.dnssec_keys is None,
            r.flights@ == Set::<(Seq<char>, u16)>::empty(),
            r.metrics == Metrics::zero(),
    {
        Self::new(zones, None, ForwardRules::none(), Cache::new(1024), RateLimiter::disabled())
    }

    /// Where a reload has to read from: a configuration file if the path ends in
    /// `.toml`, and a single zone file otherwise.
    pub fn reload_source(&self) -> (r: ReloadSource<'_>)
        ensures
            match self.zone_path {
                None => r is Nothing,
                Some(p) => if finishes_with(p@, ".toml"@) {
                    r matches ReloadSource::Config(q) && q@ == p@
                } else {
                    r matches ReloadSource::ZoneFile(q) && q@ == p@
                },
            },
    {
        match &self.zone_path {
            None => ReloadSource::Nothing,
            Some(p) => if ends_with(p.as_str(), ".toml") {
                ReloadSource::Config(p)
            } else {
                ReloadSource::ZoneFile(p)
            },
        }
    }

    /// Puts newly loaded zones in the place of the old ones.
    pub fn replace_zones(&mut self, zones: ZoneSet)
        ensures
            *final(self) == (ServerState { zones, ..*old(self) }),
    {
        self.zones = zones;
    }

    /// Whether this server offers recursion (forwarding or recursive mode).
    pub fn recursion_available(&self) -> (r: bool)
        ensures
            r == self.offers_recursion(),
    {
        self.forward_rules.is_enabled() || self.recursive.is_some()
    }

    /// Reclaims rate-limiter state for clients whose window has elapsed.
    ///
    /// Called periodically by a background task to bound memory under a flood of
    /// many distinct (e.g. spoofed) source addresses.
    pub fn cleanup_rate_limiter(&mut self)
        ensures
            final(self).same_config(old(self)),
            final(self).cache == old(self).cache,
            final(self).metrics == old(self).metrics,
            final(self).flights == old(self).flights,
            exists|now: u64|
                final(self).limiter@ == #[trigger] crate::ratelimit::still_open(
                    old(self).limiter@,
                    now,
                    old(self).limiter.window_spec(),
                ),
    {
        self.limiter.cleanup();
    }

    /// Whether a query asks for a zone transfer.
    pub open spec fn is_transfer_query(req: Seq<u8>) -> bool {
        read_message(req) matches Ok(p) && p.questions.len() > 0 && p.questions[0].qtype
            == DnsRecord::TYPE_AXFR
    }

    /// The answer to a request for a zone transfer: REFUSED unless the client is
    /// permitted, NXDOMAIN where no zone covers the name, and else the zone.
    pub open spec fn transfer_answer(&self, request: PacketView, client: IpAddr) -> PacketView {
        if !permits(self.axfr_acl@, client) {
            synthesized(request, RCODE_REFUSED)
        } else {
            match find_zone(self.zones.seq(), lowercase(request.questions[0].qname)) {
                None => synthesized(request, RCODE_NXDOMAIN),
                Some(z) => transfer_response(request, &z.records),
            }
        }
    }

    /// The counters after a request for a zone transfer.
    pub open spec fn transfer_metrics(&self, request: PacketView, client: IpAddr) -> Metrics {
        let m = Metrics { total: next(self.metrics.total), ..self.metrics };
        if !permits(self.axfr_acl@, client) {
            Metrics { errors: next(m.errors), ..m }
        } else {
            match find_zone(self.zones.seq(), lowercase(request.questions[0].qname)) {
                None => m,
                Some(_) => Metrics { authoritative: next(m.authoritative), ..m },
            }
        }
    }

    /// Handles an AXFR (zone transfer) request if this is one, returning the
    /// serialized response (all zone records framed by SOA) or `None` if the
    /// request is not an AXFR query.
    ///
    /// Returns a REFUSED response if the client is not in the ACL.
    pub fn try_axfr(&mut self, req: &[u8], client: IpAddr) -> (r: Option<Vec<u8>>)
        ensures
            match r {
                None => !Self::is_transfer_query(req@) && *final(self) == *old(self),
                Some(b) => {
                    &&& Self::is_transfer_query(req@)
                    &&& read_message(req@) matches Ok(request) && b@ == message_octets(
                        old(self).transfer_answer(request, client),
                    ) && *final(self) == (ServerState {
                        metrics: old(self).transfer_metrics(request, client),
                        ..*old(self)
                    })
                },
            },
    {
        let request = match DnsPacket::from_bytes(req) {
            Ok(p) => p,
            Err(_) => return None,
        };
        assert(request@.questions.len() == request.questions@.len());
        if request.questions.len() == 0 || request.questions[0].qtype != DnsRecord::TYPE_AXFR {
            return None;
        }
        self.metrics.inc_total();
        // Authorization check.
        if !self.axfr_acl.is_allowed(&client) {
            self.metrics.inc_error();
            let refused = synth_response(&request, RCODE_REFUSED);
            return Some(refused.to_bytes());
        }
        // Find the zone matching the queried name.
        let name = to_lowercase(request.questions[0].qname.as_str());
        let records = match self.zones.find(name.as_str()) {
            Some(z) => collect_transfer(&z.records),
            None => {
                // Not authoritative for this zone.
                let nxdomain = synth_response(&request, RCODE_NXDOMAIN);
                return Some(nxdomain.to_bytes());
            },
        };
        let response = DnsPacket {
            header: DnsHeader {
                id: request.header.id,
                flags: 0x8000 | (request.header.flags & FLAG_RD) | FLAG_AA,
                questions: 1,
                answers: low16(records.len()),
                authorities: 0,
                additionals: 0,
            },
            questions: clone_questions(&request.questions),
            answers: records,
            authorities: Vec::new(),
            additionals: Vec::new(),
        };
        proof {
            assert(record_views(response.answers@).len() == response.answers@.len());
            assert(response@ =~= self.transfer_answer(request@, client));
        }
        self.metrics.inc_authoritative();
        Some(response.to_bytes())
    }

    /// Reads the clocks.
    fn read_times(&self) -> Times {
        Times { limiter: self.limiter.now(), cache: self.cache.now(), unix: unix_seconds() }
    }

    /// Synchronous first pass: rate-limit, parse, answer from the zone or cache.
    ///
    /// Does no I/O, so the common local/cached case is cheap enough to run inline
    /// on the receiving worker without spawning a task.
    pub fn resolve_local(&mut self, req: &[u8], client: IpAddr, transport: Transport) -> (r:
        Resolution)
        ensures
            final(self).same_config(old(self)),
            final(self).flights == old(self).flights,
            exists|t: Times|
                r@ == #[trigger] old(self).local_outcome(req@, client, transport, t)
                    && final(self).metrics == old(self).local_metrics(req@, client, t)
                    && final(self).limiter@ == old(self).limiter.counted(client, t.limiter)
                    && final(self).cache@ == old(self).local_cache(req@, client, t),
    {
        let t = self.read_times();
        self.resolve_local_at(req, client, transport, t)
    }

    /// The first pass at the given times.
    #[verifier::spinoff_prover]
    pub fn resolve_local_at(
        &mut self,
        req: &[u8],
        client: IpAddr,
        transport: Transport,
        t: Times,
    ) -> (r: Resolution)
        ensures
            final(self).same_config(old(self)),
            final(self).flights == old(self).flights,
            r@ == old(self).local_outcome(req@, client, transport, t),
            final(self).metrics == old(self).local_metrics(req@, client, t),
            final(self).limiter@ == old(self).limiter.counted(client, t.limiter),
            final(self).cache@ == old(self).local_cache(req@, client, t),
    {
        match self.take_request(req, client, transport, t) {
            Err(resolution) => resolution,
            Ok(request) => {
                proof {
                    lemma_same_outcome(old(self), self, request@, req@, transport, t);
                }
                self.resolve_request(request, req, transport, t)
            },
        }
    }

    /// Counts a query and parses it. One that is over the limit, does not parse or is
    /// blocked is done with.
    #[verifier::spinoff_prover]
    fn take_request(
        &mut self,
        req: &[u8],
        client: IpAddr,
        transport: Transport,
        t: Times,
    ) -> (r: Result<DnsPacket, Resolution>)
        ensures
            *final(self) == (ServerState {
                limiter: final(self).limiter,
                metrics: final(self).metrics,
                ..*old(self)
            }),
            final(self).same_config(old(self)),
            final(self).limiter@ == old(self).limiter.counted(client, t.limiter),
            match r {
                Ok(request) => {
                    &&& old(self).limiter.allows(client, t.limiter)
                    &&& read_message(req@) == Ok::<_, DnsError>(request@)
                    &&& !old(self).is_blocked_query(request@)
                    &&& final(self).metrics == (Metrics {
                        total: next(old(self).metrics.total),
                        ..old(self).metrics
                    })
                },
                Err(resolution) => {
                    &&& resolution@ == old(self).local_outcome(req@, client, transport, t)
                    &&& final(self).metrics == old(self).local_metrics(req@, client, t)
                    &&& old(self).local_cache(req@, client, t) == old(self).cache@
                },
            },
    {
        self.metrics.inc_total();
        if !self.limiter.allow_at(client, t.limiter) {
            self.metrics.inc_rate_limited();
            return Err(Resolution::Drop);
        }
        let request = match DnsPacket::from_bytes(req) {
            Ok(p) => p,
            Err(_) => {
                self.metrics.inc_error();
                return Err(Resolution::Drop);
            },
        };
        assert(request@.questions.len() == request.questions@.len());
        // Blocklist check: if the queried name is on the blocklist, return
        // a synthesized NXDOMAIN immediately (before any zone lookup or
        // forwarding). This prevents blocked domains from being forwarded
        // upstream or answered from the local zone.
        if request.questions.len() > 0 && self.blocklist.is_blocked(
            request.questions[0].qname.as_str(),
        ) {
            self.metrics.inc_blocked();
            let synth = synth_response(&request, RCODE_NXDOMAIN);
            return Err(Resolution::Ready(encode(&synth, transport)));
        }
        Ok(request)
    }

    /// Answers a query that is neither dropped nor blocked, or says where to forward
    /// it.
    fn resolve_request(
        &mut self,
        request: DnsPacket,
        raw: &[u8],
        transport: Transport,
        t: Times,
    ) -> (r: Resolution)
        ensures
            final(self).same_config(old(self)),
            final(self).limiter == old(self).limiter,
            final(self).flights == old(self).flights,
            r@ == old(self).request_outcome(request@, raw@, transport, t),
            ({
                let q = request@.questions[0];
                let name = lowercase(q.qname);
                let key = cache_key(name, q.qtype);
                let m = old(self).metrics;
                if old(self).goes_upstream(request@) {
                    &&& final(self).cache@ == after_get(old(self).cache@, key, t.cache)
                    &&& final(self).metrics == (if fresh(old(self).cache@, key, t.cache) {
                        Metrics { cache_hits: next(m.cache_hits), ..m }
                    } else if old(self).forward_rules.upstream_for(name) is Some || old(
                        self,
                    ).recursive is Some {
                        m
                    } else {
                        Metrics { authoritative: next(m.authoritative), ..m }
                    })
                } else {
                    &&& final(self).cache@ == old(self).cache@
                    &&& final(self).metrics == (Metrics {
                        authoritative: next(m.authoritative),
                        ..m
                    })
                }
            }),
    {
        assert(request@.questions.len() == request.questions@.len());
        let mut response = request.build_response(&self.zones);
        let rcode: u16 = response.header.flags & 0x000F;
        let rd_set = request.header.flags & FLAG_RD != 0;
        self.refine(&request, &mut response, t.unix);
        // Forward only when the name is unknown locally, recursion is offered,
        // and the client actually requested recursion.
        if rcode == RCODE_NXDOMAIN && rd_set && self.recursion_available()
            && request.questions.len() > 0 {
            return self.resolve_upstream(request, &response, raw, transport, t);
        }
        // Local (authoritative) answer.
        self.metrics.inc_authoritative();
        if self.recursion_available() {
            response.header.flags = response.header.flags | FLAG_RA;
        }
        proof {
            let answer = old(self).local_answer(request@, t.unix);
            let flags = if old(self).offers_recursion() {
                answer.header.flags | FLAG_RA
            } else {
                answer.header.flags
            };
            assert(response@ =~= (PacketView {
                header: DnsHeader { flags, ..answer.header },
                ..answer
            }));
        }
        Resolution::Ready(encode(&response, transport))
    }

    /// Signs an answer and synthesizes addresses, as far as it is configured.
    fn refine(&self, request: &DnsPacket, response: &mut DnsPacket, unix: u32)
        requires
            old(response)@ == response_to(request@, &self.zones),
        ensures
            final(response)@ == self.local_answer(request@, unix),
    {
        assert(request@.questions.len() == request.questions@.len());
        if request.questions.len() == 0 {
            return;
        }
        let question = &request.questions[0];
        assert(request@.questions[0] == question@);
        // DNSSEC: if signing is enabled, add DNSKEY records for DNSKEY queries
        // at a zone apex, and sign answer RRsets with RRSIG.
        if let Some(keys) = &self.dnssec_keys {
            apply_dnssec(
                response,
                &self.zones,
                question.qname.as_str(),
                question.qtype,
                keys,
                unix,
            );
        }
        // DNS64: if this was an AAAA query that got no AAAA answers but the
        // zone has A records for the name, synthesize AAAA records by
        // embedding the IPv4 address in the NAT64 prefix (RFC 6147).
        if let Some(prefix) = &self.dns64_prefix {
            if question.qtype == DnsRecord::TYPE_AAAA {
                apply_dns64(response, &self.zones, question.qname.as_str(), prefix);
            }
        }
    }

    /// Answers a query for a name that is unknown here from the cache, or says
    /// where to forward it.
    fn resolve_upstream(
        &mut self,
        request: DnsPacket,
        response: &DnsPacket,
        raw: &[u8],
        transport: Transport,
        t: Times,
    ) -> (r: Resolution)
        requires
            old(self).goes_upstream(request@),
            response@ == old(self).local_answer(request@, t.unix),
        ensures
            final(self).same_config(old(self)),
            final(self).limiter == old(self).limiter,
            final(self).flights == old(self).flights,
            r@ == old(self).request_outcome(request@, raw@, transport, t),
            ({
                let name = lowercase(request@.questions[0].qname);
                let key = cache_key(name, request@.questions[0].qtype);
                let m = old(self).metrics;
                &&& final(self).cache@ == after_get(old(self).cache@, key, t.cache)
                &&& final(self).metrics == (if fresh(old(self).cache@, key, t.cache) {
                    Metrics { cache_hits: next(m.cache_hits), ..m }
                } else if old(self).forward_rules.upstream_for(name) is Some || old(self).recursive
                    is Some {
                    m
                } else {
                    Metrics { authoritative: next(m.authoritative), ..m }
                })
            }),
    {
        assert(request@.questions.len() == request.questions@.len());
        let name = to_lowercase(request.questions[0].qname.as_str());
        let qtype: u16 = request.questions[0].qtype;
        assert(request@.questions[0] == request.questions@[0]@);
        if let Some(cached) = self.cache.get_at(name.as_str(), qtype, t.cache) {
            self.metrics.inc_cache_hit();
            proof {
                let key = cache_key(name@, qtype);
                assert(cached@ =~= old(self).cache@[key].records@);
            }
            return Resolution::Ready(replay(cached.as_slice(), &request, transport));
        }
        // Check conditional forwarding rules first. If a rule matches,
        // forward to that specific upstream. Otherwise, if recursive mode
        // is enabled, resolve iteratively from root. If neither, the name
        // is truly unknown -> NXDOMAIN.

        let upstream: SocketAddr = match self.forward_rules.match_name(name.as_str()) {
            Some(u) => u,
            None => if self.recursive.is_some() {
                recursive_sentinel()
            } else {
                self.metrics.inc_authoritative();
                return Resolution::Ready(encode(response, transport));
            },
        };
        let raw_copy = copy_range(raw, 0, raw.len());
        assert(raw_copy@ =~= raw@);
        Resolution::Forward(
            ForwardCtx { request, raw: raw_copy, name, qtype, upstream, transport },
        )
    }

    /// Whether a query over a transport has the outcome, at some time, and leaves the
    /// state `post` behind.
    pub open spec fn resolves(
        &self,
        post: &Self,
        req: Seq<u8>,
        client: IpAddr,
        transport: Transport,
        outcome: Outcome,
    ) -> bool {
        if transport == Transport::Tcp && Self::is_transfer_query(req) {
            &&& read_message(req) matches Ok(request)
            &&& outcome == Outcome::Ready(message_octets(self.transfer_answer(request, client)))
            &&& *post == (ServerState {
                metrics: self.transfer_metrics(request, client),
                ..*self
            })
        } else {
            &&& post.flights == self.flights
            &&& exists|t: Times|
                outcome == #[trigger] self.local_outcome(req, client, transport, t) && post.metrics
                    == self.local_metrics(req, client, t) && post.limiter@ == self.limiter.counted(
                    client,
                    t.limiter,
                ) && post.cache@ == self.local_cache(req, client, t)
        }
    }

    /// Resolves a raw request, up to upstream forwarding where that is needed.
    ///
    /// AXFR (zone transfer) is only valid over TCP-based transports and requires
    /// ACL authorization; it is handled before the normal path.
    pub fn resolve(&mut self, req: &[u8], client: IpAddr, transport: Transport) -> (r: Resolution)
        ensures
            final(self).same_config(old(self)),
            old(self).resolves(final(self), req@, client, transport, r@),
    {
        if transport == Transport::Tcp {
            if let Some(resp) = self.try_axfr(req, client) {
                return Resolution::Ready(resp);
            }
        }
        self.resolve_local(req, client, transport)
    }

    /// How a forwarded query is resolved: the sentinel address stands for the
    /// recursive resolver.
    pub open spec fn route_of(ctx: ForwardView) -> ForwardRoute {
        if ctx.upstream.ip == IpAddr::V4(Ipv4Addr { bits: 0 }) && ctx.upstream.port == 0 {
            ForwardRoute::Recursive
        } else {
            ForwardRoute::Upstream(ctx.upstream)
        }
    }

    /// Whether a query for the same name and type is being asked upstream.
    pub open spec fn under_way(&self, ctx: ForwardView) -> bool {
        self.flights@.contains((ctx.name, ctx.qtype))
    }

    /// Whether beginning to forward a query makes this state the other one and says
    /// the route: none where the same query is being asked already.
    pub open spec fn begins(
        &self,
        post: &Self,
        ctx: ForwardView,
        route: Option<ForwardRoute>,
    ) -> bool {
        &&& route == (if self.under_way(ctx) {
            None
        } else {
            Some(Self::route_of(ctx))
        })
        &&& post.flights@ == self.flights@.insert((ctx.name, ctx.qtype))
        &&& *post == (ServerState {
            flights: post.flights,
            metrics: if self.under_way(ctx) {
                Metrics { coalesced: next(self.metrics.coalesced), ..self.metrics }
            } else {
                Metrics { forwarded: next(self.metrics.forwarded), ..self.metrics }
            },
            ..*self
        })
    }

    /// Begins to forward a query: says how to resolve it, or, where the same query is
    /// being asked already, that its reply is to be waited for.
    ///
    /// Single-flight: the first caller for a `(name, qtype)` performs the upstream
    /// query; concurrent callers for the same key wait for and share that one
    /// response. This prevents a "thundering herd" of identical upstream queries on
    /// a cache miss.
    pub fn begin_forward(&mut self, ctx: &ForwardCtx) -> (r: Option<ForwardRoute>)
        ensures
            old(self).begins(final(self), ctx@, r),
    {
        if !self.flights.join(ctx.name.as_str(), ctx.qtype) {
            self.metrics.inc_coalesced();
            return None;
        }
        self.metrics.inc_forwarded();
        if ctx.upstream.ip == IpAddr::V4(Ipv4Addr { bits: 0 }) && ctx.upstream.port == 0 {
            Some(ForwardRoute::Recursive)
        } else {
            Some(ForwardRoute::Upstream(ctx.upstream))
        }
    }

    /// Gives up a query that was being asked upstream, so that the next one for the
    /// same name and type asks again.
    pub fn abandon_forward(&mut self, ctx: &ForwardCtx)
        ensures
            final(self).flights@ == old(self).flights@.remove((ctx@.name, ctx@.qtype)),
            *final(self) == (ServerState { flights: final(self).flights, ..*old(self) }),
    {
        self.flights.land(ctx.name.as_str(), ctx.qtype);
    }

    /// The octets that stand for the reply to a forwarded query: the reply itself,
    /// and SERVFAIL where there is none.
    pub open spec fn forward_reply(ctx: ForwardView, reply: Option<Seq<u8>>) -> Seq<u8> {
        match reply {
            Some(b) => b,
            None => message_octets(synthesized(ctx.request, RCODE_SERVFAIL)),
        }
    }

    /// The cache after a reply at the time `now`: a reply that parses and may be
    /// cached is kept under the name and type of the query.
    pub open spec fn cache_after_reply(
        &self,
        ctx: ForwardView,
        reply: Option<Vec<u8>>,
        now: u64,
    ) -> Map<Seq<char>, Entry<u8>> {
        match reply {
            Some(b) => match read_message(b@) {
                Ok(p) => match cache_ttl_spec(p) {
                    Some(ttl) => after_insert(
                        self.cache@,
                        self.cache.capacity_spec(),
                        cache_key(ctx.name, ctx.qtype),
                        Entry { records: b, inserted_at: now, ttl_secs: ttl },
                    ),
                    None => self.cache@,
                },
                Err(_) => self.cache@,
            },
            None => self.cache@,
        }
    }

    /// Whether taking the reply to a forwarded query, or the news that there is none,
    /// makes this state the other one and gives the octets to share.
    pub open spec fn finishes(
        &self,
        post: &Self,
        ctx: ForwardView,
        reply: Option<Vec<u8>>,
        now: u64,
        shared: Seq<u8>,
    ) -> bool {
        &&& post.same_config(self)
        &&& post.limiter == self.limiter
        &&& post.flights@ == self.flights@.remove((ctx.name, ctx.qtype))
        &&& shared == Self::forward_reply(
            ctx,
            match reply {
                Some(b) => Some(b@),
                None => None,
            },
        )
        &&& exists|kept: Option<Vec<u8>>| #[trigger]
            same_octets(kept, reply) && post.cache@ == self.cache_after_reply(ctx, kept, now)
        &&& post.metrics == (if reply is None {
            Metrics { errors: next(self.metrics.errors), ..self.metrics }
        } else {
            self.metrics
        })
    }

    /// Takes the reply to a forwarded query, or the news that there is none: caches
    /// any parseable answer and returns the bytes to relay (SERVFAIL on failure),
    /// which [`replay`] frames for each client. The query is then over.
    pub fn finish_forward(&mut self, ctx: &ForwardCtx, reply: Option<Vec<u8>>, now: u64) -> (r: Vec<
        u8,
    >)
        ensures
            old(self).finishes(final(self), ctx@, reply, now, r@),
    {
        self.flights.land(ctx.name.as_str(), ctx.qtype);
        match reply {
            Some(bytes) => {
                let copy = copy_range(bytes.as_slice(), 0, bytes.len());
                assert(copy@ =~= bytes@);
                assert(same_octets(Some(copy), reply));
                if let Ok(parsed) = DnsPacket::from_bytes(bytes.as_slice()) {
                    if let Some(ttl) = cache_ttl(&parsed) {
                        self.cache.insert_at(ctx.name.as_str(), ctx.qtype, copy, ttl, now);
                    }
                }
                bytes
            },
            None => {
                assert(same_octets(None, reply));
                self.metrics.inc_error();
                let servfail = synth_response(&ctx.request, RCODE_SERVFAIL);
                // Raw DNS message bytes (not transport-encoded); replay() handles
                // UDP truncation and EDNS echo.
                servfail.to_bytes()
            },
        }
    }
}

/// What becomes of a query rests on the configuration and the cache alone.
proof fn lemma_same_outcome(
    a: &ServerState,
    b: &ServerState,
    request: PacketView,
    raw: Seq<u8>,
    transport: Transport,
    t: Times,
)
    requires
        b.same_config(a),
        b.cache == a.cache,
    ensures
        b.goes_upstream(request) == a.goes_upstream(request),
        b.local_answer(request, t.unix) == a.local_answer(request, t.unix),
        b.request_outcome(request, raw, transport, t) == a.request_outcome(
            request,
            raw,
            transport,
            t,
        ),
{
}

/// Frames the shared reply to a forwarded query for a client that waited for it.
/// Where the query was given up without a reply, the client gets SERVFAIL.
pub fn follow(ctx: &ForwardCtx, shared: Option<&Vec<u8>>) -> (r: Vec<u8>)
    ensures
        r@ == replayed(
            ServerState::forward_reply(
                ctx@,
                match shared {
                    Some(b) => Some(b@),
                    None => None,
                },
            ),
            ctx@.request,
            ctx@.transport,
        ),
{
    match shared {
        Some(reply) => replay(reply.as_slice(), &ctx.request, ctx.transport),
        None => {
            // Leader vanished without publishing; fail closed.
            let servfail = synth_response(&ctx.request, RCODE_SERVFAIL).to_bytes();
            replay(servfail.as_slice(), &ctx.request, ctx.transport)
        },
    }
}

/// Whether two replies hold the same octets.
pub open spec fn same_octets(a: Option<Vec<u8>>, b: Option<Vec<u8>>) -> bool {
    match (a, b) {
        (Some(x), Some(y)) => x@ == y@,
        (None, None) => true,
        _ => false,
    }
}

/// What a transfer holds between its SOA records is every record of the zone that is
/// not an SOA record, as often as the zone holds it and in order.
pub proof fn law_non_soa(rs: Seq<RecordView>)
    ensures
        non_soa(rs) == rs.filter(|r: RecordView| !(r is SOA)),
    decreases rs.len(),
{
    reveal(Seq::filter);
    if rs.len() > 0 {
        law_non_soa(rs.drop_last());
    }
    assert(non_soa(rs) =~= rs.filter(|r: RecordView| !(r is SOA)));
}

/// A transfer loses nothing: every record of every owner of the zone is in it, of the SOA
/// records the first.
pub proof fn law_transfer_complete(zone: &Zone, name: Seq<char>, r: RecordView)
    requires
        zone.owners_in_order(),
        zone@.contains_key(name),
        zone@[name].contains(r),
        r is SOA ==> first_soa(zone.all()) == Some(r),
    ensures
        transfer_of(zone).contains(r),
{
    let rs = zone.all();
    law_all_records(zone, name, r);
    law_non_soa(rs);
    if r is SOA {
        assert(transfer_of(zone)[0] == r);
    } else {
        let not_soa = |x: RecordView| !(x is SOA);
        let i = rs.index_of(r);
        rs.lemma_filter_contains(not_soa, i);
        let kept = rs.filter(not_soa);
        assert(kept.contains(rs[i]));
        let j = kept.index_of(r);
        let soa = match first_soa(rs) {
            Some(x) => seq![x],
            None => Seq::empty(),
        };
        assert(transfer_of(zone)[soa.len() + j] == r);
    }
}

/// A permitted client that asks for the transfer of a zone gets the zone: with authority,
/// without an error, and under its own ID.
pub proof fn law_transfer_served(
    state: &ServerState,
    request: PacketView,
    client: IpAddr,
    z: AuthZone,
)
    requires
        permits(state.axfr_acl@, client),
        find_zone(state.zones.seq(), lowercase(request.questions[0].qname)) == Some(z),
    ensures
        ({
            let r = state.transfer_answer(request, client);
            let all = z.records.all();
            let middle = all.filter(|x: RecordView| !(x is SOA));
            &&& r.header.id == request.header.id
            &&& r.header.flags & 0x000F == 0
            &&& r.header.flags & 0x8000 != 0
            &&& r.header.flags & FLAG_AA != 0
            &&& r.questions == request.questions
            &&& r.authorities.len() == 0
            &&& match first_soa(all) {
                Some(soa) => r.answers == seq![soa] + middle + seq![soa],
                None => r.answers == middle,
            }
        }),
{
    let g = request.header.flags;
    let all = z.records.all();
    law_non_soa(all);
    assert({
        let f = 0x8000u16 | (g & 0x0100) | 0x0400;
        &&& f & 0x000F == 0
        &&& f & 0x8000 != 0
        &&& f & 0x0400 != 0
    }) by (bit_vector);
    let none = Seq::<RecordView>::empty();
    assert(none + non_soa(all) + none =~= non_soa(all));
}

/// The records of one owner and type are all those of the list that have both, in order.
pub proof fn law_group(rs: Seq<RecordView>, key: (Seq<char>, u16))
    ensures
        group(rs, key) == rs.filter(|r: RecordView| r.domain() == key.0 && r.rtype() == key.1),
    decreases rs.len(),
{
    reveal(Seq::filter);
    if rs.len() > 0 {
        law_group(rs.drop_last(), key);
    }
    assert(group(rs, key) =~= rs.filter(
        |r: RecordView| r.domain() == key.0 && r.rtype() == key.1,
    ));
}

/// Owners and types are listed once each.
pub proof fn law_group_keys_once(rs: Seq<RecordView>)
    ensures
        group_keys(rs).no_duplicates(),
    decreases rs.len(),
{
    if rs.len() > 0 {
        law_group_keys_once(rs.drop_last());
    }
}

/// The AAAA records that are made up for a name are one for each of its A records, in
/// order: the address behind the prefix, and the TTL kept.
pub proof fn law_aaaa_for(rs: Seq<RecordView>, prefix: Ipv6Addr, owner: Seq<char>)
    ensures
        aaaa_for(rs, prefix, owner) == rs.filter(|r: RecordView| r is A).map_values(
            |r: RecordView|
                RecordView::AAAA {
                    domain: owner,
                    addr: embedded(prefix, r->A_addr),
                    ttl: r->A_ttl,
                },
        ),
    decreases rs.len(),
{
    reveal(Seq::filter);
    let is_a = |r: RecordView| r is A;
    let made = |r: RecordView|
        RecordView::AAAA { domain: owner, addr: embedded(prefix, r->A_addr), ttl: r->A_ttl };
    if rs.len() > 0 {
        let init = rs.drop_last();
        law_aaaa_for(init, prefix, owner);
        if rs.last() is A {
            assert(init.filter(is_a).push(rs.last()).map_values(made) =~= init.filter(
                is_a,
            ).map_values(made).push(made(rs.last())));
        }
    }
    assert(aaaa_for(rs, prefix, owner) =~= rs.filter(is_a).map_values(made));
}

/// The signatures over some records: for each record there is one over just those that
/// have its owner and type, by the first key, with the least of their TTLs, from now until
/// thirty days later.
pub proof fn law_signatures(
    keys: &DnssecKeys,
    rs: Seq<RecordView>,
    signer: Seq<char>,
    now: u32,
    i: int,
)
    requires
        keys.can_sign(),
        0 <= i < rs.len(),
    ensures
        ({
            let set = rs.filter(
                |r: RecordView| r.domain() == rs[i].domain() && r.rtype() == rs[i].rtype(),
            );
            &&& signatures(keys, rs, signer, now).contains(
                rrsig_of(
                    &keys.keys@[0],
                    set,
                    signer,
                    least_ttl(set, 3600),
                    now,
                    ((now + 30 * 24 * 60 * 60) % 0x1_0000_0000) as u32,
                ),
            )
            &&& set.contains(rs[i])
        }),
{
    let key = group_key(rs[i]);
    law_group(rs, key);
    lemma_group_keys(rs);
    assert(group_keys(rs).contains(key));
    let m = group_keys(rs).index_of(key);
    let sigs = signatures(keys, rs, signer, now);
    assert(sigs[m] == group_signature(keys, rs, key, signer, now));
    let same = |r: RecordView| r.domain() == key.0 && r.rtype() == key.1;
    rs.lemma_filter_contains(same, i);
    assert(rs.filter(same) =~= rs.filter(
        |r: RecordView| r.domain() == rs[i].domain() && r.rtype() == rs[i].rtype(),
    ));
}

/// There are no more signatures than records, and a server that cannot sign adds none.
pub proof fn law_signature_count(
    keys: &DnssecKeys,
    rs: Seq<RecordView>,
    signer: Seq<char>,
    now: u32,
)
    ensures
        signatures(keys, rs, signer, now).len() <= rs.len(),
        !keys.can_sign() ==> signatures(keys, rs, signer, now).len() == 0,
        keys.can_sign() && rs.len() > 0 ==> signatures(keys, rs, signer, now).len() > 0,
{
    lemma_group_count(rs);
}

proof fn lemma_group_count(rs: Seq<RecordView>)
    ensures
        group_keys(rs).len() <= rs.len(),
        rs.len() > 0 ==> group_keys(rs).len() > 0,
    decreases rs.len(),
{
    if rs.len() > 0 {
        lemma_group_count(rs.drop_last());
    }
}

/// The least TTL is that of one of the records and no greater than any; without records it
/// is the one that is given.
pub proof fn law_least_ttl(rs: Seq<RecordView>, or: u32, i: int)
    ensures
        rs.len() == 0 ==> least_ttl(rs, or) == or,
        0 <= i < rs.len() ==> least_ttl(rs, or) <= rs[i].ttl(),
        rs.len() > 0 ==> exists|k: int|
            0 <= k < rs.len() && (#[trigger] rs[k]).ttl() == least_ttl(rs, or),
    decreases rs.len(),
{
    if rs.len() == 1 {
        assert(rs[0].ttl() == least_ttl(rs, or));
    } else if rs.len() > 1 {
        let init = rs.drop_last();
        law_least_ttl(init, or, i);
        let k = choose|k: int|
            0 <= k < init.len() && (#[trigger] init[k]).ttl() == least_ttl(init, or);
        assert(rs[k] == init[k]);
        assert(rs[rs.len() - 1] == rs.last());
        if 0 <= i < init.len() {
            assert(init[i] == rs[i]);
        }
    }
}

/// Records without their OPT records are all the others, in order.
pub proof fn law_opt_stripped(rs: Seq<RecordView>)
    ensures
        opt_stripped(rs) == rs.filter(|r: RecordView| !(r is OPT)),
    decreases rs.len(),
{
    reveal(Seq::filter);
    if rs.len() > 0 {
        law_opt_stripped(rs.drop_last());
    } else {
        assert(rs =~= Seq::empty());
    }
    assert(opt_stripped(rs) =~= rs.filter(|r: RecordView| !(r is OPT)));
}

/// Replacing the OPT record changes the first one alone.
pub proof fn law_opt_replaced(rs: Seq<RecordView>, size: u16, k: int)
    requires
        0 <= k < rs.len(),
        rs[k] is OPT,
        forall|j: int| 0 <= j < k ==> !((#[trigger] rs[j]) is OPT),
    ensures
        opt_replaced(rs, size) == rs.update(k, RecordView::OPT { udp_size: size }),
    decreases rs.len(),
{
    let new = RecordView::OPT { udp_size: size };
    if k == 0 {
        assert(seq![new] + rs.drop_first() =~= rs.update(0, new));
    } else {
        let rest = rs.drop_first();
        assert(!(rs[0] is OPT));
        assert forall|j: int| 0 <= j < k - 1 implies !((#[trigger] rest[j]) is OPT) by {
            assert(rest[j] == rs[j + 1]);
        }
        law_opt_replaced(rest, size, k - 1);
        assert(seq![rs[0]] + rest.update(k - 1, new) =~= rs.update(k, new));
    }
}

/// How long a response without answers is cached: as long as the SOA record of the zone
/// says, an hour at most, and half a minute without one.
pub proof fn law_negative_ttl(p: PacketView)
    requires
        p.answers.len() == 0,
        p.header.flags & 0x000F == 0 || p.header.flags & 0x000F == 3,
    ensures
        match first_soa(p.authorities) {
            Some(soa) => soa is SOA && cache_ttl_spec(p) == Some(
                if soa->minimum <= 3600 {
                    soa->minimum
                } else {
                    3600u32
                },
            ),
            None => cache_ttl_spec(p) == Some(30u32),
        },
{
    lemma_first_soa_is_soa(p.authorities);
}

/// A zone that the server does not hold is not transferred, and a transfer query is one
/// whose first question is of type AXFR.
pub proof fn law_transfer_unknown(
    state: &ServerState,
    req: Seq<u8>,
    request: PacketView,
    client: IpAddr,
)
    requires
        read_message(req) == Ok::<_, DnsError>(request),
    ensures
        ServerState::is_transfer_query(req) <==> request.questions.len() > 0
            && request.questions[0].qtype == 252,
        permits(state.axfr_acl@, client) && find_zone(
            state.zones.seq(),
            lowercase(request.questions[0].qname),
        ) is None ==> {
            let r = state.transfer_answer(request, client);
            &&& r.header.id == request.header.id
            &&& r.header.flags & 0x000F == 3
            &&& r.questions == request.questions
            &&& r.answers.len() == 0
            &&& r.authorities.len() == 0
        },
{
    let g = request.header.flags;
    assert((0x8000u16 | (g & 0x0100) | 0x0080 | 3) & 0x000F == 3) by (bit_vector);
}

/// A query that the rules send to an upstream goes there; the address and port that are all
/// zero stand for walking down from the root.
pub proof fn law_route(ctx: ForwardView)
    ensures
        ServerState::route_of(ctx) is Recursive <==> ctx.upstream.ip == IpAddr::V4(
            Ipv4Addr { bits: 0 },
        ) && ctx.upstream.port == 0,
        !(ServerState::route_of(ctx) is Recursive) ==> ServerState::route_of(ctx)
            == ForwardRoute::Upstream(ctx.upstream),
        ctx.upstream == recursive_sentinel_spec() ==> ServerState::route_of(ctx) is Recursive,
{
}

/// A replay keeps the message: over TCP all octets but the ID, and over UDP all questions
/// and records of the sections but the OPT record, and all flags.
pub proof fn law_replay_keeps(raw: Seq<u8>, p: PacketView, request: PacketView)
    requires
        read_message(raw) == Ok::<_, DnsError>(p),
    ensures
        exists|q: PacketView|
            {
                &&& replayed(raw, request, Transport::Udp) == #[trigger] q.udp_octets()
                &&& q.header.id == request.header.id
                &&& q.header.flags == p.header.flags
                &&& q.questions == p.questions
                &&& q.answers == p.answers
                &&& q.authorities == p.authorities
                &&& q.additionals == edns_aligned(
                    p.additionals,
                    edns_size(request.additionals),
                )
            },
        with_id(raw, request.header.id).skip(2) == raw.skip(2),
{
    let q = PacketView {
        header: DnsHeader { id: request.header.id, ..p.header },
        additionals: edns_aligned(p.additionals, edns_size(request.additionals)),
        ..p
    };
    assert(replayed(raw, request, Transport::Udp) == q.udp_octets());
    lemma_be2(request.header.id as nat);
    assert(with_id(raw, request.header.id).skip(2) =~= raw.skip(2));
}

/// A reply is not cached where there is none, where it is no message, or where its code is
/// neither NOERROR nor NXDOMAIN; and caching one leaves all others alone while there is
/// room.
pub proof fn law_reply_cached(
    state: &ServerState,
    ctx: ForwardView,
    reply: Option<Vec<u8>>,
    now: u64,
    other: Seq<char>,
)
    ensures
        ({
            let c = state.cache_after_reply(ctx, reply, now);
            &&& reply is None ==> c == state.cache@
            &&& reply matches Some(b) ==> (read_message(b@) is Err ==> c == state.cache@)
            &&& reply matches Some(b) ==> (read_message(b@) matches Ok(p) ==> (p.header.flags
                & 0x000F != 0 && p.header.flags & 0x000F != 3 ==> c == state.cache@))
            &&& other != cache_key(ctx.name, ctx.qtype) && state.cache@.dom().len()
                < state.cache.capacity_spec() ==> c.contains_key(other)
                == state.cache@.contains_key(other) && c[other] == state.cache@[other]
        }),
{
}

/// What the counters count: every query in the total; one that is turned away, unreadable
/// or blocked in a counter of its own; and one that is answered among the cache hits or the
/// authoritative answers. One that goes upstream is counted when it does.
pub proof fn law_counted_once(
    state: &ServerState,
    req: Seq<u8>,
    client: IpAddr,
    transport: Transport,
    t: Times,
)
    ensures
        ({
            let m = state.metrics;
            let n = state.local_metrics(req, client, t);
            let counted = Metrics { total: next(m.total), ..m };
            let allowed = state.limiter.allows(client, t.limiter);
            &&& !allowed ==> n == (Metrics { rate_limited: next(m.rate_limited), ..counted })
            &&& allowed && read_message(req) is Err ==> n == (Metrics {
                errors: next(m.errors),
                ..counted
            })
            &&& allowed && (read_message(req) matches Ok(p) && p.questions.len() > 0 && blocks(
                state.blocklist@,
                p.questions[0].qname,
            )) ==> n == (Metrics { blocked: next(m.blocked), ..counted })
            &&& state.local_outcome(req, client, transport, t) is Forward ==> n == counted
            &&& allowed && (read_message(req) matches Ok(p) && !state.is_blocked_query(p))
                && state.local_outcome(req, client, transport, t) is Ready ==> n == (Metrics {
                authoritative: next(m.authoritative),
                ..counted
            }) || n == (Metrics { cache_hits: next(m.cache_hits), ..counted })
        }),
{
}

} // verus!
