//! Full iterative recursive resolution (RFC 1034 section 5.3.3).
//!
//! Instead of forwarding to an upstream recursive resolver, queries are resolved
//! by walking the DNS delegation chain from the root servers down:
//!
//! 1. Start with root hints (the 13 root name servers).
//! 2. Send the query to a root server; it returns either an answer or a
//!    delegation (NS records + glue A/AAAA).
//! 3. Follow the delegation to the next authoritative server.
//! 4. Repeat until an answer is received or NXDOMAIN.
//!
//! Delegations are cached with their TTL to avoid re-querying the root on every
//! request.
//!
//! QNAME minimization (RFC 9156) is applied: at each delegation step, only the
//! minimal suffix needed for the next delegation is queried, improving privacy. Where
//! that leads nowhere, the walk starts over from the root and queries the full name.
//!
//! The walk itself does no I/O: it says which servers to ask for which name, and
//! is told what they replied.

use crate::acl::string_views;
use crate::dns::encoder::message_octets;
use crate::dns::error::DnsError;
use crate::dns::header::DnsHeader;
use crate::dns::packet::{edns_size, read_message, DnsPacket, PacketView};
use crate::dns::question::{DnsQuestion, QuestionView};
use crate::dns::record::{record_views, DnsRecord, RecordView};
use crate::dns::round_trip::{
    is_modelled, law_answers_back, law_message_back, law_round_trip, message_ok, message_short,
};
use crate::net::{IpAddr, Ipv4Addr, SocketAddr};
use crate::suffix::{lemma_below, under};
use crate::text::{
    after, eq_ignore_ascii_case, finishes_with, join_from, joined, lemma_cut, lemma_joined_cut,
    lemma_joined_pieces, lemma_pieces_joined, lowercase, occurs, pieces, same_but_case, split,
    split_once, text_eq, texts, to_lowercase, trim_end_of, trim_tail,
};
use crate::time::{Clock, NANOS_PER_SEC};
use dashmap::DashMap;
use vstd::prelude::*;

verus! {

/// Maximum delegation depth (root, TLD, ..., authoritative). RFC 1034
/// suggests 20 as a safe upper bound.
pub const MAX_DELEGATION_DEPTH: usize = 20;

/// Maximum UDP payload size we advertise via EDNS(0) when querying auth servers.
pub const EDNS_UDP_SIZE: u16 = 1232;

/// How many concurrent recursive resolutions run at once.
pub const MAX_CONCURRENT: usize = 128;

/// Seconds to wait for the reply of an authoritative server.
pub const QUERY_TIMEOUT_SECS: u64 = 2;

/// The port that name servers listen on.
pub const DNS_PORT: u16 = 53;

/// The name server at an IPv4 address.
pub open spec fn server_at(a: int, b: int, c: int, d: int) -> SocketAddr {
    SocketAddr {
        ip: IpAddr::V4(Ipv4Addr { bits: (a * 0x100_0000 + b * 0x1_0000 + c * 0x100 + d) as u32 }),
        port: DNS_PORT,
        scope_id: 0,
    }
}

/// The root name servers.
pub open spec fn root_server_seq() -> Seq<SocketAddr> {
    seq![
        server_at(198, 41, 0, 4),
        server_at(170, 247, 170, 2),
        server_at(192, 33, 4, 12),
        server_at(199, 7, 91, 13),
        server_at(192, 203, 230, 10),
        server_at(192, 5, 5, 241),
        server_at(192, 112, 36, 4),
        server_at(198, 97, 190, 53),
        server_at(192, 36, 148, 17),
        server_at(192, 58, 128, 30),
        server_at(193, 0, 14, 129),
        server_at(199, 7, 83, 42),
        server_at(202, 12, 27, 33),
    ]
}

/// The name of the root server with the given letter.
pub open spec fn root_server_name(letter: char) -> Seq<char> {
    seq![letter] + ".root-servers.net"@
}

/// Root hint records (RFC 1035 section 13.1). These are the 13 root name servers'
/// A records, used to bootstrap the delegation chain. They rarely change;
/// the latest list is at <https://www.iana.org/domains/root/servers>.
pub fn root_hints() -> (r: Vec<(&'static str, Ipv4Addr)>)
    ensures
        r@.len() == root_server_seq().len(),
        forall|i: int|
            0 <= i < r@.len() ==> root_server_seq()[i].ip == IpAddr::V4((#[trigger] r@[i]).1)
                && r@[i].0@ == root_server_name(('a' as u32 + i) as char),
{
    let mut out: Vec<(&'static str, Ipv4Addr)> = Vec::new();
    out.push(("a.root-servers.net", Ipv4Addr::new(198, 41, 0, 4)));
    out.push(("b.root-servers.net", Ipv4Addr::new(170, 247, 170, 2)));
    out.push(("c.root-servers.net", Ipv4Addr::new(192, 33, 4, 12)));
    out.push(("d.root-servers.net", Ipv4Addr::new(199, 7, 91, 13)));
    out.push(("e.root-servers.net", Ipv4Addr::new(192, 203, 230, 10)));
    out.push(("f.root-servers.net", Ipv4Addr::new(192, 5, 5, 241)));
    out.push(("g.root-servers.net", Ipv4Addr::new(192, 112, 36, 4)));
    out.push(("h.root-servers.net", Ipv4Addr::new(198, 97, 190, 53)));
    out.push(("i.root-servers.net", Ipv4Addr::new(192, 36, 148, 17)));
    out.push(("j.root-servers.net", Ipv4Addr::new(192, 58, 128, 30)));
    out.push(("k.root-servers.net", Ipv4Addr::new(193, 0, 14, 129)));
    out.push(("l.root-servers.net", Ipv4Addr::new(199, 7, 83, 42)));
    out.push(("m.root-servers.net", Ipv4Addr::new(202, 12, 27, 33)));
    proof {
        reveal_strlit(".root-servers.net");
        reveal_strlit("a.root-servers.net");
        reveal_strlit("b.root-servers.net");
        reveal_strlit("c.root-servers.net");
        reveal_strlit("d.root-servers.net");
        reveal_strlit("e.root-servers.net");
        reveal_strlit("f.root-servers.net");
        reveal_strlit("g.root-servers.net");
        reveal_strlit("h.root-servers.net");
        reveal_strlit("i.root-servers.net");
        reveal_strlit("j.root-servers.net");
        reveal_strlit("k.root-servers.net");
        reveal_strlit("l.root-servers.net");
        reveal_strlit("m.root-servers.net");
        assert(out@[0].0@ =~= root_server_name('a'));
        assert(out@[1].0@ =~= root_server_name('b'));
        assert(out@[2].0@ =~= root_server_name('c'));
        assert(out@[3].0@ =~= root_server_name('d'));
        assert(out@[4].0@ =~= root_server_name('e'));
        assert(out@[5].0@ =~= root_server_name('f'));
        assert(out@[6].0@ =~= root_server_name('g'));
        assert(out@[7].0@ =~= root_server_name('h'));
        assert(out@[8].0@ =~= root_server_name('i'));
        assert(out@[9].0@ =~= root_server_name('j'));
        assert(out@[10].0@ =~= root_server_name('k'));
        assert(out@[11].0@ =~= root_server_name('l'));
        assert(out@[12].0@ =~= root_server_name('m'));
    }
    out
}

/// Returns the root server addresses from the built-in hints.
pub fn root_servers() -> (r: Vec<SocketAddr>)
    ensures
        r@ == root_server_seq(),
{
    let hints = root_hints();
    let mut out: Vec<SocketAddr> = Vec::new();
    let mut i: usize = 0;
    while i < hints.len()
        invariant
            i <= hints@.len(),
            out@.len() == i,
            hints@.len() == root_server_seq().len(),
            forall|j: int|
                0 <= j < hints@.len() ==> root_server_seq()[j].ip == IpAddr::V4(
                    (#[trigger] hints@[j]).1,
                ),
            forall|j: int| 0 <= j < i ==> #[trigger] out@[j] == root_server_seq()[j],
        decreases hints@.len() - i,
    {
        let s = SocketAddr::new(IpAddr::V4(hints[i].1), DNS_PORT);
        assert(s == root_server_seq()[i as int]);
        out.push(s);
        i = i + 1;
    }
    assert(out@ =~= root_server_seq());
    out
}

/// A cached delegation: NS names for a zone + their resolved addresses (glue).
#[derive(Debug)]
pub struct Delegation {
    /// NS hostnames authoritative for this zone suffix.
    pub ns_names: Vec<String>,
    /// Resolved A/AAAA addresses for those NS names (glue or separately resolved).
    pub ns_addrs: Vec<SocketAddr>,
    /// When this delegation was learnt.
    pub inserted_at: u64,
    /// For how many seconds it holds.
    pub ttl_secs: u32,
}

/// What a delegation says.
#[verifier::ext_equal]
pub struct DelegationView {
    pub names: Seq<Seq<char>>,
    pub addrs: Seq<SocketAddr>,
    pub inserted_at: u64,
    pub ttl_secs: u32,
}

impl View for Delegation {
    type V = DelegationView;

    open spec fn view(&self) -> DelegationView {
        DelegationView {
            names: string_views(self.ns_names@),
            addrs: self.ns_addrs@,
            inserted_at: self.inserted_at,
            ttl_secs: self.ttl_secs,
        }
    }
}

impl DelegationView {
    /// Whether the delegation no longer holds.
    pub open spec fn expired(self, now: u64) -> bool {
        now >= self.inserted_at + self.ttl_secs * NANOS_PER_SEC
    }
}

impl Clone for Delegation {
    fn clone(&self) -> (r: Self)
        ensures
            r@ == self@,
    {
        let ns_names = self.ns_names.clone();
        let ns_addrs = self.ns_addrs.clone();
        assert(string_views(ns_names@) =~= string_views(self.ns_names@));
        assert(ns_addrs@ =~= self.ns_addrs@);
        Delegation {
            ns_names,
            ns_addrs,
            inserted_at: self.inserted_at,
            ttl_secs: self.ttl_secs,
        }
    }
}

impl Delegation {
    /// Whether this delegation entry has expired.
    pub fn is_expired(&self, now: u64) -> (r: bool)
        ensures
            r == self@.expired(now),
    {
        now as u128 >= self.inserted_at as u128 + self.ttl_secs as u128 * NANOS_PER_SEC as u128
    }
}

/// The delegations that a map holds, by zone.
pub uninterp spec fn delegation_map(
    m: DashMap<String, Delegation>,
) -> Map<Seq<char>, DelegationView>;

/// `DashMap::new`: a map that holds nothing.
#[verifier::external_body]
fn delegations_new() -> (m: DashMap<String, Delegation>)
    ensures
        delegation_map(m) =~= map![],
{
    DashMap::new()
}

/// `DashMap::get`, with the value cloned: what is held for the key, if anything.
/// No reference into the map stays behind.
#[verifier::external_body]
fn delegations_get(m: &DashMap<String, Delegation>, zone: &str) -> (r: Option<Delegation>)
    ensures
        match r {
            Some(d) => delegation_map(*m).contains_key(zone@) && d@ == delegation_map(*m)[zone@],
            None => !delegation_map(*m).contains_key(zone@),
        },
{
    m.get(zone).map(|e| e.value().clone())
}

/// `DashMap::insert`: the key now has the value, in place of any it had before, and
/// nothing else changes.
#[verifier::external_body]
fn delegations_insert(m: &mut DashMap<String, Delegation>, zone: String, d: Delegation)
    ensures
        delegation_map(*final(m)) == delegation_map(*old(m)).insert(zone@, d@),
{
    m.insert(zone, d);
}

/// `DashMap::remove`: the key goes with its value, and nothing else changes.
#[verifier::external_body]
fn delegations_remove(m: &mut DashMap<String, Delegation>, zone: &str)
    ensures
        delegation_map(*final(m)) == delegation_map(*old(m)).remove(zone@),
{
    m.remove(zone);
}

/// The texts that are not empty.
pub open spec fn nonempty(ps: Seq<Seq<char>>) -> Seq<Seq<char>>
    decreases ps.len(),
{
    if ps.len() == 0 {
        Seq::empty()
    } else if ps.last().len() > 0 {
        nonempty(ps.drop_last()).push(ps.last())
    } else {
        nonempty(ps.drop_last())
    }
}

/// The labels of a name, empty ones left out.
pub open spec fn name_labels(name: Seq<char>) -> Seq<Seq<char>> {
    nonempty(pieces(name, '.'))
}

/// The name to ask the servers of `zone` for on the way to `name`: its last labels,
/// one more than the zone has; at the root the last one; and the whole name where
/// that is all of it.
pub open spec fn minimized(name: Seq<char>, zone: Seq<char>) -> Seq<char> {
    let labels = name_labels(name);
    if labels.len() == 0 {
        name
    } else if zone.len() == 0 {
        labels.last()
    } else {
        let n = name_labels(zone).len() + 1;
        if n >= labels.len() {
            name
        } else {
            joined(labels.skip(labels.len() - n), '.')
        }
    }
}

fn split_labels<'a>(name: &'a str) -> (r: Vec<&'a str>)
    ensures
        texts(r@) == name_labels(name@),
        r@.len() == name_labels(name@).len(),
{
    let parts = split(name, '.');
    let ghost ps = pieces(name@, '.');
    let mut out: Vec<&'a str> = Vec::new();
    let mut i: usize = 0;
    proof {
        assert(ps.take(0) =~= Seq::empty());
        assert(texts(out@) =~= Seq::empty());
        assert(texts(parts@).len() == parts@.len());
    }
    while i < parts.len()
        invariant
            i <= parts@.len(),
            ps == texts(parts@),
            texts(out@) == nonempty(ps.take(i as int)),
        decreases parts@.len() - i,
    {
        let ghost had = out@;
        proof {
            assert(ps.take(i + 1).drop_last() =~= ps.take(i as int));
            assert(ps.take(i + 1).last() == parts@[i as int]@);
        }
        if !parts[i].is_empty() {
            out.push(parts[i]);
            proof {
                assert(texts(out@) =~= texts(had).push(parts@[i as int]@));
            }
        }
        i = i + 1;
    }
    proof {
        assert(ps.take(i as int) =~= ps);
        assert(texts(out@).len() == out@.len());
    }
    out
}

/// Computes the minimized query name for QNAME minimization (RFC 9156).
///
/// Given the full `name` and the `current_zone` we're querying from, returns
/// the name with one more label than the current zone. For example:
/// - current_zone = "" (root), name = "www.example.com": "com"
/// - current_zone = "com", name = "www.example.com": "example.com"
/// - current_zone = "example.com", name = "www.example.com": "www.example.com" (full)
///
/// If the current zone already encompasses the full name, the full name is
/// returned (no further minimization possible).
pub fn minimized_qname(name: &str, current_zone: &str) -> (r: String)
    ensures
        r@ == minimized(name@, current_zone@),
{
    let labels = split_labels(name);
    if labels.len() == 0 {
        return name.to_owned();
    }
    if current_zone.is_empty() {
        // At root: query the TLD (last label).
        assert(texts(labels@).last() == labels@[labels@.len() - 1]@);
        return labels[labels.len() - 1].to_owned();
    }
    // Count labels in the current zone.

    let zone_labels: usize = split_labels(current_zone).len();
    // Query with zone_labels + 1 labels (from the right).
    if zone_labels >= labels.len() - 1 {
        return name.to_owned();
    }
    join_from(&labels, labels.len() - (zone_labels + 1), '.')
}

/// The zone that delegates a name: the name without its first label, or the name itself
/// where it has only one.
pub open spec fn delegation_zone_spec(name: Seq<char>) -> Seq<char> {
    if occurs(name, '.') {
        after(name, '.')
    } else {
        name
    }
}

/// Determines the zone suffix from the queried name and the NS names.
/// Returns the parent domain of the queried name (the zone that delegated).
pub fn delegation_zone(name: &str, _ns_names: &[String]) -> (r: String)
    ensures
        r@ == delegation_zone_spec(name@),
{
    // Use the parent domain of the queried name.
    // E.g. querying "www.example.com" -> delegation zone is "example.com".
    match split_once(name, '.') {
        Some((_, parent)) => parent.to_owned(),
        None => name.to_owned(),
    }
}

fn parent_zone(name: &str) -> (r: String)
    ensures
        r@ == parent_of(name@),
{
    match split_once(name, '.') {
        Some((_, parent)) => parent.to_owned(),
        None => {
            let root = String::new();
            assert(root@ =~= Seq::empty());
            root
        },
    }
}

/// The names of the NS records of a section.
pub open spec fn ns_names_of(rs: Seq<RecordView>) -> Seq<Seq<char>>
    decreases rs.len(),
{
    if rs.len() == 0 {
        Seq::empty()
    } else {
        match rs.last() {
            RecordView::NS { nameserver, .. } => ns_names_of(rs.drop_last()).push(nameserver),
            _ => ns_names_of(rs.drop_last()),
        }
    }
}

/// The smallest TTL of the NS records of a section; the largest that there can be
/// where it has none.
pub open spec fn ns_ttl_of(rs: Seq<RecordView>) -> u32
    decreases rs.len(),
{
    if rs.len() == 0 {
        u32::MAX
    } else {
        let least = ns_ttl_of(rs.drop_last());
        match rs.last() {
            RecordView::NS { ttl, .. } => if ttl < least {
                ttl
            } else {
                least
            },
            _ => least,
        }
    }
}

/// Whether a name is one of the given ones, whatever the case of its letters.
pub open spec fn is_named(names: Seq<Seq<char>>, domain: Seq<char>) -> bool {
    exists|i: int| 0 <= i < names.len() && same_but_case(#[trigger] names[i], domain)
}

/// The addresses of the given name servers among the records of a section.
pub open spec fn glue_of(rs: Seq<RecordView>, names: Seq<Seq<char>>) -> Seq<SocketAddr>
    decreases rs.len(),
{
    if rs.len() == 0 {
        Seq::empty()
    } else {
        let rest = glue_of(rs.drop_last(), names);
        match rs.last() {
            RecordView::A { domain, addr, .. } => if is_named(names, domain) {
                rest.push(SocketAddr { ip: IpAddr::V4(addr), port: DNS_PORT, scope_id: 0 })
            } else {
                rest
            },
            RecordView::AAAA { domain, addr, .. } => if is_named(names, domain) {
                rest.push(SocketAddr { ip: IpAddr::V6(addr), port: DNS_PORT, scope_id: 0 })
            } else {
                rest
            },
            _ => rest,
        }
    }
}

/// The addresses that unexpired delegations hold under the names of name servers.
pub open spec fn cached_addrs(
    names: Seq<Seq<char>>,
    known: Map<Seq<char>, DelegationView>,
    now: u64,
) -> Seq<SocketAddr>
    decreases names.len(),
{
    if names.len() == 0 {
        Seq::empty()
    } else {
        let rest = cached_addrs(names.drop_last(), known, now);
        let ns = names.last();
        if known.contains_key(ns) && !known[ns].expired(now) {
            rest + known[ns].addrs
        } else {
            rest
        }
    }
}

/// The delegation that a response holds: the name servers of its authority
/// section, with their addresses from the additional section, or else from what is
/// known. Without addresses there is none that could be followed.
pub open spec fn delegation_of(
    response: PacketView,
    known: Map<Seq<char>, DelegationView>,
    now: u64,
) -> Option<DelegationView> {
    let names = ns_names_of(response.authorities);
    let glue = glue_of(response.additionals, names);
    let addrs = if glue.len() > 0 {
        glue
    } else {
        cached_addrs(names, known, now)
    };
    if names.len() == 0 || addrs.len() == 0 {
        None
    } else {
        Some(
            DelegationView {
                names,
                addrs,
                inserted_at: now,
                ttl_secs: ns_ttl_of(response.authorities),
            },
        )
    }
}

/// The query that is sent to an authoritative server: recursion is not desired,
/// and a larger UDP response is.
pub open spec fn query_spec(name: Seq<char>, qtype: u16, id: u16) -> PacketView {
    PacketView {
        header: DnsHeader {
            id,
            flags: 0x0010,
            questions: 1,
            answers: 0,
            authorities: 0,
            additionals: 1,
        },
        questions: seq![QuestionView { qname: name, qtype, qclass: 1 }],
        answers: Seq::empty(),
        authorities: Seq::empty(),
        additionals: seq![RecordView::OPT { udp_size: EDNS_UDP_SIZE }],
    }
}

/// Builds the query for an authoritative server.
pub fn build_query(name: &str, qtype: u16, id: u16) -> (r: DnsPacket)
    ensures
        r@ == query_spec(name@, qtype, id),
{
    let mut questions: Vec<DnsQuestion> = Vec::new();
    questions.push(DnsQuestion { qname: name.to_owned(), qtype, qclass: 1 });
    let mut additionals: Vec<DnsRecord> = Vec::new();
    additionals.push(DnsRecord::OPT { udp_size: EDNS_UDP_SIZE });
    let r = DnsPacket {
        header: DnsHeader {
            id,
            flags: 0x0010,
            questions: 1,
            answers: 0,
            authorities: 0,
            additionals: 1,
        },
        questions,
        answers: Vec::new(),
        authorities: Vec::new(),
        additionals,
    };
    assert(r@ =~= query_spec(name@, qtype, id));
    r
}

/// Why a reply is not taken.
#[derive(Debug, Clone, Copy, PartialEq, Eq)]
pub enum ReplyError {
    /// It could not be parsed.
    Malformed(DnsError),
    /// It answers another query.
    IdMismatch,
}

/// Takes the reply to the query with the given transaction ID.
pub fn accept_reply(reply: &[u8], id: u16) -> (r: Result<DnsPacket, ReplyError>)
    ensures
        match (r, read_message(reply@)) {
            (Ok(p), Ok(v)) => p@ == v && v.header.id == id,
            (Err(ReplyError::IdMismatch), Ok(v)) => v.header.id != id,
            (Err(ReplyError::Malformed(e)), Err(f)) => e == f,
            _ => false,
        },
{
    match DnsPacket::from_bytes(reply) {
        Ok(p) => if p.header.id != id {
            Err(ReplyError::IdMismatch)
        } else {
            Ok(p)
        },
        Err(e) => Err(ReplyError::Malformed(e)),
    }
}

/// A SERVFAIL response.
pub open spec fn servfail_spec(name: Seq<char>, qtype: u16, id: u16) -> PacketView {
    PacketView {
        header: DnsHeader {
            id,
            flags: 0x8182,
            questions: 1,
            answers: 0,
            authorities: 0,
            additionals: 0,
        },
        questions: seq![QuestionView { qname: name, qtype, qclass: 1 }],
        answers: Seq::empty(),
        authorities: Seq::empty(),
        additionals: Seq::empty(),
    }
}

/// Synthesizes a SERVFAIL response for the given query.
fn synth_servfail(name: &str, qtype: u16, id: u16) -> (r: Vec<u8>)
    ensures
        r@ == message_octets(servfail_spec(name@, qtype, id)),
{
    let mut questions: Vec<DnsQuestion> = Vec::new();
    questions.push(DnsQuestion { qname: name.to_owned(), qtype, qclass: 1 });
    let packet = DnsPacket {
        header: DnsHeader {
            id,
            flags: 0x8182,  // QR=1, RD=1, RA=1, SERVFAIL
            questions: 1,
            answers: 0,
            authorities: 0,
            additionals: 0,
        },
        questions,
        answers: Vec::new(),
        authorities: Vec::new(),
        additionals: Vec::new(),
    };
    assert(packet@ =~= servfail_spec(name@, qtype, id));
    packet.to_bytes()
}

/// A response as it goes to the client: with the client's transaction ID, not
/// authoritative, and with recursion available.
pub open spec fn relayed(response: PacketView, client_id: u16) -> PacketView {
    PacketView {
        header: DnsHeader {
            id: client_id,
            flags: (response.header.flags & !0x0400u16) | 0x0080,
            ..response.header
        },
        ..response
    }
}

/// One resolution under way.
#[derive(Debug)]
pub struct Walk {
    /// The name to resolve, in lower case and without a dot at its end.
    pub name: String,
    /// The type to resolve.
    pub qtype: u16,
    /// The transaction ID of the client's query.
    pub client_id: u16,
    /// The servers to ask next.
    pub servers: Vec<SocketAddr>,
    /// The zone these servers are authoritative for; empty for the root.
    pub current_zone: String,
    /// Whether servers are asked for the full name, whatever their zone.
    pub full: bool,
    /// How many times servers have been asked.
    pub depth: usize,
    /// The name the servers are asked for.
    pub query_name: String,
}

/// The state of a resolution.
#[verifier::ext_equal]
pub struct WalkView {
    pub name: Seq<char>,
    pub qtype: u16,
    pub client_id: u16,
    pub servers: Seq<SocketAddr>,
    pub zone: Seq<char>,
    pub full: bool,
    pub depth: nat,
    pub query: Seq<char>,
}

impl View for Walk {
    type V = WalkView;

    open spec fn view(&self) -> WalkView {
        WalkView {
            name: self.name@,
            qtype: self.qtype,
            client_id: self.client_id,
            servers: self.servers@,
            zone: self.current_zone@,
            full: self.full,
            depth: self.depth as nat,
            query: self.query_name@,
        }
    }
}

impl Walk {
    /// The server to ask when `failed` servers have not replied; none where all have
    /// been asked.
    pub fn server(&self, failed: usize) -> (r: Option<SocketAddr>)
        ensures
            r == (if failed < self@.servers.len() {
                Some(self@.servers[failed as int])
            } else {
                None
            }),
    {
        if failed < self.servers.len() {
            Some(self.servers[failed])
        } else {
            None
        }
    }
}

/// What to do next in a resolution.
#[derive(Debug)]
pub enum Step {
    /// Ask the servers of the walk for its query name, one after the other, until
    /// one replies.
    Ask,
    /// The resolution is over: these are the octets of the response.
    Done(Vec<u8>),
}

/// What a reply means for a resolution.
pub enum Verdict {
    /// The resolution failed.
    Fail,
    /// The response is what the client gets.
    Answer(PacketView),
    /// Nothing can be learnt from asking for part of the name: go back to the root, and
    /// ask for the full name.
    Restart,
    /// Go on with the servers that the zone is delegated to, and keep the delegation.
    Follow(Seq<char>, DelegationView),
    /// Go on with the servers of a delegation of some zone around the name.
    Descend(DelegationView),
}

/// Judges the reply to what was asked in a resolution. Answers and NXDOMAIN count
/// only for the full name. Otherwise a delegation is followed. It is that of the name
/// that was asked for, unless servers are asked for the full name whatever their zone.
/// Without a delegation, the response is NODATA for the full name. Other response codes
/// are final.
pub open spec fn verdict(
    w: WalkView,
    reply: Option<PacketView>,
    known: Map<Seq<char>, DelegationView>,
    now: u64,
) -> Verdict {
    match reply {
        None => Verdict::Fail,
        Some(r) => {
            let rcode = r.header.flags & 0x000F;
            let last = Verdict::Answer(relayed(r, w.client_id));
            if r.answers.len() > 0 || rcode == 3 {
                if w.query == w.name {
                    last
                } else {
                    Verdict::Restart
                }
            } else if rcode == 0 {
                match delegation_of(r, known, now) {
                    Some(d) => if w.full {
                        Verdict::Descend(d)
                    } else {
                        Verdict::Follow(w.query, d)
                    },
                    None => if w.query == w.name {
                        last
                    } else {
                        Verdict::Restart
                    },
                }
            } else {
                last
            }
        },
    }
}

/// The state in which servers are asked once more; none where that would be too
/// often.
pub open spec fn asked_again(w: WalkView) -> Option<WalkView> {
    if w.depth >= MAX_DELEGATION_DEPTH {
        None
    } else {
        Some(
            WalkView {
                depth: w.depth + 1,
                query: if w.full {
                    w.name
                } else {
                    minimized(w.name, w.zone)
                },
                ..w
            },
        )
    }
}

/// The state after going to other servers.
pub open spec fn moved(w: WalkView, zone: Seq<char>, servers: Seq<SocketAddr>) -> WalkView {
    WalkView { zone, servers, ..w }
}

/// The octets that a resolution ends with when it fails.
pub open spec fn failure_octets(w: WalkView) -> Seq<u8> {
    message_octets(servfail_spec(w.name, w.qtype, w.client_id))
}

/// Whether a step goes on as stated: in the given state where servers may be asked
/// once more, and with SERVFAIL otherwise.
pub open spec fn goes_on(step: Step, now: WalkView, next: WalkView) -> bool {
    match asked_again(next) {
        Some(w) => step is Ask && now == w,
        None => step matches Step::Done(b) && b@ == failure_octets(next),
    }
}

/// The name without its first label; the root where it has only one.
pub open spec fn parent_of(name: Seq<char>) -> Seq<char> {
    if occurs(name, '.') {
        after(name, '.')
    } else {
        Seq::empty()
    }
}

/// The closest zone that is the given one or encloses it and has a delegation that
/// holds, if there is one, and what is left of the known delegations: those that are
/// found expired on the way go.
pub open spec fn closest_known(
    zone: Seq<char>,
    known: Map<Seq<char>, DelegationView>,
    now: u64,
) -> (Option<Seq<char>>, Map<Seq<char>, DelegationView>)
    decreases zone.len(),
{
    if known.contains_key(zone) && !known[zone].expired(now) {
        (Some(zone), known)
    } else if zone.len() == 0 {
        (None, known.remove(zone))
    } else {
        proof {
            lemma_cut(zone, '.');
        }
        closest_known(parent_of(zone), known.remove(zone), now)
    }
}

/// The state in which a resolution begins, before any server is asked: in the closest
/// zone around the name whose servers are known, or else at the root.
pub open spec fn initial(
    name: Seq<char>,
    qtype: u16,
    client_id: u16,
    known: Map<Seq<char>, DelegationView>,
    now: u64,
) -> WalkView {
    let n = trim_tail(lowercase(name), Some('.'));
    let (zone, left) = closest_known(parent_of(n), known, now);
    WalkView {
        name: n,
        qtype,
        client_id,
        servers: match zone {
            Some(z) => left[z].addrs,
            None => root_server_seq(),
        },
        zone: match zone {
            Some(z) => z,
            None => Seq::empty(),
        },
        full: false,
        depth: 0,
        query: Seq::empty(),
    }
}

/// What beginning a resolution leaves of the known delegations.
pub open spec fn known_after_begin(
    name: Seq<char>,
    known: Map<Seq<char>, DelegationView>,
    now: u64,
) -> Map<Seq<char>, DelegationView> {
    closest_known(parent_of(trim_tail(lowercase(name), Some('.'))), known, now).1
}

/// An iterative recursive resolver that walks the DNS delegation chain.
///
/// Delegations (NS records) are cached by zone suffix, so repeated queries for
/// names under the same TLD don't re-hit the root.
pub struct RecursiveResolver {
    /// Cached delegations keyed by zone suffix (e.g. "com", "example.com").
    delegations: DashMap<String, Delegation>,
    /// Transaction ID counter for outgoing queries.
    next_id: u16,
    clock: Clock,
}

impl View for RecursiveResolver {
    type V = Map<Seq<char>, DelegationView>;

    /// The delegations that are known, by zone.
    closed spec fn view(&self) -> Map<Seq<char>, DelegationView> {
        delegation_map(self.delegations)
    }
}

impl RecursiveResolver {
    /// The transaction ID of the next query.
    pub closed spec fn id_spec(&self) -> u16 {
        self.next_id
    }

    /// Creates a new recursive resolver with empty delegation cache.
    pub fn new() -> (r: Self)
        ensures
            r@ == Map::<Seq<char>, DelegationView>::empty(),
            r.id_spec() == 1,
    {
        RecursiveResolver { delegations: delegations_new(), next_id: 1, clock: Clock::start() }
    }

    /// Takes the next transaction ID; after the largest comes 0.
    pub fn take_id(&mut self) -> (id: u16)
        ensures
            id == old(self).id_spec(),
            final(self).id_spec() == (old(self).id_spec() + 1) % 0x1_0000,
            final(self)@ == old(self)@,
    {
        let id: u16 = self.next_id;
        self.next_id = if id == u16::MAX {
            0
        } else {
            id + 1
        };
        id
    }

    /// Whether the resolver has a cached delegation for `zone`.
    pub fn has_delegation(&self, zone: &str) -> (r: bool)
        ensures
            r == self@.contains_key(zone@),
    {
        delegations_get(&self.delegations, zone).is_some()
    }

    /// Begins the resolution of `name` / `qtype`.
    ///
    /// The response's transaction ID will be `client_id` so the client accepts it.
    pub fn begin(&mut self, name: &str, qtype: u16, client_id: u16) -> (r: (Walk, Step))
        ensures
            final(self).id_spec() == old(self).id_spec(),
            exists|now: u64|
                goes_on(
                    r.1,
                    r.0@,
                    #[trigger] initial(name@, qtype, client_id, old(self)@, now),
                ) && final(self)@ == known_after_begin(name@, old(self)@, now),
    {
        let now: u64 = self.clock.now();
        self.begin_at(name, qtype, client_id, now)
    }

    /// Begins the resolution of `name` / `qtype` at the time `now`, in nanoseconds
    /// of the resolver's clock.
    pub fn begin_at(&mut self, name: &str, qtype: u16, client_id: u16, now: u64) -> (r: (
        Walk,
        Step,
    ))
        ensures
            final(self).id_spec() == old(self).id_spec(),
            goes_on(r.1, r.0@, initial(name@, qtype, client_id, old(self)@, now)),
            r.1 is Ask,
            final(self)@ == known_after_begin(name@, old(self)@, now),
    {
        let ghost given = name@;
        let ghost had = self@;
        let lower = to_lowercase(name);
        let name = trim_end_of(lower.as_str(), Some('.')).to_owned();
        // Check for a cached delegation for this name's parent zone, or for one
        // around it. If found and not expired, start from those servers instead of
        // root.
        let parent = parent_zone(name.as_str());
        let (servers, current_zone): (Vec<SocketAddr>, String) = match self.find_delegation(
            parent.as_str(),
            now,
        ) {
            Some((zone, d)) => (d.ns_addrs, zone),
            None => (root_servers(), String::new()),
        };
        let mut walk = Walk {
            name,
            qtype,
            client_id,
            servers,
            current_zone,
            full: false,
            depth: 0,
            query_name: String::new(),
        };
        proof {
            assert(walk@.zone =~= initial(given, qtype, client_id, had, now).zone);
            assert(walk.query_name@ =~= Seq::empty());
        }
        let step = Self::ask(&mut walk);
        (walk, step)
    }

    /// Finds the delegation of a zone, or of the closest one around it, that still
    /// holds, and drops those found expired on the way.
    fn find_delegation(&mut self, from: &str, now: u64) -> (r: Option<(String, Delegation)>)
        ensures
            final(self).id_spec() == old(self).id_spec(),
            ({
                let (found, left) = closest_known(from@, old(self)@, now);
                &&& final(self)@ == left
                &&& match r {
                    Some((z, d)) => found == Some(z@) && d@ == left[z@],
                    None => found is None,
                }
            }),
    {
        let mut zone: String = from.to_owned();
        loop
            invariant
                closest_known(from@, old(self)@, now) == closest_known(zone@, self@, now),
                self.id_spec() == old(self).id_spec(),
            decreases zone@.len(),
        {
            match delegations_get(&self.delegations, zone.as_str()) {
                Some(d) => {
                    if !d.is_expired(now) {
                        return Some((zone, d));
                    }
                    delegations_remove(&mut self.delegations, zone.as_str());
                },
                None => {
                    assert(self@.remove(zone@) =~= self@);
                },
            }
            if zone.as_str().is_empty() {
                return None;
            }
            proof {
                lemma_cut(zone@, '.');
            }
            zone = parent_zone(zone.as_str());
        }
    }

    /// Asks the servers of a walk once more, unless that would be too often.
    fn ask(walk: &mut Walk) -> (r: Step)
        ensures
            goes_on(r, final(walk)@, old(walk)@),
    {
        if walk.depth >= MAX_DELEGATION_DEPTH {
            return Step::Done(synth_servfail(walk.name.as_str(), walk.qtype, walk.client_id));
        }
        walk.depth = walk.depth + 1;
        // QNAME minimization (RFC 9156): instead of querying the full name
        // at every delegation level, query only the minimal suffix needed
        // to get the next delegation. At root we query the TLD; at the TLD
        // we query the TLD + one label; and so on. Once the current servers
        // are authoritative for the full name's zone, query the full name.
        walk.query_name = if walk.full {
            walk.name.clone()
        } else {
            minimized_qname(walk.name.as_str(), walk.current_zone.as_str())
        };
        Step::Ask
    }

    /// Goes on with a resolution when a server has replied, or none has.
    pub fn on_reply(&mut self, walk: &mut Walk, reply: Option<DnsPacket>) -> (r: Step)
        ensures
            final(self).id_spec() == old(self).id_spec(),
            exists|now: u64| #[trigger]
                proceeds(
                    (old(walk)@, old(self)@),
                    reply_view(reply),
                    now,
                    (final(walk)@, final(self)@),
                    r,
                ),
    {
        let now: u64 = self.clock.now();
        self.on_reply_at(walk, reply, now)
    }

    /// Goes on with a resolution at the time `now`, in nanoseconds of the
    /// resolver's clock.
    pub fn on_reply_at(&mut self, walk: &mut Walk, reply: Option<DnsPacket>, now: u64) -> (r: Step)
        ensures
            final(self).id_spec() == old(self).id_spec(),
            proceeds(
                (old(walk)@, old(self)@),
                reply_view(reply),
                now,
                (final(walk)@, final(self)@),
                r,
            ),
    {
        let response = match reply {
            Some(p) => p,
            None => {
                return Step::Done(synth_servfail(walk.name.as_str(), walk.qtype, walk.client_id));
            },
        };
        let rcode: u16 = response.header.flags & 0x000F;
        let full = text_eq(walk.query_name.as_str(), walk.name.as_str());
        assert(response@.answers.len() == response.answers@.len());
        if response.answers.len() > 0 || rcode == 3 {
            if full {
                return Step::Done(relay(response, walk.client_id));
            }
        } else if rcode == 0 {
            match self.extract_delegation(&response, now) {
                Some(d) => {
                    if walk.full {
                        walk.servers = d.ns_addrs;
                        return Self::ask(walk);
                    }
                    // Cache the delegation for future queries under this zone: the
                    // name that was asked for.
                    let zone = walk.query_name.clone();
                    walk.servers = d.ns_addrs.clone();
                    assert(walk.servers@ =~= d.ns_addrs@);
                    walk.current_zone = zone.clone();
                    delegations_insert(&mut self.delegations, zone, d);
                    return Self::ask(walk);
                },
                None => {
                    if full {
                        return Step::Done(relay(response, walk.client_id));
                    }
                },
            }
        } else {
            return Step::Done(relay(response, walk.client_id));
        }
        // A minimized query got an answer, or neither an answer nor a delegation:
        // start over from the root, querying the full name.
        walk.servers = root_servers();
        walk.current_zone = String::new();
        walk.full = true;
        assert(walk.current_zone@ =~= Seq::empty());
        Self::ask(walk)
    }

    /// Extracts a delegation (NS records + glue) from a response's authority
    /// and additional sections.
    fn extract_delegation(&self, response: &DnsPacket, now: u64) -> (r: Option<Delegation>)
        ensures
            match r {
                Some(d) => delegation_of(response@, self@, now) == Some(d@),
                None => delegation_of(response@, self@, now) is None,
            },
    {
        let (ns_names, ttl_secs) = collect_ns(&response.authorities);
        assert(string_views(ns_names@).len() == ns_names@.len());
        if ns_names.len() == 0 {
            return None;
        }
        // Collect glue addresses from the additional section.
        let mut ns_addrs = collect_glue(&response.additionals, &ns_names);
        // If no glue, try to resolve NS addresses from our delegation cache.
        if ns_addrs.len() == 0 {
            let ghost names = string_views(ns_names@);
            let mut i: usize = 0;
            proof {
                assert(names.take(0) =~= Seq::empty());
                assert(ns_addrs@ =~= Seq::empty());
            }
            while i < ns_names.len()
                invariant
                    i <= ns_names@.len(),
                    names == string_views(ns_names@),
                    ns_addrs@ == cached_addrs(names.take(i as int), self@, now),
                decreases ns_names@.len() - i,
            {
                proof {
                    assert(names.take(i + 1).drop_last() =~= names.take(i as int));
                    assert(names.take(i + 1).last() == ns_names@[i as int]@);
                }
                if let Some(d) = delegations_get(&self.delegations, ns_names[i].as_str()) {
                    if !d.is_expired(now) {
                        let mut more = d.ns_addrs;
                        ns_addrs.append(&mut more);
                    }
                }
                i = i + 1;
            }
            assert(names.take(i as int) =~= names);
        }
        if ns_addrs.len() == 0 {
            // Can't follow a delegation without addresses.
            return None;
        }
        Some(Delegation { ns_names, ns_addrs, inserted_at: now, ttl_secs })
    }
}

impl Default for RecursiveResolver {
    fn default() -> (r: Self)
        ensures
            r@ == Map::<Seq<char>, DelegationView>::empty(),
            r.id_spec() == 1,
    {
        RecursiveResolver::new()
    }
}

/// The view of a reply.
pub open spec fn reply_view(reply: Option<DnsPacket>) -> Option<PacketView> {
    match reply {
        Some(p) => Some(p@),
        None => None,
    }
}

/// Whether a resolution goes on from one state to the next as the reply demands.
/// A state is that of the walk and the delegations known.
pub open spec fn proceeds(
    before: (WalkView, Map<Seq<char>, DelegationView>),
    reply: Option<PacketView>,
    now: u64,
    after: (WalkView, Map<Seq<char>, DelegationView>),
    step: Step,
) -> bool {
    let (w, known) = before;
    match verdict(w, reply, known, now) {
        Verdict::Fail => {
            &&& step matches Step::Done(b) && b@ == failure_octets(w)
            &&& after.1 == known
        },
        Verdict::Answer(p) => {
            &&& step matches Step::Done(b) && b@ == message_octets(p)
            &&& after.1 == known
        },
        Verdict::Restart => {
            &&& goes_on(
                step,
                after.0,
                WalkView { full: true, ..moved(w, Seq::empty(), root_server_seq()) },
            )
            &&& after.1 == known
        },
        Verdict::Descend(d) => {
            &&& goes_on(step, after.0, moved(w, w.zone, d.addrs))
            &&& after.1 == known
        },
        Verdict::Follow(zone, d) => {
            &&& goes_on(step, after.0, moved(w, zone, d.addrs))
            &&& after.1 == known.insert(zone, d)
        },
    }
}

/// Prepares a response for the client and encodes it.
fn relay(response: DnsPacket, client_id: u16) -> (r: Vec<u8>)
    ensures
        r@ == message_octets(relayed(response@, client_id)),
{
    let mut resp = response;
    let ghost was = resp@;
    resp.header.id = client_id;
    // Clear AA bit: we're a recursive resolver, not authoritative.
    // Set RA bit: recursion was available (and performed).
    resp.header.flags = (resp.header.flags & !0x0400u16) | 0x0080;
    assert(resp@ =~= relayed(was, client_id));
    resp.to_bytes()
}

/// Collects the NS names of a section and their smallest TTL.
fn collect_ns(records: &Vec<DnsRecord>) -> (r: (Vec<String>, u32))
    ensures
        string_views(r.0@) == ns_names_of(record_views(records@)),
        r.1 == ns_ttl_of(record_views(records@)),
{
    let ghost rs = record_views(records@);
    let mut names: Vec<String> = Vec::new();
    let mut least: u32 = u32::MAX;
    let mut i: usize = 0;
    proof {
        assert(rs.take(0) =~= Seq::empty());
        assert(string_views(names@) =~= Seq::empty());
    }
    while i < records.len()
        invariant
            i <= records@.len(),
            rs == record_views(records@),
            string_views(names@) == ns_names_of(rs.take(i as int)),
            least == ns_ttl_of(rs.take(i as int)),
        decreases records@.len() - i,
    {
        let ghost had = names@;
        proof {
            assert(rs.take(i + 1).drop_last() =~= rs.take(i as int));
            assert(rs.take(i + 1).last() == records@[i as int]@);
        }
        if let DnsRecord::NS { nameserver, ttl, .. } = &records[i] {
            if *ttl < least {
                least = *ttl;
            }
            names.push(nameserver.clone());
            proof {
                assert(string_views(names@) =~= string_views(had).push(nameserver@));
            }
        }
        i = i + 1;
    }
    assert(rs.take(i as int) =~= rs);
    (names, least)
}

/// Whether a name is one of the given ones, whatever its case.
fn names_contain(names: &Vec<String>, domain: &str) -> (r: bool)
    ensures
        r == is_named(string_views(names@), domain@),
{
    let ghost ns = string_views(names@);
    let mut i: usize = 0;
    while i < names.len()
        invariant
            i <= names@.len(),
            ns == string_views(names@),
            forall|j: int| 0 <= j < i ==> !same_but_case(#[trigger] ns[j], domain@),
        decreases names@.len() - i,
    {
        assert(ns[i as int] == names@[i as int]@);
        if eq_ignore_ascii_case(names[i].as_str(), domain) {
            return true;
        }
        i = i + 1;
    }
    false
}

/// Collects the addresses of name servers from a section.
fn collect_glue(records: &Vec<DnsRecord>, names: &Vec<String>) -> (r: Vec<SocketAddr>)
    ensures
        r@ == glue_of(record_views(records@), string_views(names@)),
{
    let ghost rs = record_views(records@);
    let mut out: Vec<SocketAddr> = Vec::new();
    let mut i: usize = 0;
    proof {
        assert(rs.take(0) =~= Seq::empty());
    }
    while i < records.len()
        invariant
            i <= records@.len(),
            rs == record_views(records@),
            out@ == glue_of(rs.take(i as int), string_views(names@)),
        decreases records@.len() - i,
    {
        proof {
            assert(rs.take(i + 1).drop_last() =~= rs.take(i as int));
            assert(rs.take(i + 1).last() == records@[i as int]@);
        }
        match &records[i] {
            DnsRecord::A { domain, addr, .. } => {
                if names_contain(names, domain.as_str()) {
                    out.push(SocketAddr::new(IpAddr::V4(*addr), DNS_PORT));
                }
            },
            DnsRecord::AAAA { domain, addr, .. } => {
                if names_contain(names, domain.as_str()) {
                    out.push(SocketAddr::new(IpAddr::V6(*addr), DNS_PORT));
                }
            },
            _ => {},
        }
        i = i + 1;
    }
    assert(rs.take(i as int) =~= rs);
    out
}

/// A resolution asks servers at most [`MAX_DELEGATION_DEPTH`] times: every step that
/// asks once more counts, and none asks beyond that.
pub proof fn law_walk_bounded(
    before: (WalkView, Map<Seq<char>, DelegationView>),
    reply: Option<PacketView>,
    now: u64,
    after: (WalkView, Map<Seq<char>, DelegationView>),
    step: Step,
)
    requires
        proceeds(before, reply, now, after, step),
    ensures
        step is Ask ==> after.0.depth == before.0.depth + 1 && after.0.depth
            <= MAX_DELEGATION_DEPTH,
        before.0.depth >= MAX_DELEGATION_DEPTH ==> step is Done,
{
}

/// A resolution keeps to its task: name, type and client stay the same, and until it
/// has to start over the servers are asked for no more of the name than they need to
/// see.
pub proof fn law_walk_task(
    before: (WalkView, Map<Seq<char>, DelegationView>),
    reply: Option<PacketView>,
    now: u64,
    after: (WalkView, Map<Seq<char>, DelegationView>),
    step: Step,
)
    requires
        proceeds(before, reply, now, after, step),
        step is Ask,
    ensures
        after.0.name == before.0.name,
        after.0.qtype == before.0.qtype,
        after.0.client_id == before.0.client_id,
        after.0.query == (if after.0.full {
            after.0.name
        } else {
            minimized(after.0.name, after.0.zone)
        }),
{
}

/// A resolution starts over at most once: it asks for the full name from then on, and
/// what it is told of that is final.
pub proof fn law_one_restart(
    before: (WalkView, Map<Seq<char>, DelegationView>),
    reply: Option<PacketView>,
    now: u64,
    after: (WalkView, Map<Seq<char>, DelegationView>),
    step: Step,
)
    requires
        proceeds(before, reply, now, after, step),
        step is Ask,
        before.0.full ==> before.0.query == before.0.name,
    ensures
        verdict(before.0, reply, before.1, now) is Restart ==> !before.0.full && after.0.full,
        before.0.full ==> after.0.full,
        after.0.full ==> after.0.query == after.0.name,
{
}

/// A resolution walks down: after a delegation is followed, the servers' zone is the
/// name that was asked for, its delegation is kept under that name, and the next
/// query has one label more or is for the full name.
pub proof fn law_walk_descends(
    before: (WalkView, Map<Seq<char>, DelegationView>),
    reply: Option<PacketView>,
    now: u64,
    after: (WalkView, Map<Seq<char>, DelegationView>),
    step: Step,
)
    requires
        proceeds(before, reply, now, after, step),
        verdict(before.0, reply, before.1, now) is Follow,
        step is Ask,
    ensures
        after.0.zone == before.0.query,
        delegation_of(reply->Some_0, before.1, now) == Some(after.1[before.0.query]),
        after.0.servers == after.1[before.0.query].addrs,
        after.0.query == after.0.name || name_labels(after.0.query).len() == name_labels(
            before.0.query,
        ).len() + 1,
{
    let name = before.0.name;
    let zone = before.0.query;
    let labels = name_labels(name);
    lemma_labels(name);
    lemma_labels(zone);
    let n: int = if zone.len() == 0 {
        1
    } else {
        name_labels(zone).len() as int + 1
    };
    if zone.len() == 0 {
        assert(pieces(zone, '.') =~= seq![zone]);
        reveal_with_fuel(nonempty, 2);
    }
    if labels.len() > 0 && minimized(name, zone) != name {
        let tail = labels.skip(labels.len() - n);
        if zone.len() == 0 {
            assert(tail =~= seq![labels.last()]);
            assert(joined(tail, '.') =~= labels.last());
        }
        assert(minimized(name, zone) == joined(tail, '.'));
        assert forall|i: int| 0 <= i < tail.len() implies !occurs(#[trigger] tail[i], '.')
            && tail[i].len() > 0 by {
            assert(tail[i] == labels[i + labels.len() - n]);
        }
        lemma_joined_pieces(tail, '.');
        lemma_nonempty_all(tail);
    }
}

/// The labels of a name are not empty, and have no dots.
proof fn lemma_labels(name: Seq<char>)
    ensures
        forall|i: int|
            0 <= i < name_labels(name).len() ==> (#[trigger] name_labels(name)[i]).len() > 0
                && !occurs(name_labels(name)[i], '.'),
{
    lemma_pieces_joined(name, '.');
    lemma_nonempty_from(pieces(name, '.'));
}

proof fn lemma_nonempty_from(ps: Seq<Seq<char>>)
    requires
        forall|i: int| 0 <= i < ps.len() ==> !occurs(#[trigger] ps[i], '.'),
    ensures
        forall|i: int|
            0 <= i < nonempty(ps).len() ==> (#[trigger] nonempty(ps)[i]).len() > 0 && !occurs(
                nonempty(ps)[i],
                '.',
            ),
    decreases ps.len(),
{
    if ps.len() > 0 {
        let init = ps.drop_last();
        assert forall|i: int| 0 <= i < init.len() implies !occurs(#[trigger] init[i], '.') by {
            assert(init[i] == ps[i]);
        }
        lemma_nonempty_from(init);
        assert(!occurs(ps[ps.len() - 1], '.'));
        if ps.last().len() > 0 {
            assert(nonempty(ps) == nonempty(init).push(ps.last()));
        } else {
            assert(nonempty(ps) == nonempty(init));
        }
    }
}

/// The root is not asked for a name below a zone whose servers are known: the
/// resolution begins at the servers of that zone or of one that is closer to the name.
pub proof fn law_root_spared(
    name: Seq<char>,
    qtype: u16,
    client_id: u16,
    known: Map<Seq<char>, DelegationView>,
    now: u64,
    zone: Seq<char>,
)
    requires
        finishes_with(trim_tail(lowercase(name), Some('.')), seq!['.'] + zone),
        known.contains_key(zone),
        !known[zone].expired(now),
    ensures
        ({
            let w = initial(name, qtype, client_id, known, now);
            &&& known.contains_key(w.zone)
            &&& !known[w.zone].expired(now)
            &&& w.servers == known[w.zone].addrs
            &&& under(w.name, w.zone)
            &&& w.zone.len() >= zone.len()
        }),
{
    let n = trim_tail(lowercase(name), Some('.'));
    lemma_below(n, zone);
    lemma_closest(parent_of(n), known, now, zone);
    let w = initial(name, qtype, client_id, known, now);
    lemma_cut(n, '.');
    if w.zone == parent_of(n) {
        assert(n.skip(n.len() - w.zone.len() - 1) =~= seq!['.'] + w.zone);
    } else {
        let dotted = seq!['.'] + w.zone;
        let p = parent_of(n);
        assert(n.skip(n.len() - dotted.len()) =~= p.skip(p.len() - dotted.len()));
    }
}

proof fn lemma_closest(
    at: Seq<char>,
    known: Map<Seq<char>, DelegationView>,
    now: u64,
    zone: Seq<char>,
)
    requires
        under(at, zone),
        known.contains_key(zone),
        !known[zone].expired(now),
    ensures
        ({
            let (found, left) = closest_known(at, known, now);
            &&& found matches Some(z)
            &&& known.contains_key(z)
            &&& !known[z].expired(now)
            &&& left[z] == known[z]
            &&& under(at, z)
            &&& z.len() >= zone.len()
        }),
    decreases at.len(),
{
    if !(known.contains_key(at) && !known[at].expired(now)) {
        lemma_below(at, zone);
        lemma_cut(at, '.');
        let p = parent_of(at);
        lemma_closest(p, known.remove(at), now, zone);
        let z = closest_known(at, known, now).0->0;
        if z == p {
            assert(at.skip(at.len() - z.len() - 1) =~= seq!['.'] + z);
        } else {
            let dotted = seq!['.'] + z;
            assert(at.skip(at.len() - dotted.len()) =~= p.skip(p.len() - dotted.len()));
        }
    } else {
        if at != zone {
            assert(at.len() >= zone.len() + 1);
        }
    }
}

/// The name that servers are asked for is the name to resolve or one that it lies
/// below, and it has exactly one label more than the servers' zone, if the name to
/// resolve has that many.
pub proof fn law_minimized(name: Seq<char>, zone: Seq<char>)
    requires
        forall|i: int|
            0 <= i < pieces(name, '.').len() ==> (#[trigger] pieces(name, '.')[i]).len() > 0,
    ensures
        under(name, minimized(name, zone)),
        ({
            let wanted = if zone.len() == 0 {
                1
            } else {
                name_labels(zone).len() + 1
            };
            name_labels(minimized(name, zone)).len() == (if wanted < name_labels(name).len() {
                wanted
            } else {
                name_labels(name).len()
            })
        }),
{
    let all = pieces(name, '.');
    lemma_pieces_joined(name, '.');
    lemma_nonempty_all(all);
    let n: int = if zone.len() == 0 {
        1
    } else {
        name_labels(zone).len() as int + 1
    };
    if n < all.len() {
        let k = all.len() - n;
        let tail = all.skip(k);
        lemma_joined_cut(all, k, '.');
        let m = joined(tail, '.');
        if zone.len() == 0 {
            assert(tail =~= seq![all.last()]);
        }
        assert(minimized(name, zone) == m);
        assert(name.skip(name.len() - m.len() - 1) =~= seq!['.'] + m);
        assert forall|i: int| 0 <= i < tail.len() implies !occurs(#[trigger] tail[i], '.') by {
            assert(tail[i] == all[i + k]);
        }
        lemma_joined_pieces(tail, '.');
        assert forall|i: int| 0 <= i < tail.len() implies (#[trigger] tail[i]).len() > 0 by {
            assert(tail[i] == all[i + k]);
        }
        lemma_nonempty_all(tail);
    } else if zone.len() == 0 {
        assert(all =~= seq![name]);
    }
}

proof fn lemma_nonempty_all(ps: Seq<Seq<char>>)
    requires
        forall|i: int| 0 <= i < ps.len() ==> (#[trigger] ps[i]).len() > 0,
    ensures
        nonempty(ps) == ps,
    decreases ps.len(),
{
    if ps.len() > 0 {
        let init = ps.drop_last();
        assert forall|i: int| 0 <= i < init.len() implies (#[trigger] init[i]).len() > 0 by {
            assert(init[i] == ps[i]);
        }
        lemma_nonempty_all(init);
        assert(init.push(ps.last()) =~= ps);
    }
}

/// A response that is relayed keeps every question, answer, authority and additional
/// record, its counts and its response code. Only the transaction ID becomes the client's,
/// AA is cleared and RA set.
pub proof fn law_relayed(r: PacketView, client_id: u16)
    ensures
        ({
            let p = relayed(r, client_id);
            &&& p.questions == r.questions
            &&& p.answers == r.answers
            &&& p.authorities == r.authorities
            &&& p.additionals == r.additionals
            &&& p.header.id == client_id
            &&& p.header.flags & 0x000F == r.header.flags & 0x000F
            &&& p.header.flags & 0x0400 == 0
            &&& p.header.flags & 0x0080 != 0
            &&& p.header.flags & !0x0480u16 == r.header.flags & !0x0480u16
            &&& p.header.questions == r.header.questions
            &&& p.header.answers == r.header.answers
            &&& p.header.authorities == r.header.authorities
            &&& p.header.additionals == r.header.additionals
        }),
{
    let f = r.header.flags;
    assert({
        let g = (f & !0x0400u16) | 0x0080;
        &&& g & 0x000F == f & 0x000F
        &&& g & 0x0400 == 0
        &&& g & 0x0080 != 0
        &&& g & !0x0480u16 == f & !0x0480u16
    }) by (bit_vector);
}

/// Whether octets are those of a response with all the records of `r` and its response
/// code, under the client's transaction ID, not authoritative and with recursion
/// available.
pub open spec fn relays(b: Seq<u8>, r: PacketView, client_id: u16) -> bool {
    exists|p: PacketView|
        {
            &&& b == #[trigger] message_octets(p)
            &&& p.questions == r.questions
            &&& p.answers == r.answers
            &&& p.authorities == r.authorities
            &&& p.additionals == r.additionals
            &&& p.header.id == client_id
            &&& p.header.flags & 0x000F == r.header.flags & 0x000F
            &&& p.header.flags & 0x0400 == 0
            &&& p.header.flags & 0x0080 != 0
        }
}

/// What a server replies about the full name ends the resolution and goes to the client
/// whole: answers, NXDOMAIN, and any other code that is not NOERROR. Without answers and
/// a delegation to follow, so does NOERROR.
pub proof fn law_reply_relayed(
    before: (WalkView, Map<Seq<char>, DelegationView>),
    r: PacketView,
    now: u64,
    after: (WalkView, Map<Seq<char>, DelegationView>),
    step: Step,
)
    requires
        proceeds(before, Some(r), now, after, step),
        before.0.query == before.0.name,
        r.answers.len() > 0 || r.header.flags & 0x000F != 0 || delegation_of(
            r,
            before.1,
            now,
        ) is None,
    ensures
        step matches Step::Done(b) && relays(b@, r, before.0.client_id),
        after.1 == before.1,
{
    law_relayed(r, before.0.client_id);
    if let Step::Done(b) = step {
        assert(b@ == message_octets(relayed(r, before.0.client_id)));
    }
}

/// The client reads from the response that a resolution ends with just the records that
/// the server sent.
pub proof fn law_relayed_read_back(r: PacketView, client_id: u16)
    requires
        message_ok(r),
        message_short(r),
        forall|i: int| 0 <= i < r.answers.len() ==> is_modelled(#[trigger] r.answers[i]),
    ensures
        read_message(message_octets(relayed(r, client_id))) matches Ok(q) && {
            &&& q.answers == r.answers
            &&& q.questions == r.questions
            &&& q.header.id == client_id
            &&& q.header.flags & 0x000F == r.header.flags & 0x000F
        },
{
    let p = relayed(r, client_id);
    law_relayed(r, client_id);
    lemma_same_octets_ok(r, p);
    law_answers_back(p);
    law_round_trip(p);
}

proof fn lemma_same_octets_ok(r: PacketView, p: PacketView)
    requires
        message_ok(r),
        message_short(r),
        p.questions == r.questions,
        p.answers == r.answers,
        p.authorities == r.authorities,
        p.additionals == r.additionals,
    ensures
        message_ok(p),
        message_short(p),
{
}

/// Other codes than NOERROR and NXDOMAIN, without answers, end the resolution whatever
/// name was asked for.
pub proof fn law_error_relayed(
    before: (WalkView, Map<Seq<char>, DelegationView>),
    r: PacketView,
    now: u64,
    after: (WalkView, Map<Seq<char>, DelegationView>),
    step: Step,
)
    requires
        proceeds(before, Some(r), now, after, step),
        r.answers.len() == 0,
        r.header.flags & 0x000F != 0,
        r.header.flags & 0x000F != 3,
    ensures
        step matches Step::Done(b) && relays(b@, r, before.0.client_id),
{
    law_relayed(r, before.0.client_id);
    if let Step::Done(b) = step {
        assert(b@ == message_octets(relayed(r, before.0.client_id)));
    }
}

/// A delegation in a reply without answers is followed: its servers are asked next, and
/// what was known of other zones stays.
pub proof fn law_delegation_followed(
    before: (WalkView, Map<Seq<char>, DelegationView>),
    r: PacketView,
    now: u64,
    after: (WalkView, Map<Seq<char>, DelegationView>),
    step: Step,
    d: DelegationView,
    other: Seq<char>,
)
    requires
        proceeds(before, Some(r), now, after, step),
        before.0.depth < MAX_DELEGATION_DEPTH,
        r.answers.len() == 0,
        r.header.flags & 0x000F == 0,
        delegation_of(r, before.1, now) == Some(d),
    ensures
        step is Ask,
        after.0.servers == d.addrs,
        after.0.name == before.0.name,
        !before.0.full ==> after.1.contains_key(before.0.query) && after.1[before.0.query] == d,
        other != before.0.query ==> after.1.contains_key(other) == before.1.contains_key(other),
        other != before.0.query && before.1.contains_key(other) ==> after.1[other]
            == before.1[other],
{
}

/// A reply that says nothing about the full name and delegates nothing sends the walk
/// back to the root, once, to ask for the full name.
pub proof fn law_partial_reply_restarts(
    before: (WalkView, Map<Seq<char>, DelegationView>),
    r: PacketView,
    now: u64,
    after: (WalkView, Map<Seq<char>, DelegationView>),
    step: Step,
)
    requires
        proceeds(before, Some(r), now, after, step),
        before.0.depth < MAX_DELEGATION_DEPTH,
        before.0.query != before.0.name,
        r.answers.len() > 0 || r.header.flags & 0x000F == 3 || (r.header.flags & 0x000F == 0
            && delegation_of(r, before.1, now) is None),
    ensures
        step is Ask,
        after.0.servers == root_server_seq(),
        after.0.query == before.0.name,
        after.1 == before.1,
{
}

/// Where no server replies, or servers were asked too often, the client gets SERVFAIL to
/// its question.
pub proof fn law_walk_fails(
    before: (WalkView, Map<Seq<char>, DelegationView>),
    now: u64,
    after: (WalkView, Map<Seq<char>, DelegationView>),
    step: Step,
)
    requires
        proceeds(before, None, now, after, step),
    ensures
        step matches Step::Done(b) && exists|p: PacketView|
            {
                &&& b@ == #[trigger] message_octets(p)
                &&& p.header.id == before.0.client_id
                &&& p.header.flags & 0x000F == 2
                &&& p.header.flags & 0x8000 != 0
                &&& p.questions == seq![
                    QuestionView { qname: before.0.name, qtype: before.0.qtype, qclass: 1 },
                ]
                &&& p.answers.len() == 0
            },
{
    assert(0x8182u16 & 0x000F == 2 && 0x8182u16 & 0x8000 != 0) by (bit_vector);
    let p = servfail_spec(before.0.name, before.0.qtype, before.0.client_id);
    if let Step::Done(b) = step {
        assert(b@ == message_octets(p));
    }
}

/// A query to an authoritative server asks one question, for the name and type in class
/// IN, does not ask for recursion, and offers to take larger responses.
pub proof fn law_query_asks(name: Seq<char>, qtype: u16, id: u16)
    ensures
        ({
            let q = query_spec(name, qtype, id);
            &&& q.header.id == id
            &&& q.header.flags & 0x8000 == 0
            &&& q.header.flags & 0x0100 == 0
            &&& q.questions.len() == 1
            &&& q.questions[0].qname == name
            &&& q.questions[0].qtype == qtype
            &&& q.questions[0].qclass == 1
            &&& q.answers.len() == 0
            &&& q.authorities.len() == 0
            &&& edns_size(q.additionals) == Some(EDNS_UDP_SIZE)
        }),
{
    assert(0x0010u16 & 0x8000 == 0 && 0x0010u16 & 0x0100 == 0) by (bit_vector);
}

/// The name servers that a section names are those of its NS records, in order.
pub proof fn law_ns_names(a: Seq<RecordView>, b: Seq<RecordView>, r: RecordView)
    ensures
        ns_names_of(a + b) == ns_names_of(a) + ns_names_of(b),
        r matches RecordView::NS { nameserver, .. } ==> ns_names_of(seq![r]) == seq![nameserver],
        !(r is NS) ==> ns_names_of(seq![r]).len() == 0,
    decreases b.len(),
{
    let none = Seq::<RecordView>::empty();
    assert(seq![r].drop_last() =~= none);
    assert(ns_names_of(none) =~= Seq::empty());
    if let RecordView::NS { nameserver, .. } = r {
        assert(ns_names_of(seq![r]) =~= seq![nameserver]);
    }
    if b.len() == 0 {
        assert(a + b =~= a);
        assert(ns_names_of(a) + ns_names_of(b) =~= ns_names_of(a));
    } else {
        law_ns_names(a, b.drop_last(), r);
        assert((a + b).drop_last() =~= a + b.drop_last());
        assert(ns_names_of(a + b) =~= ns_names_of(a) + ns_names_of(b));
    }
}

/// A delegation lasts as long as the shortest of its NS records, and no shorter.
pub proof fn law_ns_ttl(rs: Seq<RecordView>, i: int)
    requires
        0 <= i < rs.len(),
        rs[i] is NS,
    ensures
        ns_ttl_of(rs) <= rs[i].ttl(),
        exists|j: int|
            0 <= j < rs.len() && (#[trigger] rs[j]) is NS && rs[j].ttl() == ns_ttl_of(rs),
    decreases rs.len(),
{
    let init = rs.drop_last();
    lemma_ns_ttl(init);
    lemma_ns_ttl(rs);
}

proof fn lemma_ns_ttl(rs: Seq<RecordView>)
    ensures
        forall|i: int|
            0 <= i < rs.len() && (#[trigger] rs[i]) is NS ==> ns_ttl_of(rs) <= rs[i].ttl(),
        (exists|i: int| 0 <= i < rs.len() && (#[trigger] rs[i]) is NS) ==> exists|j: int|
            0 <= j < rs.len() && (#[trigger] rs[j]) is NS && rs[j].ttl() == ns_ttl_of(rs),
        !(exists|i: int| 0 <= i < rs.len() && (#[trigger] rs[i]) is NS) ==> ns_ttl_of(rs)
            == u32::MAX,
    decreases rs.len(),
{
    if rs.len() > 0 {
        let init = rs.drop_last();
        let n = rs.len() - 1;
        lemma_ns_ttl(init);
        assert forall|i: int| 0 <= i < rs.len() && (#[trigger] rs[i]) is NS implies ns_ttl_of(rs)
            <= rs[i].ttl() by {
            if i < n {
                assert(init[i] == rs[i]);
            }
        }
        if exists|i: int| 0 <= i < init.len() && (#[trigger] init[i]) is NS {
            let j = choose|j: int|
                0 <= j < init.len() && (#[trigger] init[j]) is NS && init[j].ttl() == ns_ttl_of(
                    init,
                );
            assert(rs[j] == init[j]);
            assert(rs[j] is NS);
            if rs[n] is NS && rs[n].ttl() < ns_ttl_of(init) {
                assert(rs[n].ttl() == ns_ttl_of(rs));
            }
        } else {
            if rs[n] is NS {
                assert(rs[n].ttl() == ns_ttl_of(rs));
            } else {
                assert forall|i: int| 0 <= i < rs.len() implies !((#[trigger] rs[i]) is NS) by {
                    if i < n {
                        assert(init[i] == rs[i]);
                    }
                }
            }
        }
    }
}

/// The glue of name servers is every address of one of them, IPv4 and IPv6 alike, in
/// order and with the port of name servers, and no other address.
pub proof fn law_glue(
    a: Seq<RecordView>,
    b: Seq<RecordView>,
    names: Seq<Seq<char>>,
    r: RecordView,
)
    ensures
        glue_of(a + b, names) == glue_of(a, names) + glue_of(b, names),
        r matches RecordView::A { domain, addr, .. } ==> glue_of(seq![r], names) == (if is_named(
            names,
            domain,
        ) {
            seq![SocketAddr { ip: IpAddr::V4(addr), port: 53, scope_id: 0 }]
        } else {
            Seq::empty()
        }),
        r matches RecordView::AAAA { domain, addr, .. } ==> glue_of(seq![r], names) == (
        if is_named(names, domain) {
            seq![SocketAddr { ip: IpAddr::V6(addr), port: 53, scope_id: 0 }]
        } else {
            Seq::empty()
        }),
        !(r is A) && !(r is AAAA) ==> glue_of(seq![r], names).len() == 0,
    decreases b.len(),
{
    let none = Seq::<RecordView>::empty();
    assert(seq![r].drop_last() =~= none);
    assert(glue_of(none, names) =~= Seq::empty());
    if let RecordView::A { domain, addr, .. } = r {
        let s = SocketAddr { ip: IpAddr::V4(addr), port: 53, scope_id: 0 };
        assert(Seq::<SocketAddr>::empty().push(s) =~= seq![s]);
    }
    if let RecordView::AAAA { domain, addr, .. } = r {
        let s = SocketAddr { ip: IpAddr::V6(addr), port: 53, scope_id: 0 };
        assert(Seq::<SocketAddr>::empty().push(s) =~= seq![s]);
    }
    if b.len() == 0 {
        assert(a + b =~= a);
        assert(glue_of(a, names) + glue_of(b, names) =~= glue_of(a, names));
    } else {
        law_glue(a, b.drop_last(), names, r);
        assert((a + b).drop_last() =~= a + b.drop_last());
        assert(glue_of(a + b, names) =~= glue_of(a, names) + glue_of(b, names));
    }
}

/// Without glue, the addresses are those of all delegations that hold under the names of
/// the servers, one after the other.
pub proof fn law_cached_addrs(
    a: Seq<Seq<char>>,
    b: Seq<Seq<char>>,
    ns: Seq<char>,
    known: Map<Seq<char>, DelegationView>,
    now: u64,
)
    ensures
        cached_addrs(a + b, known, now) == cached_addrs(a, known, now) + cached_addrs(
            b,
            known,
            now,
        ),
        known.contains_key(ns) && !known[ns].expired(now) ==> cached_addrs(seq![ns], known, now)
            == known[ns].addrs,
        !known.contains_key(ns) || known[ns].expired(now) ==> cached_addrs(
            seq![ns],
            known,
            now,
        ).len() == 0,
    decreases b.len(),
{
    let none = Seq::<Seq<char>>::empty();
    assert(seq![ns].drop_last() =~= none);
    assert(cached_addrs(none, known, now) =~= Seq::empty());
    if known.contains_key(ns) && !known[ns].expired(now) {
        assert(cached_addrs(seq![ns], known, now) =~= known[ns].addrs);
    }
    if b.len() == 0 {
        assert(a + b =~= a);
        assert(cached_addrs(a, known, now) + cached_addrs(b, known, now) =~= cached_addrs(
            a,
            known,
            now,
        ));
    } else {
        law_cached_addrs(a, b.drop_last(), ns, known, now);
        assert((a + b).drop_last() =~= a + b.drop_last());
        assert(cached_addrs(a + b, known, now) =~= cached_addrs(a, known, now) + cached_addrs(
            b,
            known,
            now,
        ));
    }
}

/// A response holds a delegation wherever it names servers and addresses for them are
/// there; glue wins over what is known. The delegation holds from now on.
pub proof fn law_delegation(
    response: PacketView,
    known: Map<Seq<char>, DelegationView>,
    now: u64,
)
    ensures
        ({
            let names = ns_names_of(response.authorities);
            let glue = glue_of(response.additionals, names);
            let spare = cached_addrs(names, known, now);
            match delegation_of(response, known, now) {
                Some(d) => {
                    &&& d.names == names
                    &&& d.names.len() > 0
                    &&& d.addrs.len() > 0
                    &&& glue.len() > 0 ==> d.addrs == glue
                    &&& glue.len() == 0 ==> d.addrs == spare
                    &&& d.inserted_at == now
                    &&& d.ttl_secs == ns_ttl_of(response.authorities)
                },
                None => names.len() == 0 || (glue.len() == 0 && spare.len() == 0),
            }
        }),
{
}

/// A delegation expires when as many seconds as it allows have passed, and not before.
pub proof fn law_delegation_time(d: DelegationView, now: u64)
    requires
        now >= d.inserted_at,
    ensures
        d.expired(now) <==> (now - d.inserted_at) / 1_000_000_000 >= d.ttl_secs,
{
}

/// Beginning a resolution forgets only delegations that have expired, and changes none.
pub proof fn law_begin_keeps(
    zone: Seq<char>,
    known: Map<Seq<char>, DelegationView>,
    now: u64,
    k: Seq<char>,
)
    ensures
        ({
            let left = closest_known(zone, known, now).1;
            &&& left.contains_key(k) ==> known.contains_key(k) && left[k] == known[k]
            &&& known.contains_key(k) && !known[k].expired(now) ==> left.contains_key(k)
        }),
    decreases zone.len(),
{
    if !(known.contains_key(zone) && !known[zone].expired(now)) && zone.len() > 0 {
        lemma_cut(zone, '.');
        law_begin_keeps(parent_of(zone), known.remove(zone), now, k);
    }
}

/// Where nothing is known of a name's zones, its resolution begins at the root servers,
/// with its last label.
pub proof fn law_begins_at_root(name: Seq<char>, qtype: u16, client_id: u16, now: u64)
    ensures
        ({
            let w = initial(name, qtype, client_id, Map::empty(), now);
            &&& w.servers == root_server_seq()
            &&& w.zone.len() == 0
            &&& w.name == trim_tail(lowercase(name), Some('.'))
            &&& w.qtype == qtype
            &&& w.client_id == client_id
            &&& !w.full
            &&& w.depth == 0
        }),
{
    lemma_nothing_known(parent_of(trim_tail(lowercase(name), Some('.'))), now);
}

proof fn lemma_nothing_known(zone: Seq<char>, now: u64)
    ensures
        closest_known(zone, Map::empty(), now).0 is None,
    decreases zone.len(),
{
    let none = Map::<Seq<char>, DelegationView>::empty();
    assert(none.remove(zone) =~= none);
    if zone.len() > 0 {
        lemma_cut(zone, '.');
        lemma_nothing_known(parent_of(zone), now);
    }
}

/// The client reads all sections from the response that a resolution ends with, as the
/// server sent them.
pub proof fn law_relayed_whole(r: PacketView, client_id: u16)
    requires
        message_ok(r),
        message_short(r),
        forall|i: int| 0 <= i < r.answers.len() ==> is_modelled(#[trigger] r.answers[i]),
        forall|i: int| 0 <= i < r.authorities.len() ==> is_modelled(#[trigger] r.authorities[i]),
        forall|i: int| 0 <= i < r.additionals.len() ==> is_modelled(#[trigger] r.additionals[i]),
    ensures
        read_message(message_octets(relayed(r, client_id))) matches Ok(q) && {
            &&& q.questions == r.questions
            &&& q.answers == r.answers
            &&& q.authorities == r.authorities
            &&& q.additionals == r.additionals
            &&& q.header.id == client_id
            &&& q.header.flags & 0x000F == r.header.flags & 0x000F
            &&& q.header.flags & !0x0480u16 == r.header.flags & !0x0480u16
        },
{
    let p = relayed(r, client_id);
    law_relayed(r, client_id);
    lemma_same_octets_ok(r, p);
    law_message_back(p);
}

} // verus!
