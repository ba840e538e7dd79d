//! Configuration: zone files, forwarding rules and the server's settings.

pub use crate::zone::{AuthZone, Zone, ZoneSet};

use crate::acl::string_views;
use crate::dns::record::{DnsRecord, RecordView};
use crate::net::{
    ipv4_octet, ipv4_of, ipv4_text, ipv6_of, law_ipv4_read, law_socket_text, socket_of, IpAddr,
    Ipv4Addr, Ipv6Addr, SocketAddr,
};
use crate::suffix::{
    is_under, law_ranked, lemma_ranked_sorted, longest_first, rank, ranked, sort_longest_first,
    under, Suffixed,
};
use crate::text::{
    chop_end, decimal, is_digit, is_space, is_word, join_from, joined, law_words_joined,
    lemma_decimal_digits, lemma_decimal_round_trip, lemma_number_bound, line_seq, lines, lowercase,
    number, parse_number, split_whitespace, strip_end, text_eq, texts, to_lowercase, trim,
    trim_both, trim_head, trim_matches, trim_spec, trim_tail, words,
};
use crate::zone::{infer_origin, inferred_origin};
use vstd::prelude::*;

verus! {

/// Why a line of a zone file was not understood.
#[derive(Debug, Clone, Copy, PartialEq, Eq, Structural)]
pub enum ZoneLineError {
    TooFewFields,
    InvalidTtl,
    InvalidIpv4,
    InvalidIpv6,
    MxFields,
    MxPreference,
    SrvFields,
    SrvPriority,
    SrvWeight,
    SrvPort,
    CaaFields,
    CaaFlags,
    SoaFields,
    SoaSerial,
    SoaRefresh,
    SoaRetry,
    SoaExpire,
    SoaMinimum,
}

impl ZoneLineError {
    /// The error in words.
    pub open spec fn message_spec(self) -> Seq<char> {
        match self {
            ZoneLineError::TooFewFields => "expected at least 4 fields (domain ttl type data)"@,
            ZoneLineError::InvalidTtl => "invalid TTL"@,
            ZoneLineError::InvalidIpv4 => "invalid IPv4 address for A record"@,
            ZoneLineError::InvalidIpv6 => "invalid IPv6 address for AAAA record"@,
            ZoneLineError::MxFields => "MX record requires a preference and an exchange"@,
            ZoneLineError::MxPreference => "invalid preference for MX record"@,
            ZoneLineError::SrvFields => "SRV record requires priority, weight, port and target"@,
            ZoneLineError::SrvPriority => "invalid SRV priority"@,
            ZoneLineError::SrvWeight => "invalid SRV weight"@,
            ZoneLineError::SrvPort => "invalid SRV port"@,
            ZoneLineError::CaaFields => "CAA record requires flags, tag and value"@,
            ZoneLineError::CaaFlags => "invalid CAA flags"@,
            ZoneLineError::SoaFields =>
                "SOA record requires 7 fields (mname rname serial refresh retry expire minimum)"@,
            ZoneLineError::SoaSerial => "invalid SOA serial"@,
            ZoneLineError::SoaRefresh => "invalid SOA refresh"@,
            ZoneLineError::SoaRetry => "invalid SOA retry"@,
            ZoneLineError::SoaExpire => "invalid SOA expire"@,
            ZoneLineError::SoaMinimum => "invalid SOA minimum"@,
        }
    }

    /// Describes the error in words.
    pub fn message(&self) -> (r: &'static str)
        ensures
            r@ == self.message_spec(),
    {
        match *self {
            ZoneLineError::TooFewFields => "expected at least 4 fields (domain ttl type data)",
            ZoneLineError::InvalidTtl => "invalid TTL",
            ZoneLineError::InvalidIpv4 => "invalid IPv4 address for A record",
            ZoneLineError::InvalidIpv6 => "invalid IPv6 address for AAAA record",
            ZoneLineError::MxFields => "MX record requires a preference and an exchange",
            ZoneLineError::MxPreference => "invalid preference for MX record",
            ZoneLineError::SrvFields => "SRV record requires priority, weight, port and target",
            ZoneLineError::SrvPriority => "invalid SRV priority",
            ZoneLineError::SrvWeight => "invalid SRV weight",
            ZoneLineError::SrvPort => "invalid SRV port",
            ZoneLineError::CaaFields => "CAA record requires flags, tag and value",
            ZoneLineError::CaaFlags => "invalid CAA flags",
            ZoneLineError::SoaFields =>
                "SOA record requires 7 fields (mname rname serial refresh retry expire minimum)",
            ZoneLineError::SoaSerial => "invalid SOA serial",
            ZoneLineError::SoaRefresh => "invalid SOA refresh",
            ZoneLineError::SoaRetry => "invalid SOA retry",
            ZoneLineError::SoaExpire => "invalid SOA expire",
            ZoneLineError::SoaMinimum => "invalid SOA minimum",
        }
    }
}

/// The SOA record that the fields of a line stand for.
pub open spec fn soa_of(
    domain: Seq<char>,
    ttl: u32,
    f: Seq<Seq<char>>,
) -> Result<RecordView, ZoneLineError> {
    let max = u32::MAX as nat;
    if f.len() < 10 {
        Err(ZoneLineError::SoaFields)
    } else if number(f[5], max) is None {
        Err(ZoneLineError::SoaSerial)
    } else if number(f[6], max) is None {
        Err(ZoneLineError::SoaRefresh)
    } else if number(f[7], max) is None {
        Err(ZoneLineError::SoaRetry)
    } else if number(f[8], max) is None {
        Err(ZoneLineError::SoaExpire)
    } else if number(f[9], max) is None {
        Err(ZoneLineError::SoaMinimum)
    } else {
        Ok(
            RecordView::SOA {
                domain,
                mname: chop_end(f[3], '.'),
                rname: chop_end(f[4], '.'),
                serial: number(f[5], max)->0 as u32,
                refresh: number(f[6], max)->0 as u32,
                retry: number(f[7], max)->0 as u32,
                expire: number(f[8], max)->0 as u32,
                minimum: number(f[9], max)->0 as u32,
                ttl,
            },
        )
    }
}

/// The SRV record that the fields of a line stand for.
pub open spec fn srv_of(
    domain: Seq<char>,
    ttl: u32,
    f: Seq<Seq<char>>,
) -> Result<RecordView, ZoneLineError> {
    let max = u16::MAX as nat;
    if f.len() < 7 {
        Err(ZoneLineError::SrvFields)
    } else if number(f[3], max) is None {
        Err(ZoneLineError::SrvPriority)
    } else if number(f[4], max) is None {
        Err(ZoneLineError::SrvWeight)
    } else if number(f[5], max) is None {
        Err(ZoneLineError::SrvPort)
    } else {
        Ok(
            RecordView::SRV {
                domain,
                priority: number(f[3], max)->0 as u16,
                weight: number(f[4], max)->0 as u16,
                port: number(f[5], max)->0 as u16,
                target: chop_end(f[6], '.'),
                ttl,
            },
        )
    }
}

/// The record of the given type that the fields of a line stand for. Types that
/// are not supported give none.
pub open spec fn record_of(
    domain: Seq<char>,
    ttl: u32,
    f: Seq<Seq<char>>,
) -> Result<Option<RecordView>, ZoneLineError> {
    let t = f[2];
    let data = joined(f.skip(3), ' ');
    if t == "A"@ {
        match ipv4_of(data) {
            Some(addr) => Ok(Some(RecordView::A { domain, addr, ttl })),
            None => Err(ZoneLineError::InvalidIpv4),
        }
    } else if t == "AAAA"@ {
        match ipv6_of(data) {
            Some(addr) => Ok(Some(RecordView::AAAA { domain, addr, ttl })),
            None => Err(ZoneLineError::InvalidIpv6),
        }
    } else if t == "CNAME"@ {
        Ok(Some(RecordView::CNAME { domain, alias: chop_end(data, '.'), ttl }))
    } else if t == "NS"@ {
        Ok(Some(RecordView::NS { domain, nameserver: chop_end(data, '.'), ttl }))
    } else if t == "MX"@ {
        if f.len() < 5 {
            Err(ZoneLineError::MxFields)
        } else {
            match number(f[3], u16::MAX as nat) {
                Some(p) => Ok(
                    Some(
                        RecordView::MX {
                            domain,
                            preference: p as u16,
                            exchange: chop_end(f[4], '.'),
                            ttl,
                        },
                    ),
                ),
                None => Err(ZoneLineError::MxPreference),
            }
        }
    } else if t == "TXT"@ {
        Ok(Some(RecordView::TXT { domain, text: trim_both(data, Some('"')), ttl }))
    } else if t == "PTR"@ {
        Ok(Some(RecordView::PTR { domain, ptrdname: chop_end(data, '.'), ttl }))
    } else if t == "SRV"@ {
        match srv_of(domain, ttl, f) {
            Ok(r) => Ok(Some(r)),
            Err(e) => Err(e),
        }
    } else if t == "CAA"@ {
        if f.len() < 6 {
            Err(ZoneLineError::CaaFields)
        } else {
            match number(f[3], u8::MAX as nat) {
                Some(flags) => Ok(
                    Some(
                        RecordView::CAA {
                            domain,
                            flags: flags as u8,
                            tag: f[4],
                            value: trim_both(joined(f.skip(5), ' '), Some('"')),
                            ttl,
                        },
                    ),
                ),
                None => Err(ZoneLineError::CaaFlags),
            }
        }
    } else if t == "SOA"@ {
        match soa_of(domain, ttl, f) {
            Ok(r) => Ok(Some(r)),
            Err(e) => Err(e),
        }
    } else {
        Ok(None)
    }
}

/// What a line of a zone file says: the owner name, in lower case and without a
/// dot at its end, and the record. Fields are `domain ttl type data`.
pub open spec fn line_of(line: Seq<char>) -> Result<
    Option<(Seq<char>, RecordView)>,
    ZoneLineError,
> {
    let f = words(line);
    if f.len() < 4 {
        Err(ZoneLineError::TooFewFields)
    } else {
        let domain = chop_end(lowercase(f[0]), '.');
        match number(f[1], u32::MAX as nat) {
            None => Err(ZoneLineError::InvalidTtl),
            Some(ttl) => match record_of(domain, ttl as u32, f) {
                Ok(Some(r)) => Ok(Some((domain, r))),
                Ok(None) => Ok(None),
                Err(e) => Err(e),
            },
        }
    }
}

/// Whether a line of a zone file is to be read: it is neither blank nor a comment.
pub open spec fn is_record_line(line: Seq<char>) -> bool {
    line.len() > 0 && line[0] != ';'
}

/// A zone with one more record.
pub open spec fn with_record(
    zone: Map<Seq<char>, Seq<RecordView>>,
    name: Seq<char>,
    r: RecordView,
) -> Map<Seq<char>, Seq<RecordView>> {
    zone.insert(
        name,
        if zone.contains_key(name) {
            zone[name].push(r)
        } else {
            seq![r]
        },
    )
}

/// The zone that the lines of a zone file make up. Lines that are not understood,
/// and those of unsupported types, are passed over.
pub open spec fn zone_of(lines: Seq<Seq<char>>) -> Map<Seq<char>, Seq<RecordView>>
    decreases lines.len(),
{
    if lines.len() == 0 {
        Map::empty()
    } else {
        let zone = zone_of(lines.drop_last());
        let line = trim_spec(lines.last());
        if is_record_line(line) {
            match line_of(line) {
                Ok(Some((name, r))) => with_record(zone, name, r),
                _ => zone,
            }
        } else {
            zone
        }
    }
}

/// The lines of a zone file that are not understood, by number from 1, and why.
pub open spec fn zone_errors(lines: Seq<Seq<char>>) -> Seq<(nat, ZoneLineError)>
    decreases lines.len(),
{
    if lines.len() == 0 {
        Seq::empty()
    } else {
        let errors = zone_errors(lines.drop_last());
        let line = trim_spec(lines.last());
        if is_record_line(line) {
            match line_of(line) {
                Err(e) => errors.push((lines.len(), e)),
                _ => errors,
            }
        } else {
            errors
        }
    }
}

/// Whether a line of a zone file adds nothing to the zone: it is blank, a comment,
/// not understood, or of a type that is not supported.
pub open spec fn adds_nothing(line: Seq<char>) -> bool {
    !is_record_line(trim_spec(line)) || !(line_of(trim_spec(line)) matches Ok(Some(_)))
}

/// One bad line does not stop the rest of the zone from loading: the zone is the one
/// that the other lines make up.
pub proof fn law_bad_line_skipped(
    head: Seq<Seq<char>>,
    line: Seq<char>,
    tail: Seq<Seq<char>>,
)
    requires
        adds_nothing(line),
    ensures
        zone_of(head + seq![line] + tail) == zone_of(head + tail),
    decreases tail.len(),
{
    let all = head + seq![line] + tail;
    if tail.len() == 0 {
        assert(all.drop_last() =~= head);
        assert(head + tail =~= head);
    } else {
        law_bad_line_skipped(head, line, tail.drop_last());
        assert(all.drop_last() =~= head + seq![line] + tail.drop_last());
        assert((head + tail).drop_last() =~= head + tail.drop_last());
    }
}

/// Every record of the zone comes from a line that stands for it, under the owner of
/// that line.
pub proof fn law_zone_from_lines(lines: Seq<Seq<char>>, name: Seq<char>)
    requires
        zone_of(lines).contains_key(name),
    ensures
        zone_of(lines)[name].len() > 0,
        forall|i: int|
            0 <= i < zone_of(lines)[name].len() ==> exists|k: int|
                0 <= k < lines.len() && stands_for(
                    #[trigger] lines[k],
                    name,
                    #[trigger] zone_of(lines)[name][i],
                ),
    decreases lines.len(),
{
    if lines.len() > 0 {
        let init = lines.drop_last();
        let old_zone = zone_of(init);
        let rs = zone_of(lines)[name];
        if old_zone.contains_key(name) {
            law_zone_from_lines(init, name);
        }
        assert forall|i: int| 0 <= i < rs.len() implies exists|k: int|
            0 <= k < lines.len() && stands_for(#[trigger] lines[k], name, #[trigger] rs[i]) by {
            if old_zone.contains_key(name) && i < old_zone[name].len() {
                assert(rs[i] == old_zone[name][i]);
                let k = choose|k: int|
                    0 <= k < init.len() && stands_for(#[trigger] init[k], name, old_zone[name][i]);
                assert(lines[k] == init[k]);
            } else {
                assert(stands_for(lines[lines.len() - 1], name, rs[i]));
            }
        }
    }
}

/// Whether a line stands for a record of an owner.
pub open spec fn stands_for(line: Seq<char>, name: Seq<char>, r: RecordView) -> bool {
    is_record_line(trim_spec(line)) && line_of(trim_spec(line)) == Ok::<_, ZoneLineError>(
        Some((name, r)),
    )
}

/// The numbers and errors of a list.
pub open spec fn error_views(v: Seq<(usize, ZoneLineError)>) -> Seq<(nat, ZoneLineError)> {
    v.map_values(|x: (usize, ZoneLineError)| (x.0 as nat, x.1))
}

/// Parses a zone file's text into a `Zone`.
///
/// The zone file has a simple line-based format where each line is one record:
/// `domain ttl type data`. Lines that are blank or start with `;` are ignored.
/// A malformed line is reported with its line number and skipped, so a single bad
/// entry never prevents the rest of the zone from loading.
///
/// For example:
/// ```text
/// example.com.     3600 A     192.0.2.1
/// example.com.     3600 AAAA  2001:db8::1
/// www.example.com. 3600 CNAME example.com.
/// example.com.     3600 MX    10 mail.example.com.
/// example.com.     3600 TXT   "v=spf1 -all"
/// example.com.     3600 NS    ns1.example.com.
/// example.com.     3600 SOA   ns1.example.com. admin.example.com. 1 7200 3600 1209600 3600
/// *.example.com.   3600 A     192.0.2.9
/// ```
pub fn parse_zone_file(content: &str) -> (r: (Zone, Vec<(usize, ZoneLineError)>))
    ensures
        r.0@ == zone_of(line_seq(content@)),
        error_views(r.1@) == zone_errors(line_seq(content@)),
{
    let all = lines(content);
    let ghost ls = line_seq(content@);
    let mut zone = Zone::new();
    let mut errors: Vec<(usize, ZoneLineError)> = Vec::new();
    let mut i: usize = 0;
    proof {
        assert(ls.take(0) =~= Seq::empty());
        assert(error_views(errors@) =~= Seq::empty());
        assert(texts(all@).len() == all@.len());
    }
    while i < all.len()
        invariant
            i <= all@.len(),
            ls == texts(all@),
            zone@ == zone_of(ls.take(i as int)),
            error_views(errors@) == zone_errors(ls.take(i as int)),
        decreases all@.len() - i,
    {
        let ghost had = errors@;
        proof {
            assert(ls.take(i + 1).drop_last() =~= ls.take(i as int));
            assert(ls.take(i + 1).last() == all@[i as int]@);
        }
        let line = trim(all[i]);
        if !line.is_empty() && line.get_char(0) != ';' {
            match parse_line(line) {
                Ok(Some((domain, record))) => {
                    zone.push(domain, record);
                },
                Ok(None) => {},
                Err(e) => {
                    errors.push((i + 1, e));
                    proof {
                        assert(error_views(errors@) =~= error_views(had).push(
                            ((i + 1) as nat, e),
                        ));
                    }
                },
            }
        }
        i = i + 1;
    }
    assert(ls.take(i as int) =~= ls);
    (zone, errors)
}

/// Parses a zone file's text and infers the origin from the SOA record (if
/// present), falling back to an empty origin.
pub fn zone_with_inferred_origin(content: &str) -> (r: (AuthZone, Vec<(usize, ZoneLineError)>))
    ensures
        r.0.records@ == zone_of(line_seq(content@)),
        r.0.origin@ == inferred_origin(&r.0.records),
        error_views(r.1@) == zone_errors(line_seq(content@)),
{
    let (records, errors) = parse_zone_file(content);
    let origin = infer_origin(&records);
    (AuthZone { origin, records }, errors)
}

fn parse_u32(s: &str) -> (r: Option<u32>)
    ensures
        match r {
            Some(v) => number(s@, u32::MAX as nat) == Some(v as nat),
            None => number(s@, u32::MAX as nat) is None,
        },
{
    proof {
        lemma_number_bound(s@, u32::MAX as nat);
    }
    match parse_number(s, 4294967295) {
        Some(v) => Some(v as u32),
        None => None,
    }
}

fn parse_u16(s: &str) -> (r: Option<u16>)
    ensures
        match r {
            Some(v) => number(s@, u16::MAX as nat) == Some(v as nat),
            None => number(s@, u16::MAX as nat) is None,
        },
{
    proof {
        lemma_number_bound(s@, u16::MAX as nat);
    }
    match parse_number(s, 65535) {
        Some(v) => Some(v as u16),
        None => None,
    }
}

/// Removes a single trailing dot from a domain name, if present
/// (e.g. `example.com.` -> `example.com`).
fn strip_trailing_dot(name: &str) -> (r: String)
    ensures
        r@ == chop_end(name@, '.'),
{
    strip_end(name, '.').to_owned()
}

/// Parses a single zone-file line into an optional `(domain_key, record)` pair.
///
/// Returns `Ok(None)` for a recognised-but-unsupported record type, and `Err`
/// for a malformed line.
pub fn parse_line(line: &str) -> (r: Result<Option<(String, DnsRecord)>, ZoneLineError>)
    ensures
        match (r, line_of(line@)) {
            (Ok(Some((name, x))), Ok(Some((n, v)))) => name@ == n && x@ == v,
            (Ok(None), Ok(None)) => true,
            (Err(e), Err(f)) => e == f,
            _ => false,
        },
{
    let parts = split_whitespace(line);
    let ghost f = words(line@);
    assert(f.len() == parts@.len());
    if parts.len() < 4 {
        return Err(ZoneLineError::TooFewFields);
    }
    assert(f[0] == parts@[0]@ && f[1] == parts@[1]@);
    // DNS names are case-insensitive, so normalize the key to lowercase.
    let domain = strip_trailing_dot(to_lowercase(parts[0]).as_str());
    let ttl: u32 = match parse_u32(parts[1]) {
        Some(v) => v,
        None => return Err(ZoneLineError::InvalidTtl),
    };
    match parse_record(&parts, &domain, ttl) {
        Ok(Some(record)) => Ok(Some((domain, record))),
        Ok(None) => Ok(None),
        Err(e) => Err(e),
    }
}

/// Parses the type and data fields of a zone-file line.
fn parse_record(parts: &Vec<&str>, domain: &String, ttl: u32) -> (r: Result<
    Option<DnsRecord>,
    ZoneLineError,
>)
    requires
        parts@.len() >= 4,
    ensures
        match (r, record_of(domain@, ttl, texts(parts@))) {
            (Ok(Some(x)), Ok(Some(v))) => x@ == v,
            (Ok(None), Ok(None)) => true,
            (Err(e), Err(f)) => e == f,
            _ => false,
        },
{
    let ghost f = texts(parts@);
    proof {
        assert(f.len() == parts@.len());
        assert forall|i: int| 0 <= i < f.len() implies f[i] == parts@[i]@ by {}
    }
    let kind = parts[2];
    let data = join_from(parts, 3, ' ');
    let domain = domain.clone();
    if text_eq(kind, "A") {
        match Ipv4Addr::parse(data.as_str()) {
            Some(addr) => Ok(Some(DnsRecord::A { domain, addr, ttl })),
            None => Err(ZoneLineError::InvalidIpv4),
        }
    } else if text_eq(kind, "AAAA") {
        match Ipv6Addr::parse(data.as_str()) {
            Some(addr) => Ok(Some(DnsRecord::AAAA { domain, addr, ttl })),
            None => Err(ZoneLineError::InvalidIpv6),
        }
    } else if text_eq(kind, "CNAME") {
        let alias = strip_trailing_dot(data.as_str());
        Ok(Some(DnsRecord::CNAME { domain, alias, ttl }))
    } else if text_eq(kind, "NS") {
        let nameserver = strip_trailing_dot(data.as_str());
        Ok(Some(DnsRecord::NS { domain, nameserver, ttl }))
    } else if text_eq(kind, "MX") {
        // MX data is "<preference> <exchange>".
        if parts.len() < 5 {
            return Err(ZoneLineError::MxFields);
        }
        match parse_u16(parts[3]) {
            Some(preference) => {
                let exchange = strip_trailing_dot(parts[4]);
                Ok(Some(DnsRecord::MX { domain, preference, exchange, ttl }))
            },
            None => Err(ZoneLineError::MxPreference),
        }
    } else if text_eq(kind, "TXT") {
        // Strip optional surrounding double quotes from the text value.
        let text = trim_matches(data.as_str(), '"').to_owned();
        Ok(Some(DnsRecord::TXT { domain, text, ttl }))
    } else if text_eq(kind, "PTR") {
        let ptrdname = strip_trailing_dot(data.as_str());
        Ok(Some(DnsRecord::PTR { domain, ptrdname, ttl }))
    } else if text_eq(kind, "SRV") {
        match parse_srv(parts, domain, ttl) {
            Ok(r) => Ok(Some(r)),
            Err(e) => Err(e),
        }
    } else if text_eq(kind, "CAA") {
        // CAA data is "<flags> <tag> <value>".
        if parts.len() < 6 {
            return Err(ZoneLineError::CaaFields);
        }
        proof {
            lemma_number_bound(parts@[3]@, 255);
        }
        match parse_number(parts[3], 255) {
            Some(flags) => {
                let tag = parts[4].to_owned();
                let joined_value = join_from(parts, 5, ' ');
                let value = trim_matches(joined_value.as_str(), '"').to_owned();
                Ok(Some(DnsRecord::CAA { domain, flags: flags as u8, tag, value, ttl }))
            },
            None => Err(ZoneLineError::CaaFlags),
        }
    } else if text_eq(kind, "SOA") {
        match parse_soa(parts, domain, ttl) {
            Ok(r) => Ok(Some(r)),
            Err(e) => Err(e),
        }
    } else {
        Ok(None)
    }
}

/// Parses SRV data: `<priority> <weight> <port> <target>`.
fn parse_srv(parts: &Vec<&str>, domain: String, ttl: u32) -> (r: Result<DnsRecord, ZoneLineError>)
    ensures
        match (r, srv_of(domain@, ttl, texts(parts@))) {
            (Ok(x), Ok(v)) => x@ == v,
            (Err(e), Err(f)) => e == f,
            _ => false,
        },
{
    assert(texts(parts@).len() == parts@.len());
    if parts.len() < 7 {
        return Err(ZoneLineError::SrvFields);
    }
    let priority: u16 = match parse_u16(parts[3]) {
        Some(v) => v,
        None => return Err(ZoneLineError::SrvPriority),
    };
    let weight: u16 = match parse_u16(parts[4]) {
        Some(v) => v,
        None => return Err(ZoneLineError::SrvWeight),
    };
    let port: u16 = match parse_u16(parts[5]) {
        Some(v) => v,
        None => return Err(ZoneLineError::SrvPort),
    };
    let target = strip_trailing_dot(parts[6]);
    Ok(DnsRecord::SRV { domain, priority, weight, port, target, ttl })
}

/// Parses SOA data:
/// `<mname> <rname> <serial> <refresh> <retry> <expire> <minimum>`.
fn parse_soa(parts: &Vec<&str>, domain: String, ttl: u32) -> (r: Result<DnsRecord, ZoneLineError>)
    ensures
        match (r, soa_of(domain@, ttl, texts(parts@))) {
            (Ok(x), Ok(v)) => x@ == v,
            (Err(e), Err(f)) => e == f,
            _ => false,
        },
{
    assert(texts(parts@).len() == parts@.len());
    if parts.len() < 10 {
        return Err(ZoneLineError::SoaFields);
    }
    let serial: u32 = match parse_u32(parts[5]) {
        Some(v) => v,
        None => return Err(ZoneLineError::SoaSerial),
    };
    let refresh: u32 = match parse_u32(parts[6]) {
        Some(v) => v,
        None => return Err(ZoneLineError::SoaRefresh),
    };
    let retry: u32 = match parse_u32(parts[7]) {
        Some(v) => v,
        None => return Err(ZoneLineError::SoaRetry),
    };
    let expire: u32 = match parse_u32(parts[8]) {
        Some(v) => v,
        None => return Err(ZoneLineError::SoaExpire),
    };
    let minimum: u32 = match parse_u32(parts[9]) {
        Some(v) => v,
        None => return Err(ZoneLineError::SoaMinimum),
    };
    let mname = strip_trailing_dot(parts[3]);
    let rname = strip_trailing_dot(parts[4]);
    Ok(DnsRecord::SOA { domain, mname, rname, serial, refresh, retry, expire, minimum, ttl })
}

/// A conditional forwarding rule: queries for names ending in `suffix` are
/// forwarded to `upstream` instead of the default resolver.
#[derive(Debug)]
pub struct ForwardRule {
    /// Domain suffix that triggers this rule (e.g. `corp.example.com`).
    pub suffix: String,
    /// The upstream resolver to forward matching queries to.
    pub upstream: SocketAddr,
}

impl Suffixed for ForwardRule {
    open spec fn suffix_spec(&self) -> Seq<char> {
        self.suffix@
    }

    fn suffix_text(&self) -> (r: &str) {
        self.suffix.as_str()
    }
}

/// The first rule that a name falls under.
pub open spec fn find_rule(rules: Seq<ForwardRule>, name: Seq<char>) -> Option<ForwardRule>
    decreases rules.len(),
{
    if rules.len() == 0 {
        None
    } else if under(name, rules[0].suffix@) {
        Some(rules[0])
    } else {
        find_rule(rules.drop_first(), name)
    }
}

/// The rule found for a name is one with the longest suffix that the name falls
/// under, and one is found wherever it falls under any.
pub proof fn law_longest_rule(rules: Seq<ForwardRule>, name: Seq<char>)
    ensures
        match find_rule(ranked(rules), name) {
            Some(r) => rules.contains(r) && under(name, r.suffix@) && forall|y: ForwardRule|
                rules.contains(y) && #[trigger] under(name, y.suffix@) ==> rank(r) >= rank(y),
            None => forall|y: ForwardRule|
                rules.contains(y) ==> !#[trigger] under(name, y.suffix@),
        },
{
    broadcast use vstd::seq_lib::group_to_multiset_ensures;

    let s = ranked(rules);
    law_ranked(rules);
    lemma_find_rule(s, name);
    assert forall|y: ForwardRule| rules.contains(y) == s.contains(y) by {
        assert(rules.to_multiset().count(y) == s.to_multiset().count(y));
    }
}

proof fn lemma_find_rule(s: Seq<ForwardRule>, name: Seq<char>)
    requires
        longest_first(s),
    ensures
        match find_rule(s, name) {
            Some(r) => s.contains(r) && under(name, r.suffix@) && forall|y: ForwardRule|
                s.contains(y) && #[trigger] under(name, y.suffix@) ==> rank(r) >= rank(y),
            None => forall|y: ForwardRule| s.contains(y) ==> !#[trigger] under(name, y.suffix@),
        },
    decreases s.len(),
{
    if s.len() > 0 {
        let t = s.drop_first();
        if under(name, s[0].suffix@) {
            assert(s.contains(s[0]));
            assert forall|y: ForwardRule|
                s.contains(y) && #[trigger] under(name, y.suffix@) implies rank(s[0])
                >= rank(y) by {
                let i = s.index_of(y);
                assert(rank(s[0]) >= rank(s[i]));
            }
        } else {
            assert(longest_first(t));
            lemma_find_rule(t, name);
            if let Some(r) = find_rule(t, name) {
                let i = t.index_of(r);
                assert(s[i + 1] == r);
            }
            assert forall|y: ForwardRule|
                s.contains(y) && under(name, y.suffix@) implies t.contains(
                y,
            ) by {
                let i = s.index_of(y);
                assert(t[i - 1] == y);
            }
        }
    }
}

/// Conditional forwarding rules with longest-suffix matching.
///
/// A query name is matched against each rule's suffix; the longest matching
/// suffix wins. Names that match no rule use the default upstream (if any).
#[derive(Debug)]
pub struct ForwardRules {
    /// Sorted by suffix length descending so the longest match wins.
    rules: Vec<ForwardRule>,
    /// The upstream used when no rule matches (the "default recursive" target).
    default: Option<SocketAddr>,
}

impl ForwardRules {
    #[verifier::type_invariant]
    spec fn wf(self) -> bool {
        longest_first(self.rules@)
    }

    /// The rules, those with the longest suffixes first.
    pub closed spec fn seq(&self) -> Seq<ForwardRule> {
        self.rules@
    }

    /// The upstream used when no rule matches.
    pub closed spec fn default_spec(&self) -> Option<SocketAddr> {
        self.default
    }

    /// The upstream for a name: that of the rule it falls under, or the default.
    pub open spec fn upstream_for(&self, name: Seq<char>) -> Option<SocketAddr> {
        match find_rule(self.seq(), name) {
            Some(r) => Some(r.upstream),
            None => self.default_spec(),
        }
    }

    /// Whether there is anything to forward to.
    pub open spec fn enabled(&self) -> bool {
        self.default_spec() is Some || self.seq().len() > 0
    }

    /// Builds forwarding rules from a default upstream and a list of rules.
    pub fn new(default: Option<SocketAddr>, rules: Vec<ForwardRule>) -> (r: Self)
        ensures
            r.seq() == ranked(rules@),
            r.default_spec() == default,
    {
        proof {
            law_ranked(rules@);
        }
        let rules = sort_longest_first(rules);
        ForwardRules { rules, default }
    }

    /// A single default upstream, no per-domain rules.
    pub fn single(default: SocketAddr) -> (r: Self)
        ensures
            r.seq() == Seq::<ForwardRule>::empty(),
            r.default_spec() == Some(default),
    {
        ForwardRules::new(Some(default), Vec::new())
    }

    /// No forwarding at all.
    pub fn none() -> (r: Self)
        ensures
            r.seq() == Seq::<ForwardRule>::empty(),
            r.default_spec() is None,
    {
        ForwardRules { rules: Vec::new(), default: None }
    }

    /// Returns the upstream resolver for `name`, or `None` if forwarding is
    /// not configured for it.
    pub fn match_name(&self, name: &str) -> (r: Option<SocketAddr>)
        ensures
            r == self.upstream_for(name@),
            longest_first(self.seq()),
    {
        proof {
            use_type_invariant(self);
            assert(self.rules@.skip(0) =~= self.rules@);
        }
        let mut i: usize = 0;
        while i < self.rules.len()
            invariant
                i <= self.rules@.len(),
                longest_first(self.rules@),
                find_rule(self.rules@, name@) == find_rule(self.rules@.skip(i as int), name@),
            decreases self.rules@.len() - i,
        {
            if is_under(name, self.rules[i].suffix.as_str()) {
                return Some(self.rules[i].upstream);
            }
            proof {
                assert(self.rules@.skip(i as int).drop_first() =~= self.rules@.skip(i + 1));
            }
            i = i + 1;
        }
        self.default
    }

    /// Whether any forwarding is configured (default or rules).
    pub fn is_enabled(&self) -> (r: bool)
        ensures
            r == self.enabled(),
    {
        self.default.is_some() || self.rules.len() > 0
    }

    /// Returns a new `ForwardRules` with the default upstream replaced, keeping
    /// the existing per-domain rules.
    pub fn with_default(self, default: SocketAddr) -> (r: Self)
        ensures
            r.seq() == self.seq(),
            r.default_spec() == Some(default),
    {
        proof {
            use_type_invariant(&self);
            lemma_ranked_sorted(self.rules@);
        }
        ForwardRules::new(Some(default), self.rules)
    }

    /// Returns a new `ForwardRules` without a default upstream, keeping the existing
    /// per-domain rules.
    pub fn without_default(self) -> (r: Self)
        ensures
            r.seq() == self.seq(),
            r.default_spec() is None,
    {
        proof {
            use_type_invariant(&self);
            lemma_ranked_sorted(self.rules@);
        }
        ForwardRules::new(None, self.rules)
    }

    /// The per-domain rules (for logging/diagnostics).
    pub fn rules(&self) -> (r: &[ForwardRule])
        ensures
            r@ == self.seq(),
    {
        self.rules.as_slice()
    }

    /// The default upstream, if any.
    pub fn default_upstream(&self) -> (r: Option<SocketAddr>)
        ensures
            r == self.default_spec(),
    {
        self.default
    }
}

/// Top-level server configuration.
///
/// All fields are optional; any omitted section falls back to the CLI/env
/// defaults. Example:
///
/// ```toml
/// [server]
/// addr = "0.0.0.0:53"
/// rate_limit = 50
///
/// [upstream]
/// default = "1.1.1.1:53"
/// timeout_secs = 5
///
/// [[upstream.rules]]
/// suffix = "corp.example.com"
/// upstream = "10.0.0.53:53"
///
/// [[zone]]
/// origin = "example.com"
/// file = "zones/example.zone"
///
/// [[zone]]
/// origin = "internal"
/// file = "zones/internal.zone"
///
/// [tls]
/// dot_addr = "0.0.0.0:853"
/// doh_addr = "0.0.0.0:443"
///
/// [metrics]
/// addr = "0.0.0.0:9153"
/// ```
#[derive(Debug, Default)]
pub struct Settings {
    pub server: Option<ServerSettings>,
    pub upstream: Option<UpstreamSettings>,
    pub zone: Option<Vec<ZoneSettings>>,
    pub tls: Option<TlsSettings>,
    pub metrics: Option<MetricsSettings>,
    pub blocklist: Option<BlocklistSettings>,
    pub dns64: Option<Dns64Settings>,
    pub axfr: Option<AxfrSettings>,
    pub dnssec: Option<DnssecSettings>,
}

#[derive(Debug, Default)]
pub struct ServerSettings {
    pub addr: Option<String>,
    pub no_recurse: Option<bool>,
    pub rate_limit: Option<u32>,
    pub cache_size: Option<usize>,
}

#[derive(Debug, Default)]
pub struct UpstreamSettings {
    pub default: Option<String>,
    pub timeout_secs: Option<u64>,
    pub rules: Option<Vec<ForwardRuleSettings>>,
    /// When true, resolve queries iteratively from root instead of forwarding
    /// to a stub upstream. This makes mini-dns a full recursive resolver that
    /// doesn't depend on 8.8.8.8/1.1.1.1. Conditional forwarding rules still
    /// apply (matched names go to their specific upstream).
    pub recursive: bool,
}

#[derive(Debug, Default)]
pub struct ForwardRuleSettings {
    pub suffix: String,
    pub upstream: String,
}

#[derive(Debug, Default)]
pub struct ZoneSettings {
    pub origin: String,
    pub file: String,
}

#[derive(Debug, Default)]
pub struct TlsSettings {
    pub dot_addr: Option<String>,
    pub doh_addr: Option<String>,
    pub doq_addr: Option<String>,
    pub cert: Option<String>,
    pub key: Option<String>,
}

#[derive(Debug, Default)]
pub struct MetricsSettings {
    pub addr: Option<String>,
}

#[derive(Debug, Default)]
pub struct BlocklistSettings {
    /// Path to a blocklist file (one domain per line, `;`/`#` comments).
    pub file: String,
}

#[derive(Debug, Default)]
pub struct Dns64Settings {
    /// The NAT64 prefix to use for AAAA synthesis (default: `64:ff9b::/96`).
    pub prefix: Option<String>,
}

#[derive(Debug, Default)]
pub struct AxfrSettings {
    /// CIDR ranges or single IPs allowed to request zone transfers.
    /// Example: `["10.0.0.0/8", "192.168.1.5"]`. Empty = deny all.
    pub allow: Vec<String>,
}

#[derive(Debug, Default)]
pub struct DnssecSettings {
    /// Enable DNSSEC signing. Generates an ED25519 key at startup, publishes
    /// DNSKEY records at zone apexes, and signs answer RRsets with RRSIG.
    pub enabled: bool,
}

/// The zones that are configured, each with the text of its file.
pub open spec fn configured_zones(settings: &Settings) -> Seq<ZoneSettings> {
    match settings.zone {
        Some(v) => v@,
        None => Seq::empty(),
    }
}

/// Builds the zones declared in `Settings` from the texts of their files, in the
/// order in which they are declared. The lines that are not understood come with
/// the number of the zone.
pub fn zones_from_settings(settings: &Settings, contents: &Vec<String>) -> (r: (
    ZoneSet,
    Vec<(usize, Vec<(usize, ZoneLineError)>)>,
))
    requires
        contents@.len() == configured_zones(settings).len(),
    ensures
        exists|zones: Seq<AuthZone>| #[trigger]
            ranked(zones) == r.0.seq() && built_from(
                zones,
                configured_zones(settings),
                string_views(contents@),
            ),
        r.1@.len() == contents@.len(),
        forall|i: int|
            0 <= i < contents@.len() ==> (#[trigger] r.1@[i]).0 == i && error_views(r.1@[i].1@)
                == zone_errors(line_seq(contents@[i]@)),
{
    let mut zones: Vec<AuthZone> = Vec::new();
    let mut reports: Vec<(usize, Vec<(usize, ZoneLineError)>)> = Vec::new();
    if let Some(cfgs) = &settings.zone {
        let mut i: usize = 0;
        while i < cfgs.len()
            invariant
                i <= cfgs@.len(),
                cfgs@.len() == contents@.len(),
                zones@.len() == i,
                reports@.len() == i,
                forall|j: int|
                    0 <= j < i ==> (#[trigger] zones@[j]).origin@ == lowercase(cfgs@[j].origin@)
                        && zones@[j].records@ == zone_of(line_seq(contents@[j]@)),
                forall|j: int|
                    0 <= j < i ==> (#[trigger] reports@[j]).0 == j && error_views(reports@[j].1@)
                        == zone_errors(line_seq(contents@[j]@)),
            decreases cfgs@.len() - i,
        {
            let (records, errors) = parse_zone_file(contents[i].as_str());
            let origin = to_lowercase(cfgs[i].origin.as_str());
            zones.push(AuthZone { origin, records });
            reports.push((i, errors));
            i = i + 1;
        }
    }
    let ghost built = zones@;
    let set = ZoneSet::new(zones);
    proof {
        assert(built_from(built, configured_zones(settings), string_views(contents@)));
        assert(ranked(built) == set.seq());
    }
    (set, reports)
}

/// Whether zones are made from their settings and the texts of their files: the
/// origins in lower case, the records as the texts say.
pub open spec fn built_from(
    zones: Seq<AuthZone>,
    cfgs: Seq<ZoneSettings>,
    contents: Seq<Seq<char>>,
) -> bool {
    &&& zones.len() == cfgs.len()
    &&& zones.len() == contents.len()
    &&& forall|i: int|
        0 <= i < zones.len() ==> (#[trigger] zones[i]).origin@ == lowercase(cfgs[i].origin@)
            && zones[i].records@ == zone_of(line_seq(contents[i]))
}

/// An upstream address that is not valid.
#[derive(Debug)]
pub struct UpstreamError {
    pub text: String,
}

/// The upstream that a text stands for: `host:port`, or a host alone, for which
/// the port is 53.
pub open spec fn upstream_of(s: Seq<char>) -> Option<SocketAddr> {
    match socket_of(s) {
        Some(a) => Some(a),
        None => socket_of(s + ":53"@),
    }
}

/// Parses `host:port`, defaulting the port to 53 if omitted.
pub fn parse_upstream_addr(s: &str) -> (r: Result<SocketAddr, UpstreamError>)
    ensures
        match r {
            Ok(a) => upstream_of(s@) == Some(a),
            Err(e) => upstream_of(s@) is None && e.text@ == s@,
        },
{
    if let Some(a) = SocketAddr::parse(s) {
        return Ok(a);
    }
    let with_port = s.to_owned().concat(":53");
    match SocketAddr::parse(with_port.as_str()) {
        Some(a) => Ok(a),
        None => Err(UpstreamError { text: s.to_owned() }),
    }
}

/// Whether a rule is what its settings say: the suffix in lower case, the upstream
/// as it parses.
pub open spec fn rule_from(rule: ForwardRule, cfg: ForwardRuleSettings) -> bool {
    rule.suffix@ == lowercase(cfg.suffix@) && upstream_of(cfg.upstream@) == Some(rule.upstream)
}

/// The rules that are configured.
pub open spec fn configured_rules(up: UpstreamSettings) -> Seq<ForwardRuleSettings> {
    match up.rules {
        Some(v) => v@,
        None => Seq::empty(),
    }
}

/// The first upstream that does not parse: the default is looked at first, and
/// then the rules in order.
pub open spec fn first_bad_upstream(up: UpstreamSettings) -> Option<Seq<char>> {
    match up.default {
        Some(d) => if upstream_of(d@) is None {
            Some(d@)
        } else {
            first_bad_rule(configured_rules(up))
        },
        None => first_bad_rule(configured_rules(up)),
    }
}

pub open spec fn first_bad_rule(rules: Seq<ForwardRuleSettings>) -> Option<Seq<char>>
    decreases rules.len(),
{
    if rules.len() == 0 {
        None
    } else if upstream_of(rules[0].upstream@) is None {
        Some(rules[0].upstream@)
    } else {
        first_bad_rule(rules.drop_first())
    }
}

/// Builds `ForwardRules` from `Settings`, resolving rule upstreams.
pub fn forward_rules_from_settings(settings: &Settings) -> (r: Result<ForwardRules, UpstreamError>)
    ensures
        match settings.upstream {
            None => r matches Ok(f) && f.seq().len() == 0 && f.default_spec() is None,
            Some(up) => match r {
                Ok(f) => {
                    &&& first_bad_upstream(up) is None
                    &&& f.default_spec() == (match up.default {
                        Some(d) => upstream_of(d@),
                        None => None,
                    })
                    &&& exists|rules: Seq<ForwardRule>| #[trigger]
                        ranked(rules) == f.seq() && rules.len() == configured_rules(up).len()
                            && forall|i: int|
                            0 <= i < rules.len() ==> rule_from(
                                #[trigger] rules[i],
                                configured_rules(up)[i],
                            )
                },
                Err(e) => first_bad_upstream(up) == Some(e.text@),
            },
        },
{
    let up = match &settings.upstream {
        Some(up) => up,
        None => return Ok(ForwardRules::none()),
    };
    let default: Option<SocketAddr> = match &up.default {
        Some(s) => match parse_upstream_addr(s.as_str()) {
            Ok(a) => Some(a),
            Err(e) => return Err(e),
        },
        None => None,
    };
    let mut rules: Vec<ForwardRule> = Vec::new();
    let ghost cfg_seq = configured_rules(*up);
    if let Some(cfgs) = &up.rules {
        let mut i: usize = 0;
        proof {
            assert(cfg_seq.skip(0) =~= cfg_seq);
        }
        while i < cfgs.len()
            invariant
                i <= cfgs@.len(),
                cfg_seq == cfgs@,
                rules@.len() == i,
                first_bad_rule(cfg_seq) == first_bad_rule(cfg_seq.skip(i as int)),
                forall|j: int| 0 <= j < i ==> rule_from(#[trigger] rules@[j], cfg_seq[j]),
                cfg_seq == configured_rules(*up),
                settings.upstream == Some(*up),
                first_bad_upstream(*up) == first_bad_rule(cfg_seq),
            decreases cfgs@.len() - i,
        {
            proof {
                assert(cfg_seq.skip(i as int)[0] == cfgs@[i as int]);
                assert(cfg_seq.skip(i as int).drop_first() =~= cfg_seq.skip(i + 1));
            }
            let suffix = to_lowercase(cfgs[i].suffix.as_str());
            match parse_upstream_addr(cfgs[i].upstream.as_str()) {
                Ok(upstream) => {
                    rules.push(ForwardRule { suffix, upstream });
                },
                Err(e) => return Err(e),
            }
            i = i + 1;
        }
        assert(first_bad_rule(cfg_seq.skip(i as int)) is None);
    }
    let ghost made = rules@;
    let f = ForwardRules::new(default, rules);
    assert(ranked(made) == f.seq());
    Ok(f)
}

/// The records that a zone holds for a name; none where the name has none.
pub open spec fn records_at(
    zone: Map<Seq<char>, Seq<RecordView>>,
    name: Seq<char>,
) -> Seq<RecordView> {
    if zone.contains_key(name) {
        zone[name]
    } else {
        Seq::empty()
    }
}

/// The lines of a zone file add up: what some lines and then others make up holds for
/// every name the records of the first lines followed by those of the others, and its
/// errors are those of the first and of the others, with their numbers moved on.
pub proof fn law_zone_lines(a: Seq<Seq<char>>, b: Seq<Seq<char>>, name: Seq<char>)
    ensures
        records_at(zone_of(a + b), name) == records_at(zone_of(a), name) + records_at(
            zone_of(b),
            name,
        ),
        zone_errors(a + b) == zone_errors(a) + zone_errors(b).map_values(
            |e: (nat, ZoneLineError)| (e.0 + a.len(), e.1),
        ),
    decreases b.len(),
{
    let moved = |e: (nat, ZoneLineError)| (e.0 + a.len(), e.1);
    if b.len() == 0 {
        assert(a + b =~= a);
        assert(records_at(zone_of(a), name) + records_at(zone_of(b), name) =~= records_at(
            zone_of(a),
            name,
        ));
        assert(zone_errors(a) + zone_errors(b).map_values(moved) =~= zone_errors(a));
    } else {
        let init = b.drop_last();
        law_zone_lines(a, init, name);
        assert((a + b).drop_last() =~= a + init);
        assert((a + b).last() == b.last());
        assert(records_at(zone_of(a + b), name) =~= records_at(zone_of(a), name) + records_at(
            zone_of(b),
            name,
        ));
        assert(zone_errors(a + b) =~= zone_errors(a) + zone_errors(b).map_values(moved));
    }
}

/// Every line is read that, without the white space around it, is not empty and does not
/// begin with a semicolon. Where it stands for a record, the zone holds that record under
/// its owner; where it is not understood, it is among the errors, with its number.
pub proof fn law_every_line_read(lines: Seq<Seq<char>>, k: int)
    requires
        0 <= k < lines.len(),
        trim_spec(lines[k]).len() > 0,
        trim_spec(lines[k])[0] != ';',
    ensures
        match line_of(trim_spec(lines[k])) {
            Ok(Some((name, r))) => zone_of(lines).contains_key(name) && zone_of(
                lines,
            )[name].contains(r),
            Ok(None) => true,
            Err(e) => zone_errors(lines).contains(((k + 1) as nat, e)),
        },
{
    let a = lines.take(k);
    let one = seq![lines[k]];
    let b = lines.skip(k + 1);
    assert(lines =~= a + one + b);
    assert(one.drop_last() =~= Seq::empty());
    assert(zone_of(Seq::<Seq<char>>::empty()) =~= Map::empty());
    assert(zone_errors(Seq::<Seq<char>>::empty()) =~= Seq::empty());
    match line_of(trim_spec(lines[k])) {
        Ok(Some((name, r))) => {
            law_zone_lines(a + one, b, name);
            law_zone_lines(a, one, name);
            let head = records_at(zone_of(a), name);
            assert(records_at(zone_of(one), name) =~= seq![r]);
            assert(records_at(zone_of(lines), name)[head.len() as int] == r);
        },
        Ok(None) => {},
        Err(e) => {
            law_zone_lines(a + one, b, Seq::empty());
            law_zone_lines(a, one, Seq::empty());
            let head = zone_errors(a);
            assert(zone_errors(one) =~= seq![(1nat, e)]);
            assert(zone_errors(lines)[head.len() as int] == ((k + 1) as nat, e));
        },
    }
}

/// Blank lines and those that begin with a semicolon, or with white space and then a
/// semicolon, add neither a record nor an error.
pub proof fn law_comment_skipped(a: Seq<Seq<char>>, line: Seq<char>)
    requires
        trim_spec(line).len() == 0 || trim_spec(line)[0] == ';',
    ensures
        zone_of(a.push(line)) == zone_of(a),
        zone_errors(a.push(line)) == zone_errors(a),
{
    assert(a.push(line).drop_last() =~= a);
}

/// The owner name that the first field of a line stands for: in lower case, with or
/// without a dot at its end.
pub open spec fn owner_of(field: Seq<char>, name: Seq<char>) -> bool {
    lowercase(field) == name.push('.') || (lowercase(field) == name && (name.len() == 0
        || name.last() != '.'))
}

/// The name that a field of a line stands for, with or without a dot at its end.
pub open spec fn name_of(field: Seq<char>, name: Seq<char>) -> bool {
    field == name.push('.') || (field == name && (name.len() == 0 || name.last() != '.'))
}

proof fn lemma_names(field: Seq<char>, name: Seq<char>)
    ensures
        owner_of(field, name) ==> chop_end(lowercase(field), '.') == name,
        name_of(field, name) ==> chop_end(field, '.') == name,
{
    assert(name.push('.').drop_last() =~= name);
}

/// Whether all fields of a line are words.
pub open spec fn are_words(f: Seq<Seq<char>>) -> bool {
    forall|i: int| 0 <= i < f.len() ==> is_word(#[trigger] f[i])
}

/// The fields of a line: owner, TTL in decimal, type, and the rest.
pub open spec fn fields(
    owner: Seq<char>,
    ttl: u32,
    rtype: Seq<char>,
    data: Seq<Seq<char>>,
) -> Seq<Seq<char>> {
    seq![owner, decimal(ttl as nat), rtype] + data
}

proof fn lemma_fields(owner: Seq<char>, ttl: u32, rtype: Seq<char>, data: Seq<Seq<char>>)
    requires
        are_words(fields(owner, ttl, rtype, data)),
    ensures
        ({
            let f = fields(owner, ttl, rtype, data);
            &&& words(joined(f, ' ')) == f
            &&& f.skip(3) == data
            &&& number(f[1], u32::MAX as nat) == Some(ttl as nat)
            &&& data.len() == 1 ==> joined(f.skip(3), ' ') == data[0]
        }),
{
    let f = fields(owner, ttl, rtype, data);
    law_words_joined(f);
    lemma_decimal_round_trip(ttl as nat, u32::MAX as nat);
    assert(f.skip(3) =~= data);
}

proof fn lemma_type_names()
    ensures
        "A"@ == seq!['A'],
        "AAAA"@ == seq!['A', 'A', 'A', 'A'],
        "CNAME"@ == seq!['C', 'N', 'A', 'M', 'E'],
        "NS"@ == seq!['N', 'S'],
        "MX"@ == seq!['M', 'X'],
        "TXT"@ == seq!['T', 'X', 'T'],
        "PTR"@ == seq!['P', 'T', 'R'],
        "SRV"@ == seq!['S', 'R', 'V'],
        "CAA"@ == seq!['C', 'A', 'A'],
        "SOA"@ == seq!['S', 'O', 'A'],
{
    reveal_strlit("A");
    reveal_strlit("AAAA");
    reveal_strlit("CNAME");
    reveal_strlit("NS");
    reveal_strlit("MX");
    reveal_strlit("TXT");
    reveal_strlit("PTR");
    reveal_strlit("SRV");
    reveal_strlit("CAA");
    reveal_strlit("SOA");
    assert("A"@ =~= seq!['A']);
    assert("AAAA"@ =~= seq!['A', 'A', 'A', 'A']);
    assert("CNAME"@ =~= seq!['C', 'N', 'A', 'M', 'E']);
    assert("NS"@ =~= seq!['N', 'S']);
    assert("MX"@ =~= seq!['M', 'X']);
    assert("TXT"@ =~= seq!['T', 'X', 'T']);
    assert("PTR"@ =~= seq!['P', 'T', 'R']);
    assert("SRV"@ =~= seq!['S', 'R', 'V']);
    assert("CAA"@ =~= seq!['C', 'A', 'A']);
    assert("SOA"@ =~= seq!['S', 'O', 'A']);
}

/// Whether a line stands for a record under an owner name.
pub open spec fn says(line: Seq<char>, name: Seq<char>, r: RecordView) -> bool {
    line_of(line) == Ok::<Option<(Seq<char>, RecordView)>, ZoneLineError>(Some((name, r)))
}

/// IPv4 address records are read from their notation: any owner, any TTL, any address.
pub proof fn law_a_line(owner: Seq<char>, name: Seq<char>, ttl: u32, addr: Ipv4Addr)
    requires
        is_word(owner),
        owner_of(owner, name),
    ensures
        says(
            joined(fields(owner, ttl, "A"@, seq![ipv4_text(addr)]), ' '),
            name,
            (RecordView::A { domain: name, addr, ttl }),
        ),
{
    let data = seq![ipv4_text(addr)];
    let f = fields(owner, ttl, "A"@, data);
    assert(are_words(f)) by {
        lemma_type_names();
        lemma_decimal_words(ttl as nat);
        lemma_ipv4_word(addr);
    }
    lemma_names(owner, name);
    lemma_fields(owner, ttl, "A"@, data);
    law_ipv4_read(addr);
}

/// IPv6 address records are read from any notation of the address.
pub proof fn law_aaaa_line(
    owner: Seq<char>,
    name: Seq<char>,
    ttl: u32,
    text: Seq<char>,
    addr: Ipv6Addr,
)
    requires
        is_word(owner),
        owner_of(owner, name),
        is_word(text),
        ipv6_of(text) == Some(addr),
    ensures
        says(
            joined(fields(owner, ttl, "AAAA"@, seq![text]), ' '),
            name,
            (RecordView::AAAA { domain: name, addr, ttl }),
        ),
{
    let data = seq![text];
    let f = fields(owner, ttl, "AAAA"@, data);
    assert(are_words(f)) by {
        lemma_type_names();
        lemma_decimal_words(ttl as nat);
    }
    assert("AAAA"@.len() == 4 && "A"@.len() == 1) by {
        lemma_type_names();
    }
    lemma_names(owner, name);
    lemma_fields(owner, ttl, "AAAA"@, data);
}

proof fn lemma_ipv4_word(a: Ipv4Addr)
    ensures
        is_word(ipv4_text(a)),
{
    lemma_decimal_words(ipv4_octet(a, 0));
    lemma_decimal_words(ipv4_octet(a, 1));
    lemma_decimal_words(ipv4_octet(a, 2));
    lemma_decimal_words(ipv4_octet(a, 3));
    let c = decimal(ipv4_octet(a, 2)).push('.') + decimal(ipv4_octet(a, 3));
    assert(is_word(c));
    let b = decimal(ipv4_octet(a, 1)).push('.') + c;
    assert(is_word(b));
}

proof fn lemma_decimal_words(n: nat)
    ensures
        is_word(decimal(n)),
{
    lemma_decimal_digits(n);
    assert forall|i: int| 0 <= i < decimal(n).len() implies !is_space(
        #[trigger] decimal(n)[i],
    ) by {
        assert(is_digit(decimal(n)[i]));
    }
}

/// Records that hold one name are read with that name, whether or not a dot ends it.
pub proof fn law_name_lines(
    owner: Seq<char>,
    name: Seq<char>,
    ttl: u32,
    field: Seq<char>,
    target: Seq<char>,
    preference: u16,
)
    requires
        is_word(owner),
        owner_of(owner, name),
        is_word(field),
        name_of(field, target),
    ensures
        says(
            joined(fields(owner, ttl, "CNAME"@, seq![field]), ' '),
            name,
            (RecordView::CNAME { domain: name, alias: target, ttl }),
        ),
        says(
            joined(fields(owner, ttl, "NS"@, seq![field]), ' '),
            name,
            (RecordView::NS { domain: name, nameserver: target, ttl }),
        ),
        says(
            joined(fields(owner, ttl, "PTR"@, seq![field]), ' '),
            name,
            (RecordView::PTR { domain: name, ptrdname: target, ttl }),
        ),
        says(
            joined(fields(owner, ttl, "MX"@, seq![decimal(preference as nat), field]), ' '),
            name,
            (RecordView::MX { domain: name, preference, exchange: target, ttl }),
        ),
{
    lemma_type_names();
    lemma_names(owner, name);
    lemma_names(field, target);
    lemma_decimal_words(ttl as nat);
    lemma_decimal_words(preference as nat);
    lemma_decimal_round_trip(preference as nat, u16::MAX as nat);
    lemma_fields(owner, ttl, "CNAME"@, seq![field]);
    lemma_fields(owner, ttl, "NS"@, seq![field]);
    lemma_fields(owner, ttl, "PTR"@, seq![field]);
    lemma_fields(owner, ttl, "MX"@, seq![decimal(preference as nat), field]);
}

/// An SRV record is read with its three numbers and its target.
pub proof fn law_srv_line(
    owner: Seq<char>,
    name: Seq<char>,
    ttl: u32,
    priority: u16,
    weight: u16,
    port: u16,
    field: Seq<char>,
    target: Seq<char>,
)
    requires
        is_word(owner),
        owner_of(owner, name),
        is_word(field),
        name_of(field, target),
    ensures
        says(
            joined(
                fields(
                    owner,
                    ttl,
                    "SRV"@,
                    seq![
                        decimal(priority as nat),
                        decimal(weight as nat),
                        decimal(port as nat),
                        field,
                    ],
                ),
                ' ',
            ),
            name,
            (RecordView::SRV { domain: name, priority, weight, port, target, ttl }),
        ),
{
    let data = seq![
        decimal(priority as nat),
        decimal(weight as nat),
        decimal(port as nat),
        field,
    ];
    lemma_type_names();
    lemma_names(owner, name);
    lemma_names(field, target);
    lemma_decimal_words(ttl as nat);
    lemma_decimal_words(priority as nat);
    lemma_decimal_words(weight as nat);
    lemma_decimal_words(port as nat);
    lemma_decimal_round_trip(priority as nat, u16::MAX as nat);
    lemma_decimal_round_trip(weight as nat, u16::MAX as nat);
    lemma_decimal_round_trip(port as nat, u16::MAX as nat);
    lemma_fields(owner, ttl, "SRV"@, data);
}

/// An SOA record is read with all of its seven fields.
pub proof fn law_soa_line(
    owner: Seq<char>,
    name: Seq<char>,
    ttl: u32,
    names: (Seq<char>, Seq<char>),
    held: (Seq<char>, Seq<char>),
    numbers: (u32, u32, u32, u32, u32),
)
    requires
        is_word(owner),
        owner_of(owner, name),
        is_word(names.0),
        is_word(names.1),
        name_of(names.0, held.0),
        name_of(names.1, held.1),
    ensures
        says(
            joined(
                fields(
                    owner,
                    ttl,
                    "SOA"@,
                    seq![
                        names.0,
                        names.1,
                        decimal(numbers.0 as nat),
                        decimal(numbers.1 as nat),
                        decimal(numbers.2 as nat),
                        decimal(numbers.3 as nat),
                        decimal(numbers.4 as nat),
                    ],
                ),
                ' ',
            ),
            name,
            (RecordView::SOA {
                domain: name,
                mname: held.0,
                rname: held.1,
                serial: numbers.0,
                refresh: numbers.1,
                retry: numbers.2,
                expire: numbers.3,
                minimum: numbers.4,
                ttl,
            }),
        ),
{
    let data = seq![
        names.0,
        names.1,
        decimal(numbers.0 as nat),
        decimal(numbers.1 as nat),
        decimal(numbers.2 as nat),
        decimal(numbers.3 as nat),
        decimal(numbers.4 as nat),
    ];
    lemma_type_names();
    lemma_names(owner, name);
    lemma_names(names.0, held.0);
    lemma_names(names.1, held.1);
    lemma_decimal_words(ttl as nat);
    lemma_decimal_words(numbers.0 as nat);
    lemma_decimal_words(numbers.1 as nat);
    lemma_decimal_words(numbers.2 as nat);
    lemma_decimal_words(numbers.3 as nat);
    lemma_decimal_words(numbers.4 as nat);
    lemma_decimal_round_trip(numbers.0 as nat, u32::MAX as nat);
    lemma_decimal_round_trip(numbers.1 as nat, u32::MAX as nat);
    lemma_decimal_round_trip(numbers.2 as nat, u32::MAX as nat);
    lemma_decimal_round_trip(numbers.3 as nat, u32::MAX as nat);
    lemma_decimal_round_trip(numbers.4 as nat, u32::MAX as nat);
    lemma_fields(owner, ttl, "SOA"@, data);
}

/// Text in quotes is read without them, blanks between its words kept; the value of a CAA
/// record likewise.
pub proof fn law_text_lines(
    owner: Seq<char>,
    name: Seq<char>,
    ttl: u32,
    ws: Seq<Seq<char>>,
    text: Seq<char>,
    flags: u8,
    tag: Seq<char>,
)
    requires
        is_word(owner),
        owner_of(owner, name),
        ws.len() > 0,
        are_words(ws),
        is_word(tag),
        joined(ws, ' ') == seq!['"'] + text + seq!['"'],
        text.len() > 0,
        text[0] != '"',
        text.last() != '"',
    ensures
        says(
            joined(fields(owner, ttl, "TXT"@, ws), ' '),
            name,
            (RecordView::TXT { domain: name, text, ttl }),
        ),
        says(
            joined(fields(owner, ttl, "CAA"@, seq![decimal(flags as nat), tag] + ws), ' '),
            name,
            (RecordView::CAA { domain: name, flags, tag, value: text, ttl }),
        ),
{
    let quoted = seq!['"'] + text + seq!['"'];
    let q = Some('"');
    let more = seq![decimal(flags as nat), tag] + ws;
    lemma_type_names();
    lemma_names(owner, name);
    lemma_decimal_words(ttl as nat);
    lemma_decimal_words(flags as nat);
    lemma_decimal_round_trip(flags as nat, u8::MAX as nat);
    assert(quoted.drop_first() =~= text + seq!['"']);
    assert((text + seq!['"'])[0] == text[0]);
    assert(trim_head(text + seq!['"'], q) == text + seq!['"']);
    assert(trim_head(quoted, q) == text + seq!['"']);
    assert((text + seq!['"']).drop_last() =~= text);
    assert(trim_tail(text, q) == text);
    assert(trim_tail(text + seq!['"'], q) == text);
    let f = fields(owner, ttl, "TXT"@, ws);
    assert forall|i: int| 0 <= i < f.len() implies is_word(#[trigger] f[i]) by {
        if i >= 3 {
            assert(f[i] == ws[i - 3]);
        }
    }
    lemma_fields(owner, ttl, "TXT"@, ws);
    let g = fields(owner, ttl, "CAA"@, more);
    assert forall|i: int| 0 <= i < g.len() implies is_word(#[trigger] g[i]) by {
        if i >= 5 {
            assert(g[i] == ws[i - 5]);
        }
    }
    lemma_fields(owner, ttl, "CAA"@, more);
    assert(g.skip(5) =~= ws);
}

/// A line is refused that has fewer than four fields, or a TTL or an address that is none.
pub proof fn law_lines_refused(f: Seq<Seq<char>>)
    requires
        are_words(f),
    ensures
        f.len() < 4 ==> line_of(joined(f, ' ')) == Err::<
            Option<(Seq<char>, RecordView)>,
            ZoneLineError,
        >(ZoneLineError::TooFewFields),
        f.len() >= 4 && number(f[1], u32::MAX as nat) is None ==> line_of(joined(f, ' '))
            == Err::<Option<(Seq<char>, RecordView)>, ZoneLineError>(ZoneLineError::InvalidTtl),
        f.len() == 4 && number(f[1], u32::MAX as nat) is Some && f[2] == "A"@ && ipv4_of(f[3])
            is None ==> line_of(joined(f, ' ')) == Err::<
            Option<(Seq<char>, RecordView)>,
            ZoneLineError,
        >(ZoneLineError::InvalidIpv4),
        f.len() == 4 && number(f[1], u32::MAX as nat) is Some && f[2] == "AAAA"@ && ipv6_of(f[3])
            is None ==> line_of(joined(f, ' ')) == Err::<
            Option<(Seq<char>, RecordView)>,
            ZoneLineError,
        >(ZoneLineError::InvalidIpv6),
{
    law_words_joined(f);
    lemma_type_names();
    if f.len() == 4 {
        assert(f.skip(3) =~= seq![f[3]]);
    }
}

/// A query goes to the upstream of the longest suffix that its name lies under, and to the
/// default one where it lies under none.
pub proof fn law_upstream_for(f: &ForwardRules, name: Seq<char>)
    requires
        longest_first(f.seq()),
    ensures
        (exists|r: ForwardRule|
            f.seq().contains(r) && #[trigger] under(name, r.suffix@) && f.upstream_for(name)
                == Some(r.upstream) && forall|y: ForwardRule|
                f.seq().contains(y) && #[trigger] under(name, y.suffix@) ==> rank(r) >= rank(y))
            || (f.upstream_for(name) == f.default_spec() && forall|y: ForwardRule|
            f.seq().contains(y) ==> !#[trigger] under(name, y.suffix@)),
{
    lemma_find_rule(f.seq(), name);
}

/// Forwarding is on where there is a default upstream or any rule.
pub proof fn law_forwarding_on(f: &ForwardRules, name: Seq<char>)
    ensures
        f.upstream_for(name) is Some ==> f.enabled(),
        f.default_spec() is Some ==> f.upstream_for(name) is Some,
        f.seq().len() == 0 ==> f.upstream_for(name) == f.default_spec(),
{
}

/// Every rule's upstream is tried: a settings file is refused by the first one that is no
/// address, and by nothing else but the default.
pub proof fn law_first_bad_rule(rules: Seq<ForwardRuleSettings>)
    ensures
        match first_bad_rule(rules) {
            Some(text) => exists|i: int|
                0 <= i < rules.len() && (#[trigger] rules[i]).upstream@ == text && upstream_of(text)
                    is None && forall|j: int|
                    0 <= j < i ==> upstream_of((#[trigger] rules[j]).upstream@) is Some,
            None => forall|i: int|
                0 <= i < rules.len() ==> upstream_of((#[trigger] rules[i]).upstream@) is Some,
        },
    decreases rules.len(),
{
    if rules.len() > 0 {
        let rest = rules.drop_first();
        law_first_bad_rule(rest);
        if upstream_of(rules[0].upstream@) is None {
            assert(rules[0].upstream@ == first_bad_rule(rules)->0);
        } else {
            match first_bad_rule(rest) {
                Some(text) => {
                    let i = choose|i: int|
                        0 <= i < rest.len() && (#[trigger] rest[i]).upstream@ == text
                            && upstream_of(text) is None && forall|j: int|
                            0 <= j < i ==> upstream_of((#[trigger] rest[j]).upstream@) is Some;
                    assert(rules[i + 1] == rest[i]);
                    assert forall|j: int| 0 <= j < i + 1 implies upstream_of(
                        (#[trigger] rules[j]).upstream@,
                    ) is Some by {
                        if j > 0 {
                            assert(rules[j] == rest[j - 1]);
                        }
                    }
                },
                None => {
                    assert forall|i: int| 0 <= i < rules.len() implies upstream_of(
                        (#[trigger] rules[i]).upstream@,
                    ) is Some by {
                        if i > 0 {
                            assert(rules[i] == rest[i - 1]);
                        }
                    }
                },
            }
        }
    }
}

/// An upstream is an IPv4 address, with a port behind a colon or the port 53 without.
pub proof fn law_upstream_text(addr: Ipv4Addr, port: u16)
    ensures
        upstream_of(ipv4_text(addr) + seq![':'] + decimal(port as nat)) == Some(
            SocketAddr { ip: IpAddr::V4(addr), port, scope_id: 0 },
        ),
        upstream_of(ipv4_text(addr)) == Some(
            SocketAddr { ip: IpAddr::V4(addr), port: 53, scope_id: 0 },
        ),
{
    law_socket_text(addr, port);
    law_socket_text(addr, 53);
    reveal_strlit(":53");
    assert(decimal(53) =~= seq!['5', '3']) by {
        assert(decimal(5) =~= seq!['5']);
    }
    assert(ipv4_text(addr) + ":53"@ =~= ipv4_text(addr) + seq![':'] + decimal(53));
}

} // verus!
