//! A DNS message, and its reading from the wire.

use crate::bytes::{be_at, copy_range, low16, read_be, read_u16, read_u32};
use crate::dns::encoder::{message_octets, DnsPacketEncoder};
use crate::dns::error::DnsError;
use crate::dns::header::DnsHeader;
use crate::dns::question::{clone_questions, question_views, DnsQuestion, QuestionView};
use crate::dns::record::{clone_records, record_views, DnsRecord, RecordView};
use crate::net::{Ipv4Addr, Ipv6Addr};
use crate::text::{chop_end, lossy_text, strip_end, utf8_lossy};
use vstd::prelude::*;
use vstd::slice::slice_subrange;

verus! {

/// `DnsPacket` represents a DNS packet, including the header, questions, and resource records.
#[derive(Debug)]
pub struct DnsPacket {
    /// The DNS header.
    pub header: DnsHeader,
    /// A list of questions in the packet.
    pub questions: Vec<DnsQuestion>,
    /// A list of answer records.
    pub answers: Vec<DnsRecord>,
    /// A list of authority records.
    pub authorities: Vec<DnsRecord>,
    /// A list of additional records.
    pub additionals: Vec<DnsRecord>,
}

/// What a message says.
#[verifier::ext_equal]
pub struct PacketView {
    pub header: DnsHeader,
    pub questions: Seq<QuestionView>,
    pub answers: Seq<RecordView>,
    pub authorities: Seq<RecordView>,
    pub additionals: Seq<RecordView>,
}

impl View for DnsPacket {
    type V = PacketView;

    open spec fn view(&self) -> PacketView {
        PacketView {
            header: self.header,
            questions: question_views(self.questions@),
            answers: record_views(self.answers@),
            authorities: record_views(self.authorities@),
            additionals: record_views(self.additionals@),
        }
    }
}

/// The maximum number of compression-pointer jumps that are followed before
/// giving up. A malicious packet can chain pointers into a cycle (e.g. a
/// pointer that targets itself), which would otherwise loop forever and pin
/// a worker at 100% CPU. RFC 1035 caps a name at 255 bytes, so any
/// legitimate name needs far fewer jumps than this bound.
pub const MAX_POINTER_JUMPS: usize = 64;

/// The labels of the name at `pos`, each followed by a dot, and the offset
/// behind the name, when `jumps` pointers have been followed already. A length
/// octet with either of its two high bits set begins a pointer.
pub open spec fn read_labels(buf: Seq<u8>, pos: int, jumps: nat) -> Result<
    (Seq<char>, int),
    DnsError,
>
    decreases MAX_POINTER_JUMPS - jumps, buf.len() - pos,
{
    if !(0 <= pos < buf.len()) {
        Err(DnsError::Truncated { what: "name label length" })
    } else if buf[pos] >= 64 {
        if pos + 1 >= buf.len() {
            Err(DnsError::Truncated { what: "name pointer" })
        } else if jumps >= MAX_POINTER_JUMPS {
            Err(DnsError::PointerLoop)
        } else {
            let target = (buf[pos] % 64) * 256 + buf[pos + 1];
            match read_labels(buf, target, jumps + 1) {
                Ok((labels, _)) => Ok((labels, pos + 2)),
                Err(e) => Err(e),
            }
        }
    } else if buf[pos] == 0 {
        Ok((Seq::empty(), pos + 1))
    } else if pos + 1 + buf[pos] > buf.len() {
        Err(DnsError::Truncated { what: "name label" })
    } else {
        let next = pos + 1 + buf[pos];
        match read_labels(buf, next, jumps) {
            Ok((labels, end)) => Ok(
                (utf8_lossy(buf.subrange(pos + 1, next)).push('.') + labels, end),
            ),
            Err(e) => Err(e),
        }
    }
}

/// The name at `pos`, without a dot at its end, and the offset behind it.
pub open spec fn read_name(buf: Seq<u8>, pos: int) -> Result<(Seq<char>, int), DnsError> {
    match read_labels(buf, pos, 0) {
        Ok((labels, end)) => Ok((chop_end(labels, '.'), end)),
        Err(e) => Err(e),
    }
}

/// The text of a run of character strings, each after its length octet.
pub open spec fn read_strings(data: Seq<u8>) -> Result<Seq<char>, DnsError>
    decreases data.len(),
{
    if data.len() == 0 {
        Ok(Seq::empty())
    } else if 1 + data[0] > data.len() {
        Err(DnsError::Truncated { what: "TXT character-string" })
    } else {
        match read_strings(data.skip(1 + data[0])) {
            Ok(text) => Ok(utf8_lossy(data.subrange(1, 1 + data[0])) + text),
            Err(e) => Err(e),
        }
    }
}

/// The fixed fields of a record, and where its data stands.
pub struct RecordHead {
    pub domain: Seq<char>,
    pub rtype: u16,
    pub class: u16,
    pub ttl: u32,
    pub start: int,
    pub len: int,
}

/// The record with the given head. Record types that are not modelled give none, and
/// neither do DNSKEY and RRSIG records that are malformed.
pub open spec fn read_rdata(buf: Seq<u8>, h: RecordHead) -> Result<Option<RecordView>, DnsError> {
    let domain = h.domain;
    let ttl = h.ttl;
    let start = h.start;
    let end = h.start + h.len;
    let invalid: Result<Option<RecordView>, DnsError> = Err(
        DnsError::InvalidRdata { rtype: h.rtype },
    );
    if h.rtype == DnsRecord::TYPE_A {
        if h.len != 4 {
            invalid
        } else {
            let addr = Ipv4Addr { bits: be_at(buf, start, 4) as u32 };
            Ok(Some(RecordView::A { domain, addr, ttl }))
        }
    } else if h.rtype == DnsRecord::TYPE_AAAA {
        if h.len != 16 {
            invalid
        } else {
            let addr = Ipv6Addr { bits: be_at(buf, start, 16) as u128 };
            Ok(Some(RecordView::AAAA { domain, addr, ttl }))
        }
    } else if h.rtype == DnsRecord::TYPE_CNAME {
        match read_name(buf, start) {
            Ok((alias, _)) => Ok(Some(RecordView::CNAME { domain, alias, ttl })),
            Err(e) => Err(e),
        }
    } else if h.rtype == DnsRecord::TYPE_MX {
        if h.len < 3 {
            invalid
        } else {
            let preference = be_at(buf, start, 2) as u16;
            match read_name(buf, start + 2) {
                Ok((exchange, _)) => Ok(Some(RecordView::MX { domain, preference, exchange, ttl })),
                Err(e) => Err(e),
            }
        }
    } else if h.rtype == DnsRecord::TYPE_TXT {
        match read_strings(buf.subrange(start, end)) {
            Ok(text) => Ok(Some(RecordView::TXT { domain, text, ttl })),
            Err(e) => Err(e),
        }
    } else if h.rtype == DnsRecord::TYPE_NS {
        match read_name(buf, start) {
            Ok((nameserver, _)) => Ok(Some(RecordView::NS { domain, nameserver, ttl })),
            Err(e) => Err(e),
        }
    } else if h.rtype == DnsRecord::TYPE_SOA {
        read_soa(buf, h)
    } else if h.rtype == DnsRecord::TYPE_SRV {
        if h.len < 6 {
            invalid
        } else {
            let priority = be_at(buf, start, 2) as u16;
            let weight = be_at(buf, start + 2, 2) as u16;
            let port = be_at(buf, start + 4, 2) as u16;
            match read_name(buf, start + 6) {
                Ok((target, _)) => Ok(
                    Some(RecordView::SRV { domain, priority, weight, port, target, ttl }),
                ),
                Err(e) => Err(e),
            }
        }
    } else if h.rtype == DnsRecord::TYPE_PTR {
        match read_name(buf, start) {
            Ok((ptrdname, _)) => Ok(Some(RecordView::PTR { domain, ptrdname, ttl })),
            Err(e) => Err(e),
        }
    } else if h.rtype == DnsRecord::TYPE_CAA {
        if h.len < 2 || 2 + buf[start + 1] > h.len {
            invalid
        } else {
            let value_at = start + 2 + buf[start + 1];
            Ok(
                Some(
                    RecordView::CAA {
                        domain,
                        flags: buf[start],
                        tag: utf8_lossy(buf.subrange(start + 2, value_at)),
                        value: utf8_lossy(buf.subrange(value_at, end)),
                        ttl,
                    },
                ),
            )
        }
    } else if h.rtype == DnsRecord::TYPE_OPT {
        Ok(Some(RecordView::OPT { udp_size: h.class }))
    } else if h.rtype == DnsRecord::TYPE_DNSKEY {
        if h.len < 4 {
            Ok(None)
        } else {
            Ok(
                Some(
                    RecordView::DNSKEY {
                        domain,
                        flags: be_at(buf, start, 2) as u16,
                        protocol: buf[start + 2],
                        algorithm: buf[start + 3],
                        public_key: buf.subrange(start + 4, end),
                        ttl,
                    },
                ),
            )
        }
    } else if h.rtype == DnsRecord::TYPE_RRSIG {
        Ok(read_rrsig(buf, h))
    } else {
        Ok(None)
    }
}

/// The SOA record with the given head.
pub open spec fn read_soa(buf: Seq<u8>, h: RecordHead) -> Result<Option<RecordView>, DnsError> {
    match read_name(buf, h.start) {
        Err(e) => Err(e),
        Ok((mname, p)) => match read_name(buf, p) {
            Err(e) => Err(e),
            Ok((rname, q)) => if q + 20 > buf.len() {
                Err(DnsError::Truncated { what: "SOA record" })
            } else {
                Ok(
                    Some(
                        RecordView::SOA {
                            domain: h.domain,
                            mname,
                            rname,
                            serial: be_at(buf, q, 4) as u32,
                            refresh: be_at(buf, q + 4, 4) as u32,
                            retry: be_at(buf, q + 8, 4) as u32,
                            expire: be_at(buf, q + 12, 4) as u32,
                            minimum: be_at(buf, q + 16, 4) as u32,
                            ttl: h.ttl,
                        },
                    ),
                )
            },
        },
    }
}

/// The RRSIG record with the given head; none where its data is too short, or the name
/// of the signer cannot be read or runs past the data.
pub open spec fn read_rrsig(buf: Seq<u8>, h: RecordHead) -> Option<RecordView> {
    let p = h.start;
    if h.len < 18 {
        None
    } else {
        match read_name(buf, p + 18) {
            Err(_) => None,
            Ok((signer_name, q)) => if q > p + h.len {
                None
            } else {
                Some(
                    RecordView::RRSIG {
                        domain: h.domain,
                        type_covered: be_at(buf, p, 2) as u16,
                        algorithm: buf[p + 2],
                        labels: buf[p + 3],
                        original_ttl: be_at(buf, p + 4, 4) as u32,
                        signature_expiration: be_at(buf, p + 8, 4) as u32,
                        signature_inception: be_at(buf, p + 12, 4) as u32,
                        key_tag: be_at(buf, p + 16, 2) as u16,
                        signer_name,
                        signature: buf.subrange(q, p + h.len),
                        ttl: h.ttl,
                    },
                )
            },
        }
    }
}

/// The record at `pos`, if its type is modelled, and the offset behind it.
pub open spec fn read_record(buf: Seq<u8>, pos: int) -> Result<
    (Option<RecordView>, int),
    DnsError,
> {
    match read_name(buf, pos) {
        Err(e) => Err(e),
        Ok((domain, p)) => if p + 10 > buf.len() {
            Err(DnsError::Truncated { what: "record header" })
        } else if p + 10 + be_at(buf, p + 8, 2) > buf.len() {
            Err(DnsError::Truncated { what: "record data" })
        } else {
            let h = RecordHead {
                domain,
                rtype: be_at(buf, p, 2) as u16,
                class: be_at(buf, p + 2, 2) as u16,
                ttl: be_at(buf, p + 4, 4) as u32,
                start: p + 10,
                len: be_at(buf, p + 8, 2) as int,
            };
            match read_rdata(buf, h) {
                Ok(record) => Ok((record, h.start + h.len)),
                Err(e) => Err(e),
            }
        },
    }
}

/// The modelled records among the `count` records from `pos` on, and the offset
/// behind them.
pub open spec fn read_section(buf: Seq<u8>, pos: int, count: nat) -> Result<
    (Seq<RecordView>, int),
    DnsError,
>
    decreases count,
{
    if count == 0 {
        Ok((Seq::empty(), pos))
    } else {
        match read_section(buf, pos, (count - 1) as nat) {
            Err(e) => Err(e),
            Ok((records, p)) => match read_record(buf, p) {
                Err(e) => Err(e),
                Ok((Some(r), q)) => Ok((records.push(r), q)),
                Ok((None, q)) => Ok((records, q)),
            },
        }
    }
}

/// The `count` questions from `pos` on, and the offset behind them.
pub open spec fn read_questions(buf: Seq<u8>, pos: int, count: nat) -> Result<
    (Seq<QuestionView>, int),
    DnsError,
>
    decreases count,
{
    if count == 0 {
        Ok((Seq::empty(), pos))
    } else {
        match read_questions(buf, pos, (count - 1) as nat) {
            Err(e) => Err(e),
            Ok((questions, p)) => match read_name(buf, p) {
                Err(e) => Err(e),
                Ok((qname, q)) => if q + 4 > buf.len() {
                    Err(DnsError::Truncated { what: "question" })
                } else {
                    Ok(
                        (
                            questions.push(
                                QuestionView {
                                    qname,
                                    qtype: be_at(buf, q, 2) as u16,
                                    qclass: be_at(buf, q + 2, 2) as u16,
                                },
                            ),
                            q + 4,
                        ),
                    )
                },
            },
        }
    }
}

/// The header of a message.
pub open spec fn read_header(buf: Seq<u8>) -> DnsHeader {
    DnsHeader {
        id: be_at(buf, 0, 2) as u16,
        flags: be_at(buf, 2, 2) as u16,
        questions: be_at(buf, 4, 2) as u16,
        answers: be_at(buf, 6, 2) as u16,
        authorities: be_at(buf, 8, 2) as u16,
        additionals: be_at(buf, 10, 2) as u16,
    }
}

/// The message that the octets hold.
pub open spec fn read_message(buf: Seq<u8>) -> Result<PacketView, DnsError> {
    if buf.len() < 12 {
        Err(DnsError::Truncated { what: "header" })
    } else {
        let header = read_header(buf);
        match read_questions(buf, 12, header.questions as nat) {
            Err(e) => Err(e),
            Ok((questions, p)) => match read_section(buf, p, header.answers as nat) {
                Err(e) => Err(e),
                Ok((answers, q)) => match read_section(buf, q, header.authorities as nat) {
                    Err(e) => Err(e),
                    Ok((authorities, r)) => match read_section(
                        buf,
                        r,
                        header.additionals as nat,
                    ) {
                        Err(e) => Err(e),
                        Ok((additionals, _)) => Ok(
                            PacketView { header, questions, answers, authorities, additionals },
                        ),
                    },
                },
            },
        }
    }
}

/// A name that was read ends within the buffer, behind where it began.
pub proof fn lemma_name_end(buf: Seq<u8>, pos: int, jumps: nat)
    ensures
        read_labels(buf, pos, jumps) matches Ok((_, end)) ==> pos < end <= buf.len(),
    decreases MAX_POINTER_JUMPS - jumps, buf.len() - pos,
{
    if 0 <= pos < buf.len() && 0 < buf[pos] < 64 && pos + 1 + buf[pos] <= buf.len() {
        lemma_name_end(buf, pos + 1 + buf[pos], jumps);
    }
}

/// Whether the outcome of reading is the one stated.
pub open spec fn reads<T, V>(
    r: Result<(T, usize), DnsError>,
    s: Result<(V, int), DnsError>,
    same: spec_fn(T, V) -> bool,
) -> bool {
    match (r, s) {
        (Ok((x, end)), Ok((y, e))) => same(x, y) && end == e,
        (Err(e), Err(f)) => e == f,
        _ => false,
    }
}

/// The view of an optional record.
pub open spec fn option_view(r: Option<DnsRecord>) -> Option<RecordView> {
    match r {
        Some(x) => Some(x@),
        None => None,
    }
}

impl DnsPacket {
    /// Creates a new `DnsPacket` from a byte buffer.
    pub fn from_bytes(buf: &[u8]) -> (r: Result<DnsPacket, DnsError>)
        ensures
            match (r, read_message(buf@)) {
                (Ok(p), Ok(v)) => p@ == v,
                (Err(e), Err(f)) => e == f,
                _ => false,
            },
    {
        if buf.len() < 12 {
            return Err(DnsError::Truncated { what: "header" });
        }
        let header = DnsHeader {
            id: read_u16(buf, 0),
            flags: read_u16(buf, 2),
            questions: read_u16(buf, 4),
            answers: read_u16(buf, 6),
            authorities: read_u16(buf, 8),
            additionals: read_u16(buf, 10),
        };
        let (questions, offset) = match Self::parse_questions(buf, 12, header.questions) {
            Ok(x) => x,
            Err(e) => return Err(e),
        };
        let (answers, offset) = match Self::parse_section(buf, offset, header.answers) {
            Ok(x) => x,
            Err(e) => return Err(e),
        };
        let (authorities, offset) = match Self::parse_section(buf, offset, header.authorities) {
            Ok(x) => x,
            Err(e) => return Err(e),
        };
        let (additionals, _) = match Self::parse_section(buf, offset, header.additionals) {
            Ok(x) => x,
            Err(e) => return Err(e),
        };
        Ok(DnsPacket { header, questions, answers, authorities, additionals })
    }

    fn parse_questions(buf: &[u8], pos: usize, count: u16) -> (r: Result<
        (Vec<DnsQuestion>, usize),
        DnsError,
    >)
        requires
            pos <= buf@.len(),
        ensures
            reads(
                r,
                read_questions(buf@, pos as int, count as nat),
                |x: Vec<DnsQuestion>, v: Seq<QuestionView>| question_views(x@) == v,
            ),
            r matches Ok((_, end)) ==> end <= buf@.len(),
    {
        let total: usize = buf.len();
        let mut questions: Vec<DnsQuestion> = Vec::new();
        let mut offset: usize = pos;
        let mut i: u16 = 0;
        assert(question_views(questions@) =~= Seq::empty());
        while i < count
            invariant
                i <= count,
                total == buf@.len(),
                offset <= buf@.len(),
                read_questions(buf@, pos as int, i as nat) == Ok::<_, DnsError>(
                    (question_views(questions@), offset as int),
                ),
                read_questions(buf@, pos as int, i as nat) is Ok,
            decreases count - i,
        {
            let ghost done = questions@;
            let ghost next = read_questions(buf@, pos as int, (i + 1) as nat);
            let (qname, after_name) = match Self::parse_qname(buf, offset) {
                Ok(x) => x,
                Err(e) => {
                    proof {
                        lemma_questions_fail(buf@, pos as int, (i + 1) as nat, count as nat);
                    }
                    return Err(e);
                },
            };
            if total - after_name < 4 {
                proof {
                    lemma_questions_fail(buf@, pos as int, (i + 1) as nat, count as nat);
                }
                return Err(DnsError::Truncated { what: "question" });
            }
            let qtype: u16 = read_u16(buf, after_name);
            let qclass: u16 = read_u16(buf, after_name + 2);
            questions.push(DnsQuestion { qname, qtype, qclass });
            offset = after_name + 4;
            i = i + 1;
            proof {
                assert(question_views(questions@) =~= question_views(done).push(
                    questions@.last()@,
                ));
            }
        }
        Ok((questions, offset))
    }

    /// Parses the records of one section. Records of unmodelled types are
    /// skipped, so that they do not abort the message.
    fn parse_section(buf: &[u8], pos: usize, count: u16) -> (r: Result<
        (Vec<DnsRecord>, usize),
        DnsError,
    >)
        requires
            pos <= buf@.len(),
        ensures
            reads(
                r,
                read_section(buf@, pos as int, count as nat),
                |x: Vec<DnsRecord>, v: Seq<RecordView>| record_views(x@) == v,
            ),
            r matches Ok((_, end)) ==> end <= buf@.len(),
    {
        let mut records: Vec<DnsRecord> = Vec::new();
        let mut offset: usize = pos;
        let mut i: u16 = 0;
        assert(record_views(records@) =~= Seq::empty());
        while i < count
            invariant
                i <= count,
                offset <= buf@.len(),
                read_section(buf@, pos as int, i as nat) == Ok::<_, DnsError>(
                    (record_views(records@), offset as int),
                ),
            decreases count - i,
        {
            let ghost done = records@;
            match Self::parse_record(buf, offset) {
                Ok((Some(record), next)) => {
                    records.push(record);
                    offset = next;
                    proof {
                        assert(record_views(records@) =~= record_views(done).push(record@));
                    }
                },
                Ok((None, next)) => {
                    offset = next;
                },
                Err(e) => {
                    proof {
                        lemma_section_fails(buf@, pos as int, (i + 1) as nat, count as nat);
                    }
                    return Err(e);
                },
            }
            i = i + 1;
        }
        Ok((records, offset))
    }

    /// Parses a single resource record. Returns `Ok((None, offset))` for record
    /// types this server does not model (still advancing past them).
    fn parse_record(buf: &[u8], offset: usize) -> (r: Result<(Option<DnsRecord>, usize), DnsError>)
        ensures
            reads(
                r,
                read_record(buf@, offset as int),
                |x: Option<DnsRecord>, v: Option<RecordView>| option_view(x) == v,
            ),
            r matches Ok((_, end)) ==> end <= buf@.len(),
    {
        let total: usize = buf.len();
        let (domain, p) = match Self::parse_qname(buf, offset) {
            Ok(x) => x,
            Err(e) => return Err(e),
        };
        if total - p < 10 {
            return Err(DnsError::Truncated { what: "record header" });
        }
        let rtype: u16 = read_u16(buf, p);
        // For OPT the "class" field carries the UDP payload size.
        let class: u16 = read_u16(buf, p + 2);
        let ttl: u32 = read_u32(buf, p + 4);
        let len: usize = read_u16(buf, p + 8) as usize;
        let start: usize = p + 10;
        if total - start < len {
            return Err(DnsError::Truncated { what: "record data" });
        }
        match Self::parse_rdata(buf, domain, rtype, class, ttl, start, len) {
            Ok(record) => Ok((record, start + len)),
            Err(e) => Err(e),
        }
    }

    /// Parses the data of a record whose fixed fields have been read.
    fn parse_rdata(
        buf: &[u8],
        domain: String,
        rtype: u16,
        class: u16,
        ttl: u32,
        start: usize,
        len: usize,
    ) -> (r: Result<Option<DnsRecord>, DnsError>)
        requires
            start + len <= buf@.len(),
        ensures
            match (
                r,
                read_rdata(
                    buf@,
                    (RecordHead {
                        domain: domain@,
                        rtype,
                        class,
                        ttl,
                        start: start as int,
                        len: len as int,
                    }),
                ),
            ) {
                (Ok(x), Ok(v)) => option_view(x) == v,
                (Err(e), Err(f)) => e == f,
                _ => false,
            },
    {
        let total: usize = buf.len();
        if rtype == DnsRecord::TYPE_A {
            if len != 4 {
                return Err(DnsError::InvalidRdata { rtype });
            }
            let addr = Ipv4Addr { bits: read_u32(buf, start) };
            Ok(Some(DnsRecord::A { domain, addr, ttl }))
        } else if rtype == DnsRecord::TYPE_AAAA {
            if len != 16 {
                return Err(DnsError::InvalidRdata { rtype });
            }
            let addr = Ipv6Addr { bits: read_be(buf, start, 16) };
            Ok(Some(DnsRecord::AAAA { domain, addr, ttl }))
        } else if rtype == DnsRecord::TYPE_CNAME {
            match Self::parse_qname(buf, start) {
                Ok((alias, _)) => Ok(Some(DnsRecord::CNAME { domain, alias, ttl })),
                Err(e) => Err(e),
            }
        } else if rtype == DnsRecord::TYPE_MX {
            if len < 3 {
                return Err(DnsError::InvalidRdata { rtype });
            }
            let preference: u16 = read_u16(buf, start);
            match Self::parse_qname(buf, start + 2) {
                Ok((exchange, _)) => Ok(Some(DnsRecord::MX { domain, preference, exchange, ttl })),
                Err(e) => Err(e),
            }
        } else if rtype == DnsRecord::TYPE_TXT {
            match Self::parse_character_strings(slice_subrange(buf, start, start + len)) {
                Ok(text) => Ok(Some(DnsRecord::TXT { domain, text, ttl })),
                Err(e) => Err(e),
            }
        } else if rtype == DnsRecord::TYPE_NS {
            match Self::parse_qname(buf, start) {
                Ok((nameserver, _)) => Ok(Some(DnsRecord::NS { domain, nameserver, ttl })),
                Err(e) => Err(e),
            }
        } else if rtype == DnsRecord::TYPE_SOA {
            let (mname, after_mname) = match Self::parse_qname(buf, start) {
                Ok(x) => x,
                Err(e) => return Err(e),
            };
            let (rname, p) = match Self::parse_qname(buf, after_mname) {
                Ok(x) => x,
                Err(e) => return Err(e),
            };
            if total - p < 20 {
                return Err(DnsError::Truncated { what: "SOA record" });
            }
            Ok(
                Some(
                    DnsRecord::SOA {
                        domain,
                        mname,
                        rname,
                        serial: read_u32(buf, p),
                        refresh: read_u32(buf, p + 4),
                        retry: read_u32(buf, p + 8),
                        expire: read_u32(buf, p + 12),
                        minimum: read_u32(buf, p + 16),
                        ttl,
                    },
                ),
            )
        } else if rtype == DnsRecord::TYPE_SRV {
            if len < 6 {
                return Err(DnsError::InvalidRdata { rtype });
            }
            let priority: u16 = read_u16(buf, start);
            let weight: u16 = read_u16(buf, start + 2);
            let port: u16 = read_u16(buf, start + 4);
            match Self::parse_qname(buf, start + 6) {
                Ok((target, _)) => Ok(
                    Some(DnsRecord::SRV { domain, priority, weight, port, target, ttl }),
                ),
                Err(e) => Err(e),
            }
        } else if rtype == DnsRecord::TYPE_PTR {
            match Self::parse_qname(buf, start) {
                Ok((ptrdname, _)) => Ok(Some(DnsRecord::PTR { domain, ptrdname, ttl })),
                Err(e) => Err(e),
            }
        } else if rtype == DnsRecord::TYPE_CAA {
            if len < 2 {
                return Err(DnsError::InvalidRdata { rtype });
            }
            let flags: u8 = buf[start];
            let tag_len: usize = buf[start + 1] as usize;
            if tag_len > len - 2 {
                return Err(DnsError::InvalidRdata { rtype });
            }
            let value_at: usize = start + 2 + tag_len;
            let tag = lossy_text(slice_subrange(buf, start + 2, value_at));
            let value = lossy_text(slice_subrange(buf, value_at, start + len));
            Ok(Some(DnsRecord::CAA { domain, flags, tag, value, ttl }))
        } else if rtype == DnsRecord::TYPE_OPT {
            Ok(Some(DnsRecord::OPT { udp_size: class }))
        } else if rtype == DnsRecord::TYPE_DNSKEY {
            if len < 4 {
                return Ok(None);
            }
            Ok(
                Some(
                    DnsRecord::DNSKEY {
                        domain,
                        flags: read_u16(buf, start),
                        protocol: buf[start + 2],
                        algorithm: buf[start + 3],
                        public_key: copy_range(buf, start + 4, start + len),
                        ttl,
                    },
                ),
            )
        } else if rtype == DnsRecord::TYPE_RRSIG {
            if len < 18 {
                return Ok(None);
            }
            let (signer_name, q) = match Self::parse_qname(buf, start + 18) {
                Ok(x) => x,
                Err(_) => return Ok(None),
            };
            if q > start + len {
                return Ok(None);
            }
            Ok(
                Some(
                    DnsRecord::RRSIG {
                        domain,
                        type_covered: read_u16(buf, start),
                        algorithm: buf[start + 2],
                        labels: buf[start + 3],
                        original_ttl: read_u32(buf, start + 4),
                        signature_expiration: read_u32(buf, start + 8),
                        signature_inception: read_u32(buf, start + 12),
                        key_tag: read_u16(buf, start + 16),
                        signer_name,
                        signature: copy_range(buf, q, start + len),
                        ttl,
                    },
                ),
            )
        } else {
            // Unmodelled type: skip, advancing past its data.
            Ok(None)
        }
    }

    /// Parses TXT rdata, which is a sequence of length-prefixed character
    /// strings, into a single concatenated `String`.
    fn parse_character_strings(data: &[u8]) -> (r: Result<String, DnsError>)
        ensures
            match (r, read_strings(data@)) {
                (Ok(x), Ok(v)) => x@ == v,
                (Err(e), Err(f)) => e == f,
                _ => false,
            },
    {
        let mut text = String::new();
        let mut i: usize = 0;
        proof {
            assert(data@.skip(0) =~= data@);
            assert(forall|v: Seq<char>| Seq::<char>::empty() + v =~= v);
        }
        while i < data.len()
            invariant
                i <= data@.len(),
                match (read_strings(data@), read_strings(data@.skip(i as int))) {
                    (Ok(v), Ok(rest)) => v == text@ + rest,
                    (Err(e), Err(f)) => e == f,
                    _ => false,
                },
            decreases data@.len() - i,
        {
            let len: usize = data[i] as usize;
            let ghost left = data@.skip(i as int);
            let ghost had = text@;
            if data.len() - i - 1 < len {
                return Err(DnsError::Truncated { what: "TXT character-string" });
            }
            let piece = lossy_text(slice_subrange(data, i + 1, i + 1 + len));
            text.append(piece.as_str());
            proof {
                assert(left.subrange(1, 1 + len) =~= data@.subrange(i + 1, i + 1 + len));
                assert(left.skip(1 + len) =~= data@.skip(i + 1 + len));
                if let Ok(rest) = read_strings(data@.skip(i + 1 + len)) {
                    assert(had + (piece@ + rest) =~= text@ + rest);
                }
            }
            i = i + 1 + len;
        }
        proof {
            assert(text@ + Seq::<char>::empty() =~= text@);
        }
        Ok(text)
    }

    /// Parses a domain name from the buffer, supporting name compression.
    fn parse_qname(buf: &[u8], offset: usize) -> (r: Result<(String, usize), DnsError>)
        ensures
            reads(r, read_name(buf@, offset as int), |x: String, v: Seq<char>| x@ == v),
            r matches Ok((_, end)) ==> offset < end <= buf@.len(),
    {
        let total: usize = buf.len();
        let mut qname = String::new();
        let mut current: usize = offset;
        let mut end_offset: Option<usize> = None;
        let mut jumps: usize = 0;
        proof {
            reveal_strlit(".");
            assert("."@ =~= seq!['.']);
            lemma_name_end(buf@, offset as int, 0);
            assert(forall|v: Seq<char>| Seq::<char>::empty() + v =~= v);
        }
        loop
            invariant_except_break
                total == buf@.len(),
                jumps <= MAX_POINTER_JUMPS,
                "."@ == seq!['.'],
                match (
                    read_labels(buf@, offset as int, 0),
                    read_labels(buf@, current as int, jumps as nat),
                ) {
                    (Ok((v, e)), Ok((rest, f))) => v == qname@ + rest && e == (match end_offset {
                        Some(x) => x as int,
                        None => f,
                    }),
                    (Err(e), Err(f)) => e == f,
                    _ => false,
                },
            ensures
                read_labels(buf@, offset as int, 0) matches Ok((v, e)) && v == qname@ && e == (
                match end_offset {
                    Some(x) => x as int,
                    None => 0,
                }) && end_offset is Some,
            decreases MAX_POINTER_JUMPS - jumps, total - current,
        {
            if current >= total {
                return Err(DnsError::Truncated { what: "name label length" });
            }
            let len: usize = buf[current] as usize;
            if len >= 64 {
                if total - current < 2 {
                    return Err(DnsError::Truncated { what: "name pointer" });
                }
                if jumps >= MAX_POINTER_JUMPS {
                    return Err(DnsError::PointerLoop);
                }
                jumps = jumps + 1;
                if end_offset.is_none() {
                    end_offset = Some(current + 2);
                }
                current = (len % 64) * 256 + buf[current + 1] as usize;
                continue ;
            }
            if len == 0 {
                if end_offset.is_none() {
                    end_offset = Some(current + 1);
                }
                assert(qname@ + Seq::<char>::empty() =~= qname@);
                break ;
            }
            if total - current - 1 < len {
                return Err(DnsError::Truncated { what: "name label" });
            }
            let label = lossy_text(slice_subrange(buf, current + 1, current + 1 + len));
            let ghost had = qname@;
            qname.append(label.as_str());
            qname.append(".");
            proof {
                if let Ok((rest, _)) = read_labels(buf@, current + 1 + len, jumps as nat) {
                    assert(had + (label@.push('.') + rest) =~= qname@ + rest);
                }
            }
            current = current + 1 + len;
        }
        let name = strip_end(qname.as_str(), '.').to_owned();
        match end_offset {
            Some(end) => Ok((name, end)),
            None => Ok((name, 0)),
        }
    }
}

/// The UDP payload size in the first OPT record.
pub open spec fn edns_size(rs: Seq<RecordView>) -> Option<u16>
    decreases rs.len(),
{
    if rs.len() == 0 {
        None
    } else {
        match rs[0] {
            RecordView::OPT { udp_size } => Some(udp_size),
            _ => edns_size(rs.drop_first()),
        }
    }
}

/// The UDP payload size that is granted to a client that offers `size`.
pub open spec fn granted_size(size: u16) -> u16 {
    if size < DnsPacket::MAX_UDP_SIZE {
        DnsPacket::MAX_UDP_SIZE as u16
    } else if size > DnsPacket::MAX_EDNS_UDP {
        DnsPacket::MAX_EDNS_UDP as u16
    } else {
        size
    }
}

impl PacketView {
    /// The size that the message may have over UDP: what its OPT record grants,
    /// and 512 octets without one.
    pub open spec fn udp_limit(self) -> nat {
        match edns_size(self.additionals) {
            Some(size) => granted_size(size) as nat,
            None => DnsPacket::MAX_UDP_SIZE as nat,
        }
    }

    /// The message without answers and authority records, marked as truncated.
    pub open spec fn truncated(self) -> PacketView {
        PacketView {
            header: DnsHeader {
                id: self.header.id,
                flags: self.header.flags | 0x0200,
                questions: self.header.questions,
                answers: 0,
                authorities: 0,
                additionals: (self.additionals.len() % 0x1_0000) as u16,
            },
            questions: self.questions,
            answers: Seq::empty(),
            authorities: Seq::empty(),
            additionals: self.additionals,
        }
    }

    /// The octets of the message over UDP.
    pub open spec fn udp_octets(self) -> Seq<u8> {
        if message_octets(self).len() <= self.udp_limit() {
            message_octets(self)
        } else {
            message_octets(self.truncated())
        }
    }
}

impl Clone for DnsPacket {
    fn clone(&self) -> (r: Self)
        ensures
            r@ == self@,
    {
        DnsPacket {
            header: self.header,
            questions: clone_questions(&self.questions),
            answers: clone_records(&self.answers),
            authorities: clone_records(&self.authorities),
            additionals: clone_records(&self.additionals),
        }
    }
}

impl DnsPacket {
    /// The maximum size of a DNS message sent over UDP without EDNS (RFC 1035).
    pub const MAX_UDP_SIZE: usize = 512;

    /// Upper bound on the EDNS UDP payload size we accept (conservative path MTU).
    pub const MAX_EDNS_UDP: usize = 1232;

    /// Returns the EDNS(0) UDP payload size advertised by the sender, if any
    /// (i.e. an OPT record is present in the additional section).
    pub fn edns_udp_size(&self) -> (r: Option<u16>)
        ensures
            r == edns_size(self@.additionals),
    {
        let ghost rs = self@.additionals;
        let mut i: usize = 0;
        proof {
            assert(rs.skip(0) =~= rs);
        }
        while i < self.additionals.len()
            invariant
                i <= self.additionals@.len(),
                rs == record_views(self.additionals@),
                edns_size(rs) == edns_size(rs.skip(i as int)),
            decreases self.additionals@.len() - i,
        {
            proof {
                assert(rs.skip(i as int)[0] == self.additionals@[i as int]@);
                assert(rs.skip(i as int).drop_first() =~= rs.skip(i + 1));
            }
            if let DnsRecord::OPT { udp_size } = &self.additionals[i] {
                return Some(*udp_size);
            }
            i = i + 1;
        }
        None
    }

    /// Converts the `DnsPacket` to a byte vector using the `DnsPacketEncoder`.
    pub fn to_bytes(&self) -> (r: Vec<u8>)
        ensures
            r@ == message_octets(self@),
    {
        DnsPacketEncoder::to_bytes(self)
    }

    /// The UDP size limit for this packet: the EDNS-advertised size if an OPT
    /// record is present (clamped), otherwise the classic 512 bytes.
    fn udp_limit(&self) -> (r: usize)
        ensures
            r == self@.udp_limit(),
    {
        match self.edns_udp_size() {
            Some(size) => clamp_udp_size(size) as usize,
            None => Self::MAX_UDP_SIZE,
        }
    }

    /// Encodes the packet for transmission over UDP, enforcing the size limit
    /// (512 bytes, or the EDNS-negotiated size). If the full message would
    /// exceed the limit, the answer section is dropped and the TC (truncation)
    /// bit is set so the client knows to retry over TCP. Any OPT record is kept.
    pub fn to_udp_bytes(&self) -> (r: Vec<u8>)
        ensures
            r@ == self@.udp_octets(),
    {
        let bytes = self.to_bytes();
        if bytes.len() <= self.udp_limit() {
            return bytes;
        }
        let truncated = DnsPacket {
            header: DnsHeader {
                id: self.header.id,
                flags: self.header.flags | 0x0200,
                questions: self.header.questions,
                answers: 0,
                authorities: 0,
                additionals: low16(self.additionals.len()),
            },
            questions: clone_questions(&self.questions),
            answers: Vec::new(),
            authorities: Vec::new(),
            additionals: clone_records(&self.additionals),
        };
        assert(truncated@ =~= self@.truncated());
        truncated.to_bytes()
    }
}

/// Brings an advertised UDP payload size into the accepted range.
pub fn clamp_udp_size(size: u16) -> (r: u16)
    ensures
        r == granted_size(size),
{
    if (size as usize) < DnsPacket::MAX_UDP_SIZE {
        512
    } else if size as usize > DnsPacket::MAX_EDNS_UDP {
        1232
    } else {
        size
    }
}

/// Over UDP nothing is sent beyond the limit unless it says that it is truncated
/// and carries no answers.
pub proof fn law_udp_limit(p: PacketView)
    ensures
        p.udp_octets().len() <= p.udp_limit() || p.udp_octets() == message_octets(p.truncated()),
        p.truncated().header.flags & 0x0200 == 0x0200,
        p.truncated().answers.len() == 0,
        p.truncated().header.id == p.header.id,
        edns_size(p.truncated().additionals) == edns_size(p.additionals),
        DnsPacket::MAX_UDP_SIZE <= p.udp_limit() <= DnsPacket::MAX_EDNS_UDP,
{
    let f = p.header.flags;
    assert((f | 0x0200) & 0x0200 == 0x0200) by (bit_vector);
}

/// A section that fails at one record fails whatever follows.
proof fn lemma_section_fails(buf: Seq<u8>, pos: int, i: nat, count: nat)
    requires
        i <= count,
        read_section(buf, pos, i) is Err,
    ensures
        read_section(buf, pos, count) == read_section(buf, pos, i),
    decreases count,
{
    if i < count {
        lemma_section_fails(buf, pos, i, (count - 1) as nat);
    }
}

/// A question section that fails at one question fails whatever follows.
proof fn lemma_questions_fail(buf: Seq<u8>, pos: int, i: nat, count: nat)
    requires
        i <= count,
        read_questions(buf, pos, i) is Err,
    ensures
        read_questions(buf, pos, count) == read_questions(buf, pos, i),
    decreases count,
{
    if i < count {
        lemma_questions_fail(buf, pos, i, (count - 1) as nat);
    }
}

/// The EDNS size of a message is that of its first OPT record, and only a message without
/// one has none.
pub proof fn law_edns_size(rs: Seq<RecordView>)
    ensures
        match edns_size(rs) {
            Some(size) => exists|i: int|
                0 <= i < rs.len() && #[trigger] rs[i] == (RecordView::OPT { udp_size: size })
                    && forall|j: int| 0 <= j < i ==> !((#[trigger] rs[j]) is OPT),
            None => forall|i: int| 0 <= i < rs.len() ==> !((#[trigger] rs[i]) is OPT),
        },
    decreases rs.len(),
{
    if rs.len() > 0 && !(rs[0] is OPT) {
        let rest = rs.drop_first();
        law_edns_size(rest);
        match edns_size(rest) {
            Some(size) => {
                let i = choose|i: int|
                    0 <= i < rest.len() && #[trigger] rest[i] == (RecordView::OPT {
                        udp_size: size,
                    }) && forall|j: int| 0 <= j < i ==> !((#[trigger] rest[j]) is OPT);
                assert(rs[i + 1] == rest[i]);
                assert forall|j: int| 0 <= j < i + 1 implies !((#[trigger] rs[j]) is OPT) by {
                    if j > 0 {
                        assert(rs[j] == rest[j - 1]);
                    }
                }
            },
            None => {
                assert forall|j: int| 0 <= j < rs.len() implies !((#[trigger] rs[j]) is OPT) by {
                    if j > 0 {
                        assert(rs[j] == rest[j - 1]);
                    }
                }
            },
        }
    } else if rs.len() > 0 {
        assert(rs[0] is OPT);
        assert(rs[0] == (RecordView::OPT { udp_size: edns_size(rs)->0 }));
    }
}

/// A client without EDNS is sent up to 512 octets; one with it up to the size it gave, but
/// no fewer than 512 and no more than 1232.
pub proof fn law_granted_size(p: PacketView, size: u16)
    ensures
        edns_size(p.additionals) is None ==> p.udp_limit() == 512,
        edns_size(p.additionals) == Some(size) ==> 512 <= p.udp_limit() <= 1232 && (size <= 512
            ==> p.udp_limit() == 512) && (512 <= size <= 1232 ==> p.udp_limit() == size) && (size
            >= 1232 ==> p.udp_limit() == 1232),
{
}

/// A response that fits is sent as it is. One that does not is sent with its questions and
/// additional records, without its other records, and with the truncation bit set; no other
/// flag changes.
pub proof fn law_truncated(p: PacketView)
    ensures
        message_octets(p).len() <= p.udp_limit() ==> p.udp_octets() == message_octets(p),
        message_octets(p).len() > p.udp_limit() ==> p.udp_octets() == message_octets(
            p.truncated(),
        ),
        p.truncated().questions == p.questions,
        p.truncated().answers.len() == 0,
        p.truncated().authorities.len() == 0,
        p.truncated().additionals == p.additionals,
        p.truncated().header.id == p.header.id,
        p.truncated().header.flags & 0x0200 != 0,
        p.truncated().header.flags & !0x0200u16 == p.header.flags & !0x0200u16,
{
    let f = p.header.flags;
    assert((f | 0x0200) & 0x0200 != 0 && (f | 0x0200) & !0x0200u16 == f & !0x0200u16)
        by (bit_vector);
}

/// Sections are read record by record: the records of a section of some records and then
/// others are those of the first, followed by those that are read where they end.
pub proof fn law_section_read(buf: Seq<u8>, pos: int, a: nat, b: nat)
    ensures
        match read_section(buf, pos, a) {
            Ok((xs, p)) => match read_section(buf, p, b) {
                Ok((ys, q)) => read_section(buf, pos, a + b) == Ok::<_, DnsError>((xs + ys, q)),
                Err(e) => read_section(buf, pos, a + b) == Err::<(Seq<RecordView>, int), _>(e),
            },
            Err(e) => read_section(buf, pos, a + b) == Err::<(Seq<RecordView>, int), _>(e),
        },
        match read_record(buf, pos) {
            Ok((Some(r), q)) => read_section(buf, pos, 1) == Ok::<_, DnsError>((seq![r], q)),
            Ok((None, q)) => read_section(buf, pos, 1) == Ok::<_, DnsError>(
                (Seq::<RecordView>::empty(), q),
            ),
            Err(e) => read_section(buf, pos, 1) == Err::<(Seq<RecordView>, int), _>(e),
        },
        read_section(buf, pos, 0) == Ok::<_, DnsError>((Seq::<RecordView>::empty(), pos)),
    decreases b,
{
    reveal_with_fuel(read_section, 2);
    if let Ok((Some(r), _)) = read_record(buf, pos) {
        assert(Seq::empty().push(r) =~= seq![r]);
    }
    if b == 0 {
        if let Ok((xs, _)) = read_section(buf, pos, a) {
            assert(xs + Seq::empty() =~= xs);
        }
    } else {
        let c = (b - 1) as nat;
        law_section_read(buf, pos, a, c);
        if let Ok((xs, p)) = read_section(buf, pos, a) {
            if let Ok((ys, q)) = read_section(buf, p, c) {
                if let Ok((Some(r), _)) = read_record(buf, q) {
                    assert((xs + ys).push(r) =~= xs + ys.push(r));
                }
            }
        }
    }
}

/// Questions are read one by one likewise.
pub proof fn law_questions_read(buf: Seq<u8>, pos: int, a: nat, b: nat)
    ensures
        match read_questions(buf, pos, a) {
            Ok((xs, p)) => match read_questions(buf, p, b) {
                Ok((ys, q)) => read_questions(buf, pos, a + b) == Ok::<_, DnsError>((xs + ys, q)),
                Err(e) => read_questions(buf, pos, a + b) == Err::<(Seq<QuestionView>, int), _>(e),
            },
            Err(e) => read_questions(buf, pos, a + b) == Err::<(Seq<QuestionView>, int), _>(e),
        },
        read_questions(buf, pos, 0) == Ok::<_, DnsError>((Seq::<QuestionView>::empty(), pos)),
    decreases b,
{
    if b == 0 {
        if let Ok((xs, _)) = read_questions(buf, pos, a) {
            assert(xs + Seq::empty() =~= xs);
        }
    } else {
        let c = (b - 1) as nat;
        law_questions_read(buf, pos, a, c);
        if let Ok((xs, p)) = read_questions(buf, pos, a) {
            if let Ok((ys, q)) = read_questions(buf, p, c) {
                if let Ok((qname, e)) = read_name(buf, q) {
                    let x = QuestionView {
                        qname,
                        qtype: be_at(buf, e, 2) as u16,
                        qclass: be_at(buf, e + 2, 2) as u16,
                    };
                    assert((xs + ys).push(x) =~= xs + ys.push(x));
                }
            }
        }
    }
}

/// A record of a type that is not known is passed over, whatever its data. The data of
/// addresses have one length, and that of MX, SRV and CAA records a least one; others are
/// refused.
pub proof fn law_rdata_lengths(buf: Seq<u8>, h: RecordHead)
    ensures
        ({
            let r = read_rdata(buf, h);
            let bad = Err::<Option<RecordView>, _>(DnsError::InvalidRdata { rtype: h.rtype });
            &&& h.rtype == 1 && h.len != 4 ==> r == bad
            &&& h.rtype == 28 && h.len != 16 ==> r == bad
            &&& h.rtype == 15 && h.len < 3 ==> r == bad
            &&& h.rtype == 33 && h.len < 6 ==> r == bad
            &&& h.rtype == 257 && h.len < 2 ==> r == bad
            &&& h.rtype == 48 && h.len < 4 ==> r == Ok::<_, DnsError>(None::<RecordView>)
            &&& h.rtype == 46 && h.len < 18 ==> r == Ok::<_, DnsError>(None::<RecordView>)
            &&& ![1u16, 2, 5, 6, 12, 15, 16, 28, 33, 41, 46, 48, 257]@.contains(h.rtype) ==> r
                == Ok::<_, DnsError>(None::<RecordView>)
        }),
{
    let known = [1u16, 2, 5, 6, 12, 15, 16, 28, 33, 41, 46, 48, 257]@;
    assert(known[0] == 1 && known[1] == 2 && known[2] == 5 && known[3] == 6 && known[4] == 12
        && known[5] == 15 && known[6] == 16 && known[7] == 28 && known[8] == 33 && known[9] == 41
        && known[10] == 46 && known[11] == 48 && known[12] == 257);
}

/// What is shorter than a header is no message.
pub proof fn law_too_short(buf: Seq<u8>)
    requires
        buf.len() < 12,
    ensures
        read_message(buf) is Err,
{
}

} // verus!
