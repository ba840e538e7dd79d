//! Encoding DNS messages into the wire format.

use crate::bytes::{
    be_at, be_bytes, lemma_be2, lemma_be_bytes_len, lemma_be_round_trip, lemma_pow256_small, low16,
    pow256, push_be, push_slice, push_u16, push_u32,
};
use crate::dns::packet::{DnsPacket, PacketView};
use crate::dns::question::QuestionView;
use crate::dns::record::{record_views, DnsRecord, RecordView};
use crate::text::{
    after, before, lemma_cut, lemma_first_of, lemma_first_of_is, occurs, split_once,
};
use vstd::hash_map::StringHashMap;
use vstd::prelude::*;
use vstd::utf8::encode_utf8;

verus! {

/// What is written from some place of a message on, and the names that can be
/// pointed at afterwards, each with the offset where it stands.
#[verifier::ext_equal]
pub struct Emitted {
    pub bytes: Seq<u8>,
    pub names: Map<Seq<char>, u16>,
}

/// The highest offset that a compression pointer can hold.
pub const MAX_POINTER_TARGET: usize = 0x3FFF;

/// The longest label that can be written.
pub const MAX_LABEL_LEN: usize = 63;

/// A label: its length, then its octets, of which at most 63 are kept.
pub open spec fn label_octets(label: Seq<char>) -> Seq<u8> {
    let b = encode_utf8(label);
    if b.len() <= MAX_LABEL_LEN {
        seq![b.len() as u8] + b
    } else {
        seq![MAX_LABEL_LEN as u8] + b.take(MAX_LABEL_LEN as int)
    }
}

/// A name that is not the root, written at offset `at`. Where the name was
/// written before, a pointer stands for it. Otherwise its first label is
/// written, and then what follows the first dot in the same way.
pub open spec fn labels_octets(name: Seq<char>, at: nat, names: Map<Seq<char>, u16>) -> Emitted
    decreases name.len(),
{
    if names.contains_key(name) {
        Emitted { bytes: be_bytes((0xC000 + names[name]) as nat, 2), names }
    } else {
        let seen = if at <= MAX_POINTER_TARGET {
            names.insert(name, at as u16)
        } else {
            names
        };
        let label = label_octets(before(name, '.'));
        if occurs(name, '.') {
            proof {
                lemma_first_of(name, '.');
            }
            let rest = labels_octets(after(name, '.'), at + label.len(), seen);
            Emitted { bytes: label + rest.bytes, names: rest.names }
        } else {
            Emitted { bytes: label.push(0), names: seen }
        }
    }
}

/// A name written at offset `at`, compressed.
pub open spec fn name_octets(name: Seq<char>, at: nat, names: Map<Seq<char>, u16>) -> Emitted {
    if name.len() == 0 {
        Emitted { bytes: seq![0u8], names }
    } else {
        labels_octets(name, at, names)
    }
}

/// A name that is not the root, written label by label without compression.
pub open spec fn plain_labels_octets(name: Seq<char>) -> Seq<u8>
    decreases name.len(),
{
    let label = label_octets(before(name, '.'));
    if occurs(name, '.') {
        proof {
            lemma_first_of(name, '.');
        }
        label + plain_labels_octets(after(name, '.'))
    } else {
        label.push(0)
    }
}

/// A name written without compression.
pub open spec fn plain_name_octets(name: Seq<char>) -> Seq<u8> {
    if name.len() == 0 {
        seq![0u8]
    } else {
        plain_labels_octets(name)
    }
}

/// Octets cut into strings of at most 255, each after its length.
pub open spec fn chunk_octets(b: Seq<u8>) -> Seq<u8>
    decreases b.len(),
{
    if b.len() == 0 {
        Seq::empty()
    } else if b.len() <= 255 {
        seq![b.len() as u8] + b
    } else {
        seq![255u8] + b.take(255) + chunk_octets(b.skip(255))
    }
}

/// Text as one or more character strings.
pub open spec fn character_string_octets(text: Seq<char>) -> Seq<u8> {
    if text.len() == 0 {
        seq![0u8]
    } else {
        chunk_octets(encode_utf8(text))
    }
}

/// The first part of a text that has to fit in one length octet.
pub open spec fn short_octets(text: Seq<char>) -> Seq<u8> {
    let b = encode_utf8(text);
    if b.len() <= 255 {
        b
    } else {
        b.take(255)
    }
}

/// A name after some fixed octets.
pub open spec fn after_fixed(
    fixed: Seq<u8>,
    name: Seq<char>,
    at: nat,
    names: Map<Seq<char>, u16>,
) -> Emitted {
    let e = name_octets(name, at + fixed.len(), names);
    Emitted { bytes: fixed + e.bytes, names: e.names }
}

/// The data of a record, written at offset `at`.
pub open spec fn rdata_octets(r: RecordView, at: nat, names: Map<Seq<char>, u16>) -> Emitted {
    match r {
        RecordView::A { addr, .. } => Emitted { bytes: addr.octets_spec(), names },
        RecordView::AAAA { addr, .. } => Emitted { bytes: addr.octets_spec(), names },
        RecordView::CNAME { alias, .. } => name_octets(alias, at, names),
        RecordView::MX { preference, exchange, .. } => after_fixed(
            be_bytes(preference as nat, 2),
            exchange,
            at,
            names,
        ),
        RecordView::TXT { text, .. } => Emitted { bytes: character_string_octets(text), names },
        RecordView::NS { nameserver, .. } => name_octets(nameserver, at, names),
        RecordView::SOA { mname, rname, serial, refresh, retry, expire, minimum, .. } => {
            let m = name_octets(mname, at, names);
            let n = name_octets(rname, at + m.bytes.len(), m.names);
            Emitted {
                bytes: m.bytes + n.bytes + be_bytes(serial as nat, 4) + be_bytes(refresh as nat, 4)
                    + be_bytes(retry as nat, 4) + be_bytes(expire as nat, 4) + be_bytes(
                    minimum as nat,
                    4,
                ),
                names: n.names,
            }
        },
        RecordView::SRV { priority, weight, port, target, .. } => Emitted {
            bytes: be_bytes(priority as nat, 2) + be_bytes(weight as nat, 2) + be_bytes(
                port as nat,
                2,
            ) + plain_name_octets(target),
            names,
        },
        RecordView::PTR { ptrdname, .. } => name_octets(ptrdname, at, names),
        RecordView::CAA { flags, tag, value, .. } => Emitted {
            bytes: seq![flags, short_octets(tag).len() as u8] + short_octets(tag) + encode_utf8(
                value,
            ),
            names,
        },
        RecordView::OPT { .. } => Emitted { bytes: Seq::empty(), names },
        RecordView::DNSKEY { flags, protocol, algorithm, public_key, .. } => Emitted {
            bytes: be_bytes(flags as nat, 2) + seq![protocol, algorithm] + public_key,
            names,
        },
        RecordView::RRSIG {
            type_covered,
            algorithm,
            labels,
            original_ttl,
            signature_expiration,
            signature_inception,
            key_tag,
            signer_name,
            signature,
            ..
        } => Emitted {
            bytes: be_bytes(type_covered as nat, 2) + seq![algorithm, labels] + be_bytes(
                original_ttl as nat,
                4,
            ) + be_bytes(signature_expiration as nat, 4) + be_bytes(signature_inception as nat, 4)
                + be_bytes(key_tag as nat, 2) + plain_name_octets(signer_name) + signature,
            names,
        },
        RecordView::DS { key_tag, algorithm, digest_type, digest, .. } => Emitted {
            bytes: be_bytes(key_tag as nat, 2) + seq![algorithm, digest_type] + digest,
            names,
        },
        RecordView::NSEC { next_name, type_bitmap, .. } => Emitted {
            bytes: plain_name_octets(next_name) + type_bitmap,
            names,
        },
    }
}

/// What stands between the owner name of a record and the length of its data:
/// type, class and TTL. An OPT record has its UDP size in the place of the class.
pub open spec fn fixed_octets(r: RecordView) -> Seq<u8> {
    let class: nat = match r {
        RecordView::OPT { udp_size } => udp_size as nat,
        _ => 1,
    };
    be_bytes(r.rtype() as nat, 2) + be_bytes(class, 2) + be_bytes(r.ttl() as nat, 4)
}

/// A record, written at offset `at`: owner name, fixed fields, the length of the
/// data in 16 bits, and the data.
pub open spec fn record_octets(r: RecordView, at: nat, names: Map<Seq<char>, u16>) -> Emitted {
    let owner = name_octets(r.domain(), at, names);
    let data = rdata_octets(r, at + owner.bytes.len() + 10, owner.names);
    Emitted {
        bytes: owner.bytes + fixed_octets(r) + be_bytes(data.bytes.len(), 2) + data.bytes,
        names: data.names,
    }
}

/// Records, one after the other.
pub open spec fn records_octets(
    rs: Seq<RecordView>,
    at: nat,
    names: Map<Seq<char>, u16>,
) -> Emitted
    decreases rs.len(),
{
    if rs.len() == 0 {
        Emitted { bytes: Seq::empty(), names }
    } else {
        let e = records_octets(rs.drop_last(), at, names);
        let r = record_octets(rs.last(), at + e.bytes.len(), e.names);
        Emitted { bytes: e.bytes + r.bytes, names: r.names }
    }
}

/// A question, written at offset `at`.
pub open spec fn question_octets(q: QuestionView, at: nat, names: Map<Seq<char>, u16>) -> Emitted {
    let e = name_octets(q.qname, at, names);
    Emitted {
        bytes: e.bytes + be_bytes(q.qtype as nat, 2) + be_bytes(q.qclass as nat, 2),
        names: e.names,
    }
}

/// Questions, one after the other.
pub open spec fn questions_octets(
    qs: Seq<QuestionView>,
    at: nat,
    names: Map<Seq<char>, u16>,
) -> Emitted
    decreases qs.len(),
{
    if qs.len() == 0 {
        Emitted { bytes: Seq::empty(), names }
    } else {
        let e = questions_octets(qs.drop_last(), at, names);
        let q = question_octets(qs.last(), at + e.bytes.len(), e.names);
        Emitted { bytes: e.bytes + q.bytes, names: q.names }
    }
}

/// The twelve octets of the header. The counts are those of the sections.
pub open spec fn header_octets(p: PacketView) -> Seq<u8> {
    be_bytes(p.header.id as nat, 2) + be_bytes(p.header.flags as nat, 2) + be_bytes(
        p.questions.len(),
        2,
    ) + be_bytes(p.answers.len(), 2) + be_bytes(p.authorities.len(), 2) + be_bytes(
        p.additionals.len(),
        2,
    )
}

/// What follows the questions of a message.
pub open spec fn sections_octets(p: PacketView, at: nat, names: Map<Seq<char>, u16>) -> Emitted {
    let a = records_octets(p.answers, at, names);
    let b = records_octets(p.authorities, at + a.bytes.len(), a.names);
    let c = records_octets(p.additionals, at + a.bytes.len() + b.bytes.len(), b.names);
    Emitted { bytes: a.bytes + b.bytes + c.bytes, names: c.names }
}

/// A message in the wire format.
pub open spec fn message_octets(p: PacketView) -> Seq<u8> {
    let q = questions_octets(p.questions, 12, Map::empty());
    header_octets(p) + q.bytes + sections_octets(p, 12 + q.bytes.len(), q.names).bytes
}

/// The length of the header.
pub proof fn lemma_header_len(p: PacketView)
    ensures
        header_octets(p).len() == 12,
{
    lemma_be_bytes_len(p.header.id as nat, 2);
    lemma_be_bytes_len(p.header.flags as nat, 2);
    lemma_be_bytes_len(p.questions.len(), 2);
    lemma_be_bytes_len(p.answers.len(), 2);
    lemma_be_bytes_len(p.authorities.len(), 2);
    lemma_be_bytes_len(p.additionals.len(), 2);
}

/// The length of the fixed fields of a record.
pub proof fn lemma_fixed_len(r: RecordView)
    ensures
        fixed_octets(r).len() == 8,
{
    let class: nat = match r {
        RecordView::OPT { udp_size } => udp_size as nat,
        _ => 1,
    };
    lemma_be_bytes_len(r.rtype() as nat, 2);
    lemma_be_bytes_len(class, 2);
    lemma_be_bytes_len(r.ttl() as nat, 4);
}

/// Whether every name can be reached by a pointer.
pub open spec fn reachable(names: Map<Seq<char>, u16>) -> bool {
    forall|k: Seq<char>| names.contains_key(k) ==> #[trigger] names[k] <= MAX_POINTER_TARGET
}

/// Counts are sent in 16 bits, which is what `be_bytes` keeps of a length.
proof fn lemma_count_octets(n: nat)
    ensures
        be_bytes(n % 0x1_0000, 2) == be_bytes(n, 2),
{
    lemma_be2(n);
    lemma_be2(n % 0x1_0000);
    assert(n % 0x1_0000 / 256 % 256 == n / 256 % 256);
    assert(n % 0x1_0000 % 256 == n % 256);
}

/// `DnsPacketEncoder` converts a `DnsPacket` into a byte vector.
///
/// It applies RFC 1035 name compression: the first time a (sub)domain is
/// written its offset is remembered, and later occurrences of the same suffix
/// are emitted as a 2-byte pointer instead of the full labels.
pub struct DnsPacketEncoder {
    buf: Vec<u8>,
    /// Maps a domain suffix (e.g. "www.example.com") to the offset where it was
    /// first written, so it can be referenced via a compression pointer.
    name_offsets: StringHashMap<u16>,
}

impl DnsPacketEncoder {
    /// Encodes a `DnsPacket` into a byte vector.
    pub fn to_bytes(packet: &DnsPacket) -> (r: Vec<u8>)
        ensures
            r@ == message_octets(packet@),
    {
        let mut encoder = DnsPacketEncoder { buf: Vec::new(), name_offsets: StringHashMap::new() };
        encoder.encode(packet);
        encoder.buf
    }

    spec fn wf(&self) -> bool {
        reachable(self.name_offsets@)
    }

    /// Whether the encoder has gone from `before` to here by writing `e`.
    spec fn wrote(&self, before: &Self, e: Emitted) -> bool {
        &&& self.buf@ == before.buf@ + e.bytes
        &&& self.name_offsets@ == e.names
        &&& self.wf()
    }

    fn encode(&mut self, packet: &DnsPacket)
        requires
            old(self).buf@.len() == 0,
            old(self).name_offsets@ == Map::<Seq<char>, u16>::empty(),
        ensures
            final(self).buf@ == message_octets(packet@),
    {
        let ghost p = packet@;
        push_u16(&mut self.buf, packet.header.id);
        push_u16(&mut self.buf, packet.header.flags);
        push_u16(&mut self.buf, low16(packet.questions.len()));
        push_u16(&mut self.buf, low16(packet.answers.len()));
        push_u16(&mut self.buf, low16(packet.authorities.len()));
        push_u16(&mut self.buf, low16(packet.additionals.len()));
        proof {
            lemma_header_len(p);
            lemma_count_octets(p.questions.len());
            lemma_count_octets(p.answers.len());
            lemma_count_octets(p.authorities.len());
            lemma_count_octets(p.additionals.len());
            assert(self.buf@ =~= header_octets(p));
        }
        let ghost start = *self;
        let mut i: usize = 0;
        proof {
            assert(p.questions.take(0) =~= Seq::empty());
            assert(self.buf@ =~= start.buf@ + Seq::<u8>::empty());
        }
        while i < packet.questions.len()
            invariant
                i <= packet.questions@.len(),
                p == packet@,
                start.buf@ == header_octets(p),
                start.buf@.len() == 12,
                self.wrote(&start, questions_octets(p.questions.take(i as int), 12, Map::empty())),
            decreases packet.questions@.len() - i,
        {
            let question = &packet.questions[i];
            let ghost at = *self;
            self.encode_qname(question.qname.as_str());
            push_u16(&mut self.buf, question.qtype);
            push_u16(&mut self.buf, question.qclass);
            i = i + 1;
            proof {
                assert(p.questions.take(i as int).drop_last() =~= p.questions.take(i - 1));
                assert(p.questions.take(i as int).last() == question@);
                assert(self.buf@ =~= start.buf@ + questions_octets(
                    p.questions.take(i as int),
                    12,
                    Map::empty(),
                ).bytes);
            }
        }
        assert(p.questions.take(i as int) =~= p.questions);
        let ghost q = questions_octets(p.questions, 12, Map::empty());
        self.encode_section(&packet.answers);
        self.encode_section(&packet.authorities);
        self.encode_section(&packet.additionals);
        assert(self.buf@ =~= message_octets(p));
    }

    /// Encodes the records of one section.
    fn encode_section(&mut self, records: &Vec<DnsRecord>)
        requires
            old(self).wf(),
        ensures
            final(self).wrote(
                old(self),
                records_octets(
                    record_views(records@),
                    old(self).buf@.len(),
                    old(self).name_offsets@,
                ),
            ),
    {
        let ghost rs = record_views(records@);
        let ghost at = old(self).buf@.len();
        let ghost names = old(self).name_offsets@;
        let mut i: usize = 0;
        proof {
            assert(rs.take(0) =~= Seq::empty());
            assert(self.buf@ =~= old(self).buf@ + Seq::<u8>::empty());
        }
        while i < records.len()
            invariant
                i <= records@.len(),
                rs == record_views(records@),
                at == old(self).buf@.len(),
                names == old(self).name_offsets@,
                self.wrote(old(self), records_octets(rs.take(i as int), at, names)),
            decreases records@.len() - i,
        {
            self.encode_record(&records[i]);
            i = i + 1;
            proof {
                assert(rs.take(i as int).drop_last() =~= rs.take(i - 1));
                assert(rs.take(i as int).last() == records@[i - 1]@);
                assert(self.buf@ =~= old(self).buf@ + records_octets(
                    rs.take(i as int),
                    at,
                    names,
                ).bytes);
            }
        }
        assert(rs.take(i as int) =~= rs);
    }

    /// Encodes a single resource record into the buffer. The two octets of the
    /// data length are filled in once the length is known (name compression
    /// makes the encoded size depend on prior content).
    fn encode_record(&mut self, record: &DnsRecord)
        requires
            old(self).wf(),
        ensures
            final(self).wrote(
                old(self),
                record_octets(record@, old(self).buf@.len(), old(self).name_offsets@),
            ),
    {
        let ghost r = record@;
        let ghost at = old(self).buf@.len();
        let ghost owner = name_octets(r.domain(), at, old(self).name_offsets@);
        self.encode_qname(record.domain());
        push_u16(&mut self.buf, record.record_type());
        let class: u16 = match record {
            DnsRecord::OPT { udp_size } => *udp_size,
            _ => 1,
        };
        push_u16(&mut self.buf, class);
        push_u32(&mut self.buf, record.ttl());
        proof {
            lemma_fixed_len(r);
            assert(self.buf@ =~= old(self).buf@ + (owner.bytes + fixed_octets(r)));
        }
        let ghost head = self.buf@;
        let len_pos: usize = self.buf.len();
        push_u16(&mut self.buf, 0);
        let rdata_start: usize = self.buf.len();
        proof {
            lemma_be_bytes_len(0, 2);
        }
        let ghost data = rdata_octets(r, at + owner.bytes.len() + 10, owner.names);
        self.encode_rdata(record);
        let ghost filled = self.buf@;
        assert(filled == head + be_bytes(0, 2) + data.bytes);
        let rdlength: u16 = low16(self.buf.len() - rdata_start);
        self.buf[len_pos] = (rdlength / 256) as u8;
        self.buf[len_pos + 1] = (rdlength % 256) as u8;
        proof {
            let n = data.bytes.len();
            lemma_count_octets(n);
            lemma_be2(n % 0x1_0000);
            assert(rdlength == n % 0x1_0000);
            assert(self.buf@ =~= head + be_bytes(n, 2) + data.bytes);
            assert(self.buf@ =~= old(self).buf@ + record_octets(
                r,
                at,
                old(self).name_offsets@,
            ).bytes);
        }
    }

    /// Writes the data of a record.
    fn encode_rdata(&mut self, record: &DnsRecord)
        requires
            old(self).wf(),
        ensures
            final(self).wrote(
                old(self),
                rdata_octets(record@, old(self).buf@.len(), old(self).name_offsets@),
            ),
    {
        let ghost e = rdata_octets(record@, self.buf@.len(), self.name_offsets@);
        match record {
            DnsRecord::A { addr, .. } => {
                push_be(&mut self.buf, addr.bits as u128, 4);
            },
            DnsRecord::AAAA { addr, .. } => {
                push_be(&mut self.buf, addr.bits, 16);
            },
            DnsRecord::CNAME { alias, .. } => {
                self.encode_qname(alias.as_str());
            },
            DnsRecord::MX { preference, exchange, .. } => {
                proof {
                    lemma_be_bytes_len(*preference as nat, 2);
                }
                push_u16(&mut self.buf, *preference);
                self.encode_qname(exchange.as_str());
            },
            DnsRecord::TXT { text, .. } => {
                self.encode_character_strings(text.as_str());
            },
            DnsRecord::NS { nameserver, .. } => {
                self.encode_qname(nameserver.as_str());
            },
            DnsRecord::SOA { mname, rname, serial, refresh, retry, expire, minimum, .. } => {
                self.encode_qname(mname.as_str());
                self.encode_qname(rname.as_str());
                push_u32(&mut self.buf, *serial);
                push_u32(&mut self.buf, *refresh);
                push_u32(&mut self.buf, *retry);
                push_u32(&mut self.buf, *expire);
                push_u32(&mut self.buf, *minimum);
            },
            DnsRecord::SRV { priority, weight, port, target, .. } => {
                push_u16(&mut self.buf, *priority);
                push_u16(&mut self.buf, *weight);
                push_u16(&mut self.buf, *port);
                // RFC 2782: the SRV target must not be compressed.
                self.encode_name_uncompressed(target.as_str());
            },
            DnsRecord::PTR { ptrdname, .. } => {
                self.encode_qname(ptrdname.as_str());
            },
            DnsRecord::CAA { flags, tag, value, .. } => {
                self.buf.push(*flags);
                let tag_bytes = tag.as_str().as_bytes();
                let tag_len: usize = if tag_bytes.len() <= 255 {
                    tag_bytes.len()
                } else {
                    255
                };
                self.buf.push(tag_len as u8);
                push_slice(&mut self.buf, tag_bytes, 0, tag_len);
                let value_bytes = value.as_str().as_bytes();
                push_slice(&mut self.buf, value_bytes, 0, value_bytes.len());
                proof {
                    assert(tag_bytes@.subrange(0, tag_len as int) =~= short_octets(tag@));
                    assert(value_bytes@.subrange(0, value_bytes@.len() as int) =~= encode_utf8(
                        value@,
                    ));
                }
            },
            DnsRecord::OPT { .. } => {},
            DnsRecord::DNSKEY { flags, protocol, algorithm, public_key, .. } => {
                push_u16(&mut self.buf, *flags);
                self.buf.push(*protocol);
                self.buf.push(*algorithm);
                push_slice(&mut self.buf, public_key.as_slice(), 0, public_key.len());
            },
            DnsRecord::RRSIG {
                type_covered,
                algorithm,
                labels,
                original_ttl,
                signature_expiration,
                signature_inception,
                key_tag,
                signer_name,
                signature,
                ..
            } => {
                push_u16(&mut self.buf, *type_covered);
                self.buf.push(*algorithm);
                self.buf.push(*labels);
                push_u32(&mut self.buf, *original_ttl);
                push_u32(&mut self.buf, *signature_expiration);
                push_u32(&mut self.buf, *signature_inception);
                push_u16(&mut self.buf, *key_tag);
                // RRSIG signer name is not compressed (RFC 4034 section 3.2).
                self.encode_name_uncompressed(signer_name.as_str());
                push_slice(&mut self.buf, signature.as_slice(), 0, signature.len());
            },
            DnsRecord::DS { key_tag, algorithm, digest_type, digest, .. } => {
                push_u16(&mut self.buf, *key_tag);
                self.buf.push(*algorithm);
                self.buf.push(*digest_type);
                push_slice(&mut self.buf, digest.as_slice(), 0, digest.len());
            },
            DnsRecord::NSEC { next_name, type_bitmap, .. } => {
                // NSEC next name is not compressed (RFC 4034 section 4.1.2).
                self.encode_name_uncompressed(next_name.as_str());
                push_slice(&mut self.buf, type_bitmap.as_slice(), 0, type_bitmap.len());
            },
        }
        assert(self.buf@ =~= old(self).buf@ + e.bytes);
    }

    /// Writes a label: its length and at most 63 of its octets.
    fn encode_label(&mut self, label: &str)
        ensures
            final(self).buf@ == old(self).buf@ + label_octets(label@),
            final(self).name_offsets@ == old(self).name_offsets@,
    {
        let bytes = label.as_bytes();
        // The two high bits of the length are reserved for pointers, so a longer
        // label cannot be represented.
        let len: usize = if bytes.len() <= MAX_LABEL_LEN {
            bytes.len()
        } else {
            MAX_LABEL_LEN
        };
        self.buf.push(len as u8);
        push_slice(&mut self.buf, bytes, 0, len);
        assert(self.buf@ =~= old(self).buf@ + label_octets(label@));
    }

    /// Encodes a domain name in label format without using compression pointers.
    fn encode_name_uncompressed(&mut self, name: &str)
        requires
            old(self).wf(),
        ensures
            final(self).wrote(
                old(self),
                (Emitted { bytes: plain_name_octets(name@), names: old(self).name_offsets@ }),
            ),
    {
        if name.is_empty() {
            self.buf.push(0);
            assert(self.buf@ =~= old(self).buf@ + plain_name_octets(name@));
            return;
        }
        let mut rest: &str = name;
        loop
            invariant_except_break
                self.wf(),
                self.name_offsets@ == old(self).name_offsets@,
                self.buf@ + plain_labels_octets(rest@) == old(self).buf@ + plain_labels_octets(
                    name@,
                ),
            ensures
                self.wf(),
                self.name_offsets@ == old(self).name_offsets@,
                self.buf@ == old(self).buf@ + plain_labels_octets(name@),
            decreases rest@.len(),
        {
            proof {
                lemma_cut(rest@, '.');
            }
            let ghost here = self.buf@;
            match split_once(rest, '.') {
                Some((label, tail)) => {
                    self.encode_label(label);
                    proof {
                        assert(self.buf@ + plain_labels_octets(tail@) =~= here
                            + plain_labels_octets(rest@));
                    }
                    rest = tail;
                },
                None => {
                    self.encode_label(rest);
                    self.buf.push(0);
                    proof {
                        assert(self.buf@ =~= here + plain_labels_octets(rest@));
                    }
                    break ;
                },
            }
        }
    }

    /// Encodes text as one or more DNS character-strings (each a length byte
    /// followed by up to 255 bytes), splitting longer text across strings.
    fn encode_character_strings(&mut self, text: &str)
        requires
            old(self).wf(),
        ensures
            final(self).wrote(
                old(self),
                (Emitted { bytes: character_string_octets(text@), names: old(self).name_offsets@ }),
            ),
    {
        if text.is_empty() {
            self.buf.push(0);
            assert(self.buf@ =~= old(self).buf@ + seq![0u8]);
            return;
        }
        push_chunks(&mut self.buf, text);
    }

    /// Encodes a domain name into the buffer in label format, using compression
    /// pointers for any suffix that has already been written.
    fn encode_qname(&mut self, qname: &str)
        requires
            old(self).wf(),
        ensures
            final(self).wrote(
                old(self),
                name_octets(qname@, old(self).buf@.len(), old(self).name_offsets@),
            ),
    {
        if qname.is_empty() {
            self.buf.push(0);
            assert(self.buf@ =~= old(self).buf@ + seq![0u8]);
            return;
        }
        let ghost goal = labels_octets(qname@, old(self).buf@.len(), old(self).name_offsets@);
        let mut suffix: &str = qname;
        loop
            invariant_except_break
                self.wf(),
                ({
                    let e = labels_octets(suffix@, self.buf@.len(), self.name_offsets@);
                    self.buf@ + e.bytes == old(self).buf@ + goal.bytes && e.names == goal.names
                }),
            ensures
                self.wf(),
                self.buf@ == old(self).buf@ + goal.bytes,
                self.name_offsets@ == goal.names,
            decreases suffix@.len(),
        {
            let ghost here = *self;
            let ghost e = labels_octets(suffix@, self.buf@.len(), self.name_offsets@);
            if let Some(offset) = self.name_offsets.get(suffix) {
                let pointer: u16 = 0xC000 + *offset;
                push_u16(&mut self.buf, pointer);
                break ;
            }
            // Only positions addressable by a 14-bit pointer can be referenced.

            if self.buf.len() <= MAX_POINTER_TARGET {
                self.name_offsets.insert(suffix.to_owned(), self.buf.len() as u16);
            }
            proof {
                lemma_cut(suffix@, '.');
            }
            match split_once(suffix, '.') {
                Some((label, tail)) => {
                    self.encode_label(label);
                    proof {
                        let next = labels_octets(tail@, self.buf@.len(), self.name_offsets@);
                        assert(here.buf@ + e.bytes =~= self.buf@ + next.bytes);
                    }
                    suffix = tail;
                },
                None => {
                    self.encode_label(suffix);
                    self.buf.push(0);
                    proof {
                        assert(self.buf@ =~= here.buf@ + e.bytes);
                    }
                    break ;
                },
            }
        }
    }
}

/// Appends text in strings of at most 255 octets, each after its length.
pub fn push_chunks(out: &mut Vec<u8>, text: &str)
    ensures
        final(out)@ == old(out)@ + chunk_octets(encode_utf8(text@)),
{
    let bytes = text.as_bytes();
    let mut i: usize = 0;
    proof {
        assert(bytes@.skip(0) =~= bytes@);
    }
    while i < bytes.len()
        invariant
            i <= bytes@.len(),
            out@ + chunk_octets(bytes@.skip(i as int)) == old(out)@ + chunk_octets(bytes@),
        decreases bytes@.len() - i,
    {
        let ghost here = out@;
        let ghost left = bytes@.skip(i as int);
        let n: usize = if bytes.len() - i <= 255 {
            bytes.len() - i
        } else {
            255
        };
        out.push(n as u8);
        push_slice(out, bytes, i, i + n);
        proof {
            assert(bytes@.subrange(i as int, i + n) =~= left.take(n as int));
            assert(bytes@.skip(i + n) =~= left.skip(n as int));
            if left.len() <= 255 {
                assert(left.take(n as int) =~= left);
                assert(chunk_octets(left.skip(n as int)) =~= Seq::empty());
            }
            assert(out@ + chunk_octets(bytes@.skip(i + n)) =~= here + chunk_octets(left));
        }
        i = i + n;
    }
    proof {
        assert(chunk_octets(bytes@.skip(i as int)) =~= Seq::empty());
        assert(out@ =~= old(out)@ + chunk_octets(bytes@));
    }
}

/// The numbers of the record types.
pub proof fn law_type_numbers(r: RecordView)
    ensures
        r.rtype() == (match r {
            RecordView::A { .. } => 1u16,
            RecordView::NS { .. } => 2u16,
            RecordView::CNAME { .. } => 5u16,
            RecordView::SOA { .. } => 6u16,
            RecordView::PTR { .. } => 12u16,
            RecordView::MX { .. } => 15u16,
            RecordView::TXT { .. } => 16u16,
            RecordView::AAAA { .. } => 28u16,
            RecordView::SRV { .. } => 33u16,
            RecordView::OPT { .. } => 41u16,
            RecordView::DS { .. } => 43u16,
            RecordView::RRSIG { .. } => 46u16,
            RecordView::NSEC { .. } => 47u16,
            RecordView::DNSKEY { .. } => 48u16,
            RecordView::CAA { .. } => 257u16,
        }),
{
}

proof fn lemma_number_at(head: Seq<u8>, v: nat, n: nat, tail: Seq<u8>)
    requires
        v < pow256(n),
    ensures
        be_at(head + be_bytes(v, n) + tail, head.len() as int, n) == v,
        (head + be_bytes(v, n) + tail).len() == head.len() + n + tail.len(),
{
    lemma_be_bytes_len(v, n);
    lemma_be_round_trip(v, n);
    let b = head + be_bytes(v, n) + tail;
    assert(b.subrange(head.len() as int, (head.len() + n) as int) =~= be_bytes(v, n));
}

/// A record is its owner's name, then its type, its class (1, or for an OPT record the
/// payload size), its TTL and the length of its data, and then the data.
pub proof fn law_record_wire(r: RecordView, at: nat, names: Map<Seq<char>, u16>)
    ensures
        ({
            let owner = name_octets(r.domain(), at, names);
            let n = owner.bytes.len() as int;
            let data = rdata_octets(r, at + n as nat + 10, owner.names);
            let b = record_octets(r, at, names).bytes;
            &&& b.take(n) == owner.bytes
            &&& be_at(b, n, 2) == r.rtype()
            &&& be_at(b, n + 2, 2) == (match r {
                RecordView::OPT { udp_size } => udp_size,
                _ => 1,
            })
            &&& be_at(b, n + 4, 4) == r.ttl()
            &&& data.bytes.len() <= 0xFFFF ==> be_at(b, n + 8, 2) == data.bytes.len()
            &&& b.skip(n + 10) == data.bytes
            &&& b.len() == n + 10 + data.bytes.len()
        }),
{
    let owner = name_octets(r.domain(), at, names);
    let o = owner.bytes;
    let n = o.len() as int;
    let data = rdata_octets(r, at + n as nat + 10, owner.names).bytes;
    let b = record_octets(r, at, names).bytes;
    let class: nat = match r {
        RecordView::OPT { udp_size } => udp_size as nat,
        _ => 1,
    };
    let x = be_bytes(r.rtype() as nat, 2);
    let y = be_bytes(class, 2);
    let z = be_bytes(r.ttl() as nat, 4);
    let l = be_bytes(data.len(), 2);
    lemma_pow256_small();
    lemma_be_bytes_len(r.rtype() as nat, 2);
    lemma_be_bytes_len(class, 2);
    lemma_be_bytes_len(r.ttl() as nat, 4);
    lemma_be_bytes_len(data.len(), 2);
    lemma_number_at(o, r.rtype() as nat, 2, y + z + l + data);
    assert(b =~= o + x + (y + z + l + data));
    lemma_number_at(o + x, class, 2, z + l + data);
    assert(b =~= o + x + y + (z + l + data));
    lemma_number_at(o + x + y, r.ttl() as nat, 4, l + data);
    assert(b =~= o + x + y + z + (l + data));
    if data.len() <= 0xFFFF {
        lemma_number_at(o + x + y + z, data.len(), 2, data);
        assert(b =~= o + x + y + z + l + data);
    }
    assert(b.take(n) =~= o);
    assert(b.skip(n + 10) =~= data);
}

/// Addresses stand as their octets, most significant first.
pub proof fn law_address_wire(r: RecordView, at: nat, names: Map<Seq<char>, u16>)
    ensures
        ({
            let b = rdata_octets(r, at, names).bytes;
            &&& r matches RecordView::A { addr, .. } ==> b.len() == 4 && be_at(b, 0, 4) == addr.bits
            &&& r matches RecordView::AAAA { addr, .. } ==> b.len() == 16 && be_at(b, 0, 16)
                == addr.bits
        }),
{
    lemma_pow256_small();
    let none = Seq::<u8>::empty();
    match r {
        RecordView::A { addr, .. } => {
            lemma_number_at(none, addr.bits as nat, 4, none);
            assert(none + be_bytes(addr.bits as nat, 4) + none =~= rdata_octets(
                r,
                at,
                names,
            ).bytes);
        },
        RecordView::AAAA { addr, .. } => {
            lemma_number_at(none, addr.bits as nat, 16, none);
            assert(none + be_bytes(addr.bits as nat, 16) + none =~= rdata_octets(
                r,
                at,
                names,
            ).bytes);
        },
        _ => {},
    }
}

/// Records of one name hold that name; an MX record has its preference in front, and an SRV
/// record its priority, weight and port, with the name written out in full.
pub proof fn law_name_wire(r: RecordView, at: nat, names: Map<Seq<char>, u16>)
    ensures
        ({
            let b = rdata_octets(r, at, names).bytes;
            match r {
                RecordView::CNAME { alias, .. } => b == name_octets(alias, at, names).bytes,
                RecordView::NS { nameserver, .. } => b == name_octets(nameserver, at, names).bytes,
                RecordView::PTR { ptrdname, .. } => b == name_octets(ptrdname, at, names).bytes,
                RecordView::MX { preference, exchange, .. } => be_at(b, 0, 2) == preference
                    && b.skip(2) == name_octets(exchange, at + 2, names).bytes,
                RecordView::SRV { priority, weight, port, target, .. } => be_at(b, 0, 2)
                    == priority && be_at(b, 2, 2) == weight && be_at(b, 4, 2) == port && b.skip(6)
                    == plain_name_octets(target),
                _ => true,
            }
        }),
{
    lemma_pow256_small();
    let none = Seq::<u8>::empty();
    let b = rdata_octets(r, at, names).bytes;
    match r {
        RecordView::MX { preference, exchange, .. } => {
            lemma_be_bytes_len(preference as nat, 2);
            let e = name_octets(exchange, at + 2, names).bytes;
            lemma_number_at(none, preference as nat, 2, e);
            assert(none + be_bytes(preference as nat, 2) + e =~= b);
            assert(b.skip(2) =~= e);
        },
        RecordView::SRV { priority, weight, port, target, .. } => {
            let x = be_bytes(priority as nat, 2);
            let y = be_bytes(weight as nat, 2);
            let z = be_bytes(port as nat, 2);
            let t = plain_name_octets(target);
            lemma_be_bytes_len(priority as nat, 2);
            lemma_be_bytes_len(weight as nat, 2);
            lemma_be_bytes_len(port as nat, 2);
            lemma_number_at(none, priority as nat, 2, y + z + t);
            assert(none + x + (y + z + t) =~= b);
            lemma_number_at(x, weight as nat, 2, z + t);
            assert(x + y + (z + t) =~= b);
            lemma_number_at(x + y, port as nat, 2, t);
            assert(b.skip(6) =~= t);
        },
        _ => {},
    }
}

/// An SOA record ends with its five numbers, in order, behind its two names.
pub proof fn law_soa_wire(r: RecordView, at: nat, names: Map<Seq<char>, u16>)
    requires
        r is SOA,
    ensures
        ({
            let b = rdata_octets(r, at, names).bytes;
            let n = b.len() - 20;
            match r {
                RecordView::SOA {
                    mname,
                    rname,
                    serial,
                    refresh,
                    retry,
                    expire,
                    minimum,
                    ..
                } => {
                    let m = name_octets(mname, at, names);
                    &&& n >= 0
                    &&& b.take(n) == m.bytes + name_octets(
                        rname,
                        at + m.bytes.len(),
                        m.names,
                    ).bytes
                    &&& be_at(b, n, 4) == serial
                    &&& be_at(b, n + 4, 4) == refresh
                    &&& be_at(b, n + 8, 4) == retry
                    &&& be_at(b, n + 12, 4) == expire
                    &&& be_at(b, n + 16, 4) == minimum
                },
                _ => true,
            }
        }),
{
    lemma_pow256_small();
    let none = Seq::<u8>::empty();
    let b = rdata_octets(r, at, names).bytes;
    if let RecordView::SOA { mname, rname, serial, refresh, retry, expire, minimum, .. } = r {
        let m = name_octets(mname, at, names);
        let h = m.bytes + name_octets(rname, at + m.bytes.len(), m.names).bytes;
        let v = be_bytes(serial as nat, 4);
        let w = be_bytes(refresh as nat, 4);
        let x = be_bytes(retry as nat, 4);
        let y = be_bytes(expire as nat, 4);
        let z = be_bytes(minimum as nat, 4);
        lemma_be_bytes_len(serial as nat, 4);
        lemma_be_bytes_len(refresh as nat, 4);
        lemma_be_bytes_len(retry as nat, 4);
        lemma_be_bytes_len(expire as nat, 4);
        lemma_be_bytes_len(minimum as nat, 4);
        lemma_number_at(h, serial as nat, 4, w + x + y + z);
        assert(h + v + (w + x + y + z) =~= b);
        lemma_number_at(h + v, refresh as nat, 4, x + y + z);
        assert(h + v + w + (x + y + z) =~= b);
        lemma_number_at(h + v + w, retry as nat, 4, y + z);
        assert(h + v + w + x + (y + z) =~= b);
        lemma_number_at(h + v + w + x, expire as nat, 4, z);
        lemma_number_at(h + v + w + x + y, minimum as nat, 4, none);
        assert(h + v + w + x + y + z + none =~= b);
        assert(b.take(b.len() - 20) =~= h);
    }
}

/// The records with octets of their own: keys, digests, signatures and CAA records.
pub proof fn law_octets_wire(r: RecordView, at: nat, names: Map<Seq<char>, u16>)
    ensures
        ({
            let b = rdata_octets(r, at, names).bytes;
            match r {
                RecordView::DNSKEY { flags, protocol, algorithm, public_key, .. } => be_at(b, 0, 2)
                    == flags && b[2] == protocol && b[3] == algorithm && b.skip(4) == public_key,
                RecordView::DS { key_tag, algorithm, digest_type, digest, .. } => be_at(b, 0, 2)
                    == key_tag && b[2] == algorithm && b[3] == digest_type && b.skip(4) == digest,
                RecordView::NSEC { next_name, type_bitmap, .. } => b == plain_name_octets(next_name)
                    + type_bitmap,
                RecordView::OPT { .. } => b.len() == 0,
                RecordView::CAA { flags, tag, value, .. } => encode_utf8(tag).len() <= 255 ==> b[0]
                    == flags && b[1] == encode_utf8(tag).len() && b.skip(2) == encode_utf8(tag)
                    + encode_utf8(value),
                _ => true,
            }
        }),
{
    lemma_pow256_small();
    let none = Seq::<u8>::empty();
    let b = rdata_octets(r, at, names).bytes;
    match r {
        RecordView::DNSKEY { flags, protocol, algorithm, public_key, .. } => {
            lemma_be_bytes_len(flags as nat, 2);
            let t = seq![protocol, algorithm] + public_key;
            lemma_number_at(none, flags as nat, 2, t);
            assert(none + be_bytes(flags as nat, 2) + t =~= b);
            assert(b.skip(4) =~= public_key);
        },
        RecordView::DS { key_tag, algorithm, digest_type, digest, .. } => {
            lemma_be_bytes_len(key_tag as nat, 2);
            let t = seq![algorithm, digest_type] + digest;
            lemma_number_at(none, key_tag as nat, 2, t);
            assert(none + be_bytes(key_tag as nat, 2) + t =~= b);
            assert(b.skip(4) =~= digest);
        },
        RecordView::CAA { tag, value, .. } => {
            if encode_utf8(tag).len() <= 255 {
                assert(b.skip(2) =~= encode_utf8(tag) + encode_utf8(value));
            }
        },
        _ => {},
    }
}

/// A signature record has the type that it covers in front, then the algorithm and the
/// number of labels, three times and a key tag, the signer's name in full, and the
/// signature.
pub proof fn law_rrsig_wire(r: RecordView, at: nat, names: Map<Seq<char>, u16>)
    requires
        r is RRSIG,
    ensures
        ({
            let b = rdata_octets(r, at, names).bytes;
            match r {
                RecordView::RRSIG {
                    type_covered,
                    algorithm,
                    labels,
                    original_ttl,
                    signature_expiration,
                    signature_inception,
                    key_tag,
                    signer_name,
                    signature,
                    ..
                } => {
                    &&& be_at(b, 0, 2) == type_covered
                    &&& b[2] == algorithm
                    &&& b[3] == labels
                    &&& be_at(b, 4, 4) == original_ttl
                    &&& be_at(b, 8, 4) == signature_expiration
                    &&& be_at(b, 12, 4) == signature_inception
                    &&& be_at(b, 16, 2) == key_tag
                    &&& b.skip(18) == plain_name_octets(signer_name) + signature
                },
                _ => true,
            }
        }),
{
    lemma_pow256_small();
    let none = Seq::<u8>::empty();
    let b = rdata_octets(r, at, names).bytes;
    if let RecordView::RRSIG {
        type_covered,
        algorithm,
        labels,
        original_ttl,
        signature_expiration,
        signature_inception,
        key_tag,
        signer_name,
        signature,
        ..
    } = r {
        let v = be_bytes(type_covered as nat, 2);
        let c = seq![algorithm, labels];
        let w = be_bytes(original_ttl as nat, 4);
        let x = be_bytes(signature_expiration as nat, 4);
        let y = be_bytes(signature_inception as nat, 4);
        let z = be_bytes(key_tag as nat, 2);
        let t = plain_name_octets(signer_name) + signature;
        lemma_be_bytes_len(type_covered as nat, 2);
        lemma_be_bytes_len(original_ttl as nat, 4);
        lemma_be_bytes_len(signature_expiration as nat, 4);
        lemma_be_bytes_len(signature_inception as nat, 4);
        lemma_be_bytes_len(key_tag as nat, 2);
        lemma_number_at(none, type_covered as nat, 2, c + w + x + y + z + t);
        assert(none + v + (c + w + x + y + z + t) =~= b);
        lemma_number_at(v + c, original_ttl as nat, 4, x + y + z + t);
        assert(v + c + w + (x + y + z + t) =~= b);
        lemma_number_at(v + c + w, signature_expiration as nat, 4, y + z + t);
        assert(v + c + w + x + (y + z + t) =~= b);
        lemma_number_at(v + c + w + x, signature_inception as nat, 4, z + t);
        assert(v + c + w + x + y + (z + t) =~= b);
        lemma_number_at(v + c + w + x + y, key_tag as nat, 2, t);
        assert(v + c + w + x + y + z + t =~= b);
        assert(b.skip(18) =~= t);
    }
}

/// A label is its length and its octets, of which no more than 63 are kept. A name in full
/// is its labels, one behind the other, and a zero.
pub proof fn law_labels_wire(label: Seq<char>, rest: Seq<char>)
    requires
        !label.contains('.'),
    ensures
        encode_utf8(label).len() <= 63 ==> label_octets(label) == seq![
            encode_utf8(label).len() as u8,
        ] + encode_utf8(label),
        encode_utf8(label).len() > 63 ==> label_octets(label) == seq![63u8] + encode_utf8(
            label,
        ).take(63),
        plain_labels_octets(label) == label_octets(label) + seq![0u8],
        plain_labels_octets(label + seq!['.'] + rest) == label_octets(label) + plain_labels_octets(
            rest,
        ),
{
    lemma_first_of(label, '.');
    let name = label + seq!['.'] + rest;
    assert forall|j: int| 0 <= j < label.len() implies name[j] != '.' by {
        assert(label.contains(label[j]));
    }
    lemma_first_of_is(name, '.', label.len() as int);
    assert(before(name, '.') =~= label);
    assert(after(name, '.') =~= rest);
    assert(before(label, '.') =~= label);
    assert(label_octets(label).push(0) =~= label_octets(label) + seq![0u8]);
}

/// A name that was written before within reach of a pointer is written as two octets, whose
/// two highest bits are set and whose others are the place where it stands.
pub proof fn law_repeated_name(name: Seq<char>, first: nat, at: nat, names: Map<Seq<char>, u16>)
    requires
        name.len() > 0,
        first <= 0x3FFF,
        !names.contains_key(name),
    ensures
        ({
            let b = name_octets(name, at, name_octets(name, first, names).names).bytes;
            b.len() == 2 && be_at(b, 0, 2) == 0xC000 + first
        }),
{
    let seen = name_octets(name, first, names).names;
    lemma_name_kept(after(name, '.'), first + label_octets(before(name, '.')).len(), names.insert(
        name,
        first as u16,
    ), name);
    assert(seen.contains_key(name) && seen[name] == first);
    lemma_pow256_small();
    let none = Seq::<u8>::empty();
    lemma_number_at(none, 0xC000 + first, 2, none);
    assert(none + be_bytes(0xC000 + first, 2) + none =~= name_octets(name, at, seen).bytes);
}

proof fn lemma_name_kept(name: Seq<char>, at: nat, names: Map<Seq<char>, u16>, key: Seq<char>)
    requires
        names.contains_key(key),
    ensures
        labels_octets(name, at, names).names.contains_key(key),
        labels_octets(name, at, names).names[key] == names[key],
    decreases name.len(),
{
    if !names.contains_key(name) && occurs(name, '.') {
        lemma_first_of(name, '.');
        let seen = if at <= MAX_POINTER_TARGET {
            names.insert(name, at as u16)
        } else {
            names
        };
        lemma_name_kept(
            after(name, '.'),
            at + label_octets(before(name, '.')).len(),
            seen,
            key,
        );
    }
}

/// Text is cut into strings of 255 octets and a shorter one at the end, each behind its
/// length: one octet more for each.
pub proof fn law_text_wire(b: Seq<u8>, c: Seq<u8>)
    ensures
        chunk_octets(b).len() == b.len() + (b.len() + 254) / 255,
        0 < b.len() <= 255 ==> chunk_octets(b) == seq![b.len() as u8] + b,
        b.len() == 255 && c.len() > 0 ==> chunk_octets(b + c) == chunk_octets(b) + chunk_octets(c),
    decreases b.len(),
{
    if b.len() > 255 {
        law_text_wire(b.skip(255), c);
    }
    if b.len() == 255 && c.len() > 0 {
        assert((b + c).take(255) =~= b);
        assert((b + c).skip(255) =~= c);
    }
}

/// The records of a section stand one behind the other.
pub proof fn law_sections_wire(
    a: Seq<RecordView>,
    b: Seq<RecordView>,
    at: nat,
    names: Map<Seq<char>, u16>,
)
    ensures
        ({
            let x = records_octets(a, at, names);
            let y = records_octets(b, at + x.bytes.len(), x.names);
            &&& records_octets(a + b, at, names).bytes == x.bytes + y.bytes
            &&& records_octets(a + b, at, names).names == y.names
        }),
    decreases b.len(),
{
    let x = records_octets(a, at, names);
    let y = records_octets(b, at + x.bytes.len(), x.names);
    if b.len() == 0 {
        assert(a + b =~= a);
        assert(x.bytes + y.bytes =~= x.bytes);
    } else {
        let init = b.drop_last();
        let z = records_octets(init, at + x.bytes.len(), x.names);
        let whole = records_octets(a + init, at, names);
        law_sections_wire(a, init, at, names);
        assert((a + b).drop_last() =~= a + init);
        assert((a + b).last() == b.last());
        let place = at + x.bytes.len() + z.bytes.len();
        assert(at + whole.bytes.len() == place);
        let r = record_octets(b.last(), place, z.names);
        assert(records_octets(a + b, at, names).bytes == whole.bytes + r.bytes);
        assert(y.bytes == z.bytes + r.bytes);
        assert(x.bytes + z.bytes + r.bytes =~= x.bytes + (z.bytes + r.bytes));
    }
}

/// A section of one record is that record.
pub proof fn law_one_record_wire(r: RecordView, at: nat, names: Map<Seq<char>, u16>)
    ensures
        records_octets(seq![r], at, names) == record_octets(r, at, names),
{
    let none = Seq::<RecordView>::empty();
    assert(seq![r].drop_last() =~= none);
    let e = records_octets(none, at, names);
    assert(e.bytes + record_octets(r, at, names).bytes =~= record_octets(r, at, names).bytes);
}

/// A message begins with its ID, its flags and the numbers of its questions, answers,
/// authorities and additional records, two octets each.
pub proof fn law_header_wire(p: PacketView)
    requires
        p.questions.len() <= 0xFFFF,
        p.answers.len() <= 0xFFFF,
        p.authorities.len() <= 0xFFFF,
        p.additionals.len() <= 0xFFFF,
    ensures
        ({
            let b = message_octets(p);
            let q = questions_octets(p.questions, 12, Map::empty());
            &&& be_at(b, 0, 2) == p.header.id
            &&& be_at(b, 2, 2) == p.header.flags
            &&& be_at(b, 4, 2) == p.questions.len()
            &&& be_at(b, 6, 2) == p.answers.len()
            &&& be_at(b, 8, 2) == p.authorities.len()
            &&& be_at(b, 10, 2) == p.additionals.len()
            &&& b.skip(12) == q.bytes + records_octets(
                p.answers + p.authorities + p.additionals,
                12 + q.bytes.len(),
                q.names,
            ).bytes
        }),
{
    lemma_pow256_small();
    let none = Seq::<u8>::empty();
    let b = message_octets(p);
    let q = questions_octets(p.questions, 12, Map::empty());
    let at = 12 + q.bytes.len();
    let t = q.bytes + sections_octets(p, at, q.names).bytes;
    let u = be_bytes(p.header.id as nat, 2);
    let v = be_bytes(p.header.flags as nat, 2);
    let w = be_bytes(p.questions.len(), 2);
    let x = be_bytes(p.answers.len(), 2);
    let y = be_bytes(p.authorities.len(), 2);
    let z = be_bytes(p.additionals.len(), 2);
    lemma_be_bytes_len(p.header.id as nat, 2);
    lemma_be_bytes_len(p.header.flags as nat, 2);
    lemma_be_bytes_len(p.questions.len(), 2);
    lemma_be_bytes_len(p.answers.len(), 2);
    lemma_be_bytes_len(p.authorities.len(), 2);
    lemma_be_bytes_len(p.additionals.len(), 2);
    lemma_number_at(none, p.header.id as nat, 2, v + w + x + y + z + t);
    assert(none + u + (v + w + x + y + z + t) =~= b);
    lemma_number_at(u, p.header.flags as nat, 2, w + x + y + z + t);
    assert(u + v + (w + x + y + z + t) =~= b);
    lemma_number_at(u + v, p.questions.len(), 2, x + y + z + t);
    assert(u + v + w + (x + y + z + t) =~= b);
    lemma_number_at(u + v + w, p.answers.len(), 2, y + z + t);
    assert(u + v + w + x + (y + z + t) =~= b);
    lemma_number_at(u + v + w + x, p.authorities.len(), 2, z + t);
    assert(u + v + w + x + y + (z + t) =~= b);
    lemma_number_at(u + v + w + x + y, p.additionals.len(), 2, t);
    assert(u + v + w + x + y + z + t =~= b);
    law_sections_wire(p.answers, p.authorities, at, q.names);
    law_sections_wire(p.answers + p.authorities, p.additionals, at, q.names);
    let aa = records_octets(p.answers, at, q.names);
    let bb = records_octets(p.authorities, at + aa.bytes.len(), aa.names);
    assert((aa.bytes + bb.bytes).len() == aa.bytes.len() + bb.bytes.len());
    assert(at + (aa.bytes.len() + bb.bytes.len()) == at + aa.bytes.len() + bb.bytes.len());
    assert(b.skip(12) =~= t);
}

/// A question is its name, type and class; questions stand one behind the other.
pub proof fn law_questions_wire(
    a: Seq<QuestionView>,
    q: QuestionView,
    at: nat,
    names: Map<Seq<char>, u16>,
)
    ensures
        ({
            let x = questions_octets(a, at, names);
            let n = name_octets(q.qname, at + x.bytes.len(), x.names);
            let b = questions_octets(a.push(q), at, names).bytes;
            let k = x.bytes.len() + n.bytes.len();
            &&& b.take(k as int) == x.bytes + n.bytes
            &&& b.len() == k + 4
            &&& be_at(b, k as int, 2) == q.qtype
            &&& be_at(b, k as int + 2, 2) == q.qclass
        }),
{
    lemma_pow256_small();
    let none = Seq::<u8>::empty();
    let x = questions_octets(a, at, names);
    let n = name_octets(q.qname, at + x.bytes.len(), x.names);
    let b = questions_octets(a.push(q), at, names).bytes;
    assert(a.push(q).drop_last() =~= a);
    let h = x.bytes + n.bytes;
    let t = be_bytes(q.qtype as nat, 2);
    let c = be_bytes(q.qclass as nat, 2);
    lemma_be_bytes_len(q.qtype as nat, 2);
    lemma_be_bytes_len(q.qclass as nat, 2);
    lemma_number_at(h, q.qtype as nat, 2, c);
    assert(h + t + c =~= b);
    lemma_number_at(h + t, q.qclass as nat, 2, none);
    assert(h + t + c + none =~= b);
    assert(b.take(h.len() as int) =~= h);
}

} // verus!
