//! Reading back what was written: a message that is encoded and then decoded is
//! the same message.

use crate::bytes::{
    be_at, be_bytes, lemma_be2, lemma_be_bytes_len, lemma_be_round_trip, lemma_pow256_small, pow256,
};
use crate::dns::encoder::{
    character_string_octets, chunk_octets, fixed_octets, header_octets, label_octets, labels_octets,
    lemma_fixed_len, lemma_header_len, message_octets, name_octets, plain_labels_octets,
    plain_name_octets, question_octets, questions_octets, rdata_octets, record_octets,
    records_octets, sections_octets, short_octets, MAX_POINTER_TARGET,
};
use crate::dns::error::DnsError;
use crate::dns::header::DnsHeader;
use crate::dns::packet::{
    read_header, read_labels, read_message, read_name, read_questions, read_rdata, read_record,
    read_rrsig, read_section, read_soa, read_strings, PacketView, RecordHead, MAX_POINTER_JUMPS,
};
use crate::dns::question::QuestionView;
use crate::dns::record::RecordView;
use crate::text::{
    after, before, chop_end, lemma_cut, lemma_encode_concat, lemma_first_of, occurs, utf8_lossy,
};
use vstd::prelude::*;
use vstd::utf8::{
    decode_utf8, decode_utf8_encode_utf8, encode_utf8, encode_utf8_decode_utf8,
    encode_utf8_valid_utf8, valid_utf8,
};

verus! {

/// Whether a label can be written whole: it is not empty and not too long.
pub open spec fn label_ok(label: Seq<char>) -> bool {
    1 <= encode_utf8(label).len() <= 63
}

/// Whether every label of a name can be written whole.
pub open spec fn labels_ok(name: Seq<char>) -> bool
    decreases name.len(),
{
    &&& label_ok(before(name, '.'))
    &&& occurs(name, '.') ==> {
        proof {
            lemma_first_of(name, '.');
        }
        labels_ok(after(name, '.'))
    }
}

/// Whether a name is the root or made of labels that can be written whole.
pub open spec fn name_ok(name: Seq<char>) -> bool {
    name.len() == 0 || labels_ok(name)
}

/// The number of labels of a name that is not the root.
pub open spec fn label_count(name: Seq<char>) -> nat
    decreases name.len(),
{
    if occurs(name, '.') {
        proof {
            lemma_first_of(name, '.');
        }
        1 + label_count(after(name, '.'))
    } else {
        1
    }
}

/// Whether a name has so few labels that no chain of pointers to it can be too
/// long.
pub open spec fn is_short(name: Seq<char>) -> bool {
    label_count(name) <= MAX_POINTER_JUMPS
}

/// Whether reading gave the expected value; or, where that is not assured, gave
/// up on too long a chain of pointers.
pub open spec fn outcome<T>(r: Result<T, DnsError>, expected: T, assured: bool) -> bool {
    r == Ok::<T, DnsError>(expected) || (!assured && r == Err::<T, DnsError>(
        DnsError::PointerLoop,
    ))
}

/// Whether the octets of `buf` from `at` on begin with `x`.
pub open spec fn stands(buf: Seq<u8>, at: int, x: Seq<u8>) -> bool {
    0 <= at && at + x.len() <= buf.len() && buf.subrange(at, at + x.len()) == x
}

proof fn lemma_stands_concat(buf: Seq<u8>, at: int, x: Seq<u8>, y: Seq<u8>)
    requires
        stands(buf, at, x + y),
    ensures
        stands(buf, at, x),
        stands(buf, at + x.len(), y),
{
    let z = buf.subrange(at, at + x.len() + y.len());
    assert(z =~= x + y);
    assert(buf.subrange(at, at + x.len()) =~= z.take(x.len() as int));
    assert(z.take(x.len() as int) =~= x);
    assert(buf.subrange(at + x.len(), at + x.len() + y.len()) =~= z.skip(x.len() as int));
    assert(z.skip(x.len() as int) =~= y);
}

proof fn lemma_stands_number(buf: Seq<u8>, at: int, v: nat, n: nat)
    requires
        stands(buf, at, be_bytes(v, n)),
        v < pow256(n),
    ensures
        be_at(buf, at, n) == v,
{
    lemma_be_bytes_len(v, n);
    lemma_be_round_trip(v, n);
}

proof fn lemma_lossy_encoded(c: Seq<char>)
    ensures
        utf8_lossy(encode_utf8(c)) == c,
{
    encode_utf8_valid_utf8(c);
    encode_utf8_decode_utf8(c);
}

/// Whether labels were read that make up the name, wherever they end.
spec fn reads_as(r: Result<(Seq<char>, int), DnsError>, name: Seq<char>, assured: bool) -> bool {
    match r {
        Ok((labels, _)) => labels == name.push('.'),
        Err(e) => !assured && e == DnsError::PointerLoop,
    }
}

proof fn lemma_label(buf: Seq<u8>, at: int, label: Seq<char>)
    requires
        label_ok(label),
        stands(buf, at, label_octets(label)),
    ensures
        label_octets(label).len() == 1 + encode_utf8(label).len(),
        buf[at] == encode_utf8(label).len(),
        0 < buf[at] < 64,
        utf8_lossy(buf.subrange(at + 1, at + 1 + buf[at])) == label,
{
    let b = encode_utf8(label);
    let l = label_octets(label);
    assert(buf.subrange(at, at + l.len())[0] == l[0]);
    assert(buf.subrange(at + 1, at + 1 + buf[at]) =~= buf.subrange(at, at + l.len()).skip(1));
    assert(l.skip(1) =~= b);
    lemma_lossy_encoded(label);
}

/// Whether the name at `at` reads back from any count of jumps, ending at `end`.
spec fn name_reads(buf: Seq<u8>, name: Seq<char>, at: int, end: int) -> bool {
    forall|j: nat|
        j <= MAX_POINTER_JUMPS ==> outcome(
            #[trigger] read_labels(buf, at, j),
            (name.push('.'), end),
            j + label_count(name) <= MAX_POINTER_JUMPS,
        )
}

/// Whether the name at `at` reads back, as it has to for a name to be pointed at.
spec fn target_reads(buf: Seq<u8>, name: Seq<char>, at: int) -> bool {
    forall|j: nat|
        j <= MAX_POINTER_JUMPS ==> reads_as(
            #[trigger] read_labels(buf, at, j),
            name,
            j + label_count(name) <= MAX_POINTER_JUMPS + 1,
        )
}

/// A pointer to a name that reads back reads as that name.
proof fn lemma_pointer(buf: Seq<u8>, name: Seq<char>, at: int, o: u16)
    requires
        target_reads(buf, name, o as int),
        o <= MAX_POINTER_TARGET,
        stands(buf, at, be_bytes((0xC000 + o) as nat, 2)),
    ensures
        name_reads(buf, name, at, at + 2),
{
    lemma_be2((0xC000 + o) as nat);
    let two = buf.subrange(at, at + 2);
    assert(two[0] == buf[at] && two[1] == buf[at + 1]);
    assert(buf[at] == 0xC0 + o / 256);
    assert(buf[at + 1] == o % 256);
    assert((buf[at] % 64) * 256 + buf[at + 1] == o);
    assert forall|j: nat| j <= MAX_POINTER_JUMPS implies outcome(
        #[trigger] read_labels(buf, at, j),
        (name.push('.'), at + 2),
        j + label_count(name) <= MAX_POINTER_JUMPS,
    ) by {
        if j < MAX_POINTER_JUMPS {
            assert(reads_as(
                read_labels(buf, o as int, j + 1),
                name,
                j + 1 + label_count(name) <= MAX_POINTER_JUMPS + 1,
            ));
        }
    }
}

/// A label before a name that reads back makes a longer name that reads back.
proof fn lemma_longer(buf: Seq<u8>, name: Seq<char>, at: int, end: int)
    requires
        occurs(name, '.'),
        label_ok(before(name, '.')),
        stands(buf, at, label_octets(before(name, '.'))),
        name_reads(
            buf,
            after(name, '.'),
            at + label_octets(before(name, '.')).len(),
            end,
        ),
    ensures
        name_reads(buf, name, at, end),
        target_reads(buf, name, at),
{
    let head = before(name, '.');
    let tail = after(name, '.');
    let next = at + label_octets(head).len();
    lemma_cut(name, '.');
    lemma_label(buf, at, head);
    assert(head.push('.') + tail.push('.') =~= name.push('.'));
    assert forall|j: nat| j <= MAX_POINTER_JUMPS implies outcome(
        #[trigger] read_labels(buf, at, j),
        (name.push('.'), end),
        j + label_count(name) <= MAX_POINTER_JUMPS,
    ) && reads_as(
        read_labels(buf, at, j),
        name,
        j + label_count(name) <= MAX_POINTER_JUMPS + 1,
    ) by {
        assert(outcome(
            read_labels(buf, next, j),
            (tail.push('.'), end),
            j + label_count(tail) <= MAX_POINTER_JUMPS,
        ));
    }
}

/// A last label reads back.
proof fn lemma_last_label(buf: Seq<u8>, name: Seq<char>, at: int)
    requires
        !occurs(name, '.'),
        label_ok(name),
        stands(buf, at, label_octets(name).push(0)),
    ensures
        name_reads(buf, name, at, at + label_octets(name).len() + 1),
        target_reads(buf, name, at),
{
    let label = label_octets(name);
    let z = at + label.len();
    assert(label.push(0) =~= label + seq![0u8]);
    lemma_stands_concat(buf, at, label, seq![0u8]);
    lemma_label(buf, at, name);
    assert(buf.subrange(z, z + 1)[0] == buf[z]);
    assert(name.push('.') + Seq::<char>::empty() =~= name.push('.'));
    assert forall|j: nat| j <= MAX_POINTER_JUMPS implies #[trigger] read_labels(buf, at, j)
        == Ok::<(Seq<char>, int), DnsError>((name.push('.'), z + 1)) by {
        assert(read_labels(buf, z, j) == Ok::<(Seq<char>, int), DnsError>((Seq::empty(), z + 1)));
    }
}

/// Whether every name of at most `len` characters that can be pointed at reads
/// back.
spec fn known(buf: Seq<u8>, names: Map<Seq<char>, u16>, len: nat) -> bool {
    forall|k: Seq<char>|
        #[trigger] names.contains_key(k) && k.len() <= len ==> names[k] <= MAX_POINTER_TARGET
            && target_reads(buf, k, names[k] as int)
}

/// A compressed name reads back, and so does every name that can be pointed at
/// after it.
proof fn lemma_labels(buf: Seq<u8>, name: Seq<char>, at: nat, names: Map<Seq<char>, u16>)
    requires
        labels_ok(name),
        known(buf, names, name.len()),
        stands(buf, at as int, labels_octets(name, at, names).bytes),
    ensures
        ({
            let e = labels_octets(name, at, names);
            &&& known(buf, e.names, name.len())
            &&& forall|k: Seq<char>|
                k.len() > name.len() ==> #[trigger] e.names.contains_key(k) == names.contains_key(k)
            &&& forall|k: Seq<char>|
                k.len() > name.len() && names.contains_key(k) ==> #[trigger] e.names[k] == names[k]
            &&& name_reads(buf, name, at as int, at as int + e.bytes.len())
        }),
    decreases name.len(),
{
    let e = labels_octets(name, at, names);
    lemma_cut(name, '.');
    if names.contains_key(name) {
        assert(target_reads(buf, name, names[name] as int));
        lemma_be_bytes_len((0xC000 + names[name]) as nat, 2);
        lemma_pointer(buf, name, at as int, names[name]);
    } else {
        let seen = if at <= MAX_POINTER_TARGET {
            names.insert(name, at as u16)
        } else {
            names
        };
        let head = before(name, '.');
        let label = label_octets(head);
        if occurs(name, '.') {
            let tail = after(name, '.');
            let rest = labels_octets(tail, at + label.len(), seen);
            lemma_stands_concat(buf, at as int, label, rest.bytes);
            assert(known(buf, seen, tail.len())) by {
                assert forall|k: Seq<char>|
                    #[trigger] seen.contains_key(k) && k.len() <= tail.len() implies seen[k]
                    <= MAX_POINTER_TARGET && target_reads(buf, k, seen[k] as int) by {
                    assert(names.contains_key(k));
                }
            }
            lemma_labels(buf, tail, at + label.len(), seen);
            lemma_longer(buf, name, at as int, at as int + e.bytes.len());
            assert forall|k: Seq<char>|
                #[trigger] e.names.contains_key(k) && k.len() <= name.len() implies e.names[k]
                <= MAX_POINTER_TARGET && target_reads(buf, k, e.names[k] as int) by {
                if k.len() > tail.len() {
                    assert(seen.contains_key(k));
                    assert(e.names[k] == seen[k]);
                    if k != name || at > MAX_POINTER_TARGET {
                        assert(names.contains_key(k));
                    }
                }
            }
        } else {
            lemma_last_label(buf, name, at as int);
            assert forall|k: Seq<char>|
                #[trigger] e.names.contains_key(k) && k.len() <= name.len() implies e.names[k]
                <= MAX_POINTER_TARGET && target_reads(buf, k, e.names[k] as int) by {
                if k != name || at > MAX_POINTER_TARGET {
                    assert(names.contains_key(k));
                }
            }
        }
    }
}

/// Whether every name that can be pointed at reads back.
spec fn all_known(buf: Seq<u8>, names: Map<Seq<char>, u16>) -> bool {
    forall|k: Seq<char>|
        #[trigger] names.contains_key(k) ==> names[k] <= MAX_POINTER_TARGET && target_reads(
            buf,
            k,
            names[k] as int,
        )
}

/// A name reads back, and so does every name that can be pointed at after it.
proof fn lemma_name(buf: Seq<u8>, name: Seq<char>, at: nat, names: Map<Seq<char>, u16>)
    requires
        name_ok(name),
        all_known(buf, names),
        stands(buf, at as int, name_octets(name, at, names).bytes),
    ensures
        ({
            let e = name_octets(name, at, names);
            &&& all_known(buf, e.names)
            &&& outcome(
                read_name(buf, at as int),
                (name, (at + e.bytes.len()) as int),
                is_short(name),
            )
            &&& e.bytes.len() >= 1
        }),
{
    let e = name_octets(name, at, names);
    if name.len() == 0 {
        assert(buf.subrange(at as int, at as int + 1)[0] == buf[at as int]);
        assert(chop_end(Seq::<char>::empty(), '.') =~= name);
    } else {
        lemma_labels(buf, name, at, names);
        assert forall|k: Seq<char>| #[trigger] e.names.contains_key(k) implies e.names[k]
            <= MAX_POINTER_TARGET && target_reads(buf, k, e.names[k] as int) by {
            if k.len() > name.len() {
                assert(names.contains_key(k));
                assert(e.names[k] == names[k]);
                assert(names.contains_key(k));
            }
        }
        let zero: nat = 0;
        assert(outcome(
            read_labels(buf, at as int, zero),
            (name.push('.'), (at + e.bytes.len()) as int),
            zero + label_count(name) <= MAX_POINTER_JUMPS,
        ));
        assert(chop_end(name.push('.'), '.') =~= name);
        lemma_labels_len(name, at, names);
    }
}

proof fn lemma_labels_len(name: Seq<char>, at: nat, names: Map<Seq<char>, u16>)
    ensures
        labels_octets(name, at, names).bytes.len() >= 1,
{
    if names.contains_key(name) {
        lemma_be_bytes_len((0xC000 + names[name]) as nat, 2);
    }
}

/// A name that is written without compression reads back.
proof fn lemma_plain_labels(buf: Seq<u8>, name: Seq<char>, at: int)
    requires
        labels_ok(name),
        stands(buf, at, plain_labels_octets(name)),
    ensures
        forall|j: nat|
            #[trigger] read_labels(buf, at, j) == Ok::<(Seq<char>, int), DnsError>(
                (name.push('.'), at + plain_labels_octets(name).len()),
            ),
    decreases name.len(),
{
    lemma_cut(name, '.');
    let head = before(name, '.');
    let label = label_octets(head);
    let end = at + plain_labels_octets(name).len();
    if occurs(name, '.') {
        let tail = after(name, '.');
        lemma_stands_concat(buf, at, label, plain_labels_octets(tail));
        lemma_label(buf, at, head);
        lemma_plain_labels(buf, tail, at + label.len());
        assert(head.push('.') + tail.push('.') =~= name.push('.'));
        assert forall|j: nat| #[trigger]
            read_labels(buf, at, j) == Ok::<(Seq<char>, int), DnsError>((name.push('.'), end)) by {
            let r = read_labels(buf, at + label.len(), j);
        }
    } else {
        assert(label.push(0) =~= label + seq![0u8]);
        lemma_stands_concat(buf, at, label, seq![0u8]);
        lemma_label(buf, at, head);
        let z = at + label.len();
        assert(buf.subrange(z, z + 1)[0] == buf[z]);
        assert(head.push('.') + Seq::<char>::empty() =~= name.push('.'));
        assert forall|j: nat| #[trigger]
            read_labels(buf, at, j) == Ok::<(Seq<char>, int), DnsError>((name.push('.'), end)) by {
            assert(read_labels(buf, z, j) == Ok::<(Seq<char>, int), DnsError>(
                (Seq::empty(), z + 1),
            ));
        }
    }
}

/// A name that is written without compression reads back.
proof fn lemma_plain_name(buf: Seq<u8>, name: Seq<char>, at: int)
    requires
        name_ok(name),
        stands(buf, at, plain_name_octets(name)),
    ensures
        read_name(buf, at) == Ok::<(Seq<char>, int), DnsError>(
            (name, at + plain_name_octets(name).len()),
        ),
{
    if name.len() == 0 {
        assert(buf.subrange(at, at + 1)[0] == buf[at]);
        assert(chop_end(Seq::<char>::empty(), '.') =~= name);
    } else {
        lemma_plain_labels(buf, name, at);
        assert(chop_end(name.push('.'), '.') =~= name);
    }
}

/// Whether text survives being cut into strings of at most 255 octets: no cut
/// falls inside a character.
pub open spec fn chunks_ok(b: Seq<u8>) -> bool
    decreases b.len(),
{
    if b.len() <= 255 {
        valid_utf8(b)
    } else {
        valid_utf8(b.take(255)) && chunks_ok(b.skip(255))
    }
}

/// Whether what a record holds can be written without loss: every label is kept
/// whole, text is not cut inside a character, and a CAA tag is not cut at all.
pub open spec fn record_ok(r: RecordView) -> bool {
    &&& name_ok(r.domain())
    &&& match r {
        RecordView::CNAME { alias, .. } => name_ok(alias),
        RecordView::MX { exchange, .. } => name_ok(exchange),
        RecordView::TXT { text, .. } => chunks_ok(encode_utf8(text)),
        RecordView::NS { nameserver, .. } => name_ok(nameserver),
        RecordView::SOA { mname, rname, .. } => name_ok(mname) && name_ok(rname),
        RecordView::SRV { target, .. } => name_ok(target),
        RecordView::PTR { ptrdname, .. } => name_ok(ptrdname),
        RecordView::CAA { tag, .. } => encode_utf8(tag).len() <= 255,
        RecordView::RRSIG { signer_name, .. } => name_ok(signer_name),
        _ => true,
    }
}

/// Whether no name of a record has too many labels for its pointers to be
/// followed.
pub open spec fn record_short(r: RecordView) -> bool {
    &&& is_short(r.domain())
    &&& match r {
        RecordView::CNAME { alias, .. } => is_short(alias),
        RecordView::MX { exchange, .. } => is_short(exchange),
        RecordView::NS { nameserver, .. } => is_short(nameserver),
        RecordView::SOA { mname, rname, .. } => is_short(mname) && is_short(rname),
        RecordView::PTR { ptrdname, .. } => is_short(ptrdname),
        _ => true,
    }
}

/// Whether records of this type are read: DS and NSEC records are only written.
pub open spec fn is_modelled(r: RecordView) -> bool {
    !(r is DS) && !(r is NSEC)
}

/// What is read where a record was written.
pub open spec fn read_back(r: RecordView) -> Option<RecordView> {
    if is_modelled(r) {
        Some(r)
    } else {
        None
    }
}

/// The class field of a record.
spec fn class_of(r: RecordView) -> u16 {
    match r {
        RecordView::OPT { udp_size } => udp_size,
        _ => 1,
    }
}

/// The head of a record whose data is written at `start`.
spec fn head_of(r: RecordView, start: int, len: int) -> RecordHead {
    RecordHead {
        domain: r.domain(),
        rtype: r.rtype(),
        class: class_of(r),
        ttl: r.ttl(),
        start,
        len,
    }
}

proof fn lemma_strings(b: Seq<u8>)
    requires
        chunks_ok(b),
    ensures
        valid_utf8(b),
        read_strings(chunk_octets(b)) == Ok::<Seq<char>, DnsError>(decode_utf8(b)),
    decreases b.len(),
{
    let d = chunk_octets(b);
    if b.len() == 0 {
        assert(decode_utf8(b) =~= Seq::empty());
    } else if b.len() <= 255 {
        assert(d.subrange(1, 1 + d[0]) =~= b);
        assert(d.skip(1 + d[0]) =~= Seq::empty());
        assert(decode_utf8(b) + Seq::<char>::empty() =~= decode_utf8(b));
        assert(read_strings(Seq::<u8>::empty()) == Ok::<Seq<char>, DnsError>(Seq::empty()));
    } else {
        let x = b.take(255);
        let y = b.skip(255);
        lemma_strings(y);
        assert(d.subrange(1, 1 + d[0]) =~= x);
        assert(d.skip(1 + d[0]) =~= chunk_octets(y));
        assert(b =~= x + y);
        decode_utf8_encode_utf8(x);
        decode_utf8_encode_utf8(y);
        lemma_encode_concat(decode_utf8(x), decode_utf8(y));
        encode_utf8_valid_utf8(decode_utf8(x) + decode_utf8(y));
        encode_utf8_decode_utf8(decode_utf8(x) + decode_utf8(y));
    }
}

proof fn lemma_text(text: Seq<char>)
    requires
        chunks_ok(encode_utf8(text)),
    ensures
        read_strings(character_string_octets(text)) == Ok::<Seq<char>, DnsError>(text),
{
    if text.len() == 0 {
        let d = seq![0u8];
        assert(d.subrange(1, 1) =~= Seq::empty());
        assert(d.skip(1) =~= Seq::empty());
        assert(read_strings(Seq::<u8>::empty()) == Ok::<Seq<char>, DnsError>(Seq::empty()));
        assert(utf8_lossy(Seq::<u8>::empty()) =~= Seq::empty());
        assert(Seq::<char>::empty() + Seq::<char>::empty() =~= text);
    } else {
        lemma_strings(encode_utf8(text));
        encode_utf8_decode_utf8(text);
    }
}

/// An SOA record's data reads back.
proof fn lemma_soa(buf: Seq<u8>, r: RecordView, at: nat, names: Map<Seq<char>, u16>)
    requires
        r is SOA,
        record_ok(r),
        all_known(buf, names),
        stands(buf, at as int, rdata_octets(r, at, names).bytes),
    ensures
        all_known(buf, rdata_octets(r, at, names).names),
        outcome(
            read_soa(
                buf,
                head_of(r, at as int, rdata_octets(r, at, names).bytes.len() as int),
            ),
            Some(r),
            record_short(r),
        ),
{
    lemma_pow256_small();
    if let RecordView::SOA { mname, rname, serial, refresh, retry, expire, minimum, .. } = r {
        let m = name_octets(mname, at, names);
        let n = name_octets(rname, at + m.bytes.len(), m.names);
        let a = be_bytes(serial as nat, 4);
        let b = be_bytes(refresh as nat, 4);
        let c = be_bytes(retry as nat, 4);
        let d = be_bytes(expire as nat, 4);
        let e = be_bytes(minimum as nat, 4);
        lemma_be_bytes_len(serial as nat, 4);
        lemma_be_bytes_len(refresh as nat, 4);
        lemma_be_bytes_len(retry as nat, 4);
        lemma_be_bytes_len(expire as nat, 4);
        lemma_be_bytes_len(minimum as nat, 4);
        let p = at as int;
        lemma_stands_concat(buf, p, m.bytes + n.bytes + a + b + c + d, e);
        lemma_stands_concat(buf, p, m.bytes + n.bytes + a + b + c, d);
        lemma_stands_concat(buf, p, m.bytes + n.bytes + a + b, c);
        lemma_stands_concat(buf, p, m.bytes + n.bytes + a, b);
        lemma_stands_concat(buf, p, m.bytes + n.bytes, a);
        lemma_stands_concat(buf, p, m.bytes, n.bytes);
        lemma_name(buf, mname, at, names);
        lemma_name(buf, rname, at + m.bytes.len(), m.names);
        let q = p + m.bytes.len() + n.bytes.len();
        lemma_stands_number(buf, q, serial as nat, 4);
        lemma_stands_number(buf, q + 4, refresh as nat, 4);
        lemma_stands_number(buf, q + 8, retry as nat, 4);
        lemma_stands_number(buf, q + 12, expire as nat, 4);
        lemma_stands_number(buf, q + 16, minimum as nat, 4);
    }
}

/// An RRSIG record's data reads back.
proof fn lemma_rrsig(buf: Seq<u8>, r: RecordView, at: nat, names: Map<Seq<char>, u16>)
    requires
        r is RRSIG,
        record_ok(r),
        stands(buf, at as int, rdata_octets(r, at, names).bytes),
    ensures
        read_rrsig(buf, head_of(r, at as int, rdata_octets(r, at, names).bytes.len() as int))
            == Some(r),
{
    lemma_pow256_small();
    if let RecordView::RRSIG {
        type_covered,
        algorithm,
        labels,
        original_ttl,
        signature_expiration,
        signature_inception,
        key_tag,
        signer_name,
        signature,
        ..
    } = r {
        let a = be_bytes(type_covered as nat, 2);
        let b = seq![algorithm, labels];
        let c = be_bytes(original_ttl as nat, 4);
        let d = be_bytes(signature_expiration as nat, 4);
        let e = be_bytes(signature_inception as nat, 4);
        let f = be_bytes(key_tag as nat, 2);
        let g = plain_name_octets(signer_name);
        lemma_be_bytes_len(type_covered as nat, 2);
        lemma_be_bytes_len(original_ttl as nat, 4);
        lemma_be_bytes_len(signature_expiration as nat, 4);
        lemma_be_bytes_len(signature_inception as nat, 4);
        lemma_be_bytes_len(key_tag as nat, 2);
        let p = at as int;
        lemma_stands_concat(buf, p, a + b + c + d + e + f + g, signature);
        lemma_stands_concat(buf, p, a + b + c + d + e + f, g);
        lemma_stands_concat(buf, p, a + b + c + d + e, f);
        lemma_stands_concat(buf, p, a + b + c + d, e);
        lemma_stands_concat(buf, p, a + b + c, d);
        lemma_stands_concat(buf, p, a + b, c);
        lemma_stands_concat(buf, p, a, b);
        lemma_stands_number(buf, p, type_covered as nat, 2);
        lemma_stands_number(buf, p + 4, original_ttl as nat, 4);
        lemma_stands_number(buf, p + 8, signature_expiration as nat, 4);
        lemma_stands_number(buf, p + 12, signature_inception as nat, 4);
        lemma_stands_number(buf, p + 16, key_tag as nat, 2);
        let two = buf.subrange(p + 2, p + 4);
        assert(two[0] == buf[p + 2] && two[1] == buf[p + 3]);
        lemma_plain_name(buf, signer_name, p + 18);
    }
}

/// The data of a record reads back.
proof fn lemma_rdata(buf: Seq<u8>, r: RecordView, at: nat, names: Map<Seq<char>, u16>)
    requires
        record_ok(r),
        all_known(buf, names),
        stands(buf, at as int, rdata_octets(r, at, names).bytes),
    ensures
        all_known(buf, rdata_octets(r, at, names).names),
        outcome(
            read_rdata(
                buf,
                head_of(r, at as int, rdata_octets(r, at, names).bytes.len() as int),
            ),
            read_back(r),
            record_short(r),
        ),
{
    let e = rdata_octets(r, at, names);
    let p = at as int;
    lemma_pow256_small();
    match r {
        RecordView::A { addr, .. } => {
            lemma_be_bytes_len(addr.bits as nat, 4);
            lemma_stands_number(buf, p, addr.bits as nat, 4);
        },
        RecordView::AAAA { addr, .. } => {
            lemma_be_bytes_len(addr.bits as nat, 16);
            lemma_stands_number(buf, p, addr.bits as nat, 16);
        },
        RecordView::CNAME { alias, .. } => {
            lemma_name(buf, alias, at, names);
        },
        RecordView::MX { preference, exchange, .. } => {
            let x = be_bytes(preference as nat, 2);
            lemma_be_bytes_len(preference as nat, 2);
            lemma_stands_concat(buf, p, x, name_octets(exchange, at + 2, names).bytes);
            lemma_stands_number(buf, p, preference as nat, 2);
            lemma_name(buf, exchange, at + 2, names);
        },
        RecordView::TXT { text, .. } => {
            lemma_text(text);
        },
        RecordView::NS { nameserver, .. } => {
            lemma_name(buf, nameserver, at, names);
        },
        RecordView::SOA { .. } => {
            lemma_soa(buf, r, at, names);
        },
        RecordView::SRV { priority, weight, port, target, .. } => {
            let a = be_bytes(priority as nat, 2);
            let b = be_bytes(weight as nat, 2);
            let c = be_bytes(port as nat, 2);
            let d = plain_name_octets(target);
            lemma_be_bytes_len(priority as nat, 2);
            lemma_be_bytes_len(weight as nat, 2);
            lemma_be_bytes_len(port as nat, 2);
            lemma_stands_concat(buf, p, a + b + c, d);
            lemma_stands_concat(buf, p, a + b, c);
            lemma_stands_concat(buf, p, a, b);
            lemma_stands_number(buf, p, priority as nat, 2);
            lemma_stands_number(buf, p + 2, weight as nat, 2);
            lemma_stands_number(buf, p + 4, port as nat, 2);
            lemma_plain_name(buf, target, p + 6);
        },
        RecordView::PTR { ptrdname, .. } => {
            lemma_name(buf, ptrdname, at, names);
        },
        RecordView::CAA { flags, tag, value, .. } => {
            let a = seq![flags, short_octets(tag).len() as u8];
            let b = encode_utf8(tag);
            let c = encode_utf8(value);
            lemma_stands_concat(buf, p, a + b, c);
            lemma_stands_concat(buf, p, a, b);
            let two = buf.subrange(p, p + 2);
            assert(two[0] == buf[p] && two[1] == buf[p + 1]);
            lemma_lossy_encoded(tag);
            lemma_lossy_encoded(value);
        },
        RecordView::OPT { .. } => {},
        RecordView::DNSKEY { flags, protocol, algorithm, public_key, .. } => {
            let a = be_bytes(flags as nat, 2);
            let b = seq![protocol, algorithm];
            lemma_be_bytes_len(flags as nat, 2);
            lemma_stands_concat(buf, p, a + b, public_key);
            lemma_stands_concat(buf, p, a, b);
            lemma_stands_number(buf, p, flags as nat, 2);
            let two = buf.subrange(p + 2, p + 4);
            assert(two[0] == buf[p + 2] && two[1] == buf[p + 3]);
        },
        RecordView::RRSIG { .. } => {
            lemma_rrsig(buf, r, at, names);
        },
        RecordView::DS { .. } => {},
        RecordView::NSEC { .. } => {},
    }
}

/// The length of the data of a record that is written at `at`.
pub open spec fn data_len(r: RecordView, at: nat, names: Map<Seq<char>, u16>) -> nat {
    let owner = name_octets(r.domain(), at, names);
    rdata_octets(r, at + owner.bytes.len() + 10, owner.names).bytes.len()
}

/// A record reads back.
proof fn lemma_record(buf: Seq<u8>, r: RecordView, at: nat, names: Map<Seq<char>, u16>)
    requires
        record_ok(r),
        all_known(buf, names),
        data_len(r, at, names) <= 0xFFFF,
        stands(buf, at as int, record_octets(r, at, names).bytes),
    ensures
        ({
            let e = record_octets(r, at, names);
            &&& all_known(buf, e.names)
            &&& outcome(
                read_record(buf, at as int),
                (read_back(r), (at + e.bytes.len()) as int),
                record_short(r),
            )
        }),
{
    lemma_pow256_small();
    let owner = name_octets(r.domain(), at, names);
    let start = at + owner.bytes.len() + 10;
    let data = rdata_octets(r, start, owner.names);
    let n = data.bytes.len();
    let x = be_bytes(r.rtype() as nat, 2);
    let y = be_bytes(class_of(r) as nat, 2);
    let z = be_bytes(r.ttl() as nat, 4);
    let p = at as int;
    let q = p + owner.bytes.len();
    lemma_fixed_len(r);
    lemma_be_bytes_len(n, 2);
    lemma_be_bytes_len(r.rtype() as nat, 2);
    lemma_be_bytes_len(class_of(r) as nat, 2);
    lemma_be_bytes_len(r.ttl() as nat, 4);
    lemma_stands_concat(buf, p, owner.bytes + fixed_octets(r) + be_bytes(n, 2), data.bytes);
    lemma_stands_concat(buf, p, owner.bytes + fixed_octets(r), be_bytes(n, 2));
    lemma_stands_concat(buf, p, owner.bytes, fixed_octets(r));
    assert(fixed_octets(r) == x + y + z);
    lemma_stands_concat(buf, q, x + y, z);
    lemma_stands_concat(buf, q, x, y);
    lemma_stands_number(buf, q, r.rtype() as nat, 2);
    lemma_stands_number(buf, q + 2, class_of(r) as nat, 2);
    lemma_stands_number(buf, q + 4, r.ttl() as nat, 4);
    lemma_stands_number(buf, q + 8, n, 2);
    lemma_name(buf, r.domain(), at, names);
    lemma_rdata(buf, r, start, owner.names);
}

/// Whether the data of every record, as it is written, has a length that fits in
/// 16 bits.
pub open spec fn data_fits(rs: Seq<RecordView>, at: nat, names: Map<Seq<char>, u16>) -> bool
    decreases rs.len(),
{
    if rs.len() == 0 {
        true
    } else {
        let e = records_octets(rs.drop_last(), at, names);
        data_fits(rs.drop_last(), at, names) && data_len(rs.last(), at + e.bytes.len(), e.names)
            <= 0xFFFF
    }
}

/// The records of a section that are read back.
pub open spec fn modelled(rs: Seq<RecordView>) -> Seq<RecordView>
    decreases rs.len(),
{
    if rs.len() == 0 {
        Seq::empty()
    } else if is_modelled(rs.last()) {
        modelled(rs.drop_last()).push(rs.last())
    } else {
        modelled(rs.drop_last())
    }
}

/// Whether every record of a section can be written without loss.
pub open spec fn records_ok(rs: Seq<RecordView>) -> bool {
    forall|i: int| 0 <= i < rs.len() ==> record_ok(#[trigger] rs[i])
}

/// Whether every record of a section has names short enough for their pointers.
pub open spec fn records_short(rs: Seq<RecordView>) -> bool {
    forall|i: int| 0 <= i < rs.len() ==> record_short(#[trigger] rs[i])
}

/// A section reads back.
proof fn lemma_records(buf: Seq<u8>, rs: Seq<RecordView>, at: nat, names: Map<Seq<char>, u16>)
    requires
        records_ok(rs),
        all_known(buf, names),
        data_fits(rs, at, names),
        stands(buf, at as int, records_octets(rs, at, names).bytes),
    ensures
        ({
            let e = records_octets(rs, at, names);
            &&& all_known(buf, e.names)
            &&& outcome(
                read_section(buf, at as int, rs.len()),
                (modelled(rs), (at + e.bytes.len()) as int),
                records_short(rs),
            )
        }),
    decreases rs.len(),
{
    if rs.len() > 0 {
        let init = rs.drop_last();
        let e = records_octets(init, at, names);
        let r = record_octets(rs.last(), at + e.bytes.len(), e.names);
        lemma_stands_concat(buf, at as int, e.bytes, r.bytes);
        assert(records_ok(init)) by {
            assert forall|i: int| 0 <= i < init.len() implies record_ok(#[trigger] init[i]) by {
                assert(record_ok(rs[i]));
            }
        }
        assert(record_ok(rs[rs.len() - 1]));
        lemma_records(buf, init, at, names);
        lemma_record(buf, rs.last(), at + e.bytes.len(), e.names);
        if records_short(rs) {
            assert forall|i: int| 0 <= i < init.len() implies record_short(#[trigger] init[i]) by {
                assert(record_short(rs[i]));
            }
            assert(record_short(rs[rs.len() - 1]));
        }
    }
}

/// Whether every name that is asked for can be written without loss.
pub open spec fn questions_ok(qs: Seq<QuestionView>) -> bool {
    forall|i: int| 0 <= i < qs.len() ==> name_ok((#[trigger] qs[i]).qname)
}

/// Whether every name that is asked for is short enough for its pointers.
pub open spec fn questions_short(qs: Seq<QuestionView>) -> bool {
    forall|i: int| 0 <= i < qs.len() ==> is_short((#[trigger] qs[i]).qname)
}

/// The questions read back.
proof fn lemma_questions(buf: Seq<u8>, qs: Seq<QuestionView>, at: nat, names: Map<Seq<char>, u16>)
    requires
        questions_ok(qs),
        all_known(buf, names),
        stands(buf, at as int, questions_octets(qs, at, names).bytes),
    ensures
        ({
            let e = questions_octets(qs, at, names);
            &&& all_known(buf, e.names)
            &&& outcome(
                read_questions(buf, at as int, qs.len()),
                (qs, (at + e.bytes.len()) as int),
                questions_short(qs),
            )
        }),
    decreases qs.len(),
{
    lemma_pow256_small();
    if qs.len() > 0 {
        let init = qs.drop_last();
        let last = qs.last();
        let e = questions_octets(init, at, names);
        let here = at + e.bytes.len();
        let n = name_octets(last.qname, here, e.names);
        let q = question_octets(last, here, e.names);
        let x = be_bytes(last.qtype as nat, 2);
        let y = be_bytes(last.qclass as nat, 2);
        lemma_be_bytes_len(last.qtype as nat, 2);
        lemma_be_bytes_len(last.qclass as nat, 2);
        lemma_stands_concat(buf, at as int, e.bytes, q.bytes);
        lemma_stands_concat(buf, here as int, n.bytes + x, y);
        lemma_stands_concat(buf, here as int, n.bytes, x);
        assert(questions_ok(init)) by {
            assert forall|i: int| 0 <= i < init.len() implies name_ok(
                (#[trigger] init[i]).qname,
            ) by {
                assert(name_ok(qs[i].qname));
            }
        }
        assert(name_ok(qs[qs.len() - 1].qname));
        lemma_questions(buf, init, at, names);
        lemma_name(buf, last.qname, here, e.names);
        lemma_stands_number(buf, here + n.bytes.len() as int, last.qtype as nat, 2);
        lemma_stands_number(buf, here + n.bytes.len() + 2int, last.qclass as nat, 2);
        if questions_short(qs) {
            assert forall|i: int| 0 <= i < init.len() implies is_short(
                (#[trigger] init[i]).qname,
            ) by {
                assert(is_short(qs[i].qname));
            }
            assert(is_short(qs[qs.len() - 1].qname));
        }
        assert(init.push(last) =~= qs);
    } else {
        assert(qs =~= Seq::empty());
    }
}

/// Whether a message can be written without loss: the lengths of its sections and of
/// the data of every record fit in 16 bits, and every name and text can be written
/// whole. What the header counts does not matter.
pub open spec fn message_ok(p: PacketView) -> bool {
    let q = questions_octets(p.questions, 12, Map::empty());
    let at = 12 + q.bytes.len();
    let a = records_octets(p.answers, at, q.names);
    let b = records_octets(p.authorities, at + a.bytes.len(), a.names);
    &&& p.questions.len() <= 0xFFFF
    &&& p.answers.len() <= 0xFFFF
    &&& p.authorities.len() <= 0xFFFF
    &&& p.additionals.len() <= 0xFFFF
    &&& questions_ok(p.questions)
    &&& records_ok(p.answers)
    &&& records_ok(p.authorities)
    &&& records_ok(p.additionals)
    &&& data_fits(p.answers, at, q.names)
    &&& data_fits(p.authorities, at + a.bytes.len(), a.names)
    &&& data_fits(p.additionals, at + a.bytes.len() + b.bytes.len(), b.names)
}

/// Whether no name of a message has more labels than pointers are followed.
pub open spec fn message_short(p: PacketView) -> bool {
    &&& questions_short(p.questions)
    &&& records_short(p.answers)
    &&& records_short(p.authorities)
    &&& records_short(p.additionals)
}

/// The header of a message, with the counts of what its sections hold.
pub open spec fn counted_header(p: PacketView) -> DnsHeader {
    DnsHeader {
        id: p.header.id,
        flags: p.header.flags,
        questions: p.questions.len() as u16,
        answers: p.answers.len() as u16,
        authorities: p.authorities.len() as u16,
        additionals: p.additionals.len() as u16,
    }
}

/// A message without the records that are only written, and with the counts of all.
pub open spec fn read_back_message(p: PacketView) -> PacketView {
    PacketView {
        header: counted_header(p),
        questions: p.questions,
        answers: modelled(p.answers),
        authorities: modelled(p.authorities),
        additionals: modelled(p.additionals),
    }
}

/// Decoding an encoded message gives the message back: its ID and flags, the counts
/// of its sections, every question, and every record of a type that is read, in its
/// place. The one
/// other outcome is that a name of more than 64 labels, written as a chain of
/// pointers, is refused as a possible loop.
pub proof fn law_round_trip(p: PacketView)
    requires
        message_ok(p),
    ensures
        outcome(read_message(message_octets(p)), read_back_message(p), message_short(p)),
{
    let buf = message_octets(p);
    let q = questions_octets(p.questions, 12, Map::empty());
    let at = 12 + q.bytes.len();
    let a = records_octets(p.answers, at, q.names);
    let b = records_octets(p.authorities, at + a.bytes.len(), a.names);
    lemma_layout(p);
    lemma_header(buf, p);
    lemma_questions(buf, p.questions, 12, Map::empty());
    lemma_records(buf, p.answers, at, q.names);
    lemma_records(buf, p.authorities, at + a.bytes.len(), a.names);
    lemma_records(buf, p.additionals, at + a.bytes.len() + b.bytes.len(), b.names);
}

/// Answers of types that are read, such as DNSKEY records and their signatures, read
/// back as they are.
pub proof fn law_answers_back(p: PacketView)
    requires
        message_ok(p),
        message_short(p),
        forall|i: int| 0 <= i < p.answers.len() ==> is_modelled(#[trigger] p.answers[i]),
    ensures
        read_message(message_octets(p)) matches Ok(q) && q.answers == p.answers,
{
    let r = read_message(message_octets(p));
    assert(outcome(r, read_back_message(p), true)) by {
        law_round_trip(p);
    }
    assert(modelled(p.answers) == p.answers) by {
        lemma_modelled_all(p.answers);
    }
}

proof fn lemma_modelled_all(rs: Seq<RecordView>)
    requires
        forall|i: int| 0 <= i < rs.len() ==> is_modelled(#[trigger] rs[i]),
    ensures
        modelled(rs) == rs,
    decreases rs.len(),
{
    if rs.len() > 0 {
        let init = rs.drop_last();
        assert forall|i: int| 0 <= i < init.len() implies is_modelled(#[trigger] init[i]) by {
            assert(init[i] == rs[i]);
        }
        lemma_modelled_all(init);
        assert(is_modelled(rs[rs.len() - 1]));
        assert(init.push(rs.last()) =~= rs);
    }
}

/// Where the parts of a message stand in it.
proof fn lemma_layout(p: PacketView)
    ensures
        ({
            let buf = message_octets(p);
            let q = questions_octets(p.questions, 12, Map::empty());
            let at = 12 + q.bytes.len();
            let a = records_octets(p.answers, at, q.names);
            let b = records_octets(p.authorities, at + a.bytes.len(), a.names);
            let c = records_octets(p.additionals, at + a.bytes.len() + b.bytes.len(), b.names);
            &&& buf.len() >= 12
            &&& stands(buf, 0, header_octets(p))
            &&& stands(buf, 12, q.bytes)
            &&& stands(buf, at as int, a.bytes)
            &&& stands(buf, at as int + a.bytes.len(), b.bytes)
            &&& stands(buf, at as int + a.bytes.len() + b.bytes.len(), c.bytes)
            &&& all_known(buf, Map::empty())
        }),
{
    lemma_header_len(p);
    let buf = message_octets(p);
    let h = header_octets(p);
    let q = questions_octets(p.questions, 12, Map::empty());
    let at = 12 + q.bytes.len();
    let a = records_octets(p.answers, at, q.names);
    let b = records_octets(p.authorities, at + a.bytes.len(), a.names);
    let c = records_octets(p.additionals, at + a.bytes.len() + b.bytes.len(), b.names);
    let rest = sections_octets(p, at, q.names).bytes;
    assert(buf.subrange(0, buf.len() as int) =~= buf);
    assert(stands(buf, 0, h + q.bytes + rest));
    lemma_stands_concat(buf, 0, h + q.bytes, rest);
    lemma_stands_concat(buf, 0, h, q.bytes);
    lemma_stands_concat(buf, at as int, a.bytes + b.bytes, c.bytes);
    lemma_stands_concat(buf, at as int, a.bytes, b.bytes);
}

/// The header reads back.
proof fn lemma_header(buf: Seq<u8>, p: PacketView)
    requires
        stands(buf, 0, header_octets(p)),
        p.questions.len() <= 0xFFFF,
        p.answers.len() <= 0xFFFF,
        p.authorities.len() <= 0xFFFF,
        p.additionals.len() <= 0xFFFF,
    ensures
        read_header(buf) == counted_header(p),
{
    lemma_pow256_small();
    let a = be_bytes(p.header.id as nat, 2);
    let b = be_bytes(p.header.flags as nat, 2);
    let c = be_bytes(p.questions.len(), 2);
    let d = be_bytes(p.answers.len(), 2);
    let e = be_bytes(p.authorities.len(), 2);
    let f = be_bytes(p.additionals.len(), 2);
    lemma_be_bytes_len(p.header.id as nat, 2);
    lemma_be_bytes_len(p.header.flags as nat, 2);
    lemma_be_bytes_len(p.questions.len(), 2);
    lemma_be_bytes_len(p.answers.len(), 2);
    lemma_be_bytes_len(p.authorities.len(), 2);
    lemma_be_bytes_len(p.additionals.len(), 2);
    lemma_stands_concat(buf, 0, a + b + c + d + e, f);
    lemma_stands_concat(buf, 0, a + b + c + d, e);
    lemma_stands_concat(buf, 0, a + b + c, d);
    lemma_stands_concat(buf, 0, a + b, c);
    lemma_stands_concat(buf, 0, a, b);
    lemma_stands_number(buf, 0, p.header.id as nat, 2);
    lemma_stands_number(buf, 2, p.header.flags as nat, 2);
    lemma_stands_number(buf, 4, p.questions.len(), 2);
    lemma_stands_number(buf, 6, p.answers.len(), 2);
    lemma_stands_number(buf, 8, p.authorities.len(), 2);
    lemma_stands_number(buf, 10, p.additionals.len(), 2);
}

/// What is read back of records is all of them but the DS and NSEC records, in order.
pub proof fn law_modelled(rs: Seq<RecordView>)
    ensures
        modelled(rs) == rs.filter(|r: RecordView| !(r is DS) && !(r is NSEC)),
    decreases rs.len(),
{
    reveal(Seq::filter);
    if rs.len() > 0 {
        law_modelled(rs.drop_last());
    }
}

/// A message without DS and NSEC records is read back whole: its ID, flags and questions,
/// and all records of all sections, in their places.
pub proof fn law_message_back(p: PacketView)
    requires
        message_ok(p),
        message_short(p),
        forall|i: int| 0 <= i < p.answers.len() ==> is_modelled(#[trigger] p.answers[i]),
        forall|i: int| 0 <= i < p.authorities.len() ==> is_modelled(#[trigger] p.authorities[i]),
        forall|i: int| 0 <= i < p.additionals.len() ==> is_modelled(#[trigger] p.additionals[i]),
    ensures
        read_message(message_octets(p)) matches Ok(q) && {
            &&& q.questions == p.questions
            &&& q.answers == p.answers
            &&& q.authorities == p.authorities
            &&& q.additionals == p.additionals
            &&& q.header.id == p.header.id
            &&& q.header.flags == p.header.flags
            &&& q.header.questions == p.questions.len()
            &&& q.header.answers == p.answers.len()
            &&& q.header.authorities == p.authorities.len()
            &&& q.header.additionals == p.additionals.len()
        },
{
    let r = read_message(message_octets(p));
    assert(outcome(r, read_back_message(p), true)) by {
        law_round_trip(p);
    }
    assert(modelled(p.answers) == p.answers) by {
        lemma_modelled_all(p.answers);
    }
    assert(modelled(p.authorities) == p.authorities) by {
        lemma_modelled_all(p.authorities);
    }
    assert(modelled(p.additionals) == p.additionals) by {
        lemma_modelled_all(p.additionals);
    }
}

} // verus!
