//! Zone resolution: turning a parsed query into a response.
//!
//! This is the authoritative lookup: wildcard matching, CNAME chasing, the
//! choice between an answer, NODATA and NXDOMAIN, and the EDNS echo.

use crate::bytes::low16;
use crate::dns::header::DnsHeader;
use crate::dns::packet::{
    clamp_udp_size, edns_size, granted_size, DnsPacket, PacketView,
};
use crate::dns::question::clone_questions;
use crate::dns::record::{record_views, DnsRecord, RecordView};
use crate::text::{lowercase, to_lowercase};
use crate::zone::Authority;
use vstd::hash_set::StringHashSet;
use vstd::prelude::*;

verus! {

/// The maximum number of CNAME records followed when resolving a query,
/// guarding against accidental or malicious CNAME loops.
pub const MAX_CNAME_CHAIN: usize = 16;

/// The records of a type, under the given owner name.
pub open spec fn of_type(rs: Seq<RecordView>, qtype: u16, name: Seq<char>) -> Seq<RecordView>
    decreases rs.len(),
{
    if rs.len() == 0 {
        Seq::empty()
    } else if rs.last().rtype() == qtype {
        of_type(rs.drop_last(), qtype, name).push(rs.last().with_domain(name))
    } else {
        of_type(rs.drop_last(), qtype, name)
    }
}

/// The first CNAME record of a list.
pub open spec fn first_cname(rs: Seq<RecordView>) -> Option<RecordView>
    decreases rs.len(),
{
    if rs.len() == 0 {
        None
    } else if rs[0] is CNAME {
        Some(rs[0])
    } else {
        first_cname(rs.drop_first())
    }
}

/// The answers for a name and type. Where the name has records of the type, they
/// are the answers. Otherwise its CNAME record is an answer, followed by those for
/// the alias, unless the alias was met before or `left` names have been tried.
pub open spec fn answers_for<A: Authority>(
    zone: &A,
    name: Seq<char>,
    qtype: u16,
    seen: Set<Seq<char>>,
    left: nat,
) -> Seq<RecordView>
    decreases left,
{
    if left == 0 || seen.contains(name) {
        Seq::empty()
    } else {
        match zone.answer(name) {
            None => Seq::empty(),
            Some(rs) => {
                let direct = of_type(rs, qtype, name);
                if direct.len() > 0 {
                    direct
                } else {
                    match first_cname(rs) {
                        Some(RecordView::CNAME { alias, ttl, .. }) => seq![
                            RecordView::CNAME { domain: name, alias, ttl },
                        ] + answers_for(
                            zone,
                            lowercase(alias),
                            qtype,
                            seen.insert(name),
                            (left - 1) as nat,
                        ),
                        _ => Seq::empty(),
                    }
                }
            },
        }
    }
}

/// The answers to a question.
pub open spec fn answers_to<A: Authority>(
    zone: &A,
    name: Seq<char>,
    qtype: u16,
) -> Seq<RecordView> {
    answers_for(zone, name, qtype, Set::empty(), MAX_CNAME_CHAIN as nat)
}

/// The additional section of a response: an OPT record with the size that is
/// granted, if the client sent one.
pub open spec fn edns_echo(request: PacketView) -> Seq<RecordView> {
    match edns_size(request.additionals) {
        Some(size) => seq![RecordView::OPT { udp_size: granted_size(size) }],
        None => Seq::empty(),
    }
}

/// The response to a request.
///
/// QR is set, RD is as the client sent it, and RA is clear. AA is set where the
/// name asked for exists; where it does not, the response code is NXDOMAIN and
/// the authority section holds the SOA record of the zone, if it has one.
pub open spec fn response_to<A: Authority>(request: PacketView, zone: &A) -> PacketView {
    let base = 0x8000u16 | (request.header.flags & 0x0100);
    let asked = request.questions.len() > 0;
    let name = lowercase(request.questions[0].qname);
    let exists = asked && zone.answer(name) is Some;
    let answers = if asked {
        answers_to(zone, name, request.questions[0].qtype)
    } else {
        Seq::empty()
    };
    let authorities = if asked && !exists && zone.denial(name) is Some {
        seq![zone.denial(name)->0]
    } else {
        Seq::empty()
    };
    let additionals = edns_echo(request);
    PacketView {
        header: DnsHeader {
            id: request.header.id,
            flags: if exists {
                base | 0x0400
            } else if asked {
                base | 3
            } else {
                base
            },
            questions: (request.questions.len() % 0x1_0000) as u16,
            answers: (answers.len() % 0x1_0000) as u16,
            authorities: authorities.len() as u16,
            additionals: additionals.len() as u16,
        },
        questions: request.questions,
        answers,
        authorities,
        additionals,
    }
}

/// Collects the records of a type, under the given owner name.
fn collect_of_type(records: &Vec<DnsRecord>, qtype: u16, name: &String) -> (r: Vec<DnsRecord>)
    ensures
        record_views(r@) == of_type(record_views(records@), qtype, name@),
{
    let ghost rs = record_views(records@);
    let mut out: Vec<DnsRecord> = Vec::new();
    let mut i: usize = 0;
    proof {
        assert(rs.take(0) =~= Seq::empty());
        assert(record_views(out@) =~= Seq::empty());
    }
    while i < records.len()
        invariant
            i <= records@.len(),
            rs == record_views(records@),
            record_views(out@) == of_type(rs.take(i as int), qtype, name@),
        decreases records@.len() - i,
    {
        let ghost had = out@;
        proof {
            assert(rs.take(i + 1).drop_last() =~= rs.take(i as int));
            assert(rs.take(i + 1).last() == records@[i as int]@);
        }
        if records[i].record_type() == qtype {
            out.push(records[i].with_domain(name.clone()));
            proof {
                assert(record_views(out@) =~= record_views(had).push(out@.last()@));
            }
        }
        i = i + 1;
    }
    assert(rs.take(i as int) =~= rs);
    out
}

/// Finds the first CNAME record: its alias and TTL.
fn find_cname(records: &Vec<DnsRecord>) -> (r: Option<(&String, u32)>)
    ensures
        match r {
            Some((a, t)) => first_cname(record_views(records@)) matches Some(
                RecordView::CNAME { alias, ttl, .. },
            ) && alias == a@ && ttl == t,
            None => first_cname(record_views(records@)) is None,
        },
{
    let ghost rs = record_views(records@);
    let mut i: usize = 0;
    proof {
        assert(rs.skip(0) =~= rs);
    }
    while i < records.len()
        invariant
            i <= records@.len(),
            rs == record_views(records@),
            first_cname(rs) == first_cname(rs.skip(i as int)),
        decreases records@.len() - i,
    {
        proof {
            assert(rs.skip(i as int)[0] == records@[i as int]@);
            assert(rs.skip(i as int).drop_first() =~= rs.skip(i + 1));
        }
        if let DnsRecord::CNAME { alias, ttl, .. } = &records[i] {
            return Some((alias, *ttl));
        }
        i = i + 1;
    }
    None
}

/// Collects the answers for a name and type, following CNAME records.
fn resolve_chain<A: Authority>(zone: &A, name: String, qtype: u16) -> (r: Vec<DnsRecord>)
    ensures
        record_views(r@) == answers_to(zone, name@, qtype),
{
    let ghost start = name@;
    let mut name = name;
    let mut answers: Vec<DnsRecord> = Vec::new();
    let mut seen = StringHashSet::new();
    let mut left: usize = MAX_CNAME_CHAIN;
    proof {
        assert(record_views(answers@) =~= Seq::empty());
        assert(Seq::<RecordView>::empty() + answers_to(zone, start, qtype) =~= answers_to(
            zone,
            start,
            qtype,
        ));
    }
    while left > 0
        invariant_except_break
            answers_to(zone, start, qtype) == record_views(answers@) + answers_for(
                zone,
                name@,
                qtype,
                seen@,
                left as nat,
            ),
        ensures
            answers_to(zone, start, qtype) == record_views(answers@),
        decreases left,
    {
        let ghost had = answers@;
        let ghost rest = answers_for(zone, name@, qtype, seen@, left as nat);
        proof {
            assert(record_views(had) + Seq::<RecordView>::empty() =~= record_views(had));
        }
        if seen.contains(name.as_str()) {
            break ;  // CNAME loop detected
        }
        seen.insert(name.clone());
        match zone.lookup(name.as_str()) {
            None => {
                break ;
            },
            Some(records) => {
                // Direct records of the requested type answer the query.
                let mut direct = collect_of_type(records, qtype, &name);
                if direct.len() > 0 {
                    let ghost found = direct@;
                    answers.append(&mut direct);
                    proof {
                        assert(record_views(answers@) =~= record_views(had) + record_views(found));
                    }
                    break ;
                }
                assert(record_views(direct@).len() == 0);
                match find_cname(records) {
                    Some((alias, ttl)) => {
                        let next = to_lowercase(alias.as_str());
                        answers.push(DnsRecord::CNAME { domain: name, alias: alias.clone(), ttl });
                        proof {
                            assert(record_views(answers@) =~= record_views(had).push(
                                answers@.last()@,
                            ));
                            assert(record_views(had) + rest =~= record_views(answers@)
                                + answers_for(zone, next@, qtype, seen@, (left - 1) as nat));
                        }
                        name = next;
                    },
                    None => {
                        break ;  // name exists, but no matching type and no CNAME: NODATA
                    },
                }
            },
        }
        left = left - 1;
    }
    proof {
        assert(record_views(answers@) + Seq::<RecordView>::empty() =~= record_views(answers@));
    }
    answers
}

/// Builds a response packet for `request` against `zone`.
///
/// Resolution honours the question type, supports `*` wildcard records, and
/// follows CNAME chains within the zone (appending each CNAME and the final
/// target's records). The AA bit is set when the server is authoritative for
/// the name, and NXDOMAIN is returned when the original name does not exist.
pub fn build_response<A: Authority>(request: &DnsPacket, zone: &A) -> (r: DnsPacket)
    ensures
        r@ == response_to(request@, zone),
{
    let mut answers: Vec<DnsRecord> = Vec::new();
    let mut authorities: Vec<DnsRecord> = Vec::new();
    // QR=1 (response). Preserve the client's RD bit; RA stays 0 because this
    // lookup does not perform recursion.
    let mut flags: u16 = 0x8000 | (request.header.flags & 0x0100);
    if request.questions.len() > 0 {
        let question = &request.questions[0];
        // DNS names are case-insensitive, so match against a normalized key.
        let name = to_lowercase(question.qname.as_str());
        match zone.lookup(name.as_str()) {
            Some(_) => {
                flags = flags | 0x0400;  // AA
            },
            None => {
                flags = flags | 3;  // NXDOMAIN
                if let Some(soa) = zone.denial_soa(name.as_str()) {
                    authorities.push(soa);
                }
            },
        }
        answers = resolve_chain(zone, name, question.qtype);
    }
    // EDNS(0): if the client sent an OPT record, echo one back advertising
    // the negotiated UDP payload size (also used as the truncation limit).
    let mut additionals: Vec<DnsRecord> = Vec::new();
    if let Some(client_size) = request.edns_udp_size() {
        additionals.push(DnsRecord::OPT { udp_size: clamp_udp_size(client_size) });
    }
    let r = DnsPacket {
        header: DnsHeader {
            id: request.header.id,
            flags,
            questions: low16(request.questions.len()),
            answers: low16(answers.len()),
            authorities: low16(authorities.len()),
            additionals: low16(additionals.len()),
        },
        questions: clone_questions(&request.questions),
        answers,
        authorities,
        additionals,
    };
    proof {
        let v = response_to(request@, zone);
        assert(r@.answers =~= v.answers);
        assert(r@.authorities =~= v.authorities);
        assert(r@.additionals =~= v.additionals);
        assert(r@.answers.len() == r.answers@.len());
    }
    r
}

impl DnsPacket {
    /// Builds a response packet for the current query.
    pub fn build_response<A: Authority>(&self, zone: &A) -> (r: DnsPacket)
        ensures
            r@ == response_to(self@, zone),
    {
        build_response(self, zone)
    }
}

/// The header of a response: the client's transaction ID and RD bit, QR set, TC and
/// RA clear. AA is set where the name exists; where it does not, the code is
/// NXDOMAIN, and there are no answers.
pub proof fn law_response_header<A: Authority>(request: PacketView, zone: &A)
    ensures
        ({
            let r = response_to(request, zone);
            let f = r.header.flags;
            let asked = request.questions.len() > 0;
            let exists = asked && zone.answer(lowercase(request.questions[0].qname)) is Some;
            &&& r.header.id == request.header.id
            &&& r.questions == request.questions
            &&& f & 0x8000 != 0
            &&& f & 0x0100 == request.header.flags & 0x0100
            &&& f & 0x0200 == 0
            &&& f & 0x0080 == 0
            &&& (f & 0x0400 != 0 <==> exists)
            &&& f & 0x000F == (if asked && !exists {
                3
            } else {
                0int
            })
            &&& !exists ==> r.answers.len() == 0
        }),
{
    let g = request.header.flags;
    assert({
        let f = 0x8000u16 | (g & 0x0100);
        &&& f & 0x8000 != 0
        &&& f & 0x0100 == g & 0x0100
        &&& f & 0x0200 == 0
        &&& f & 0x0080 == 0
        &&& f & 0x0400 == 0
        &&& f & 0x000F == 0
    }) by (bit_vector);
    assert({
        let f = 0x8000u16 | (g & 0x0100) | 0x0400;
        &&& f & 0x8000 != 0
        &&& f & 0x0100 == g & 0x0100
        &&& f & 0x0200 == 0
        &&& f & 0x0080 == 0
        &&& f & 0x0400 != 0
        &&& f & 0x000F == 0
    }) by (bit_vector);
    assert({
        let f = 0x8000u16 | (g & 0x0100) | 3;
        &&& f & 0x8000 != 0
        &&& f & 0x0100 == g & 0x0100
        &&& f & 0x0200 == 0
        &&& f & 0x0080 == 0
        &&& f & 0x0400 == 0
        &&& f & 0x000F == 3
    }) by (bit_vector);
}

/// Every answer is of the type asked for, or a CNAME record on the way to it, and
/// the first one is for the name asked for.
pub proof fn law_answers<A: Authority>(zone: &A, name: Seq<char>, qtype: u16)
    ensures
        forall|i: int|
            0 <= i < answers_to(zone, name, qtype).len() ==> {
                ||| (#[trigger] answers_to(zone, name, qtype)[i]).rtype() == qtype
                ||| answers_to(zone, name, qtype)[i] is CNAME
            },
        answers_to(zone, name, qtype).len() > 0 && qtype != DnsRecord::TYPE_OPT ==> answers_to(
            zone,
            name,
            qtype,
        )[0].domain() == name,
{
    lemma_answers(zone, name, qtype, Set::empty(), MAX_CNAME_CHAIN as nat);
}

/// Following CNAME records never visits a name twice: unless CNAME records were
/// asked for, no two of those in the answer have the same owner, even where they
/// form a loop.
pub proof fn law_no_alias_twice<A: Authority>(zone: &A, name: Seq<char>, qtype: u16)
    requires
        qtype != DnsRecord::TYPE_CNAME,
    ensures
        forall|i: int, j: int|
            0 <= i < j < answers_to(zone, name, qtype).len() && answers_to(zone, name, qtype)[i]
                is CNAME && answers_to(zone, name, qtype)[j] is CNAME ==> (
            #[trigger] answers_to(zone, name, qtype)[i]).domain() != (
            #[trigger] answers_to(zone, name, qtype)[j]).domain(),
{
    lemma_aliases(zone, name, qtype, Set::empty(), MAX_CNAME_CHAIN as nat);
}

proof fn lemma_of_type(rs: Seq<RecordView>, qtype: u16, name: Seq<char>)
    ensures
        forall|i: int|
            0 <= i < of_type(rs, qtype, name).len() ==> {
                &&& (#[trigger] of_type(rs, qtype, name)[i]).rtype() == qtype
                &&& qtype != DnsRecord::TYPE_OPT ==> of_type(rs, qtype, name)[i].domain() == name
            },
    decreases rs.len(),
{
    if rs.len() > 0 {
        let before = of_type(rs.drop_last(), qtype, name);
        let all = of_type(rs, qtype, name);
        lemma_of_type(rs.drop_last(), qtype, name);
        assert forall|i: int| 0 <= i < all.len() implies {
            &&& (#[trigger] all[i]).rtype() == qtype
            &&& qtype != DnsRecord::TYPE_OPT ==> all[i].domain() == name
        } by {
            if i < before.len() {
                assert(all[i] == before[i]);
            } else {
                assert(all[i] == rs.last().with_domain(name));
            }
        }
    }
}

proof fn lemma_answers<A: Authority>(
    zone: &A,
    name: Seq<char>,
    qtype: u16,
    seen: Set<Seq<char>>,
    left: nat,
)
    ensures
        forall|i: int|
            0 <= i < answers_for(zone, name, qtype, seen, left).len() ==> {
                ||| (#[trigger] answers_for(zone, name, qtype, seen, left)[i]).rtype() == qtype
                ||| answers_for(zone, name, qtype, seen, left)[i] is CNAME
            },
        answers_for(zone, name, qtype, seen, left).len() > 0 && qtype != DnsRecord::TYPE_OPT
            ==> answers_for(zone, name, qtype, seen, left)[0].domain() == name,
    decreases left,
{
    if left > 0 && !seen.contains(name) {
        if let Some(rs) = zone.answer(name) {
            lemma_of_type(rs, qtype, name);
            if let Some(RecordView::CNAME { alias, ttl, .. }) = first_cname(rs) {
                let more = seen.insert(name);
                lemma_answers(zone, lowercase(alias), qtype, more, (left - 1) as nat);
            }
        }
    }
}

proof fn lemma_aliases<A: Authority>(
    zone: &A,
    name: Seq<char>,
    qtype: u16,
    seen: Set<Seq<char>>,
    left: nat,
)
    requires
        qtype != DnsRecord::TYPE_CNAME,
    ensures
        forall|i: int|
            0 <= i < answers_for(zone, name, qtype, seen, left).len() && (
            #[trigger] answers_for(zone, name, qtype, seen, left)[i]) is CNAME ==> !seen.contains(
                answers_for(zone, name, qtype, seen, left)[i].domain(),
            ),
        forall|i: int, j: int|
            0 <= i < j < answers_for(zone, name, qtype, seen, left).len() && answers_for(
                zone,
                name,
                qtype,
                seen,
                left,
            )[i] is CNAME && answers_for(zone, name, qtype, seen, left)[j] is CNAME ==> (
            #[trigger] answers_for(zone, name, qtype, seen, left)[i]).domain() != (
            #[trigger] answers_for(zone, name, qtype, seen, left)[j]).domain(),
    decreases left,
{
    if left > 0 && !seen.contains(name) {
        if let Some(rs) = zone.answer(name) {
            lemma_of_type(rs, qtype, name);
            if let Some(RecordView::CNAME { alias, ttl, .. }) = first_cname(rs) {
                let more = seen.insert(name);
                let tail = answers_for(zone, lowercase(alias), qtype, more, (left - 1) as nat);
                lemma_aliases(zone, lowercase(alias), qtype, more, (left - 1) as nat);
                let all = answers_for(zone, name, qtype, seen, left);
                if of_type(rs, qtype, name).len() == 0 {
                    assert forall|i: int| 1 <= i < all.len() implies all[i] == tail[i - 1] by {}
                    assert forall|i: int, j: int|
                        0 <= i < j < all.len() && all[i] is CNAME && all[j] is CNAME implies (
                    #[trigger] all[i]).domain() != (#[trigger] all[j]).domain() by {
                        assert(all[j] == tail[j - 1]);
                        if i > 0 {
                            assert(all[i] == tail[i - 1]);
                        } else {
                            assert(!more.contains(tail[j - 1].domain()));
                        }
                    }
                }
            }
        }
    }
}

/// The records of a type under an owner name are just those of the list that have the
/// type, in order, with that owner.
pub proof fn law_of_type(rs: Seq<RecordView>, qtype: u16, name: Seq<char>)
    ensures
        of_type(rs, qtype, name) == rs.filter(|r: RecordView| r.rtype() == qtype).map_values(
            |r: RecordView| r.with_domain(name),
        ),
    decreases rs.len(),
{
    reveal(Seq::filter);
    let of = |r: RecordView| r.rtype() == qtype;
    let to = |r: RecordView| r.with_domain(name);
    if rs.len() > 0 {
        law_of_type(rs.drop_last(), qtype, name);
    }
    assert(of_type(rs, qtype, name) =~= rs.filter(of).map_values(to));
}

/// The first CNAME record of a list is one that has no other before it; there is one
/// wherever the list has any.
pub proof fn law_first_cname(rs: Seq<RecordView>, i: int)
    requires
        0 <= i < rs.len(),
        rs[i] is CNAME,
        forall|j: int| 0 <= j < i ==> !((#[trigger] rs[j]) is CNAME),
    ensures
        first_cname(rs) == Some(rs[i]),
    decreases rs.len(),
{
    if i > 0 {
        let t = rs.drop_first();
        assert(!(rs[0] is CNAME));
        assert forall|j: int| 0 <= j < i - 1 implies !((#[trigger] t[j]) is CNAME) by {
            assert(t[j] == rs[j + 1]);
        }
        law_first_cname(t, i - 1);
    }
}

/// Whether a name has records of a type.
pub open spec fn has_type(rs: Seq<RecordView>, qtype: u16) -> bool {
    exists|i: int| 0 <= i < rs.len() && (#[trigger] rs[i]).rtype() == qtype
}

/// Whether the records of a name send a query of the type on to another name: they have
/// none of the type, and `r` is the first alias among them, for that name.
pub open spec fn sends_on(
    rs: Seq<RecordView>,
    qtype: u16,
    r: RecordView,
    next: Seq<char>,
) -> bool {
    &&& !has_type(rs, qtype)
    &&& r matches RecordView::CNAME { alias, .. }
    &&& lowercase(alias) == next
    &&& exists|i: int|
        0 <= i < rs.len() && #[trigger] rs[i] == r && forall|j: int|
            0 <= j < i ==> !((#[trigger] rs[j]) is CNAME)
}

/// Whether each of the names but the last sends a query of the type on to the next.
pub open spec fn linked<A: Authority>(
    zone: &A,
    names: Seq<Seq<char>>,
    links: Seq<RecordView>,
    qtype: u16,
) -> bool {
    forall|i: int|
        #![trigger links[i]]
        0 <= i < links.len() ==> zone.answer(names[i]) is Some && sends_on(
            zone.answer(names[i])->0,
            qtype,
            links[i],
            names[i + 1],
        )
}

/// A name that has records of the type asked for is answered with all of them, in order
/// and under that name, and with nothing else.
pub proof fn law_direct_answers<A: Authority>(
    zone: &A,
    name: Seq<char>,
    qtype: u16,
    rs: Seq<RecordView>,
)
    requires
        zone.answer(name) == Some(rs),
        has_type(rs, qtype),
    ensures
        answers_to(zone, name, qtype) == rs.filter(
            |r: RecordView| r.rtype() == qtype,
        ).map_values(|r: RecordView| r.with_domain(name)),
{
    law_of_type(rs, qtype, name);
    lemma_has_type(rs, qtype, name);
}

/// Aliases are followed within the zone, whatever type is asked for: where each of
/// `names` but the last sends the query on to the next, the answers begin with the CNAME
/// records on the way, each under the name it was found at. Behind them stand all records
/// of the type that the last name has; nothing, where it has neither such records nor an
/// alias, does not exist, was met before, or stands behind as many aliases as are
/// followed.
pub proof fn law_aliases_followed<A: Authority>(
    zone: &A,
    names: Seq<Seq<char>>,
    links: Seq<RecordView>,
    qtype: u16,
)
    requires
        names.len() == links.len() + 1,
        links.len() <= MAX_CNAME_CHAIN,
        linked(zone, names, links, qtype),
        forall|i: int, j: int| 0 <= i < j < links.len() ==> names[i] != names[j],
    ensures
        ({
            let n = links.len() as int;
            let all = answers_to(zone, names[0], qtype);
            let end = zone.answer(names[n]);
            let met = exists|i: int| 0 <= i < n && #[trigger] names[i] == names[n];
            &&& all.len() >= n
            &&& forall|i: int| 0 <= i < n ==> #[trigger] all[i] == links[i].with_domain(names[i])
            &&& end is Some && has_type(end->0, qtype) && !met && n < MAX_CNAME_CHAIN ==> all.skip(
                n,
            ) == end->0.filter(|r: RecordView| r.rtype() == qtype).map_values(
                |r: RecordView| r.with_domain(names[n]),
            )
            &&& end is None || met || n == MAX_CNAME_CHAIN ==> all.len() == n
            &&& end is Some && !has_type(end->0, qtype) && (forall|i: int|
                0 <= i < end->0.len() ==> !((#[trigger] end->0[i]) is CNAME)) ==> all.len() == n
        }),
{
    let n = links.len() as int;
    let all = answers_to(zone, names[0], qtype);
    let end = zone.answer(names[n]);
    let tail = rest_from(zone, names, qtype, n);
    lemma_chain(zone, names, links, qtype, n);
    assert(all.skip(n) =~= tail);
    assert(all.len() == n + tail.len());
    assert forall|i: int| 0 <= i < n implies #[trigger] all[i] == links[i].with_domain(
        names[i],
    ) by {
        assert(all.take(n)[i] == all[i]);
    }
    lemma_taken(names, n);
    if let Some(rs) = end {
        law_of_type(rs, qtype, names[n]);
        lemma_has_type(rs, qtype, names[n]);
        if !has_type(rs, qtype) && (forall|i: int|
            0 <= i < rs.len() ==> !((#[trigger] rs[i]) is CNAME)) {
            lemma_no_cname(rs);
        }
    }
}

/// What remains to be answered when the query has been sent on from the first `n` names.
spec fn rest_from<A: Authority>(
    zone: &A,
    names: Seq<Seq<char>>,
    qtype: u16,
    n: int,
) -> Seq<RecordView> {
    answers_for(
        zone,
        names[n],
        qtype,
        taken(names, n),
        (MAX_CNAME_CHAIN - n) as nat,
    )
}

/// The first `n` names, as a set.
spec fn taken(names: Seq<Seq<char>>, n: int) -> Set<Seq<char>>
    decreases n,
{
    if n <= 0 {
        Set::empty()
    } else {
        taken(names, n - 1).insert(names[n - 1])
    }
}

proof fn lemma_taken(names: Seq<Seq<char>>, n: int)
    requires
        0 <= n <= names.len(),
    ensures
        forall|x: Seq<char>| #[trigger]
            taken(names, n).contains(x) <==> exists|i: int| 0 <= i < n && #[trigger] names[i] == x,
    decreases n,
{
    if n > 0 {
        lemma_taken(names, n - 1);
        assert forall|x: Seq<char>| #[trigger] taken(names, n).contains(x) <==> exists|i: int|
            0 <= i < n && #[trigger] names[i] == x by {
            if taken(names, n).contains(x) {
                if x == names[n - 1] {
                    assert(names[n - 1] == x);
                } else {
                    assert(taken(names, n - 1).contains(x));
                }
            }
            if exists|i: int| 0 <= i < n && #[trigger] names[i] == x {
                let i = choose|i: int| 0 <= i < n && #[trigger] names[i] == x;
                if i < n - 1 {
                    assert(taken(names, n - 1).contains(x));
                }
            }
        }
    }
}

proof fn lemma_has_type(rs: Seq<RecordView>, qtype: u16, name: Seq<char>)
    ensures
        has_type(rs, qtype) <==> of_type(rs, qtype, name).len() > 0,
    decreases rs.len(),
{
    if rs.len() > 0 {
        let init = rs.drop_last();
        lemma_has_type(init, qtype, name);
        if has_type(init, qtype) {
            let i = choose|i: int| 0 <= i < init.len() && (#[trigger] init[i]).rtype() == qtype;
            assert(rs[i].rtype() == qtype);
        }
        if has_type(rs, qtype) && rs.last().rtype() != qtype {
            let i = choose|i: int| 0 <= i < rs.len() && (#[trigger] rs[i]).rtype() == qtype;
            assert(init[i].rtype() == qtype);
        }
        if rs.last().rtype() == qtype {
            assert(rs[rs.len() - 1].rtype() == qtype);
        }
    }
}

proof fn lemma_no_cname(rs: Seq<RecordView>)
    requires
        forall|i: int| 0 <= i < rs.len() ==> !((#[trigger] rs[i]) is CNAME),
    ensures
        first_cname(rs) is None,
    decreases rs.len(),
{
    if rs.len() > 0 {
        let t = rs.drop_first();
        assert(!(rs[0] is CNAME));
        assert forall|i: int| 0 <= i < t.len() implies !((#[trigger] t[i]) is CNAME) by {
            assert(t[i] == rs[i + 1]);
        }
        lemma_no_cname(t);
    }
}

proof fn lemma_chain<A: Authority>(
    zone: &A,
    names: Seq<Seq<char>>,
    links: Seq<RecordView>,
    qtype: u16,
    n: int,
)
    requires
        0 <= n <= links.len(),
        names.len() == links.len() + 1,
        links.len() <= MAX_CNAME_CHAIN,
        linked(zone, names, links, qtype),
        forall|i: int, j: int| 0 <= i < j < links.len() ==> names[i] != names[j],
    ensures
        answers_to(zone, names[0], qtype) == links.take(n).map(
            |i: int, r: RecordView| r.with_domain(names[i]),
        ) + rest_from(zone, names, qtype, n),
    decreases n,
{
    let under = |i: int, r: RecordView| r.with_domain(names[i]);
    if n == 0 {
        assert(links.take(0).map(under) =~= Seq::empty());
        assert(Seq::<RecordView>::empty() + rest_from(zone, names, qtype, 0) =~= rest_from(
            zone,
            names,
            qtype,
            0,
        ));
    } else {
        lemma_chain(zone, names, links, qtype, n - 1);
        lemma_taken(names, n - 1);
        let r = links[n - 1];
        let rs = zone.answer(names[n - 1])->0;
        assert(sends_on(rs, qtype, r, names[n]));
        let k = choose|k: int|
            0 <= k < rs.len() && #[trigger] rs[k] == r && forall|j: int|
                0 <= j < k ==> !((#[trigger] rs[j]) is CNAME);
        law_first_cname(rs, k);
        lemma_has_type(rs, qtype, names[n - 1]);
        assert(!taken(names, n - 1).contains(names[n - 1]));
        let before = rest_from(zone, names, qtype, n - 1);
        let after = rest_from(zone, names, qtype, n);
        assert(before == seq![r.with_domain(names[n - 1])] + after);
        let short = links.take(n - 1).map(under);
        assert(links.take(n).map(under) =~= short.push(r.with_domain(names[n - 1])));
        assert(short + before =~= links.take(n).map(under) + after);
    }
}

/// What stands around the answers: the questions as they were asked; the SOA record of
/// the zone where the name does not exist, and no authority where it does; an OPT record
/// where the client sent one, and nothing else. The header counts what the sections hold.
pub proof fn law_response_sections<A: Authority>(request: PacketView, zone: &A)
    requires
        request.questions.len() > 0,
    ensures
        ({
            let r = response_to(request, zone);
            let name = lowercase(request.questions[0].qname);
            &&& r.questions == request.questions
            &&& r.answers == answers_to(zone, name, request.questions[0].qtype)
            &&& zone.answer(name) is Some ==> r.authorities.len() == 0
            &&& zone.answer(name) is None ==> (match zone.denial(name) {
                Some(soa) => r.authorities == seq![soa],
                None => r.authorities.len() == 0,
            })
            &&& edns_size(request.additionals) is None ==> r.additionals.len() == 0
            &&& edns_size(request.additionals) matches Some(size) ==> r.additionals.len() == 1
                && r.additionals[0] == (RecordView::OPT { udp_size: granted_size(size) })
            &&& r.questions.len() <= 0xFFFF ==> r.header.questions == r.questions.len()
            &&& r.answers.len() <= 0xFFFF ==> r.header.answers == r.answers.len()
            &&& r.header.authorities == r.authorities.len()
            &&& r.header.additionals == r.additionals.len()
        }),
{
}

} // verus!
