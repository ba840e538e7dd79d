//! What holds of the server as a whole.

use crate::acl::{permits, Cidr};
use crate::blocklist::blocks;
use crate::bytes::{
    be_bytes, lemma_be2, lemma_be_bytes_len, lemma_be_round_trip, lemma_pow256_small,
};
use crate::cache::{cache_key, fresh, law_cache_keys, Entry};
use crate::dns::encoder::{lemma_header_len, message_octets};
use crate::dns::error::DnsError;
use crate::dns::header::DnsHeader;
use crate::dns::packet::{edns_size, granted_size, read_message, DnsPacket, PacketView};
use crate::dns::record::{DnsRecord, RecordView};
use crate::dns::resolver::{edns_echo, law_response_header, response_to};
use crate::dns::round_trip::{law_answers_back, message_ok, message_short};
use crate::dnssec::{dnskeys_of, DnssecKeys};
use crate::metrics::next;
use crate::net::{IpAddr, Ipv6Addr};
use crate::state::{
    aaaa_for, aligned, apex_answers, cache_ttl_spec, dns64_applied, dns64_records, dnssec_applied,
    edns_aligned, embedded, encoded, group, group_key, group_keys, group_signature, has_aaaa,
    is_apex, law_aaaa_for, law_embedded, law_signature_count, least_ttl, lemma_group_keys,
    lemma_group_nonempty, opt_replaced, opt_stripped, replayed, signatures, signer_of, synthesized,
    with_id, ForwardRoute, ForwardView, Outcome, ServerState, Times, Transport, DNSKEY_TTL, FLAG_AA,
    FLAG_RA, FLAG_RD, NEG_TTL_MAX, RCODE_NXDOMAIN, RCODE_REFUSED, RCODE_SERVFAIL,
};
use crate::text::lowercase;
use crate::time::NANOS_PER_SEC;
use crate::zone::{find_zone, AuthZone, Authority};
use vstd::prelude::*;

verus! {

/// A message begins with its transaction ID and its flags.
pub proof fn law_message_head(p: PacketView)
    ensures
        message_octets(p).len() >= 12,
        message_octets(p).take(2) == be_bytes(p.header.id as nat, 2),
        message_octets(p).subrange(2, 4) == be_bytes(p.header.flags as nat, 2),
{
    lemma_header_len(p);
    lemma_be_bytes_len(p.header.id as nat, 2);
    lemma_be_bytes_len(p.header.flags as nat, 2);
    assert(message_octets(p).take(2) =~= be_bytes(p.header.id as nat, 2));
    assert(message_octets(p).subrange(2, 4) =~= be_bytes(p.header.flags as nat, 2));
}

/// Whether octets begin with a transaction ID.
pub open spec fn has_id(message: Seq<u8>, id: u16) -> bool {
    message.len() >= 2 && message.take(2) == be_bytes(id as nat, 2)
}

/// A response that is replayed to a client carries that client's transaction ID,
/// over either transport.
pub proof fn law_replay_id(raw: Seq<u8>, request: PacketView, transport: Transport)
    requires
        raw.len() >= 2,
    ensures
        has_id(replayed(raw, request, transport), request.header.id),
{
    let id = request.header.id;
    lemma_be_bytes_len(id as nat, 2);
    assert(with_id(raw, id).take(2) =~= be_bytes(id as nat, 2));
    if let (Transport::Udp, Ok(p)) = (transport, read_message(raw)) {
        let q = PacketView {
            header: DnsHeader { id, ..p.header },
            additionals: edns_aligned(p.additionals, edns_size(request.additionals)),
            ..p
        };
        law_message_head(q);
        law_message_head(q.truncated());
    }
}

/// A replayed response leaves everything behind the transaction ID as it was, where
/// the transport has no size limit.
pub proof fn law_replay_rest(raw: Seq<u8>, request: PacketView)
    requires
        raw.len() >= 2,
    ensures
        replayed(raw, request, Transport::Tcp).skip(2) == raw.skip(2),
        replayed(raw, request, Transport::Tcp).len() == raw.len(),
{
    lemma_be_bytes_len(request.header.id as nat, 2);
    assert(with_id(raw, request.header.id).skip(2) =~= raw.skip(2));
}

proof fn lemma_encoded_id(p: PacketView, transport: Transport)
    ensures
        has_id(encoded(p, transport), p.header.id),
{
    law_message_head(p);
    law_message_head(p.truncated());
}

/// Whether everything in the cache is a message that parses.
pub open spec fn holds_messages(cache: Map<Seq<char>, Entry<u8>>) -> bool {
    forall|k: Seq<char>| #[trigger]
        cache.contains_key(k) ==> read_message(cache[k].records@) is Ok
}

/// The cache only ever holds messages that parse: it does so when it is empty, after
/// the first pass over any query, and after any reply.
pub proof fn law_cache_holds_messages(
    state: &ServerState,
    req: Seq<u8>,
    client: IpAddr,
    t: Times,
    ctx: ForwardView,
    reply: Option<Vec<u8>>,
    now: u64,
)
    requires
        holds_messages(state.cache@),
    ensures
        holds_messages(Map::empty()),
        holds_messages(state.local_cache(req, client, t)),
        holds_messages(state.cache_after_reply(ctx, reply, now)),
{
}

/// Whatever is answered in the first pass carries the transaction ID of the query.
pub proof fn law_answer_id(
    state: &ServerState,
    req: Seq<u8>,
    client: IpAddr,
    transport: Transport,
    t: Times,
)
    requires
        holds_messages(state.cache@),
    ensures
        state.local_outcome(req, client, transport, t) matches Outcome::Ready(b) ==> {
            &&& read_message(req) is Ok
            &&& has_id(b, read_message(req)->Ok_0.header.id)
        },
{
    if let Outcome::Ready(b) = state.local_outcome(req, client, transport, t) {
        let request = read_message(req)->Ok_0;
        if state.is_blocked_query(request) {
            lemma_encoded_id(synthesized(request, RCODE_NXDOMAIN), transport);
        } else {
            let answer = state.local_answer(request, t.unix);
            lemma_encoded_id(answer, transport);
            lemma_encoded_id(
                PacketView {
                    header: DnsHeader { flags: answer.header.flags | FLAG_RA, ..answer.header },
                    ..answer
                },
                transport,
            );
            if state.goes_upstream(request) {
                let key = cache_key(
                    lowercase(request.questions[0].qname),
                    request.questions[0].qtype,
                );
                if fresh(state.cache@, key, t.cache) {
                    law_replay_id(state.cache@[key].records@, request, transport);
                }
            }
        }
    }
}

/// Whatever a forwarded query is answered with carries the transaction ID of the
/// query, be it a reply or the news that there was none.
pub proof fn law_forward_id(ctx: ForwardView, reply: Option<Seq<u8>>)
    requires
        reply matches Some(b) ==> b.len() >= 2,
    ensures
        has_id(
            replayed(ServerState::forward_reply(ctx, reply), ctx.request, ctx.transport),
            ctx.request.header.id,
        ),
{
    law_message_head(synthesized(ctx.request, RCODE_SERVFAIL));
    law_replay_id(ServerState::forward_reply(ctx, reply), ctx.request, ctx.transport);
}

/// Whether octets are those of a message with a response code.
pub open spec fn has_code(message: Seq<u8>, rcode: u16) -> bool {
    message.len() >= 4 && (message[3] & 0x0F) as u16 == rcode
}

proof fn lemma_message_code(p: PacketView)
    ensures
        has_code(message_octets(p), p.header.flags & 0x000F),
{
    let f = p.header.flags;
    law_message_head(p);
    lemma_be2(f as nat);
    assert(message_octets(p)[3] == message_octets(p).subrange(2, 4)[1]);
    assert((((f % 256) as u8) & 0x0F) as u16 == f & 0x000F) by (bit_vector);
}

/// A response that is replayed to a client keeps its response code, over either
/// transport.
pub proof fn law_replay_code(p: PacketView, request: PacketView, transport: Transport)
    ensures
        has_code(replayed(message_octets(p), request, transport), p.header.flags & 0x000F),
{
    let raw = message_octets(p);
    let id = request.header.id;
    let f = p.header.flags;
    law_message_head(p);
    lemma_message_code(p);
    lemma_be_bytes_len(id as nat, 2);
    assert(with_id(raw, id)[3] == raw.skip(2)[1]);
    if let (Transport::Udp, Ok(v)) = (transport, read_message(raw)) {
        let q = PacketView {
            header: DnsHeader { id, ..v.header },
            additionals: edns_aligned(v.additionals, edns_size(request.additionals)),
            ..v
        };
        lemma_pow256_small();
        lemma_be_round_trip(f as nat, 2);
        assert(v.header.flags == f);
        lemma_message_code(q);
        lemma_message_code(q.truncated());
        assert((f | 0x0200) & 0x000F == f & 0x000F) by (bit_vector);
    }
}

/// Queries for the same name and type that arrive while the first of them is being
/// asked upstream: only the first is asked, each of the others counts as coalesced,
/// and all get the one reply, each with its own transaction ID; where there is none,
/// all get SERVFAIL. Then the query is over, and the next one is asked again.
///
/// `states` are those of the server before and after each of the queries has begun,
/// and `post` is the state after the reply.
pub proof fn law_coalesced(
    states: Seq<ServerState>,
    ctxs: Seq<ForwardView>,
    routes: Seq<Option<ForwardRoute>>,
    post: ServerState,
    reply: Option<Vec<u8>>,
    now: u64,
    shared: Seq<u8>,
)
    requires
        ctxs.len() > 0,
        states.len() == ctxs.len() + 1,
        routes.len() == ctxs.len(),
        !states[0].under_way(ctxs[0]),
        forall|i: int|
            #![trigger ctxs[i]]
            0 <= i < ctxs.len() ==> ctxs[i].name == ctxs[0].name && ctxs[i].qtype == ctxs[0].qtype
                && states[i].begins(&states[i + 1], ctxs[i], routes[i]),
        states.last().finishes(&post, ctxs[0], reply, now, shared),
        reply matches Some(b) ==> b@.len() >= 2,
    ensures
        routes[0] == Some(ServerState::route_of(ctxs[0])),
        forall|i: int| 0 < i < routes.len() ==> (#[trigger] routes[i]) is None,
        post.metrics.forwarded == next(states[0].metrics.forwarded),
        post.metrics.coalesced == (states[0].metrics.coalesced + ctxs.len() - 1)
            % 0x1_0000_0000_0000_0000,
        forall|i: int|
            0 <= i < ctxs.len() ==> has_id(
                replayed(shared, (#[trigger] ctxs[i]).request, ctxs[i].transport),
                ctxs[i].request.header.id,
            ),
        reply matches Some(b) ==> shared == b@,
        reply is None ==> forall|i: int|
            0 <= i < ctxs.len() ==> has_code(
                replayed(shared, (#[trigger] ctxs[i]).request, ctxs[i].transport),
                RCODE_SERVFAIL,
            ),
        post.flights@ == states[0].flights@,
        !post.under_way(ctxs[0]),
{
    let k = ctxs.len() as int;
    lemma_joined(states, ctxs, routes, k);
    assert forall|i: int| 0 < i < routes.len() implies (#[trigger] routes[i]) is None by {
        lemma_joined(states, ctxs, routes, i);
        assert(ctxs[i].name == ctxs[0].name);
    }
    assert(states[0].begins(&states[1], ctxs[0], routes[0]));
    let failed = synthesized(ctxs[0].request, RCODE_SERVFAIL);
    law_synthesized(ctxs[0].request, RCODE_SERVFAIL);
    law_message_head(failed);
    assert forall|i: int| 0 <= i < ctxs.len() implies has_id(
        replayed(shared, (#[trigger] ctxs[i]).request, ctxs[i].transport),
        ctxs[i].request.header.id,
    ) by {
        law_replay_id(shared, ctxs[i].request, ctxs[i].transport);
    }
    if reply is None {
        assert forall|i: int| 0 <= i < ctxs.len() implies has_code(
            replayed(shared, (#[trigger] ctxs[i]).request, ctxs[i].transport),
            RCODE_SERVFAIL,
        ) by {
            law_replay_code(failed, ctxs[i].request, ctxs[i].transport);
        }
    }
    assert(post.flights@ =~= states[0].flights@);
}

/// What has been counted when `n` of the queries have begun.
proof fn lemma_joined(
    states: Seq<ServerState>,
    ctxs: Seq<ForwardView>,
    routes: Seq<Option<ForwardRoute>>,
    n: int,
)
    requires
        0 < n <= ctxs.len(),
        states.len() == ctxs.len() + 1,
        routes.len() == ctxs.len(),
        !states[0].under_way(ctxs[0]),
        forall|i: int|
            #![trigger ctxs[i]]
            0 <= i < ctxs.len() ==> ctxs[i].name == ctxs[0].name && ctxs[i].qtype == ctxs[0].qtype
                && states[i].begins(&states[i + 1], ctxs[i], routes[i]),
    ensures
        states[n].flights@ == states[0].flights@.insert((ctxs[0].name, ctxs[0].qtype)),
        states[n].metrics.forwarded == next(states[0].metrics.forwarded),
        states[n].metrics.coalesced == (states[0].metrics.coalesced + n - 1)
            % 0x1_0000_0000_0000_0000,
    decreases n,
{
    assert(states[n - 1].begins(&states[n], ctxs[n - 1], routes[n - 1])) by {
        assert(ctxs[n - 1].name == ctxs[0].name);
    }
    if n > 1 {
        lemma_joined(states, ctxs, routes, n - 1);
        assert(ctxs[n - 1].name == ctxs[0].name);
        assert(states[n].flights@ =~= states[n - 1].flights@);
    }
}

/// The flags of a response that is made up here: it is a response, RD is as the
/// client sent it, RA is set, AA and TC are clear, and the code is the one given.
pub proof fn law_synthesized(request: PacketView, rcode: u16)
    requires
        rcode < 16,
    ensures
        ({
            let r = synthesized(request, rcode);
            let f = r.header.flags;
            &&& r.header.id == request.header.id
            &&& r.questions == request.questions
            &&& r.answers.len() == 0
            &&& f & 0x8000 != 0
            &&& f & FLAG_RD == request.header.flags & FLAG_RD
            &&& f & FLAG_RA != 0
            &&& f & FLAG_AA == 0
            &&& f & 0x0200 == 0
            &&& f & 0x000F == rcode
        }),
{
    let g = request.header.flags;
    assert(rcode < 16 ==> ({
        let f = 0x8000u16 | (g & 0x0100) | 0x0080 | rcode;
        &&& f & 0x8000 != 0
        &&& f & 0x0100 == g & 0x0100
        &&& f & 0x0080 != 0
        &&& f & 0x0400 == 0
        &&& f & 0x0200 == 0
        &&& f & 0x000F == rcode
    })) by (bit_vector);
}

/// A blocked name does not exist, whatever the zones, the cache and the upstreams
/// have for it: the answer is NXDOMAIN.
pub proof fn law_blocked(
    state: &ServerState,
    req: Seq<u8>,
    client: IpAddr,
    transport: Transport,
    t: Times,
    request: PacketView,
)
    requires
        state.limiter.allows(client, t.limiter),
        read_message(req) == Ok::<_, DnsError>(request),
        request.questions.len() > 0,
        blocks(state.blocklist@, request.questions[0].qname),
    ensures
        state.local_outcome(req, client, transport, t) == Outcome::Ready(
            encoded(synthesized(request, RCODE_NXDOMAIN), transport),
        ),
        synthesized(request, RCODE_NXDOMAIN).header.flags & 0x000F == RCODE_NXDOMAIN,
        synthesized(request, RCODE_NXDOMAIN).answers.len() == 0,
{
    law_synthesized(request, RCODE_NXDOMAIN);
}

/// A client over its limit gets nothing, and nothing but the counters shows it.
pub proof fn law_rate_limited(
    state: &ServerState,
    req: Seq<u8>,
    client: IpAddr,
    transport: Transport,
    t: Times,
)
    requires
        !state.limiter.allows(client, t.limiter),
    ensures
        state.local_outcome(req, client, transport, t) is Drop,
        state.local_cache(req, client, t) == state.cache@,
{
}

/// What does not parse is dropped.
pub proof fn law_garbage_dropped(
    state: &ServerState,
    req: Seq<u8>,
    client: IpAddr,
    transport: Transport,
    t: Times,
)
    requires
        read_message(req) is Err,
    ensures
        state.local_outcome(req, client, transport, t) is Drop,
        !ServerState::is_transfer_query(req),
{
}

/// A query is forwarded only where the name does not exist in the zones, the client
/// asks for recursion, the server offers it, the name is not blocked and the cache
/// has no answer for it.
pub proof fn law_forwarded(
    state: &ServerState,
    req: Seq<u8>,
    client: IpAddr,
    transport: Transport,
    t: Times,
)
    ensures
        state.local_outcome(req, client, transport, t) matches Outcome::Forward(f) ==> {
            &&& read_message(req) == Ok::<_, DnsError>(f.request)
            &&& f.request.questions.len() > 0
            &&& f.name == lowercase(f.request.questions[0].qname)
            &&& f.qtype == f.request.questions[0].qtype
            &&& f.raw == req
            &&& state.zones.answer(f.name) is None
            &&& f.request.header.flags & FLAG_RD != 0
            &&& state.offers_recursion()
            &&& !blocks(state.blocklist@, f.request.questions[0].qname)
            &&& !fresh(state.cache@, cache_key(f.name, f.qtype), t.cache)
        },
{
    if let Outcome::Forward(f) = state.local_outcome(req, client, transport, t) {
        law_response_header(f.request, &state.zones);
    }
}

/// A name that the zones hold is answered from them, never from the cache or from
/// upstream.
pub proof fn law_local_first(
    state: &ServerState,
    request: PacketView,
    raw: Seq<u8>,
    transport: Transport,
    t: Times,
)
    requires
        request.questions.len() > 0,
        state.zones.answer(lowercase(request.questions[0].qname)) is Some,
    ensures
        !state.goes_upstream(request),
        state.request_outcome(request, raw, transport, t) is Ready,
{
    law_response_header(request, &state.zones);
}

/// A server that offers no recursion answers every query itself, and does not set
/// RA.
pub proof fn law_authoritative_only(
    state: &ServerState,
    request: PacketView,
    raw: Seq<u8>,
    transport: Transport,
    t: Times,
)
    requires
        !state.offers_recursion(),
    ensures
        state.request_outcome(request, raw, transport, t) == Outcome::Ready(
            encoded(state.local_answer(request, t.unix), transport),
        ),
        response_to(request, &state.zones).header.flags & FLAG_RA == 0,
{
    law_response_header(request, &state.zones);
    let answer = state.local_answer(request, t.unix);
    assert((PacketView {
        header: DnsHeader { flags: answer.header.flags, ..answer.header },
        ..answer
    }) =~= answer);
}

/// A reply that may be cached answers later queries for the same name and type until
/// its time is up, without asking upstream again; each client gets it with its own
/// transaction ID.
pub proof fn law_reply_served_from_cache(
    before: &ServerState,
    after: &ServerState,
    ctx: ForwardView,
    reply: Vec<u8>,
    now: u64,
    ttl: u32,
    request: PacketView,
    raw: Seq<u8>,
    transport: Transport,
    t: Times,
)
    requires
        read_message(reply@) matches Ok(p) && cache_ttl_spec(p) == Some(ttl),
        after.cache@ == before.cache_after_reply(ctx, Some(reply), now),
        after.goes_upstream(request),
        lowercase(request.questions[0].qname) == ctx.name,
        request.questions[0].qtype == ctx.qtype,
        t.cache < now + ttl * NANOS_PER_SEC,
        ttl > 0,
        before.cache.capacity_spec() > 0,
    ensures
        after.request_outcome(request, raw, transport, t) == Outcome::Ready(
            replayed(reply@, request, transport),
        ),
        has_id(replayed(reply@, request, transport), request.header.id),
{
    law_cache_keys(
        lowercase(request.questions[0].qname),
        request.questions[0].qtype,
        ctx.name,
        ctx.qtype,
    );
    law_replay_id(reply@, request, transport);
}

/// What may be cached, and for how long: only NOERROR and NXDOMAIN; with answers for
/// the smallest time that one of them allows, without never longer than an hour.
pub proof fn law_cache_time(p: PacketView)
    ensures
        cache_ttl_spec(p) is Some <==> p.header.flags & 0x000F == RCODE_NXDOMAIN
            || p.header.flags & 0x000F == 0,
        p.answers.len() > 0 ==> (cache_ttl_spec(p) matches Some(ttl) ==> forall|i: int|
            0 <= i < p.answers.len() ==> ttl <= (#[trigger] p.answers[i]).ttl()),
        p.answers.len() > 0 ==> (cache_ttl_spec(p) matches Some(ttl) ==> exists|i: int|
            0 <= i < p.answers.len() && (#[trigger] p.answers[i]).ttl() == ttl),
        p.answers.len() == 0 ==> (cache_ttl_spec(p) matches Some(ttl) ==> ttl <= NEG_TTL_MAX),
{
    lemma_least_ttl(p.answers, 0);
}

/// Over either transport a transfer is refused to every client that the ACL does not
/// permit; without an ACL, to all.
pub proof fn law_transfer_denied(state: &ServerState, request: PacketView, client: IpAddr)
    requires
        !permits(state.axfr_acl@, client) || state.axfr_acl@ == Seq::<Cidr>::empty(),
    ensures
        state.transfer_answer(request, client) == synthesized(request, RCODE_REFUSED),
        state.transfer_answer(request, client).header.flags & 0x000F == RCODE_REFUSED,
        state.transfer_answer(request, client).answers.len() == 0,
{
    law_synthesized(request, RCODE_REFUSED);
}

/// The OPT record of a response is aligned to the client: it tells the size granted
/// to it, and is left out for a client that did not send one. The other records keep
/// their values and order, everything else stays, and aligning once more changes nothing.
pub proof fn law_edns_aligned(p: PacketView, request: PacketView)
    ensures
        edns_size(aligned(p, request).additionals) == (match edns_size(request.additionals) {
            Some(size) => Some(granted_size(size)),
            None => None,
        }),
        opt_stripped(aligned(p, request).additionals) == opt_stripped(p.additionals),
        aligned(p, request).header == p.header,
        aligned(p, request).questions == p.questions,
        aligned(p, request).answers == p.answers,
        aligned(p, request).authorities == p.authorities,
        aligned(aligned(p, request), request) == aligned(p, request),
{
    let rs = p.additionals;
    match edns_size(request.additionals) {
        Some(size) => {
            let n = granted_size(size);
            let opt = RecordView::OPT { udp_size: n };
            lemma_opt_replaced(rs, n);
            lemma_opt_pushed(rs, n);
            lemma_opt_replaced_rest(rs, n);
            assert(rs.push(opt).drop_last() =~= rs);
            lemma_opt_replaced_at_end(rs, n);
        },
        None => {
            lemma_opt_stripped(rs);
            lemma_stripped_has_none(rs);
            lemma_strip_nothing(opt_stripped(rs));
        },
    }
}

/// Replacing an OPT record leaves the others, and is done once for all.
proof fn lemma_opt_replaced_rest(rs: Seq<RecordView>, size: u16)
    ensures
        opt_stripped(opt_replaced(rs, size)) == opt_stripped(rs),
        opt_replaced(opt_replaced(rs, size), size) == opt_replaced(rs, size),
    decreases rs.len(),
{
    if rs.len() > 0 {
        let rest = rs.drop_first();
        let opt = RecordView::OPT { udp_size: size };
        assert(rs =~= seq![rs[0]] + rest);
        if rs[0] is OPT {
            let out = seq![opt] + rest;
            assert(out.drop_first() =~= rest);
            lemma_stripped_concat(seq![opt], rest);
            lemma_stripped_concat(seq![rs[0]], rest);
            lemma_stripped_one(opt);
            lemma_stripped_one(rs[0]);
        } else {
            let done = opt_replaced(rest, size);
            lemma_opt_replaced_rest(rest, size);
            assert((seq![rs[0]] + done).drop_first() =~= done);
            lemma_stripped_concat(seq![rs[0]], done);
            lemma_stripped_concat(seq![rs[0]], rest);
        }
    }
}

proof fn lemma_stripped_one(r: RecordView)
    ensures
        r is OPT ==> opt_stripped(seq![r]) == Seq::<RecordView>::empty(),
{
    assert(seq![r].drop_last() =~= Seq::empty());
    assert(opt_stripped(Seq::<RecordView>::empty()) == Seq::<RecordView>::empty());
}

proof fn lemma_stripped_concat(a: Seq<RecordView>, b: Seq<RecordView>)
    ensures
        opt_stripped(a + b) == opt_stripped(a) + opt_stripped(b),
    decreases b.len(),
{
    if b.len() == 0 {
        assert(a + b =~= a);
        assert(opt_stripped(a) + opt_stripped(b) =~= opt_stripped(a));
    } else {
        lemma_stripped_concat(a, b.drop_last());
        assert((a + b).drop_last() =~= a + b.drop_last());
        assert(opt_stripped(a + b) =~= opt_stripped(a) + opt_stripped(b));
    }
}

/// Replacing the OPT record at the end of records that have no other.
proof fn lemma_opt_replaced_at_end(rs: Seq<RecordView>, size: u16)
    ensures
        edns_size(rs) is None ==> opt_replaced(
            rs.push(RecordView::OPT { udp_size: size }),
            size,
        ) == rs.push(RecordView::OPT { udp_size: size }),
    decreases rs.len(),
{
    let opt = RecordView::OPT { udp_size: size };
    let all = rs.push(opt);
    if rs.len() == 0 {
        assert(seq![opt] + all.drop_first() =~= all);
    } else if !(rs[0] is OPT) {
        lemma_opt_replaced_at_end(rs.drop_first(), size);
        assert(all.drop_first() =~= rs.drop_first().push(opt));
        assert(seq![rs[0]] + rs.drop_first().push(opt) =~= all);
    }
}

proof fn lemma_strip_nothing(rs: Seq<RecordView>)
    requires
        forall|i: int| 0 <= i < rs.len() ==> !((#[trigger] rs[i]) is OPT),
    ensures
        opt_stripped(rs) == rs,
    decreases rs.len(),
{
    if rs.len() > 0 {
        let init = rs.drop_last();
        assert forall|i: int| 0 <= i < init.len() implies !((#[trigger] init[i]) is OPT) by {
            assert(init[i] == rs[i]);
        }
        lemma_strip_nothing(init);
        assert(!(rs[rs.len() - 1] is OPT));
        assert(init.push(rs.last()) =~= rs);
    }
}

proof fn lemma_opt_replaced(rs: Seq<RecordView>, size: u16)
    ensures
        edns_size(rs) is Some ==> edns_size(opt_replaced(rs, size)) == Some(size),
    decreases rs.len(),
{
    if rs.len() > 0 {
        let rest = opt_replaced(rs.drop_first(), size);
        if rs[0] is OPT {
        } else {
            lemma_opt_replaced(rs.drop_first(), size);
            assert((seq![rs[0]] + rest).drop_first() =~= rest);
        }
    }
}

proof fn lemma_opt_pushed(rs: Seq<RecordView>, size: u16)
    ensures
        edns_size(rs) is None ==> edns_size(rs.push(RecordView::OPT { udp_size: size })) == Some(
            size,
        ),
    decreases rs.len(),
{
    if rs.len() > 0 {
        lemma_opt_pushed(rs.drop_first(), size);
        assert(rs.push(RecordView::OPT { udp_size: size }).drop_first() =~= rs.drop_first().push(
            RecordView::OPT { udp_size: size },
        ));
    }
}

proof fn lemma_no_opt(rs: Seq<RecordView>)
    requires
        forall|i: int| 0 <= i < rs.len() ==> !((#[trigger] rs[i]) is OPT),
    ensures
        edns_size(rs) is None,
    decreases rs.len(),
{
    if rs.len() > 0 {
        let t = rs.drop_first();
        assert forall|i: int| 0 <= i < t.len() implies !((#[trigger] t[i]) is OPT) by {
            assert(t[i] == rs[i + 1]);
        }
        lemma_no_opt(t);
    }
}

proof fn lemma_stripped_has_none(rs: Seq<RecordView>)
    ensures
        forall|i: int|
            0 <= i < opt_stripped(rs).len() ==> !((#[trigger] opt_stripped(rs)[i]) is OPT),
    decreases rs.len(),
{
    if rs.len() > 0 {
        lemma_stripped_has_none(rs.drop_last());
    }
}

proof fn lemma_opt_stripped(rs: Seq<RecordView>)
    ensures
        edns_size(opt_stripped(rs)) is None,
{
    lemma_stripped_has_none(rs);
    lemma_no_opt(opt_stripped(rs));
}

proof fn lemma_least_ttl(rs: Seq<RecordView>, or: u32)
    ensures
        forall|i: int| 0 <= i < rs.len() ==> least_ttl(rs, or) <= (#[trigger] rs[i]).ttl(),
        rs.len() > 0 ==> exists|i: int|
            0 <= i < rs.len() && (#[trigger] rs[i]).ttl() == least_ttl(rs, or),
    decreases rs.len(),
{
    if rs.len() == 1 {
        assert(rs[0].ttl() == least_ttl(rs, or));
    }
    if rs.len() > 1 {
        let init = rs.drop_last();
        lemma_least_ttl(init, or);
        let i = choose|i: int|
            0 <= i < init.len() && (#[trigger] init[i]).ttl() == least_ttl(init, or);
        assert(init[i] == rs[i]);
        assert(rs[rs.len() - 1] == rs.last());
        assert forall|i: int| 0 <= i < rs.len() implies least_ttl(rs, or) <= (
        #[trigger] rs[i]).ttl() by {
            if i < init.len() {
                assert(init[i] == rs[i]);
            }
        }
    }
}

/// DNS64 leaves a response with AAAA records alone. Otherwise every A record that the
/// zone holds for the name gives one AAAA record, in which its address can be read
/// off, and nothing else is in the answer.
pub proof fn law_dns64(
    response: PacketView,
    zones: Seq<AuthZone>,
    qname: Seq<char>,
    prefix: Ipv6Addr,
)
    ensures
        ({
            let made = dns64_records(zones, lowercase(qname), prefix);
            let r = dns64_applied(response, zones, qname, prefix);
            &&& has_aaaa(response.answers) ==> r == response
            &&& made.len() == 0 ==> r == response
            &&& !has_aaaa(response.answers) && made.len() > 0 ==> r.answers == made
                && r.header.flags & 0x000F == 0 && r.header.flags & FLAG_AA != 0
            &&& forall|i: int|
                0 <= i < made.len() ==> {
                    &&& (#[trigger] made[i]) matches RecordView::AAAA { domain, addr, .. }
                    &&& domain == lowercase(qname)
                    &&& addr.bits / 0x1_0000_0000 == prefix.bits / 0x1_0000_0000
                }
        }),
{
    let name = lowercase(qname);
    let f = response.header.flags;
    assert(((f & !0x000Fu16) | 0x0400) & 0x000F == 0) by (bit_vector);
    assert(((f & !0x000Fu16) | 0x0400) & 0x0400 != 0) by (bit_vector);
    if let Some(z) = find_zone(zones, name) {
        if z.records@.contains_key(name) {
            lemma_aaaa_for(z.records@[name], prefix, name);
        }
    }
}

proof fn lemma_aaaa_for(rs: Seq<RecordView>, prefix: Ipv6Addr, owner: Seq<char>)
    ensures
        forall|i: int|
            0 <= i < aaaa_for(rs, prefix, owner).len() ==> {
                &&& (#[trigger] aaaa_for(rs, prefix, owner)[i]) matches RecordView::AAAA {
                    domain,
                    addr,
                    ..
                }
                &&& domain == owner
                &&& addr.bits / 0x1_0000_0000 == prefix.bits / 0x1_0000_0000
            },
    decreases rs.len(),
{
    if rs.len() > 0 {
        lemma_aaaa_for(rs.drop_last(), prefix, owner);
        if let RecordView::A { addr, .. } = rs.last() {
            law_embedded(prefix, addr);
        }
    }
}

/// Signing keeps the answers and adds behind them, for every answer, a signature by
/// the zone's apex over its owner and type.
pub proof fn law_signed(
    response: PacketView,
    zones: Seq<AuthZone>,
    qname: Seq<char>,
    qtype: u16,
    keys: &DnssecKeys,
    now: u32,
)
    requires
        keys.can_sign(),
        signer_of(zones, lowercase(qname)).len() > 0,
        qtype != DnsRecord::TYPE_DNSKEY,
    ensures
        ({
            let r = dnssec_applied(response, zones, qname, qtype, keys, now).answers;
            let n = response.answers.len() as int;
            &&& r.len() >= n
            &&& r.take(n) == response.answers
            &&& forall|i: int|
                0 <= i < n ==> exists|j: int|
                    n <= j < r.len() && covers(
                        #[trigger] r[j],
                        #[trigger] response.answers[i],
                        signer_of(zones, lowercase(qname)),
                    )
        }),
{
    let rs = response.answers;
    let n = rs.len() as int;
    let signer = signer_of(zones, lowercase(qname));
    let sigs = signatures(keys, rs, signer, now);
    let r = dnssec_applied(response, zones, qname, qtype, keys, now).answers;
    assert(sigs.len() == group_keys(rs).len());
    assert(r =~= rs + sigs);
    assert(r.take(n) =~= rs);
    assert forall|i: int| 0 <= i < n implies exists|j: int|
        n <= j < r.len() && covers(#[trigger] r[j], #[trigger] rs[i], signer) by {
        lemma_group_keys(rs);
        let k = group_key(rs[i]);
        assert(group_keys(rs).contains(k));
        let m = group_keys(rs).index_of(k);
        lemma_group_nonempty(rs, i);
        lemma_group_alike(rs, k);
        assert(sigs[m] == group_signature(keys, rs, k, signer, now));
        assert(r[n + m] == sigs[m]);
        assert(covers(r[n + m], rs[i], signer));
    }
}

/// A query for DNSKEY records at the apex of a signed zone is answered with the keys,
/// followed by a signature over them, with authority and without an error. A client reads
/// just these from the response, where it can be written without loss.
pub proof fn law_apex_keys(state: &ServerState, request: PacketView, unix: u32)
    requires
        state.dnssec_keys matches Some(keys) && keys.can_sign(),
        request.questions.len() > 0,
        request.questions[0].qtype == DnsRecord::TYPE_DNSKEY,
        is_apex(state.zones.seq(), lowercase(request.questions[0].qname)),
    ensures
        ({
            let keys = state.dnssec_keys->0;
            let r = state.local_answer(request, unix);
            let n = keys.keys@.len() as int;
            &&& r.header.flags & 0x000F == 0
            &&& r.header.flags & FLAG_AA != 0
            &&& r.answers.len() == n + 1
            &&& forall|i: int|
                0 <= i < n ==> #[trigger] r.answers[i] == keys.keys@[i].dnskey_spec(DNSKEY_TTL)
            &&& r.answers[n] matches RecordView::RRSIG { type_covered, signer_name, .. }
            &&& type_covered == DnsRecord::TYPE_DNSKEY
            &&& signer_name == lowercase(request.questions[0].qname)
            &&& message_ok(r) && message_short(r) ==> (read_message(message_octets(r)) matches Ok(q)
                && q.answers == r.answers)
        }),
{
    let keys = state.dnssec_keys->0;
    let r = state.local_answer(request, unix);
    let records = dnskeys_of(keys.keys@, DNSKEY_TTL);
    let f = response_to(request, &state.zones).header.flags;
    assert((f | 0x0400) & !0x000Fu16 & 0x000F == 0) by (bit_vector);
    assert((f | 0x0400) & !0x000Fu16 & 0x0400 != 0) by (bit_vector);
    assert(r.answers == apex_answers(&keys, lowercase(request.questions[0].qname), unix));
    assert(records[0] == keys.keys@[0].dnskey_spec(DNSKEY_TTL));
    if message_ok(r) && message_short(r) {
        law_answers_back(r);
    }
}

/// Whether a record is a signature over records of the owner and type of another.
pub open spec fn covers(sig: RecordView, r: RecordView, signer: Seq<char>) -> bool {
    sig matches RecordView::RRSIG { domain, type_covered, signer_name, .. } && domain == r.domain()
        && type_covered == r.rtype() && signer_name == signer
}

proof fn lemma_group_alike(rs: Seq<RecordView>, key: (Seq<char>, u16))
    ensures
        forall|i: int|
            0 <= i < group(rs, key).len() ==> group_key(#[trigger] group(rs, key)[i]) == key,
    decreases rs.len(),
{
    if rs.len() > 0 {
        let before = group(rs.drop_last(), key);
        lemma_group_alike(rs.drop_last(), key);
        assert forall|i: int| 0 <= i < group(rs, key).len() implies group_key(
            #[trigger] group(rs, key)[i],
        ) == key by {
            if i < before.len() {
                assert(group(rs, key)[i] == before[i]);
            }
        }
    }
}

/// A query for a name gets the same answer in whatever case the name is written.
pub proof fn law_case_insensitive(state: &ServerState, a: PacketView, b: PacketView, unix: u32)
    requires
        a.header == b.header,
        a.additionals == b.additionals,
        a.questions.len() == b.questions.len() > 0,
        lowercase(a.questions[0].qname) == lowercase(b.questions[0].qname),
        a.questions[0].qtype == b.questions[0].qtype,
    ensures
        ({
            let x = state.local_answer(a, unix);
            let y = state.local_answer(b, unix);
            &&& x.header == y.header
            &&& x.answers == y.answers
            &&& x.authorities == y.authorities
            &&& x.additionals == y.additionals
        }),
        state.is_blocked_query(a) == state.is_blocked_query(b),
        state.goes_upstream(a) == state.goes_upstream(b),
{
}

/// The size of the UDP response that a client takes: what is granted of the size it
/// offers, and 512 octets where it offers none.
pub open spec fn client_limit(request: PacketView) -> nat {
    match edns_size(request.additionals) {
        Some(size) => granted_size(size) as nat,
        None => DnsPacket::MAX_UDP_SIZE as nat,
    }
}

/// Whether octets are a message that was cut to its head because it does not fit.
pub open spec fn cut_short(b: Seq<u8>) -> bool {
    exists|p: PacketView| b == #[trigger] message_octets(p.truncated())
}

/// Over UDP a client is never sent more than it takes, unless it is told that the
/// response is cut short.
pub proof fn law_udp_fits(state: &ServerState, req: Seq<u8>, client: IpAddr, t: Times)
    requires
        holds_messages(state.cache@),
    ensures
        state.local_outcome(req, client, Transport::Udp, t) matches Outcome::Ready(b) ==> {
            &&& read_message(req) is Ok
            &&& b.len() <= client_limit(read_message(req)->Ok_0) || cut_short(b)
        },
{
    if let Outcome::Ready(b) = state.local_outcome(req, client, Transport::Udp, t) {
        let request = read_message(req)->Ok_0;
        if state.is_blocked_query(request) {
            lemma_fits(synthesized(request, RCODE_NXDOMAIN));
        } else {
            let answer = state.local_answer(request, t.unix);
            let flagged = PacketView {
                header: DnsHeader { flags: answer.header.flags | FLAG_RA, ..answer.header },
                ..answer
            };
            lemma_local_limit(state, request, t.unix);
            lemma_fits(answer);
            lemma_fits(flagged);
            if state.goes_upstream(request) {
                let key = cache_key(
                    lowercase(request.questions[0].qname),
                    request.questions[0].qtype,
                );
                if fresh(state.cache@, key, t.cache) {
                    law_replay_fits(state.cache@[key].records@, request);
                }
            } else if !state.offers_recursion() {
                law_authoritative_only(state, request, req, Transport::Udp, t);
            }
        }
    }
}

/// So too for what is replayed of a reply that parses.
pub proof fn law_replay_fits(raw: Seq<u8>, request: PacketView)
    requires
        read_message(raw) is Ok,
    ensures
        replayed(raw, request, Transport::Udp).len() <= client_limit(request) || cut_short(
            replayed(raw, request, Transport::Udp),
        ),
{
    let p = read_message(raw)->Ok_0;
    let q = PacketView {
        header: DnsHeader { id: request.header.id, ..p.header },
        additionals: edns_aligned(p.additionals, edns_size(request.additionals)),
        ..p
    };
    law_edns_aligned(p, request);
    lemma_fits(q);
    if let Some(size) = edns_size(request.additionals) {
        assert(granted_size(granted_size(size)) == granted_size(size));
    }
}

proof fn lemma_fits(p: PacketView)
    ensures
        p.udp_octets().len() <= p.udp_limit() || cut_short(p.udp_octets()),
{
    if message_octets(p).len() > p.udp_limit() {
        assert(p.udp_octets() == message_octets(p.truncated()));
    }
}

proof fn lemma_local_limit(state: &ServerState, request: PacketView, unix: u32)
    ensures
        state.local_answer(request, unix).udp_limit() == client_limit(request),
{
    let plain = response_to(request, &state.zones);
    assert(plain.additionals == edns_echo(request));
    assert(state.local_answer(request, unix).additionals == plain.additionals);
    if let Some(size) = edns_size(request.additionals) {
        assert(granted_size(granted_size(size)) == granted_size(size));
        assert(edns_echo(request)[0] == RecordView::OPT { udp_size: granted_size(size) });
    }
}

/// A query for a name that the zones do not hold, with recursion desired, goes upstream
/// where recursion is offered and nothing valid is cached: by the rule for its name or the
/// default, and else down from the root.
pub proof fn law_asked_upstream(
    state: &ServerState,
    request: PacketView,
    raw: Seq<u8>,
    transport: Transport,
    t: Times,
)
    requires
        request.questions.len() > 0,
        state.zones.answer(lowercase(request.questions[0].qname)) is None,
        request.header.flags & FLAG_RD != 0,
        state.offers_recursion(),
    ensures
        ({
            let name = lowercase(request.questions[0].qname);
            let qtype = request.questions[0].qtype;
            let outcome = state.request_outcome(request, raw, transport, t);
            let key = cache_key(name, qtype);
            if fresh(state.cache@, key, t.cache) {
                outcome == Outcome::Ready(
                    replayed(state.cache@[key].records@, request, transport),
                )
            } else {
                match state.forward_rules.upstream_for(name) {
                    Some(upstream) => outcome == Outcome::Forward(
                        ForwardView { request, raw, name, qtype, upstream, transport },
                    ),
                    None => state.recursive is Some ==> (outcome matches Outcome::Forward(f)
                        && f.request == request && f.raw == raw && f.name == name && f.qtype
                        == qtype && f.transport == transport && ServerState::route_of(f)
                        is Recursive),
                }
            }
        }),
{
    law_response_header(request, &state.zones);
}

/// What is answered here carries the records of the local answer, and says that recursion
/// is available just where it is.
pub proof fn law_answered_here(
    state: &ServerState,
    request: PacketView,
    raw: Seq<u8>,
    transport: Transport,
    t: Times,
)
    requires
        !state.goes_upstream(request),
    ensures
        exists|p: PacketView|
            {
                let a = state.local_answer(request, t.unix);
                &&& state.request_outcome(request, raw, transport, t) == Outcome::Ready(
                    #[trigger] encoded(p, transport),
                )
                &&& p.questions == a.questions
                &&& p.answers == a.answers
                &&& p.authorities == a.authorities
                &&& p.additionals == a.additionals
                &&& p.header.id == a.header.id
                &&& p.header.flags & 0x000F == a.header.flags & 0x000F
                &&& p.header.flags & !FLAG_RA == a.header.flags & !FLAG_RA
                &&& state.offers_recursion() ==> p.header.flags & FLAG_RA != 0
                &&& !state.offers_recursion() ==> p.header.flags == a.header.flags
            },
{
    let a = state.local_answer(request, t.unix);
    let f = a.header.flags;
    assert({
        &&& (f | 0x0080) & 0x000F == f & 0x000F
        &&& (f | 0x0080) & !0x0080u16 == f & !0x0080u16
        &&& (f | 0x0080) & 0x0080 != 0
    }) by (bit_vector);
    let flags = if state.offers_recursion() {
        f | FLAG_RA
    } else {
        f
    };
    let p = PacketView { header: DnsHeader { flags, ..a.header }, ..a };
    assert(state.request_outcome(request, raw, transport, t) == Outcome::Ready(
        encoded(p, transport),
    ));
}

/// The local answer is what the zones say, unless the server signs or makes up addresses.
/// Addresses are made up for AAAA queries alone, and the questions, the ID and the
/// additional records are never touched.
pub proof fn law_local_answer(state: &ServerState, request: PacketView, unix: u32)
    ensures
        ({
            let plain = response_to(request, &state.zones);
            let a = state.local_answer(request, unix);
            &&& state.dnssec_keys is None && state.dns64_prefix is None ==> a == plain
            &&& request.questions.len() == 0 ==> a == plain
            &&& request.questions.len() > 0 && state.dnssec_keys is None
                && request.questions[0].qtype != 28 ==> a == plain
            &&& request.questions.len() > 0 && state.dnssec_keys is None
                && request.questions[0].qtype == 28 ==> (state.dns64_prefix matches Some(prefix)
                ==> a == dns64_applied(
                plain,
                state.zones.seq(),
                request.questions[0].qname,
                prefix,
            ))
            &&& request.questions.len() > 0 && request.questions[0].qtype != 28 ==> (
            state.dnssec_keys matches Some(keys) ==> a == dnssec_applied(
                plain,
                state.zones.seq(),
                request.questions[0].qname,
                request.questions[0].qtype,
                &keys,
                unix,
            ))
            &&& a.questions == request.questions
            &&& a.header.id == request.header.id
            &&& a.additionals == plain.additionals
        }),
{
    law_response_header(request, &state.zones);
}

/// Where a name has A records in its zone and the answer holds no AAAA record, a client
/// gets an AAAA record for each of them, and nothing else.
pub proof fn law_dns64_answers(
    response: PacketView,
    zones: Seq<AuthZone>,
    qname: Seq<char>,
    prefix: Ipv6Addr,
    z: AuthZone,
)
    requires
        find_zone(zones, lowercase(qname)) == Some(z),
        z.records@.contains_key(lowercase(qname)),
        !has_aaaa(response.answers),
        z.records@[lowercase(qname)].filter(|r: RecordView| r is A).len() > 0,
    ensures
        ({
            let r = dns64_applied(response, zones, qname, prefix);
            &&& r.answers == z.records@[lowercase(qname)].filter(
                |r: RecordView| r is A,
            ).map_values(
                |r: RecordView|
                    RecordView::AAAA {
                        domain: lowercase(qname),
                        addr: embedded(prefix, r->A_addr),
                        ttl: r->A_ttl,
                    },
            )
            &&& r.questions == response.questions
            &&& r.authorities.len() == 0
            &&& r.additionals == response.additionals
            &&& r.header.id == response.header.id
            &&& r.header.flags & 0x000F == 0
        }),
{
    law_aaaa_for(z.records@[lowercase(qname)], prefix, lowercase(qname));
    law_dns64(response, zones, qname, prefix);
}

/// A response of no zone is not signed, nor is one without answers; signing adds to the
/// answers and changes nothing else.
pub proof fn law_signing_adds(
    response: PacketView,
    zones: Seq<AuthZone>,
    qname: Seq<char>,
    qtype: u16,
    keys: &DnssecKeys,
    now: u32,
)
    requires
        qtype != DnsRecord::TYPE_DNSKEY || !is_apex(zones, lowercase(qname)),
    ensures
        ({
            let r = dnssec_applied(response, zones, qname, qtype, keys, now);
            &&& find_zone(zones, lowercase(qname)) is None ==> r == response
            &&& response.answers.len() == 0 ==> r == response
            &&& !keys.can_sign() ==> r == response
            &&& find_zone(zones, lowercase(qname)) matches Some(z) ==> (z.origin@.len() > 0
                && keys.can_sign() && response.answers.len() > 0 ==> r.answers == response.answers
                + signatures(keys, response.answers, z.origin@, now))
            &&& r.questions == response.questions
            &&& r.authorities == response.authorities
            &&& r.additionals == response.additionals
            &&& r.header.id == response.header.id
            &&& r.header.flags == response.header.flags
        }),
{
    law_signature_count(keys, response.answers, signer_of(zones, lowercase(qname)), now);
}

} // verus!
