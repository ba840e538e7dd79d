//! DNS-over-HTTPS (RFC 8484) support.
//!
//! Implements the `/dns-query` endpoint:
//! - `POST` with an `application/dns-message` body (raw DNS query), or
//! - `GET /dns-query?dns=<base64url>` (RFC 4648 section 5, no padding).
//!
//! The response carries the raw DNS message as `application/dns-message`. Reading
//! from and writing to a connection are left to the caller.

use crate::bytes::copy_range;
use crate::net::IpAddr;
use crate::state::{ForwardCtx, Outcome, Resolution, ServerState, Transport};
use crate::text::{
    after, before, begins_with, decimal, decimal_text, eq_ignore_ascii_case, finishes_with,
    first_of, holds, is_blank, is_digit, is_space, law_trim, lemma_cut, lemma_decimal_digits,
    lemma_decimal_round_trip, lemma_first_of, lemma_first_of_is, lemma_number_bound, lossy_text,
    number, occurs, pair_pieces, parse_number, pieces, same_but_case, skip_chars, split, split_once,
    split_pairs, split_whitespace, starts_with, text_eq, texts, trim, trim_spec, utf8_lossy, words,
};
use base64::engine::general_purpose::URL_SAFE_NO_PAD;
use base64::Engine;
use vstd::prelude::*;

verus! {

/// Maximum size of the request head (request line + headers) we will buffer.
pub const MAX_HEAD: usize = 16384;

/// Maximum DNS message size we will accept in a request body.
pub const MAX_BODY: usize = 65536;

/// The character of the URL-safe base64 alphabet for six bits.
pub open spec fn base64url_char(v: int) -> char {
    if v < 26 {
        (v + 'A' as int) as char
    } else if v < 52 {
        (v - 26 + 'a' as int) as char
    } else if v < 62 {
        (v - 52 + '0' as int) as char
    } else if v == 62 {
        '-'
    } else {
        '_'
    }
}

/// Octets in the URL-safe base64 alphabet, three octets in four characters, without
/// padding at the end (RFC 4648 section 5).
pub open spec fn base64url_text(b: Seq<u8>) -> Seq<char>
    decreases b.len(),
{
    if b.len() == 0 {
        Seq::empty()
    } else if b.len() == 1 {
        seq![base64url_char(b[0] as int / 4), base64url_char(b[0] as int % 4 * 16)]
    } else if b.len() == 2 {
        seq![
            base64url_char(b[0] as int / 4),
            base64url_char(b[0] as int % 4 * 16 + b[1] as int / 16),
            base64url_char(b[1] as int % 16 * 4),
        ]
    } else {
        seq![
            base64url_char(b[0] as int / 4),
            base64url_char(b[0] as int % 4 * 16 + b[1] as int / 16),
            base64url_char(b[1] as int % 16 * 4 + b[2] as int / 64),
            base64url_char(b[2] as int % 64),
        ] + base64url_text(b.skip(3))
    }
}

/// `Engine::decode` of `URL_SAFE_NO_PAD`: the octets of which the text is the
/// encoding. A text that is the encoding of none is refused: padding, characters of
/// no meaning, and bits left over that are not zero.
#[verifier::external_body]
fn decode_base64url(text: &str) -> (r: Option<Vec<u8>>)
    ensures
        match r {
            Some(v) => base64url_text(v@) == text@,
            None => forall|b: Seq<u8>| #[trigger] base64url_text(b) != text@,
        },
{
    URL_SAFE_NO_PAD.decode(text).ok()
}

/// The outcome of handling a DoH request: an HTTP status and a DNS message body.
#[derive(Debug)]
pub struct DohResponse {
    pub status: u16,
    pub body: Vec<u8>,
}

impl DohResponse {
    /// A response without a body.
    pub fn error(status: u16) -> (r: Self)
        ensures
            r.status == status,
            r.body@.len() == 0,
    {
        DohResponse { status, body: Vec::new() }
    }
}

/// The value of the first `dns` parameter of a query string.
pub open spec fn dns_param(pairs: Seq<Seq<char>>) -> Option<Seq<char>>
    decreases pairs.len(),
{
    if pairs.len() == 0 {
        None
    } else if begins_with(pairs[0], "dns="@) {
        Some(pairs[0].skip(4))
    } else {
        dns_param(pairs.drop_first())
    }
}

/// Whether octets are what the `dns` parameter of a query string encodes.
pub open spec fn encoded_query(query: Seq<char>, b: Seq<u8>) -> bool {
    dns_param(pieces(query, '&')) == Some(base64url_text(b))
}

/// Extracts and base64url-decodes the `dns` parameter from a query string.
pub fn extract_dns_param(query: &str) -> (r: Option<Vec<u8>>)
    ensures
        match r {
            Some(v) => encoded_query(query@, v@),
            None => forall|b: Seq<u8>| !#[trigger] encoded_query(query@, b),
        },
{
    let pairs = split(query, '&');
    let ghost ps = pieces(query@, '&');
    let mut i: usize = 0;
    proof {
        assert(ps.skip(0) =~= ps);
        assert(texts(pairs@).len() == pairs@.len());
        reveal_strlit("dns=");
    }
    while i < pairs.len()
        invariant
            i <= pairs@.len(),
            ps == texts(pairs@),
            ps == pieces(query@, '&'),
            "dns="@.len() == 4,
            dns_param(ps) == dns_param(ps.skip(i as int)),
        decreases pairs@.len() - i,
    {
        proof {
            assert(ps.skip(i as int)[0] == pairs@[i as int]@);
            assert(ps.skip(i as int).drop_first() =~= ps.skip(i + 1));
        }
        if starts_with(pairs[i], "dns=") {
            let value = skip_chars(pairs[i], 4);
            return decode_base64url(value);
        }
        i = i + 1;
    }
    None
}

/// Whether the request is for another path than `/dns-query`.
pub open spec fn wrong_path(target: Seq<char>) -> bool {
    before(target, '?') != "/dns-query"@
}

/// Whether octets are the DNS query that a request carries: the body of a POST, or
/// what the `dns` parameter of a GET encodes.
pub open spec fn carries(method: Seq<char>, target: Seq<char>, body: Seq<u8>, q: Seq<u8>) -> bool {
    if method == "POST"@ {
        q == body
    } else {
        method == "GET"@ && occurs(target, '?') && encoded_query(after(target, '?'), q)
    }
}

/// Takes the DNS query out of an HTTP request, or says with which status it is
/// turned down: 404 for another path, 405 for another method, 400 for a query that
/// is missing, empty or too long.
pub fn request_query(method: &str, target: &str, body: &[u8]) -> (r: Result<Vec<u8>, u16>)
    ensures
        match r {
            Ok(q) => !wrong_path(target@) && carries(method@, target@, body@, q@) && 0 < q@.len()
                <= MAX_BODY,
            Err(status) => if wrong_path(target@) {
                status == 404
            } else if method@ != "POST"@ && method@ != "GET"@ {
                status == 405
            } else {
                status == 400 && forall|q: Seq<u8>| #[trigger]
                    carries(method@, target@, body@, q) ==> q.len() == 0 || q.len() > MAX_BODY
            },
        },
{
    proof {
        lemma_cut(target@, '?');
    }
    let (path, query): (&str, Option<&str>) = match split_once(target, '?') {
        Some((p, q)) => (p, Some(q)),
        None => (target, None),
    };
    if !text_eq(path, "/dns-query") {
        return Err(404);
    }
    let query_bytes: Vec<u8> = if text_eq(method, "POST") {
        let b = copy_range(body, 0, body.len());
        assert(b@ =~= body@);
        b
    } else if text_eq(method, "GET") {
        match query {
            Some(q) => match extract_dns_param(q) {
                Some(decoded) => decoded,
                None => return Err(400),
            },
            None => return Err(400),
        }
    } else {
        return Err(405);
    };
    if query_bytes.len() == 0 || query_bytes.len() > MAX_BODY {
        proof {
            assert forall|q: Seq<u8>| #[trigger] carries(method@, target@, body@, q) implies q.len()
                == 0 || q.len() > MAX_BODY by {
                law_base64url_injective(q, query_bytes@);
            }
        }
        return Err(400);
    }
    Ok(query_bytes)
}

/// No two runs of octets have the same encoding.
pub proof fn law_base64url_injective(a: Seq<u8>, b: Seq<u8>)
    ensures
        base64url_text(a) == base64url_text(b) ==> a == b,
    decreases a.len(),
{
    if base64url_text(a) == base64url_text(b) {
        let s = base64url_text(a);
        lemma_base64url_len(a);
        lemma_base64url_len(b);
        assert(a.len() == b.len());
        if a.len() == 0 {
            assert(a =~= b);
        } else {
            lemma_char_injective(a[0] as int / 4, b[0] as int / 4);
            assert(s[0] == base64url_char(a[0] as int / 4));
            if a.len() == 1 {
                lemma_char_injective(a[0] as int % 4 * 16, b[0] as int % 4 * 16);
                assert(s[1] == base64url_char(a[0] as int % 4 * 16));
                assert(a =~= b);
            } else {
                lemma_char_injective(
                    a[0] as int % 4 * 16 + a[1] as int / 16,
                    b[0] as int % 4 * 16 + b[1] as int / 16,
                );
                assert(s[1] == base64url_char(a[0] as int % 4 * 16 + a[1] as int / 16));
                if a.len() == 2 {
                    lemma_char_injective(a[1] as int % 16 * 4, b[1] as int % 16 * 4);
                    assert(s[2] == base64url_char(a[1] as int % 16 * 4));
                    assert(a =~= b);
                } else {
                    lemma_char_injective(
                        a[1] as int % 16 * 4 + a[2] as int / 64,
                        b[1] as int % 16 * 4 + b[2] as int / 64,
                    );
                    lemma_char_injective(a[2] as int % 64, b[2] as int % 64);
                    assert(s[2] == base64url_char(a[1] as int % 16 * 4 + a[2] as int / 64));
                    assert(s[3] == base64url_char(a[2] as int % 64));
                    assert(s.skip(4) =~= base64url_text(a.skip(3)));
                    assert(s.skip(4) =~= base64url_text(b.skip(3)));
                    law_base64url_injective(a.skip(3), b.skip(3));
                    assert(a =~= seq![a[0], a[1], a[2]] + a.skip(3));
                    assert(b =~= seq![b[0], b[1], b[2]] + b.skip(3));
                }
            }
        }
    }
}

proof fn lemma_char_injective(v: int, w: int)
    requires
        0 <= v < 64,
        0 <= w < 64,
    ensures
        base64url_char(v) == base64url_char(w) ==> v == w,
{
}

proof fn lemma_base64url_len(b: Seq<u8>)
    ensures
        base64url_text(b).len() == (b.len() * 4 + 2) / 3,
    decreases b.len(),
{
    if b.len() > 2 {
        lemma_base64url_len(b.skip(3));
    }
}

/// What comes of a DoH request.
#[derive(Debug)]
pub enum HttpResolution {
    /// The response is ready.
    Response(DohResponse),
    /// The query must be forwarded upstream; the reply goes out with status 200.
    Forward(ForwardCtx),
}

/// Whether a request is turned down with a status and an empty body.
pub open spec fn refused(r: HttpResolution, status: u16) -> bool {
    r matches HttpResolution::Response(x) && x.status == status && x.body@.len() == 0
}

/// Whether an HTTP response follows from what came of the query: status 200 with the
/// DNS response, and status 400 where the query was dropped.
pub open spec fn answers_http(r: HttpResolution, outcome: Outcome) -> bool {
    match outcome {
        Outcome::Ready(b) => r matches HttpResolution::Response(x) && x.status == 200 && x.body@
            == b,
        Outcome::Drop => refused(r, 400),
        Outcome::Forward(c) => r matches HttpResolution::Forward(x) && x@ == c,
    }
}

/// Turns what came of a query into an HTTP response.
pub fn http_response(resolution: Resolution) -> (r: HttpResolution)
    ensures
        answers_http(r, resolution@),
{
    match resolution {
        Resolution::Ready(body) => HttpResolution::Response(DohResponse { status: 200, body }),
        Resolution::Drop => HttpResolution::Response(DohResponse::error(400)),
        Resolution::Forward(ctx) => HttpResolution::Forward(ctx),
    }
}

/// Resolves a DoH request given its method, request target, and body.
///
/// This is the transport-agnostic core, kept separate from socket/HTTP framing.
/// DoH runs over HTTP, so there is no 512-byte UDP limit.
pub fn resolve_http(
    state: &mut ServerState,
    method: &str,
    target: &str,
    body: &[u8],
    client: IpAddr,
) -> (r: HttpResolution)
    ensures
        final(state).same_config(old(state)),
        if wrong_path(target@) {
            refused(r, 404) && *final(state) == *old(state)
        } else if method@ != "POST"@ && method@ != "GET"@ {
            refused(r, 405) && *final(state) == *old(state)
        } else if forall|q: Seq<u8>| #[trigger]
            carries(method@, target@, body@, q) ==> q.len() == 0 || q.len() > MAX_BODY {
            refused(r, 400) && *final(state) == *old(state)
        } else {
            exists|q: Seq<u8>, o: Outcome|
                {
                    &&& #[trigger] carries(method@, target@, body@, q)
                    &&& 0 < q.len() <= MAX_BODY
                    &&& #[trigger] old(state).resolves(final(state), q, client, Transport::Tcp, o)
                    &&& answers_http(r, o)
                }
        },
{
    match request_query(method, target, body) {
        Ok(query) => {
            let resolution = state.resolve(query.as_slice(), client, Transport::Tcp);
            assert(carries(method@, target@, body@, query@));
            assert(old(state).resolves(state, query@, client, Transport::Tcp, resolution@));
            http_response(resolution)
        },
        Err(status) => HttpResolution::Response(DohResponse::error(status)),
    }
}

/// Whether `needle` stands in `haystack` at place `i`.
pub open spec fn stands_at(haystack: Seq<u8>, needle: Seq<u8>, i: int) -> bool {
    0 <= i && i + needle.len() <= haystack.len() && haystack.subrange(i, i + needle.len()) == needle
}

/// Returns the index of the first occurrence of `needle` in `haystack`.
pub fn find_subslice(haystack: &[u8], needle: &[u8]) -> (r: Option<usize>)
    ensures
        match r {
            Some(i) => needle@.len() > 0 && stands_at(haystack@, needle@, i as int) && forall|
                j: int,
            |
                0 <= j < i ==> !#[trigger] stands_at(haystack@, needle@, j),
            None => needle@.len() == 0 || forall|j: int|
                !#[trigger] stands_at(haystack@, needle@, j),
        },
{
    if needle.len() == 0 || haystack.len() < needle.len() {
        return None;
    }
    let total: usize = haystack.len();
    let mut i: usize = 0;
    while i <= total - needle.len()
        invariant
            total == haystack@.len(),
            0 < needle@.len() <= haystack@.len(),
            i <= haystack@.len() - needle@.len() + 1,
            forall|j: int| 0 <= j < i ==> !#[trigger] stands_at(haystack@, needle@, j),
        decreases haystack@.len() + 1 - i,
    {
        let mut k: usize = 0;
        let mut same = true;
        while k < needle.len() && same
            invariant
                i + needle@.len() <= total,
                total == haystack@.len(),
                k <= needle@.len(),
                same ==> forall|j: int| 0 <= j < k ==> haystack@[i + j] == needle@[j],
                !same ==> exists|j: int|
                    0 <= j < needle@.len() && #[trigger] haystack@[i + j] != needle@[j],
            decreases needle@.len() - k,
        {
            if haystack[i + k] != needle[k] {
                same = false;
                assert(haystack@[i + k as int] != needle@[k as int]);
            }
            k = k + 1;
        }
        if same {
            assert(haystack@.subrange(i as int, i + needle@.len()) =~= needle@);
            return Some(i);
        }
        proof {
            let j = choose|j: int|
                0 <= j < needle@.len() && #[trigger] haystack@[i + j] != needle@[j];
            assert(haystack@.subrange(i as int, i + needle@.len())[j] == haystack@[i + j]);
        }
        i = i + 1;
    }
    None
}

/// How far the reading of a request head has come.
#[derive(Debug, Clone, Copy, PartialEq, Eq, Structural)]
pub enum HeadProgress {
    /// The head is not complete: read on.
    More,
    /// The head is too large: answer 431.
    TooLarge,
    /// The head is complete, and ends before the given place.
    Complete(usize),
}

/// The octets that end a request head: two line ends.
pub open spec fn head_end() -> Seq<u8> {
    seq![13u8, 10u8, 13u8, 10u8]
}

/// Looks whether the octets read so far hold a complete request head.
pub fn head_progress(buf: &[u8]) -> (r: HeadProgress)
    ensures
        match r {
            HeadProgress::Complete(end) => end >= 4 && stands_at(buf@, head_end(), end - 4)
                && forall|j: int| 0 <= j < end - 4 ==> !#[trigger] stands_at(buf@, head_end(), j),
            HeadProgress::TooLarge => buf@.len() > MAX_HEAD && forall|j: int|
                !#[trigger] stands_at(buf@, head_end(), j),
            HeadProgress::More => buf@.len() <= MAX_HEAD && forall|j: int|
                !#[trigger] stands_at(buf@, head_end(), j),
        },
{
    let needle: Vec<u8> = vec![13u8, 10u8, 13u8, 10u8];
    assert(needle@ =~= head_end());
    match find_subslice(buf, needle.as_slice()) {
        Some(i) => {
            let total: usize = buf.len();
            assert(i + 4 <= total);
            HeadProgress::Complete(i + 4)
        },
        None => if buf.len() > MAX_HEAD {
            HeadProgress::TooLarge
        } else {
            HeadProgress::More
        },
    }
}

/// What a request head says.
#[derive(Debug)]
pub struct RequestHead {
    pub method: String,
    pub target: String,
    pub content_length: usize,
}

/// The word at a place of a line; empty where it has fewer.
pub open spec fn word_at(line: Seq<char>, i: int) -> Seq<char> {
    if i < words(line).len() {
        words(line)[i]
    } else {
        Seq::empty()
    }
}

/// The length that a header line gives, if it is one that does.
pub open spec fn length_in(line: Seq<char>) -> Option<nat> {
    if occurs(line, ':') && same_but_case(trim_spec(before(line, ':')), "content-length"@) {
        number(trim_spec(after(line, ':')), usize::MAX as nat)
    } else {
        None
    }
}

/// The length that the first header line gives that gives any; 0 without one.
pub open spec fn content_length_of(lines: Seq<Seq<char>>) -> nat
    decreases lines.len(),
{
    if lines.len() == 0 {
        0
    } else {
        match length_in(lines[0]) {
            Some(n) => n,
            None => content_length_of(lines.drop_first()),
        }
    }
}

/// Parses a request head.
pub fn parse_head(head: &[u8]) -> (r: RequestHead)
    ensures
        ({
            let lines = pair_pieces(utf8_lossy(head@), '\r', '\n');
            &&& r.method@ == word_at(lines[0], 0)
            &&& r.target@ == word_at(lines[0], 1)
            &&& r.content_length == content_length_of(lines.drop_first())
        }),
{
    let text = lossy_text(head);
    let lines = split_pairs(text.as_str(), '\r', '\n');
    let ghost ls = pair_pieces(utf8_lossy(head@), '\r', '\n');
    proof {
        assert(ls == texts(lines@));
        assert(ls[0] == lines@[0]@);
        assert(ls.len() == lines@.len());
    }
    let parts = split_whitespace(lines[0]);
    assert(texts(parts@).len() == parts@.len());
    let method: String = if parts.len() > 0 {
        parts[0].to_owned()
    } else {
        let s = String::new();
        assert(s@ =~= Seq::empty());
        s
    };
    let target: String = if parts.len() > 1 {
        parts[1].to_owned()
    } else {
        let s = String::new();
        assert(s@ =~= Seq::empty());
        s
    };
    let ghost headers = ls.drop_first();
    let mut i: usize = 1;
    proof {
        assert(headers.skip(0) =~= headers);
    }
    while i < lines.len()
        invariant
            1 <= i <= lines@.len(),
            ls == texts(lines@),
            ls.len() == lines@.len(),
            headers == ls.drop_first(),
            content_length_of(headers) == content_length_of(headers.skip(i - 1)),
            ls == pair_pieces(utf8_lossy(head@), '\r', '\n'),
            method@ == word_at(ls[0], 0),
            target@ == word_at(ls[0], 1),
        decreases lines@.len() - i,
    {
        proof {
            assert(headers.skip(i - 1)[0] == lines@[i as int]@);
            assert(headers.skip(i - 1).drop_first() =~= headers.skip(i as int));
        }
        if let Some(n) = header_length(lines[i]) {
            return RequestHead { method, target, content_length: n };
        }
        i = i + 1;
    }
    proof {
        assert(headers.skip(i - 1) =~= Seq::empty());
    }
    RequestHead { method, target, content_length: 0 }
}

fn header_length(line: &str) -> (r: Option<usize>)
    ensures
        match r {
            Some(n) => length_in(line@) == Some(n as nat),
            None => length_in(line@) is None,
        },
{
    match split_once(line, ':') {
        Some((name, value)) => {
            if !eq_ignore_ascii_case(trim(name), "content-length") {
                return None;
            }
            let v = trim(value);
            proof {
                lemma_number_bound(v@, usize::MAX as nat);
            }
            match parse_number(v, usize::MAX as u64) {
                Some(n) => Some(n as usize),
                None => None,
            }
        },
        None => None,
    }
}

/// The reason phrase of a status.
pub open spec fn reason_of(status: u16) -> Seq<char> {
    if status == 200 {
        "OK"@
    } else if status == 400 {
        "Bad Request"@
    } else if status == 404 {
        "Not Found"@
    } else if status == 405 {
        "Method Not Allowed"@
    } else if status == 413 {
        "Payload Too Large"@
    } else if status == 431 {
        "Request Header Fields Too Large"@
    } else {
        "Error"@
    }
}

fn reason(status: u16) -> (r: &'static str)
    ensures
        r@ == reason_of(status),
{
    if status == 200 {
        "OK"
    } else if status == 400 {
        "Bad Request"
    } else if status == 404 {
        "Not Found"
    } else if status == 405 {
        "Method Not Allowed"
    } else if status == 413 {
        "Payload Too Large"
    } else if status == 431 {
        "Request Header Fields Too Large"
    } else {
        "Error"
    }
}

/// The head of an HTTP/1.1 response with a DNS message of the given length.
pub open spec fn head_text(status: u16, length: nat) -> Seq<char> {
    "HTTP/1.1 "@ + decimal(status as nat) + " "@ + reason_of(status)
        + "\r\nContent-Type: application/dns-message\r\nContent-Length: "@ + decimal(length)
        + "\r\nConnection: close\r\n\r\n"@
}

/// Writes the head of an HTTP/1.1 response carrying an `application/dns-message`
/// body.
pub fn response_head(response: &DohResponse) -> (r: String)
    ensures
        r@ == head_text(response.status, response.body@.len()),
{
    let mut out = "HTTP/1.1 ".to_owned();
    out.append(decimal_text(response.status as u64).as_str());
    out.append(" ");
    out.append(reason(response.status));
    out.append("\r\nContent-Type: application/dns-message\r\nContent-Length: ");
    out.append(decimal_text(response.body.len() as u64).as_str());
    out.append("\r\nConnection: close\r\n\r\n");
    out
}

/// How many octets of body to read after a head, or the HTTP status that a request
/// gets whose head announces too many.
pub fn body_len(head: &RequestHead) -> (r: Result<usize, u16>)
    ensures
        r == (if head.content_length > MAX_BODY {
            Err(413u16)
        } else {
            Ok(head.content_length)
        }),
{
    if head.content_length > MAX_BODY {
        Err(413)
    } else {
        Ok(head.content_length)
    }
}

/// The body of a request: at most as many octets as its head announces, of those
/// that came after the head.
pub fn request_body(received: &[u8], content_length: usize) -> (r: Vec<u8>)
    ensures
        r@ == (if received@.len() <= content_length {
            received@
        } else {
            received@.take(content_length as int)
        }),
{
    let n: usize = if received.len() <= content_length {
        received.len()
    } else {
        content_length
    };
    let r = copy_range(received, 0, n);
    proof {
        if received@.len() <= content_length {
            assert(r@ =~= received@);
        } else {
            assert(r@ =~= received@.take(content_length as int));
        }
    }
    r
}

/// A query asked with GET is the query asked with POST: the target that encodes it
/// carries it and nothing else.
pub proof fn law_get_is_post(query: Seq<u8>, body: Seq<u8>, q: Seq<u8>)
    ensures
        !wrong_path("/dns-query?dns="@ + base64url_text(query)),
        !wrong_path("/dns-query"@),
        carries("GET"@, "/dns-query?dns="@ + base64url_text(query), body, q) <==> q == query,
        carries("POST"@, "/dns-query"@, query, q) <==> q == query,
{
    reveal_strlit("/dns-query?dns=");
    reveal_strlit("/dns-query");
    reveal_strlit("dns=");
    reveal_strlit("GET");
    reveal_strlit("POST");
    let text = base64url_text(query);
    let target = "/dns-query?dns="@ + text;
    assert("GET"@ != "POST"@) by {
        assert("GET"@.len() != "POST"@.len());
    }
    lemma_first_of_is(target, '?', 10);
    assert(before(target, '?') =~= "/dns-query"@);
    let param = after(target, '?');
    assert(param =~= "dns="@ + text);
    lemma_base64url_chars(query);
    assert(first_of(param, '&') == param.len()) by {
        lemma_first_of(param, '&');
        if param.contains('&') {
            let k = param.index_of('&');
            assert(param[k] == '&');
            if k >= 4 {
                assert(param[k] == text[k - 4]);
            }
        }
    }
    assert(pieces(param, '&') =~= seq![param]);
    assert(param.take(4) =~= "dns="@);
    assert(param.skip(4) =~= text);
    assert(dns_param(seq![param]) == Some(text));
    law_base64url_injective(q, query);
    lemma_first_of_is("/dns-query"@, '?', 10);
    assert(before("/dns-query"@, '?') =~= "/dns-query"@);
}

proof fn lemma_base64url_chars(b: Seq<u8>)
    ensures
        forall|i: int| 0 <= i < base64url_text(b).len() ==> #[trigger] base64url_text(b)[i] != '&',
    decreases b.len(),
{
    if b.len() > 2 {
        lemma_base64url_chars(b.skip(3));
        let rest = base64url_text(b.skip(3));
        let s = base64url_text(b);
        assert forall|i: int| 0 <= i < s.len() implies #[trigger] s[i] != '&' by {
            if i >= 4 {
                assert(s[i] == rest[i - 4]);
            }
        }
    }
}

/// The query is taken from the first parameter that begins with `dns=`, wherever it stands
/// among the others; without one there is none.
pub proof fn law_dns_param(pairs: Seq<Seq<char>>)
    ensures
        match dns_param(pairs) {
            Some(v) => exists|i: int|
                0 <= i < pairs.len() && #[trigger] pairs[i] == "dns="@ + v && forall|j: int|
                    0 <= j < i ==> !begins_with(#[trigger] pairs[j], "dns="@),
            None => forall|i: int|
                0 <= i < pairs.len() ==> !begins_with(#[trigger] pairs[i], "dns="@),
        },
    decreases pairs.len(),
{
    reveal_strlit("dns=");
    if pairs.len() > 0 {
        let rest = pairs.drop_first();
        if begins_with(pairs[0], "dns="@) {
            assert(pairs[0] =~= "dns="@ + pairs[0].skip(4));
        } else {
            law_dns_param(rest);
            match dns_param(rest) {
                Some(v) => {
                    let i = choose|i: int|
                        0 <= i < rest.len() && #[trigger] rest[i] == "dns="@ + v && forall|j: int|
                            0 <= j < i ==> !begins_with(#[trigger] rest[j], "dns="@);
                    assert(pairs[i + 1] == rest[i]);
                    assert forall|j: int| 0 <= j < i + 1 implies !begins_with(
                        #[trigger] pairs[j],
                        "dns="@,
                    ) by {
                        if j > 0 {
                            assert(pairs[j] == rest[j - 1]);
                        }
                    }
                },
                None => {
                    assert forall|j: int| 0 <= j < pairs.len() implies !begins_with(
                        #[trigger] pairs[j],
                        "dns="@,
                    ) by {
                        if j > 0 {
                            assert(pairs[j] == rest[j - 1]);
                        }
                    }
                },
            }
        }
    }
}

/// The length of a body is that of the first header line that gives one, and zero where
/// none does.
pub proof fn law_content_length(lines: Seq<Seq<char>>)
    ensures
        (exists|i: int|
            0 <= i < lines.len() && length_in(#[trigger] lines[i]) == Some(content_length_of(lines))
                && forall|j: int| 0 <= j < i ==> length_in(#[trigger] lines[j]) is None) || (
        content_length_of(lines) == 0 && forall|i: int|
            0 <= i < lines.len() ==> length_in(#[trigger] lines[i]) is None),
    decreases lines.len(),
{
    if lines.len() > 0 {
        let rest = lines.drop_first();
        if length_in(lines[0]) is None {
            law_content_length(rest);
            if exists|i: int|
                0 <= i < rest.len() && length_in(#[trigger] rest[i]) == Some(
                    content_length_of(rest),
                ) && forall|j: int| 0 <= j < i ==> length_in(#[trigger] rest[j]) is None {
                let i = choose|i: int|
                    0 <= i < rest.len() && length_in(#[trigger] rest[i]) == Some(
                        content_length_of(rest),
                    ) && forall|j: int| 0 <= j < i ==> length_in(#[trigger] rest[j]) is None;
                assert(lines[i + 1] == rest[i]);
                assert forall|j: int| 0 <= j < i + 1 implies length_in(#[trigger] lines[j])
                    is None by {
                    if j > 0 {
                        assert(lines[j] == rest[j - 1]);
                    }
                }
            } else {
                assert forall|j: int| 0 <= j < lines.len() implies length_in(#[trigger] lines[j])
                    is None by {
                    if j > 0 {
                        assert(lines[j] == rest[j - 1]);
                    }
                }
            }
        } else {
            assert(length_in(lines[0]) == Some(content_length_of(lines)));
        }
    }
}

/// The alphabet: capitals, small letters, digits, and then the hyphen and the underscore.
pub proof fn law_alphabet(v: int)
    requires
        0 <= v < 64,
    ensures
        base64url_char(v)
            == "ABCDEFGHIJKLMNOPQRSTUVWXYZabcdefghijklmnopqrstuvwxyz0123456789-_"@[v],
{
    reveal_strlit("ABCDEFGHIJKLMNOPQRSTUVWXYZabcdefghijklmnopqrstuvwxyz0123456789-_");
}

/// Whole groups of three octets are written one by one, four characters each, so that the
/// text of two messages is the text of the one and then of the other where the first is
/// made up of whole groups.
pub proof fn law_base64url_groups(a: Seq<u8>, b: Seq<u8>)
    requires
        a.len() % 3 == 0,
    ensures
        base64url_text(a + b) == base64url_text(a) + base64url_text(b),
        base64url_text(a).len() == a.len() / 3 * 4,
    decreases a.len(),
{
    lemma_base64url_len(a);
    if a.len() == 0 {
        assert(a + b =~= b);
        assert(base64url_text(a) + base64url_text(b) =~= base64url_text(b));
    } else {
        let c = a.skip(3);
        law_base64url_groups(c, b);
        assert((a + b).skip(3) =~= c + b);
        assert(base64url_text(a + b) =~= base64url_text(a) + base64url_text(b));
    }
}

/// The header that gives the length of the body is known by its name in any case, with
/// white space around the name and the number.
pub proof fn law_length_header(
    name: Seq<char>,
    blanks: (Seq<char>, Seq<char>, Seq<char>),
    n: nat,
)
    requires
        same_but_case(name, "content-length"@),
        !name.contains(':'),
        name.len() > 0,
        !is_space(name[0]),
        !is_space(name.last()),
        is_blank(blanks.0),
        is_blank(blanks.1),
        is_blank(blanks.2),
        n <= usize::MAX,
    ensures
        length_in(blanks.0 + name + seq![':'] + blanks.1 + decimal(n) + blanks.2) == Some(n),
{
    let none = Seq::<char>::empty();
    let d = decimal(n);
    let line = blanks.0 + name + seq![':'] + blanks.1 + d + blanks.2;
    let head = blanks.0 + name;
    assert forall|j: int| 0 <= j < head.len() implies line[j] != ':' by {
        if j < blanks.0.len() {
            assert(is_space(blanks.0[j]));
        } else {
            assert(name.contains(name[j - blanks.0.len()]));
        }
    }
    lemma_first_of_is(line, ':', head.len() as int);
    assert(before(line, ':') =~= blanks.0 + name + none);
    assert(after(line, ':') =~= blanks.1 + d + blanks.2);
    law_trim(blanks.0, name, none);
    lemma_decimal_digits(n);
    assert(is_digit(d[0]) && is_digit(d[d.len() - 1]));
    law_trim(blanks.1, d, blanks.2);
    lemma_decimal_round_trip(n, usize::MAX as nat);
}

/// The head of a response begins with the status in decimal, gives the length of the body
/// on a line of its own, and ends with an empty line.
pub proof fn law_response_head(status: u16, length: nat)
    ensures
        begins_with(head_text(status, length), "HTTP/1.1 "@ + decimal(status as nat) + seq![' ']),
        finishes_with(head_text(status, length), seq!['\r', '\n', '\r', '\n']),
        holds(
            head_text(status, length),
            "\r\nContent-Type: application/dns-message\r\nContent-Length: "@ + decimal(length)
                + seq!['\r', '\n'],
        ),
{
    reveal_strlit(" ");
    reveal_strlit("\r\nConnection: close\r\n\r\n");
    let text = head_text(status, length);
    let first = "HTTP/1.1 "@ + decimal(status as nat) + seq![' '];
    let middle = "\r\nContent-Type: application/dns-message\r\nContent-Length: "@ + decimal(length);
    let close = "\r\nConnection: close\r\n\r\n"@;
    assert(" "@ =~= seq![' ']);
    assert(text =~= first + reason_of(status) + middle + close);
    assert(text.take(first.len() as int) =~= first);
    assert(close.skip(close.len() - 4) =~= seq!['\r', '\n', '\r', '\n']);
    assert(text.skip(text.len() - 4) =~= close.skip(close.len() - 4));
    let part = middle + seq!['\r', '\n'];
    let i = (first.len() + reason_of(status).len()) as int;
    assert(text.subrange(i, i + part.len()) =~= part);
}

} // verus!
