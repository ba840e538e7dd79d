//! Forwarding of queries to an upstream resolver: what to do with the datagrams
//! that come back, and the framing of messages over TCP.
//!
//! Responses are matched to their query by transaction ID so that a stale datagram
//! on a reused socket is never mistaken for the answer.

use crate::bytes::{be_at, be_bytes, low16, push_slice, push_u16, read_u16};
use vstd::prelude::*;

verus! {

/// Default number of concurrent in-flight upstream queries (and pooled sockets).
pub const DEFAULT_POOL: usize = 64;

/// How many mismatched/stale datagrams to skip before giving up on a query.
pub const MAX_STALE: usize = 4;

/// What a datagram is to a query that waits for its answer.
#[derive(Debug, Clone, Copy, PartialEq, Eq, Structural)]
pub enum Datagram {
    /// It belongs to another query.
    Stale,
    /// It is the answer, cut short: ask again over TCP.
    Truncated,
    /// It is the answer.
    Answer,
}

/// Whether a message says that it was cut short.
pub open spec fn is_truncated_spec(message: Seq<u8>) -> bool {
    message.len() >= 4 && message[2] & 0x02 != 0
}

/// Checks the TC (truncation) bit of a message.
pub fn is_truncated(message: &[u8]) -> (r: bool)
    ensures
        r == is_truncated_spec(message@),
{
    message.len() >= 4 && (message[2] & 0x02) != 0
}

/// Whether two messages have the same transaction ID.
pub open spec fn same_id(a: Seq<u8>, b: Seq<u8>) -> bool {
    a.len() >= 2 && b.len() >= 2 && a[0] == b[0] && a[1] == b[1]
}

/// What a datagram is to a query.
pub open spec fn datagram_of(query: Seq<u8>, datagram: Seq<u8>) -> Datagram {
    if !same_id(query, datagram) {
        Datagram::Stale
    } else if is_truncated_spec(datagram) {
        Datagram::Truncated
    } else {
        Datagram::Answer
    }
}

/// Judges a datagram that came in while `query` waits for its answer. A query too
/// short to have a transaction ID has no answer.
pub fn judge_datagram(query: &[u8], datagram: &[u8]) -> (r: Datagram)
    ensures
        r == datagram_of(query@, datagram@),
{
    if query.len() < 2 || datagram.len() < 2 || query[0] != datagram[0] || query[1]
        != datagram[1] {
        Datagram::Stale
    } else if is_truncated(datagram) {
        Datagram::Truncated
    } else {
        Datagram::Answer
    }
}

/// What to do about a query when a datagram came in.
#[derive(Debug, Clone, Copy, PartialEq, Eq, Structural)]
pub enum NextStep {
    /// Wait for another datagram.
    Receive,
    /// Ask again over TCP.
    RetryTcp,
    /// The datagram is the answer.
    Take,
    /// Too many datagrams belonged to other queries.
    GiveUp,
}

/// What to do about a query when a datagram came in after `stale` of other queries.
pub open spec fn step_after(query: Seq<u8>, datagram: Seq<u8>, stale: nat) -> NextStep {
    match datagram_of(query, datagram) {
        Datagram::Answer => NextStep::Take,
        Datagram::Truncated => NextStep::RetryTcp,
        Datagram::Stale => if stale + 1 < MAX_STALE {
            NextStep::Receive
        } else {
            NextStep::GiveUp
        },
    }
}

/// Decides what to do about `query` when a datagram came in after `stale` datagrams of
/// other queries.
pub fn next_step(query: &[u8], datagram: &[u8], stale: usize) -> (r: NextStep)
    ensures
        r == step_after(query@, datagram@, stale as nat),
{
    match judge_datagram(query, datagram) {
        Datagram::Answer => NextStep::Take,
        Datagram::Truncated => NextStep::RetryTcp,
        Datagram::Stale => if stale < MAX_STALE - 1 {
            NextStep::Receive
        } else {
            NextStep::GiveUp
        },
    }
}

/// A message as it goes over TCP: its length in 16 bits, and the message.
pub open spec fn framed(message: Seq<u8>) -> Seq<u8> {
    be_bytes(message.len() % 0x1_0000, 2) + message
}

/// Puts the 2-byte length before a message.
pub fn tcp_frame(message: &[u8]) -> (r: Vec<u8>)
    ensures
        r@ == framed(message@),
{
    let mut out: Vec<u8> = Vec::new();
    push_u16(&mut out, low16(message.len()));
    push_slice(&mut out, message, 0, message.len());
    proof {
        assert(message@.subrange(0, message@.len() as int) =~= message@);
        assert(out@ =~= framed(message@));
    }
    out
}

/// The length that the two octets before a message stand for.
pub fn frame_len(prefix: &[u8]) -> (n: usize)
    requires
        prefix@.len() == 2,
    ensures
        n == be_at(prefix@, 0, 2),
{
    read_u16(prefix, 0) as usize
}

/// The length before a message is the length of the message, as far as 16 bits
/// hold it.
pub proof fn law_frame(message: Seq<u8>)
    requires
        message.len() <= 0xFFFF,
    ensures
        be_at(framed(message), 0, 2) == message.len(),
        framed(message).skip(2) == message,
{
    crate::bytes::lemma_pow256_small();
    crate::bytes::lemma_be_bytes_len(message.len(), 2);
    crate::bytes::lemma_be_round_trip(message.len(), 2);
    assert(framed(message).subrange(0, 2) =~= be_bytes(message.len(), 2));
    assert(framed(message).skip(2) =~= message);
}

/// Only a datagram with the query's transaction ID is taken for its answer.
pub proof fn law_answer_matches(query: Seq<u8>, datagram: Seq<u8>)
    ensures
        datagram_of(query, datagram) != Datagram::Stale <==> same_id(query, datagram),
{
}

/// A datagram with another ID is passed over, up to a number of times. One with the ID of
/// the query is the answer, unless its truncation bit, the second lowest of the third
/// octet, is set: that one is asked for again over TCP.
pub proof fn law_next_step(query: Seq<u8>, datagram: Seq<u8>, stale: nat)
    requires
        query.len() >= 12,
        datagram.len() >= 12,
    ensures
        ({
            let step = step_after(query, datagram, stale);
            if query.take(2) == datagram.take(2) {
                step == (if datagram[2] / 2 % 2 == 1 {
                    NextStep::RetryTcp
                } else {
                    NextStep::Take
                })
            } else {
                step == (if stale < 3 {
                    NextStep::Receive
                } else {
                    NextStep::GiveUp
                })
            }
        }),
{
    let x = datagram[2];
    assert(x & 0x02 != 0 <==> x / 2 % 2 == 1) by (bit_vector);
    if query.take(2) == datagram.take(2) {
        assert(query.take(2)[0] == query[0] && query.take(2)[1] == query[1]);
        assert(datagram.take(2)[0] == datagram[0] && datagram.take(2)[1] == datagram[1]);
    } else {
        assert(same_id(query, datagram) ==> query.take(2) =~= datagram.take(2));
    }
}

} // verus!
