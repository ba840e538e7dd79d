//! Big-endian numbers, as the wire format lays them out.

use vstd::prelude::*;

verus! {

/// The `n` octets of `v` in network byte order, most significant octet first.
pub open spec fn be_bytes(v: nat, n: nat) -> Seq<u8>
    decreases n,
{
    if n == 0 {
        Seq::empty()
    } else {
        be_bytes(v / 256, (n - 1) as nat).push((v % 256) as u8)
    }
}

/// The number that a run of octets in network byte order stands for.
pub open spec fn be_value(s: Seq<u8>) -> nat
    decreases s.len(),
{
    if s.len() == 0 {
        0
    } else {
        be_value(s.drop_last()) * 256 + s.last() as nat
    }
}

/// 256 to the power of `n`: how many numbers fit in `n` octets.
pub open spec fn pow256(n: nat) -> nat
    decreases n,
{
    if n == 0 {
        1
    } else {
        256 * pow256((n - 1) as nat)
    }
}

/// The number that the `n` octets of `buf` at `pos` stand for.
pub open spec fn be_at(buf: Seq<u8>, pos: int, n: nat) -> nat {
    be_value(buf.subrange(pos, pos + n))
}

pub proof fn lemma_be_bytes_len(v: nat, n: nat)
    ensures
        be_bytes(v, n).len() == n,
    decreases n,
{
    if n > 0 {
        lemma_be_bytes_len(v / 256, (n - 1) as nat);
    }
}

/// Reading back what was written gives the number, as far as it fits.
pub proof fn lemma_be_round_trip(v: nat, n: nat)
    requires
        v < pow256(n),
    ensures
        be_value(be_bytes(v, n)) == v,
    decreases n,
{
    if n > 0 {
        assert(v / 256 < pow256((n - 1) as nat));
        lemma_be_round_trip(v / 256, (n - 1) as nat);
        assert(be_bytes(v, n).drop_last() =~= be_bytes(v / 256, (n - 1) as nat));
    }
}

pub proof fn lemma_be_value_bound(s: Seq<u8>)
    ensures
        be_value(s) < pow256(s.len()),
    decreases s.len(),
{
    if s.len() > 0 {
        lemma_be_value_bound(s.drop_last());
    }
}

/// Writing back what was read gives the octets.
pub proof fn lemma_be_value_bytes(s: Seq<u8>)
    ensures
        be_bytes(be_value(s), s.len()) == s,
    decreases s.len(),
{
    if s.len() > 0 {
        lemma_be_value_bytes(s.drop_last());
        assert(be_value(s) / 256 == be_value(s.drop_last()));
        assert(be_bytes(be_value(s), s.len()) =~= s);
    } else {
        assert(be_bytes(be_value(s), s.len()) =~= s);
    }
}

pub proof fn lemma_pow256_small()
    ensures
        pow256(1) == 0x100,
        pow256(2) == 0x1_0000,
        pow256(4) == 0x1_0000_0000,
        pow256(16) == 0x1_0000_0000_0000_0000_0000_0000_0000_0000,
{
    reveal_with_fuel(pow256, 17);
}

pub proof fn lemma_be2(v: nat)
    ensures
        be_bytes(v, 2) =~= seq![(v / 256 % 256) as u8, (v % 256) as u8],
{
    reveal_with_fuel(be_bytes, 3);
}

pub proof fn lemma_be4(v: nat)
    ensures
        be_bytes(v, 4) =~= seq![
            (v / 0x100_0000 % 256) as u8,
            (v / 0x1_0000 % 256) as u8,
            (v / 256 % 256) as u8,
            (v % 256) as u8,
        ],
{
    reveal_with_fuel(be_bytes, 5);
}

/// Appends a 16-bit number.
pub fn push_u16(buf: &mut Vec<u8>, v: u16)
    ensures
        final(buf)@ == old(buf)@ + be_bytes(v as nat, 2),
{
    proof {
        lemma_be2(v as nat);
    }
    buf.push((v / 256) as u8);
    buf.push((v % 256) as u8);
    assert(buf@ =~= old(buf)@ + be_bytes(v as nat, 2));
}

/// Appends a 32-bit number.
pub fn push_u32(buf: &mut Vec<u8>, v: u32)
    ensures
        final(buf)@ == old(buf)@ + be_bytes(v as nat, 4),
{
    proof {
        lemma_be4(v as nat);
    }
    buf.push((v / 0x100_0000) as u8);
    buf.push((v / 0x1_0000 % 256) as u8);
    buf.push((v / 256 % 256) as u8);
    buf.push((v % 256) as u8);
    assert(buf@ =~= old(buf)@ + be_bytes(v as nat, 4));
}

/// Appends the `n` low-order octets of a 128-bit number.
pub fn push_be(buf: &mut Vec<u8>, v: u128, n: usize)
    ensures
        final(buf)@ == old(buf)@ + be_bytes(v as nat, n as nat),
    decreases n,
{
    if n == 0 {
        assert(buf@ =~= old(buf)@ + be_bytes(v as nat, 0));
    } else {
        push_be(buf, v / 256, n - 1);
        buf.push((v % 256) as u8);
        assert(buf@ =~= old(buf)@ + be_bytes(v as nat, n as nat));
    }
}

/// Reads the 16-bit number at `pos`.
pub fn read_u16(buf: &[u8], pos: usize) -> (v: u16)
    requires
        pos + 2 <= buf@.len(),
    ensures
        v == be_at(buf@, pos as int, 2),
{
    proof {
        let s = buf@.subrange(pos as int, pos + 2);
        reveal_with_fuel(be_value, 3);
        assert(s.drop_last().drop_last() =~= Seq::<u8>::empty());
        assert(s.drop_last().last() == buf@[pos as int]);
    }
    buf[pos] as u16 * 256 + buf[pos + 1] as u16
}

/// Reads the 32-bit number at `pos`.
pub fn read_u32(buf: &[u8], pos: usize) -> (v: u32)
    requires
        pos + 4 <= buf@.len(),
    ensures
        v == be_at(buf@, pos as int, 4),
{
    proof {
        let s = buf@.subrange(pos as int, pos + 4);
        reveal_with_fuel(be_value, 5);
        let s3 = s.drop_last();
        let s2 = s3.drop_last();
        let s1 = s2.drop_last();
        assert(s1.drop_last() =~= Seq::<u8>::empty());
        assert(s3.last() == buf@[pos + 2]);
        assert(s2.last() == buf@[pos + 1]);
        assert(s1.last() == buf@[pos as int]);
    }
    buf[pos] as u32 * 0x100_0000 + buf[pos + 1] as u32 * 0x1_0000 + buf[pos + 2] as u32 * 256
        + buf[pos + 3] as u32
}

/// Reads the `n`-octet number at `pos`.
pub fn read_be(buf: &[u8], pos: usize, n: usize) -> (v: u128)
    requires
        n <= 16,
        pos + n <= buf@.len(),
    ensures
        v == be_at(buf@, pos as int, n as nat),
    decreases n,
{
    proof {
        let s = buf@.subrange(pos as int, pos + n);
        lemma_be_value_bound(s);
        lemma_pow256_small();
        lemma_pow256_monotonic(n as nat, 16);
        if n > 0 {
            assert(s.drop_last() =~= buf@.subrange(pos as int, pos + n - 1));
        }
    }
    if n == 0 {
        0
    } else {
        let high: u128 = read_be(buf, pos, n - 1);
        let total: usize = buf.len();
        assert(pos + n <= total);
        high * 256 + buf[pos + (n - 1)] as u128
    }
}

proof fn lemma_pow256_monotonic(m: nat, n: nat)
    requires
        m <= n,
    ensures
        pow256(m) <= pow256(n),
    decreases n,
{
    if m < n {
        lemma_pow256_monotonic(m, (n - 1) as nat);
    }
}

/// Appends the octets `src[start..end]`.
pub fn push_slice(buf: &mut Vec<u8>, src: &[u8], start: usize, end: usize)
    requires
        start <= end <= src@.len(),
    ensures
        final(buf)@ == old(buf)@ + src@.subrange(start as int, end as int),
{
    let mut i: usize = start;
    while i < end
        invariant
            start <= i <= end <= src@.len(),
            buf@ == old(buf)@ + src@.subrange(start as int, i as int),
        decreases end - i,
    {
        buf.push(src[i]);
        i = i + 1;
        assert(buf@ =~= old(buf)@ + src@.subrange(start as int, i as int));
    }
}

/// A copy of the octets `src[start..end]`.
pub fn copy_range(src: &[u8], start: usize, end: usize) -> (out: Vec<u8>)
    requires
        start <= end <= src@.len(),
    ensures
        out@ == src@.subrange(start as int, end as int),
{
    let mut out: Vec<u8> = Vec::new();
    push_slice(&mut out, src, start, end);
    assert(out@ =~= src@.subrange(start as int, end as int));
    out
}

/// The low 16 bits of a length, the form in which section counts are sent.
pub fn low16(n: usize) -> (r: u16)
    ensures
        r == n % 0x1_0000,
{
    (n % 0x1_0000) as u16
}

} // verus!
