//! Internet addresses.

use crate::bytes::{be_bytes, push_be};
use crate::text::{
    after, before, decimal, decimal_text, digits_value, find_pair, first_pair, is_digit, is_digits,
    joined, law_first_pair, lemma_cut, lemma_digits_value_mono, lemma_first_of, lemma_first_of_is,
    lemma_joined_pieces, occurs, parse_number, pieces, skip_chars, split, split_once, texts,
    to_chars,
};
use vstd::prelude::*;

verus! {

/// An IPv4 address, as the 32-bit number that its four octets stand for.
#[derive(Debug, Clone, Copy, PartialEq, Eq, Structural)]
pub struct Ipv4Addr {
    pub bits: u32,
}

/// An IPv6 address, as the 128-bit number that its sixteen octets stand for.
#[derive(Debug, Clone, Copy, PartialEq, Eq, Structural)]
pub struct Ipv6Addr {
    pub bits: u128,
}

/// An IP address of either version.
#[derive(Debug, Clone, Copy, PartialEq, Eq, Structural)]
pub enum IpAddr {
    V4(Ipv4Addr),
    V6(Ipv6Addr),
}

/// An IP address with a port, and the scope of an IPv6 address (0: none).
#[derive(Debug, Clone, Copy, PartialEq, Eq, Structural)]
pub struct SocketAddr {
    pub ip: IpAddr,
    pub port: u16,
    pub scope_id: u32,
}

impl Ipv4Addr {
    /// The address `a.b.c.d`.
    pub fn new(a: u8, b: u8, c: u8, d: u8) -> (r: Ipv4Addr)
        ensures
            r.bits == a * 0x100_0000 + b * 0x1_0000 + c * 0x100 + d,
    {
        Ipv4Addr { bits: a as u32 * 0x100_0000 + b as u32 * 0x1_0000 + c as u32 * 0x100 + d as u32 }
    }

    /// The four octets of the address.
    pub open spec fn octets_spec(self) -> Seq<u8> {
        be_bytes(self.bits as nat, 4)
    }

    /// The four octets of the address.
    pub fn octets(&self) -> (r: Vec<u8>)
        ensures
            r@ == self.octets_spec(),
    {
        let mut out: Vec<u8> = Vec::new();
        push_be(&mut out, self.bits as u128, 4);
        assert(out@ =~= self.octets_spec());
        out
    }
}

impl Ipv6Addr {
    /// The sixteen octets of the address.
    pub open spec fn octets_spec(self) -> Seq<u8> {
        be_bytes(self.bits as nat, 16)
    }

    /// The sixteen octets of the address.
    pub fn octets(&self) -> (r: Vec<u8>)
        ensures
            r@ == self.octets_spec(),
    {
        let mut out: Vec<u8> = Vec::new();
        push_be(&mut out, self.bits, 16);
        assert(out@ =~= self.octets_spec());
        out
    }
}

/// The octet `i` of an IPv4 address, the most significant first.
pub open spec fn ipv4_octet(a: Ipv4Addr, i: int) -> nat {
    if i == 0 {
        (a.bits / 0x100_0000) as nat
    } else if i == 1 {
        (a.bits / 0x1_0000 % 256) as nat
    } else if i == 2 {
        (a.bits / 0x100 % 256) as nat
    } else {
        (a.bits % 256) as nat
    }
}

/// An IPv4 address in dotted decimal notation.
pub open spec fn ipv4_text(a: Ipv4Addr) -> Seq<char> {
    decimal(ipv4_octet(a, 0)).push('.') + (decimal(ipv4_octet(a, 1)).push('.') + (decimal(
        ipv4_octet(a, 2),
    ).push('.') + decimal(ipv4_octet(a, 3))))
}

/// A run of digits without a needless zero in front is how its value is written.
proof fn lemma_canonical(d: Seq<char>)
    requires
        is_digits(d),
        d.len() == 1 || d[0] != '0',
    ensures
        decimal(digits_value(d) as nat) == d,
        digits_value(d) >= 0,
        d.len() > 1 ==> digits_value(d) >= 10,
    decreases d.len(),
{
    let init = d.drop_last();
    assert(is_digit(d[d.len() - 1]));
    assert(d.last() == d[d.len() - 1]);
    if d.len() == 1 {
        assert(init =~= Seq::empty());
        assert(digits_value(init) == 0);
        assert(decimal(digits_value(d) as nat) =~= d);
    } else {
        assert(is_digits(init)) by {
            assert forall|i: int| 0 <= i < init.len() implies is_digit(#[trigger] init[i]) by {
                assert(is_digit(d[i]));
            }
        }
        if init.len() == 1 {
            assert(init.drop_last() =~= Seq::empty());
            assert(digits_value(init.drop_last()) == 0);
            assert(is_digit(d[0]));
            assert(init[0] == d[0]);
            assert(digits_value(init) >= 1);
        }
        lemma_canonical(init);
        assert(digits_value(d) / 10 == digits_value(init));
        assert(decimal(digits_value(d) as nat) =~= d);
    }
}

/// What is written in decimal is made of digits, without a needless zero.
proof fn lemma_decimal_shape(n: nat)
    ensures
        is_digits(decimal(n)),
        decimal(n).len() == 1 || decimal(n)[0] != '0',
        digits_value(decimal(n)) == n,
    decreases n,
{
    if n < 10 {
        assert(decimal(n).drop_last() =~= Seq::empty());
        assert(digits_value(Seq::<char>::empty()) == 0);
    } else {
        lemma_decimal_shape(n / 10);
        let d = decimal(n);
        let init = decimal(n / 10);
        assert(d.drop_last() =~= init);
        assert(d[0] == init[0]);
        if init.len() == 1 {
            assert(init.drop_last() =~= Seq::empty());
            assert(digits_value(Seq::<char>::empty()) == 0);
        }
        assert forall|i: int| 0 <= i < d.len() implies is_digit(#[trigger] d[i]) by {
            if i < init.len() {
                assert(is_digit(init[i]));
            }
        }
    }
}

/// Reads an octet in decimal, as it is written and not otherwise.
fn parse_octet(s: &str) -> (r: Option<u8>)
    ensures
        match r {
            Some(v) => s@ == decimal(v as nat),
            None => forall|v: nat| v <= 255 ==> s@ != #[trigger] decimal(v),
        },
{
    let c = to_chars(s);
    proof {
        assert forall|v: nat| v <= 255 && s@ == #[trigger] decimal(v) implies is_digits(s@) && (
        s@.len() == 1 || s@[0] != '0') && digits_value(s@) == v by {
            lemma_decimal_shape(v);
        }
    }
    if c.len() == 0 || c[0] == '+' || (c.len() > 1 && c[0] == '0') {
        proof {
            assert(s@.len() > 0 && s@[0] == '+' ==> !is_digit(s@[0]));
        }
        return None;
    }
    assert(crate::text::unsigned(s@) == s@);
    match parse_number(s, 255) {
        Some(v) => {
            proof {
                lemma_canonical(s@);
            }
            Some(v as u8)
        },
        None => None,
    }
}

/// A text that begins with digits and then `c` is cut there.
proof fn lemma_cut_digits(d: Seq<char>, c: char, t: Seq<char>)
    requires
        is_digits(d),
        !is_digit(c),
    ensures
        occurs(d.push(c) + t, c),
        before(d.push(c) + t, c) == d,
        after(d.push(c) + t, c) == t,
{
    let s = d.push(c) + t;
    assert forall|j: int| 0 <= j < d.len() implies s[j] != c by {
        assert(is_digit(d[j]));
    }
    lemma_first_of_is(s, c, d.len() as int);
    assert(before(s, c) =~= d);
    assert(after(s, c) =~= t);
}

/// Whether a text falls into the four octets of an address at its dots.
spec fn ipv4_parts(s: Seq<char>, a: Ipv4Addr) -> bool {
    let t1 = after(s, '.');
    let t2 = after(t1, '.');
    &&& occurs(s, '.') && octet_text(before(s, '.'), ipv4_octet(a, 0))
    &&& occurs(t1, '.') && octet_text(before(t1, '.'), ipv4_octet(a, 1))
    &&& occurs(t2, '.') && octet_text(before(t2, '.'), ipv4_octet(a, 2))
    &&& octet_text(after(t2, '.'), ipv4_octet(a, 3))
}

spec fn octet_text(s: Seq<char>, v: nat) -> bool {
    v <= 255 && s == decimal(v)
}

proof fn lemma_ipv4_parts(a: Ipv4Addr)
    ensures
        ipv4_parts(ipv4_text(a), a),
{
    lemma_decimal_shape(ipv4_octet(a, 0));
    lemma_decimal_shape(ipv4_octet(a, 1));
    lemma_decimal_shape(ipv4_octet(a, 2));
    let u3 = decimal(ipv4_octet(a, 3));
    let u2 = decimal(ipv4_octet(a, 2)).push('.') + u3;
    let u1 = decimal(ipv4_octet(a, 1)).push('.') + u2;
    lemma_cut_digits(decimal(ipv4_octet(a, 0)), '.', u1);
    lemma_cut_digits(decimal(ipv4_octet(a, 1)), '.', u2);
    lemma_cut_digits(decimal(ipv4_octet(a, 2)), '.', u3);
}

proof fn lemma_octets(a: u8, b: u8, c: u8, d: u8, addr: Ipv4Addr)
    requires
        addr.bits == a * 0x100_0000 + b * 0x1_0000 + c * 0x100 + d,
    ensures
        ipv4_octet(addr, 0) == a,
        ipv4_octet(addr, 1) == b,
        ipv4_octet(addr, 2) == c,
        ipv4_octet(addr, 3) == d,
{
    let n = addr.bits as int;
    let x = a * 0x1_0000 + b * 0x100 + c;
    let y = a * 0x100 + b;
    assert(n == x * 256 + d);
    assert(n / 256 == x && n % 256 == d);
    assert(x == y * 256 + c);
    assert(x / 256 == y && x % 256 == c);
    assert(y / 256 == a as int && y % 256 == b as int);
    assert(n / 0x1_0000 == y) by {
        assert(n == y * 0x1_0000 + (c * 256 + d));
    }
    assert(n / 0x100_0000 == a as int) by {
        assert(n == a * 0x100_0000 + (b * 0x1_0000 + c * 256 + d));
    }
}

/// Cuts a text at its first three dots.
fn cut_quad<'a>(s: &'a str) -> (r: Option<(&'a str, &'a str, &'a str, &'a str)>)
    ensures
        match r {
            Some((p0, p1, p2, p3)) => {
                &&& p0@ == before(s@, '.')
                &&& p1@ == before(after(s@, '.'), '.')
                &&& p2@ == before(after(after(s@, '.'), '.'), '.')
                &&& p3@ == after(after(after(s@, '.'), '.'), '.')
                &&& s@ == p0@.push('.') + (p1@.push('.') + (p2@.push('.') + p3@))
            },
            None => !occurs(s@, '.') || !occurs(after(s@, '.'), '.') || !occurs(
                after(after(s@, '.'), '.'),
                '.',
            ),
        },
{
    proof {
        lemma_cut(s@, '.');
        lemma_cut(after(s@, '.'), '.');
        lemma_cut(after(after(s@, '.'), '.'), '.');
    }
    let (p0, t1) = match split_once(s, '.') {
        Some(x) => x,
        None => return None,
    };
    let (p1, t2) = match split_once(t1, '.') {
        Some(x) => x,
        None => return None,
    };
    let (p2, p3) = match split_once(t2, '.') {
        Some(x) => x,
        None => return None,
    };
    proof {
        assert(t2@ =~= p2@.push('.') + p3@);
        assert(t1@ =~= p1@.push('.') + t2@);
        assert(s@ =~= p0@.push('.') + t1@);
    }
    Some((p0, p1, p2, p3))
}

/// Reads four octets with dots between them.
fn parse_quad(s: &str) -> (r: Option<(u8, u8, u8, u8)>)
    ensures
        match r {
            Some((a, b, c, d)) => s@ == decimal(a as nat).push('.') + (decimal(b as nat).push('.')
                + (decimal(c as nat).push('.') + decimal(d as nat))),
            None => forall|a: Ipv4Addr| !ipv4_parts(s@, a),
        },
{
    let (p0, p1, p2, p3) = match cut_quad(s) {
        Some(x) => x,
        None => return None,
    };
    let a: u8 = match parse_octet(p0) {
        Some(x) => x,
        None => return None,
    };
    let b: u8 = match parse_octet(p1) {
        Some(x) => x,
        None => return None,
    };
    let c: u8 = match parse_octet(p2) {
        Some(x) => x,
        None => return None,
    };
    let d: u8 = match parse_octet(p3) {
        Some(x) => x,
        None => return None,
    };
    Some((a, b, c, d))
}

impl Ipv4Addr {
    /// Reads an address in dotted decimal notation: exactly those texts are
    /// accepted that are how an address is written.
    pub fn parse(s: &str) -> (r: Option<Ipv4Addr>)
        ensures
            r == ipv4_of(s@),
            match r {
                Some(a) => s@ == ipv4_text(a),
                None => forall|a: Ipv4Addr| s@ != #[trigger] ipv4_text(a),
            },
    {
        match parse_quad(s) {
            Some((a, b, c, d)) => {
                let addr = Ipv4Addr::new(a, b, c, d);
                proof {
                    lemma_octets(a, b, c, d, addr);
                    let other = choose|x: Ipv4Addr| s@ == #[trigger] ipv4_text(x);
                    law_ipv4_text(addr, other);
                }
                Some(addr)
            },
            None => {
                proof {
                    assert forall|a: Ipv4Addr| s@ != #[trigger] ipv4_text(a) by {
                        lemma_ipv4_parts(a);
                    }
                }
                None
            },
        }
    }

    /// Writes the address in dotted decimal notation.
    pub fn text(&self) -> (r: String)
        ensures
            r@ == ipv4_text(*self),
    {
        let mut s = decimal_text((self.bits / 0x100_0000) as u64);
        s.push('.');
        s.append(decimal_text((self.bits / 0x1_0000 % 256) as u64).as_str());
        s.push('.');
        s.append(decimal_text((self.bits / 0x100 % 256) as u64).as_str());
        s.push('.');
        s.append(decimal_text((self.bits % 256) as u64).as_str());
        assert(s@ =~= ipv4_text(*self));
        s
    }
}

/// No two IPv4 addresses are written alike.
pub proof fn law_ipv4_text(a: Ipv4Addr, b: Ipv4Addr)
    requires
        ipv4_text(a) == ipv4_text(b),
    ensures
        a == b,
{
    lemma_ipv4_parts(a);
    lemma_ipv4_parts(b);
    lemma_decimal_shape(ipv4_octet(a, 0));
    lemma_decimal_shape(ipv4_octet(a, 1));
    lemma_decimal_shape(ipv4_octet(a, 2));
    lemma_decimal_shape(ipv4_octet(a, 3));
    lemma_decimal_shape(ipv4_octet(b, 0));
    lemma_decimal_shape(ipv4_octet(b, 1));
    lemma_decimal_shape(ipv4_octet(b, 2));
    lemma_decimal_shape(ipv4_octet(b, 3));
}

/// The IPv4 address that a text is the notation of.
pub open spec fn ipv4_of(s: Seq<char>) -> Option<Ipv4Addr> {
    if exists|a: Ipv4Addr| s == #[trigger] ipv4_text(a) {
        Some(choose|a: Ipv4Addr| s == #[trigger] ipv4_text(a))
    } else {
        None
    }
}


/// The value of a hexadecimal digit.
pub open spec fn hex_value(c: char) -> Option<nat> {
    if '0' <= c <= '9' {
        Some((c as nat - '0' as nat) as nat)
    } else if 'a' <= c <= 'f' {
        Some((c as nat - 'a' as nat + 10) as nat)
    } else if 'A' <= c <= 'F' {
        Some((c as nat - 'A' as nat + 10) as nat)
    } else {
        None
    }
}

/// The number that hexadecimal digits stand for.
pub open spec fn hex_number(s: Seq<char>) -> Option<nat>
    decreases s.len(),
{
    if s.len() == 0 {
        Some(0)
    } else {
        match (hex_number(s.drop_last()), hex_value(s.last())) {
            (Some(n), Some(d)) => Some(n * 16 + d),
            _ => None,
        }
    }
}

/// A group of an IPv6 address: one to four hexadecimal digits.
pub open spec fn hex_group(s: Seq<char>) -> Option<nat> {
    if 1 <= s.len() <= 4 {
        hex_number(s)
    } else {
        None
    }
}

/// The groups that the pieces of an address stand for. The last piece may be an
/// IPv4 address, which makes two groups, where `quad` allows it.
pub open spec fn groups_of(ps: Seq<Seq<char>>, quad: bool) -> Option<Seq<nat>>
    decreases ps.len(),
{
    if ps.len() == 0 {
        Some(Seq::empty())
    } else {
        match hex_group(ps[0]) {
            Some(g) => match groups_of(ps.drop_first(), quad) {
                Some(rest) => Some(seq![g] + rest),
                None => None,
            },
            None => if ps.len() == 1 && quad && ipv4_of(ps[0]) is Some {
                let bits = ipv4_of(ps[0])->0.bits;
                Some(seq![(bits / 0x1_0000) as nat, (bits % 0x1_0000) as nat])
            } else {
                None
            },
        }
    }
}

/// The groups of one side of a `::`, which may be empty.
pub open spec fn side_groups(s: Seq<char>, quad: bool) -> Option<Seq<nat>> {
    if s.len() == 0 {
        Some(Seq::empty())
    } else {
        groups_of(pieces(s, ':'), quad)
    }
}

/// The number that groups of 16 bits stand for.
pub open spec fn groups_value(g: Seq<nat>) -> nat
    decreases g.len(),
{
    if g.len() == 0 {
        0
    } else {
        groups_value(g.drop_last()) * 0x1_0000 + g.last()
    }
}

/// Groups that are all zero.
pub open spec fn zero_groups(n: nat) -> Seq<nat> {
    Seq::new(n, |i: int| 0nat)
}

/// The IPv6 address that a text is a notation of: eight groups, or fewer with a
/// `::` that stands for at least one group of zeros.
pub open spec fn ipv6_of(s: Seq<char>) -> Option<Ipv6Addr> {
    let i = first_pair(s, ':', ':');
    if i == s.len() {
        match groups_of(pieces(s, ':'), true) {
            Some(g) => if g.len() == 8 {
                Some(Ipv6Addr { bits: groups_value(g) as u128 })
            } else {
                None
            },
            None => None,
        }
    } else {
        match (side_groups(s.take(i), false), side_groups(s.skip(i + 2), true)) {
            (Some(a), Some(b)) => if a.len() + b.len() <= 7 {
                let g = a + zero_groups((8 - a.len() - b.len()) as nat) + b;
                Some(Ipv6Addr { bits: groups_value(g) as u128 })
            } else {
                None
            },
            _ => None,
        }
    }
}

fn parse_hex_digit(c: char) -> (r: Option<u16>)
    ensures
        match r {
            Some(v) => hex_value(c) == Some(v as nat) && v < 16,
            None => hex_value(c) is None,
        },
{
    if '0' <= c && c <= '9' {
        Some((c as u32 - '0' as u32) as u16)
    } else if 'a' <= c && c <= 'f' {
        Some((c as u32 - 'a' as u32 + 10) as u16)
    } else if 'A' <= c && c <= 'F' {
        Some((c as u32 - 'A' as u32 + 10) as u16)
    } else {
        None
    }
}

proof fn lemma_hex_fails(s: Seq<char>, i: int)
    requires
        0 <= i <= s.len(),
        hex_number(s.take(i)) is None,
    ensures
        hex_number(s) is None,
    decreases s.len(),
{
    if i == s.len() {
        assert(s.take(i) =~= s);
    } else {
        assert(s.drop_last().take(i) =~= s.take(i));
        lemma_hex_fails(s.drop_last(), i);
    }
}

fn parse_hex_group(s: &str) -> (r: Option<u16>)
    ensures
        match r {
            Some(v) => hex_group(s@) == Some(v as nat),
            None => hex_group(s@) is None,
        },
{
    let c = to_chars(s);
    if c.len() < 1 || c.len() > 4 {
        return None;
    }
    let mut v: u16 = 0;
    let mut i: usize = 0;
    let mut bound: u32 = 1;
    proof {
        assert(s@.take(0) =~= Seq::empty());
    }
    while i < c.len()
        invariant
            c@ == s@,
            i <= c@.len() <= 4,
            hex_number(s@.take(i as int)) == Some(v as nat),
            v < bound,
            i == 0 ==> bound == 1,
            i == 1 ==> bound == 16,
            i == 2 ==> bound == 256,
            i == 3 ==> bound == 4096,
            i == 4 ==> bound == 65536,
        decreases c@.len() - i,
    {
        proof {
            assert(s@.take(i + 1).drop_last() =~= s@.take(i as int));
            assert(s@.take(i + 1).last() == s@[i as int]);
        }
        match parse_hex_digit(c[i]) {
            Some(d) => {
                v = v * 16 + d;
            },
            None => {
                proof {
                    lemma_hex_fails(s@, i + 1);
                }
                return None;
            },
        }
        bound = bound * 16;
        i = i + 1;
    }
    proof {
        assert(s@.take(i as int) =~= s@);
    }
    Some(v)
}

/// The numbers of a list.
pub open spec fn as_nats(v: Seq<u16>) -> Seq<nat> {
    v.map_values(|x: u16| x as nat)
}

fn parse_groups(ps: &Vec<&str>, quad: bool) -> (r: Option<Vec<u16>>)
    ensures
        match r {
            Some(g) => groups_of(texts(ps@), quad) == Some(as_nats(g@)),
            None => groups_of(texts(ps@), quad) is None,
        },
{
    let ghost t = texts(ps@);
    let mut out: Vec<u16> = Vec::new();
    let mut i: usize = 0;
    proof {
        assert(t.skip(0) =~= t);
        assert(as_nats(out@) =~= Seq::empty());
        if let Some(g) = groups_of(t, quad) {
            assert(Seq::<nat>::empty() + g =~= g);
        }
    }
    while i < ps.len()
        invariant
            i <= ps@.len(),
            t == texts(ps@),
            match (groups_of(t, quad), groups_of(t.skip(i as int), quad)) {
                (Some(all), Some(rest)) => all == as_nats(out@) + rest,
                (None, None) => true,
                _ => false,
            },
        decreases ps@.len() - i,
    {
        let ghost had = out@;
        let ghost left = t.skip(i as int);
        proof {
            assert(left[0] == ps@[i as int]@);
            assert(left.drop_first() =~= t.skip(i + 1));
        }
        match parse_hex_group(ps[i]) {
            Some(g) => {
                out.push(g);
                proof {
                    assert(as_nats(out@) =~= as_nats(had) + seq![g as nat]);
                    if let Some(rest) = groups_of(left.drop_first(), quad) {
                        assert(as_nats(had) + (seq![g as nat] + rest) =~= as_nats(out@) + rest);
                    }
                }
            },
            None => {
                if !(quad && i == ps.len() - 1) {
                    return None;
                }
                match Ipv4Addr::parse(ps[i]) {
                    Some(a) => {
                        out.push((a.bits / 0x1_0000) as u16);
                        out.push((a.bits % 0x1_0000) as u16);
                        proof {
                            assert(as_nats(out@) =~= as_nats(had) + seq![
                                (a.bits / 0x1_0000) as nat,
                                (a.bits % 0x1_0000) as nat,
                            ]);
                        }
                        return Some(out);
                    },
                    None => {
                        return None;
                    },
                }
            },
        }
        i = i + 1;
    }
    proof {
        assert(as_nats(out@) + Seq::<nat>::empty() =~= as_nats(out@));
    }
    Some(out)
}

fn parse_side(s: &str, quad: bool) -> (r: Option<Vec<u16>>)
    ensures
        match r {
            Some(g) => side_groups(s@, quad) == Some(as_nats(g@)),
            None => side_groups(s@, quad) is None,
        },
{
    if s.is_empty() {
        let v: Vec<u16> = Vec::new();
        assert(as_nats(v@) =~= Seq::empty());
        return Some(v);
    }
    parse_groups(&split(s, ':'), quad)
}

/// Packs groups into a number, which fits where there are at most eight.
fn pack_groups(g: &Vec<u16>, n: usize) -> (r: u128)
    requires
        n <= g@.len(),
        n <= 8,
    ensures
        r == groups_value(as_nats(g@).take(n as int)),
        r < groups_bound(n as nat),
    decreases n,
{
    if n == 0 {
        assert(as_nats(g@).take(0) =~= Seq::empty());
        0
    } else {
        let high: u128 = pack_groups(g, n - 1);
        proof {
            assert(as_nats(g@).take(n as int).drop_last() =~= as_nats(g@).take(n - 1));
            assert(as_nats(g@).take(n as int).last() == g@[n - 1] as nat);
            lemma_groups_bound(n as nat);
        }
        high * 0x1_0000 + g[n - 1] as u128
    }
}

/// How many numbers fit in `n` groups of 16 bits.
spec fn groups_bound(n: nat) -> nat
    decreases n,
{
    if n == 0 {
        1
    } else {
        0x1_0000 * groups_bound((n - 1) as nat)
    }
}

proof fn lemma_groups_bound(n: nat)
    requires
        n <= 8,
    ensures
        groups_bound(n) <= 0x1_0000_0000_0000_0000_0000_0000_0000_0000,
{
    reveal_with_fuel(groups_bound, 9);
}

impl Ipv6Addr {
    /// The address with the given groups.
    pub fn new(a: u16, b: u16, c: u16, d: u16, e: u16, f: u16, g: u16, h: u16) -> (r: Ipv6Addr)
        ensures
            r.bits == groups_value(
                seq![
                    a as nat,
                    b as nat,
                    c as nat,
                    d as nat,
                    e as nat,
                    f as nat,
                    g as nat,
                    h as nat,
                ],
            ),
    {
        let v: Vec<u16> = vec![a, b, c, d, e, f, g, h];
        let bits: u128 = pack_groups(&v, 8);
        proof {
            assert(as_nats(v@).take(8) =~= seq![
                a as nat,
                b as nat,
                c as nat,
                d as nat,
                e as nat,
                f as nat,
                g as nat,
                h as nat,
            ]);
        }
        Ipv6Addr { bits }
    }

    /// Reads an address: groups of hexadecimal digits between colons, with `::`
    /// for a run of zeros and an IPv4 address for the last two groups.
    pub fn parse(s: &str) -> (r: Option<Ipv6Addr>)
        ensures
            r == ipv6_of(s@),
    {
        match find_pair(s, ':', ':') {
            None => match parse_groups(&split(s, ':'), true) {
                Some(g) => {
                    assert(as_nats(g@).len() == g@.len());
                    if g.len() != 8 {
                        return None;
                    }
                    assert(as_nats(g@).take(8) =~= as_nats(g@));
                    Some(Ipv6Addr { bits: pack_groups(&g, 8) })
                },
                None => None,
            },
            Some(i) => {
                let left = s.substring_char(0, i);
                assert(left@ =~= s@.take(i as int));
                let right = skip_chars(s, i + 2);
                let a = match parse_side(left, false) {
                    Some(x) => x,
                    None => return None,
                };
                let b = match parse_side(right, true) {
                    Some(x) => x,
                    None => return None,
                };
                assert(as_nats(a@).len() == a@.len());
                assert(as_nats(b@).len() == b@.len());
                if a.len() > 7 || b.len() > 7 - a.len() {
                    return None;
                }
                let ghost goal = as_nats(a@) + zero_groups((8 - a@.len() - b@.len()) as nat)
                    + as_nats(b@);
                let mut g: Vec<u16> = Vec::new();
                let mut k: usize = 0;
                while k < 8
                    invariant
                        k <= 8,
                        a@.len() + b@.len() <= 7,
                        g@.len() == k,
                        goal == as_nats(a@) + zero_groups((8 - a@.len() - b@.len()) as nat)
                            + as_nats(b@),
                        forall|j: int| 0 <= j < k ==> #[trigger] g@[j] as nat == goal[j],
                    decreases 8 - k,
                {
                    if k < a.len() {
                        g.push(a[k]);
                    } else if k < 8 - b.len() {
                        g.push(0);
                    } else {
                        g.push(b[k - (8 - b.len())]);
                    }
                    k = k + 1;
                }
                assert(as_nats(g@).take(8) =~= goal);
                Some(Ipv6Addr { bits: pack_groups(&g, 8) })
            },
        }
    }
}

impl IpAddr {
    /// Reads an address of either version.
    pub fn parse(s: &str) -> (r: Option<IpAddr>)
        ensures
            r == ip_of(s@),
    {
        match Ipv4Addr::parse(s) {
            Some(a) => Some(IpAddr::V4(a)),
            None => match Ipv6Addr::parse(s) {
                Some(a) => Some(IpAddr::V6(a)),
                None => None,
            },
        }
    }
}

/// The IP address that a text is a notation of.
pub open spec fn ip_of(s: Seq<char>) -> Option<IpAddr> {
    match ipv4_of(s) {
        Some(a) => Some(IpAddr::V4(a)),
        None => match ipv6_of(s) {
            Some(a) => Some(IpAddr::V6(a)),
            None => None,
        },
    }
}

/// The number of a port or scope: digits alone, at most `max`.
pub open spec fn plain_number(s: Seq<char>, max: nat) -> Option<nat> {
    if is_digits(s) && digits_value(s) <= max {
        Some(digits_value(s) as nat)
    } else {
        None
    }
}

fn parse_plain_number(s: &str, max: u64) -> (r: Option<u64>)
    ensures
        match r {
            Some(v) => plain_number(s@, max as nat) == Some(v as nat) && v <= max,
            None => plain_number(s@, max as nat) is None,
        },
{
    let c = to_chars(s);
    if c.len() > 0 && c[0] == '+' {
        assert(!is_digit(s@[0]));
        return None;
    }
    assert(crate::text::unsigned(s@) == s@);
    proof {
        if is_digits(s@) {
            lemma_digits_value_mono(s@, s@.len() as int);
        }
    }
    parse_number(s, max)
}

/// The socket address of an IPv6 address, which stands in brackets with the port
/// after it; a scope may follow the address after a percent sign.
pub open spec fn socket6_of(s: Seq<char>) -> Option<SocketAddr> {
    if s.len() == 0 || s[0] != '[' || !occurs(s, ']') {
        None
    } else {
        let inner = before(s, ']').drop_first();
        let tail = after(s, ']');
        let addr = ipv6_of(before(inner, '%'));
        let scope = if occurs(inner, '%') {
            plain_number(after(inner, '%'), u32::MAX as nat)
        } else {
            Some(0nat)
        };
        if tail.len() == 0 || tail[0] != ':' {
            None
        } else {
            match (addr, scope, plain_number(tail.drop_first(), u16::MAX as nat)) {
                (Some(a), Some(id), Some(port)) => Some(
                    SocketAddr { ip: IpAddr::V6(a), port: port as u16, scope_id: id as u32 },
                ),
                _ => None,
            }
        }
    }
}

/// The socket address that a text is a notation of: an IPv4 address, a colon and
/// a port; or an IPv6 address in brackets.
pub open spec fn socket_of(s: Seq<char>) -> Option<SocketAddr> {
    if occurs(s, ':') && ipv4_of(before(s, ':')) is Some && plain_number(
        after(s, ':'),
        u16::MAX as nat,
    ) is Some {
        Some(
            SocketAddr {
                ip: IpAddr::V4(ipv4_of(before(s, ':'))->0),
                port: (plain_number(after(s, ':'), u16::MAX as nat)->0) as u16,
                scope_id: 0,
            },
        )
    } else {
        socket6_of(s)
    }
}

impl SocketAddr {
    /// The socket address of an IP address and a port.
    pub fn new(ip: IpAddr, port: u16) -> (r: SocketAddr)
        ensures
            r == (SocketAddr { ip, port, scope_id: 0 }),
    {
        SocketAddr { ip, port, scope_id: 0 }
    }

    /// Reads a socket address.
    pub fn parse(s: &str) -> (r: Option<SocketAddr>)
        ensures
            r == socket_of(s@),
    {
        if let Some((host, port)) = split_once(s, ':') {
            if let Some(a) = Ipv4Addr::parse(host) {
                if let Some(p) = parse_plain_number(port, 65535) {
                    return Some(SocketAddr { ip: IpAddr::V4(a), port: p as u16, scope_id: 0 });
                }
            }
        }
        Self::parse_v6(s)
    }

    fn parse_v6(s: &str) -> (r: Option<SocketAddr>)
        ensures
            r == socket6_of(s@),
    {
        if s.is_empty() {
            return None;
        }
        if s.get_char(0) != '[' {
            return None;
        }
        let (head, tail) = match split_once(s, ']') {
            Some(x) => x,
            None => return None,
        };
        proof {
            lemma_first_of(s@, ']');
        }
        let inner = skip_chars(head, 1);
        assert(inner@ =~= before(s@, ']').drop_first());
        if tail.is_empty() {
            return None;
        }
        if tail.get_char(0) != ':' {
            return None;
        }
        let port_text = skip_chars(tail, 1);
        assert(port_text@ =~= tail@.drop_first());
        let (addr_text, scope): (&str, Option<u64>) = match split_once(inner, '%') {
            Some((a, b)) => (a, parse_plain_number(b, 4294967295)),
            None => {
                proof {
                    lemma_cut(inner@, '%');
                }
                (inner, Some(0))
            },
        };
        match (Ipv6Addr::parse(addr_text), scope, parse_plain_number(port_text, 65535)) {
            (Some(a), Some(id), Some(p)) => Some(
                SocketAddr { ip: IpAddr::V6(a), port: p as u16, scope_id: id as u32 },
            ),
            _ => None,
        }
    }
}

/// An IPv4 address is read back from its notation, and a text that is not the notation of
/// any is refused.
pub proof fn law_ipv4_read(a: Ipv4Addr)
    ensures
        ipv4_of(ipv4_text(a)) == Some(a),
{
    let s = ipv4_text(a);
    let b = choose|b: Ipv4Addr| s == #[trigger] ipv4_text(b);
    assert(s == ipv4_text(a));
    law_ipv4_text(a, b);
}

/// An address and a port are read from their notation, and an address alone is none.
pub proof fn law_socket_text(addr: Ipv4Addr, port: u16)
    ensures
        socket_of(ipv4_text(addr) + seq![':'] + decimal(port as nat)) == Some(
            SocketAddr { ip: IpAddr::V4(addr), port, scope_id: 0 },
        ),
        socket_of(ipv4_text(addr)) is None,
{
    let t = ipv4_text(addr);
    let d = decimal(port as nat);
    let s = t + seq![':'] + d;
    lemma_ipv4_chars(addr);
    lemma_first_of_is(t, ':', t.len() as int);
    assert forall|j: int| 0 <= j < t.len() implies s[j] != ':' by {
        assert(t[j] != ':');
    }
    lemma_first_of_is(s, ':', t.len() as int);
    assert(before(s, ':') =~= t);
    assert(after(s, ':') =~= d);
    law_ipv4_read(addr);
    lemma_decimal_shape(port as nat);
    assert(t[0] != '[');
}

proof fn lemma_ipv4_chars(a: Ipv4Addr)
    ensures
        ipv4_text(a).len() > 0,
        forall|i: int|
            0 <= i < ipv4_text(a).len() ==> is_digit(#[trigger] ipv4_text(a)[i]) || ipv4_text(a)[i]
                == '.',
{
    lemma_decimal_shape(ipv4_octet(a, 0));
    lemma_decimal_shape(ipv4_octet(a, 1));
    lemma_decimal_shape(ipv4_octet(a, 2));
    lemma_decimal_shape(ipv4_octet(a, 3));
    let d0 = decimal(ipv4_octet(a, 0));
    let d1 = decimal(ipv4_octet(a, 1));
    let d2 = decimal(ipv4_octet(a, 2));
    let d3 = decimal(ipv4_octet(a, 3));
    let c = d2.push('.') + d3;
    assert forall|i: int| 0 <= i < c.len() implies is_digit(#[trigger] c[i]) || c[i] == '.' by {
        if i < d2.len() {
            assert(c[i] == d2[i]);
        } else if i > d2.len() {
            assert(c[i] == d3[i - d2.len() - 1]);
        }
    }
    let b = d1.push('.') + c;
    assert forall|i: int| 0 <= i < b.len() implies is_digit(#[trigger] b[i]) || b[i] == '.' by {
        if i < d1.len() {
            assert(b[i] == d1[i]);
        } else if i > d1.len() {
            assert(b[i] == c[i - d1.len() - 1]);
        }
    }
    let t = d0.push('.') + b;
    assert forall|i: int| 0 <= i < t.len() implies is_digit(#[trigger] t[i]) || t[i] == '.' by {
        if i < d0.len() {
            assert(t[i] == d0[i]);
        } else if i > d0.len() {
            assert(t[i] == b[i - d0.len() - 1]);
        }
    }
}

/// The digits of a hexadecimal number, in either case.
pub proof fn law_hex_digits(v: int, c: char)
    ensures
        0 <= v < 16 ==> hex_value("0123456789abcdef"@[v]) == Some(v as nat),
        0 <= v < 16 ==> hex_value("0123456789ABCDEF"@[v]) == Some(v as nat),
        !"0123456789abcdefABCDEF"@.contains(c) ==> hex_value(c) is None,
{
    reveal_strlit("0123456789abcdef");
    reveal_strlit("0123456789ABCDEF");
    reveal_strlit("0123456789abcdefABCDEF");
    let all = "0123456789abcdefABCDEF"@;
    if let Some(d) = hex_value(c) {
        let i: int = if 'A' <= c <= 'F' {
            d as int + 6
        } else {
            d as int
        };
        assert(all[i] == c);
    }
}

/// Whether texts are groups of hexadecimal digits with the given values.
pub open spec fn groups_stand(ps: Seq<Seq<char>>, g: Seq<u16>) -> bool {
    ps.len() == g.len() && forall|i: int|
        0 <= i < ps.len() ==> hex_group(#[trigger] ps[i]) == Some(g[i] as nat)
}

proof fn lemma_hex_chars(s: Seq<char>)
    requires
        hex_number(s) is Some,
    ensures
        !s.contains(':'),
    decreases s.len(),
{
    if s.len() > 0 {
        lemma_hex_chars(s.drop_last());
        assert forall|i: int| 0 <= i < s.len() implies s[i] != ':' by {
            if i < s.len() - 1 {
                assert(s.drop_last().contains(s.drop_last()[i]));
            }
        }
    }
}

proof fn lemma_groups_text(ps: Seq<Seq<char>>, g: Seq<u16>)
    requires
        groups_stand(ps, g),
    ensures
        ({
            let s = joined(ps, ':');
            &&& ps.len() > 0 ==> s.len() > 0 && s[0] != ':' && s.last() != ':'
            &&& forall|j: int| 0 <= j && j + 1 < s.len() ==> !(#[trigger] s[j] == ':' && s[j + 1]
                == ':')
            &&& forall|i: int| 0 <= i < ps.len() ==> !occurs(#[trigger] ps[i], ':')
        }),
    decreases ps.len(),
{
    assert forall|i: int| 0 <= i < ps.len() implies !occurs(#[trigger] ps[i], ':') && ps[i].len()
        > 0 && !ps[i].contains(':') by {
        lemma_hex_chars(ps[i]);
        lemma_first_of(ps[i], ':');
    }
    let s = joined(ps, ':');
    if ps.len() > 0 {
        let last = ps.last();
        let n = ps.len() - 1;
        assert(last == ps[n]);
        assert(!last.contains(':'));
        assert forall|k: int| 0 <= k < last.len() implies last[k] != ':' by {
            assert(last.contains(last[k]));
        }
        if ps.len() > 1 {
            let init = ps.drop_last();
            let h = joined(init, ':');
            assert(groups_stand(init, g.drop_last())) by {
                assert forall|i: int| 0 <= i < init.len() implies hex_group(#[trigger] init[i])
                    == Some(g.drop_last()[i] as nat) by {
                    assert(init[i] == ps[i]);
                }
            }
            lemma_groups_text(init, g.drop_last());
            assert(s == h.push(':') + last);
            assert forall|j: int| 0 <= j && j + 1 < s.len() implies !(#[trigger] s[j] == ':' && s[j
                + 1] == ':') by {
                if j + 1 < h.len() {
                    assert(s[j] == h[j] && s[j + 1] == h[j + 1]);
                } else if j + 1 == h.len() {
                    assert(s[j] == h[h.len() - 1]);
                } else if j == h.len() {
                    assert(s[j + 1] == last[0]);
                } else {
                    assert(s[j] == last[j - h.len() - 1]);
                }
            }
            assert(s[0] == h[0]);
            assert(s.last() == last[last.len() - 1]);
        }
    }
}

proof fn lemma_groups_read(ps: Seq<Seq<char>>, g: Seq<u16>, quad: bool)
    requires
        groups_stand(ps, g),
    ensures
        groups_of(ps, quad) == Some(as_nats(g)),
    decreases ps.len(),
{
    if ps.len() == 0 {
        assert(as_nats(g) =~= Seq::empty());
    } else {
        let rest = ps.drop_first();
        let h = g.drop_first();
        assert forall|i: int| 0 <= i < rest.len() implies hex_group(#[trigger] rest[i]) == Some(
            h[i] as nat,
        ) by {
            assert(rest[i] == ps[i + 1]);
        }
        lemma_groups_read(rest, h, quad);
        assert(hex_group(ps[0]) == Some(g[0] as nat));
        assert(seq![g[0] as nat] + as_nats(h) =~= as_nats(g));
    }
}

proof fn lemma_side_read(ps: Seq<Seq<char>>, g: Seq<u16>, quad: bool)
    requires
        groups_stand(ps, g),
    ensures
        side_groups(joined(ps, ':'), quad) == Some(as_nats(g)),
{
    lemma_groups_text(ps, g);
    if ps.len() == 0 {
        assert(as_nats(g) =~= Seq::empty());
    } else {
        lemma_joined_pieces(ps, ':');
        lemma_groups_read(ps, g, quad);
    }
}

/// Eight groups of sixteen bits make up an address, the first the most significant.
pub proof fn law_groups_value(g: Seq<nat>)
    requires
        g.len() == 8,
        forall|i: int| 0 <= i < 8 ==> #[trigger] g[i] <= 0xFFFF,
    ensures
        groups_value(g) == g[7] + g[6] * 0x1_0000 + g[5] * 0x1_0000_0000 + g[4]
            * 0x1_0000_0000_0000 + g[3] * 0x1_0000_0000_0000_0000 + g[2]
            * 0x1_0000_0000_0000_0000_0000 + g[1] * 0x1_0000_0000_0000_0000_0000_0000 + g[0]
            * 0x1_0000_0000_0000_0000_0000_0000_0000,
        groups_value(g) < 0x1_0000_0000_0000_0000_0000_0000_0000_0000,
{
    lemma_group_step(g, 0);
    lemma_group_step(g, 1);
    lemma_group_step(g, 2);
    lemma_group_step(g, 3);
    lemma_group_step(g, 4);
    lemma_group_step(g, 5);
    lemma_group_step(g, 6);
    lemma_group_step(g, 7);
    assert(groups_value(g.take(0)) == 0);
    assert(g.take(8) =~= g);
    assert(g[0] <= 0xFFFF && g[1] <= 0xFFFF && g[2] <= 0xFFFF && g[3] <= 0xFFFF);
    assert(g[4] <= 0xFFFF && g[5] <= 0xFFFF && g[6] <= 0xFFFF && g[7] <= 0xFFFF);
}

proof fn lemma_group_step(g: Seq<nat>, k: int)
    requires
        0 <= k < g.len(),
    ensures
        groups_value(g.take(k + 1)) == groups_value(g.take(k)) * 0x1_0000 + g[k],
{
    assert(g.take(k + 1).drop_last() =~= g.take(k));
    assert(g.take(k + 1).last() == g[k]);
}

/// Eight groups between colons are read as the address that they make up.
pub proof fn law_ipv6_full(ps: Seq<Seq<char>>, g: Seq<u16>)
    requires
        groups_stand(ps, g),
        ps.len() == 8,
    ensures
        ipv6_of(joined(ps, ':')) matches Some(a) && a.bits == groups_value(as_nats(g)),
{
    let s = joined(ps, ':');
    lemma_groups_text(ps, g);
    law_first_pair(s, ':', ':', s.len() as int);
    lemma_joined_pieces(ps, ':');
    lemma_groups_read(ps, g, true);
    law_groups_value(as_nats(g));
}

/// Two colons stand for as many zero groups as are missing, at least one.
pub proof fn law_ipv6_short(ps: Seq<Seq<char>>, g: Seq<u16>, qs: Seq<Seq<char>>, h: Seq<u16>)
    requires
        groups_stand(ps, g),
        groups_stand(qs, h),
    ensures
        ({
            let r = ipv6_of(joined(ps, ':') + seq![':', ':'] + joined(qs, ':'));
            let zeros = Seq::new((8 - ps.len() - qs.len()) as nat, |i: int| 0nat);
            if ps.len() + qs.len() <= 7 {
                r matches Some(a) && a.bits == groups_value(as_nats(g) + zeros + as_nats(h))
            } else {
                r is None
            }
        }),
{
    let a = joined(ps, ':');
    let b = joined(qs, ':');
    let s = a + seq![':', ':'] + b;
    lemma_groups_text(ps, g);
    let i = a.len() as int;
    assert forall|j: int| 0 <= j < i && j + 1 < s.len() implies !(#[trigger] s[j] == ':' && s[j + 1]
        == ':') by {
        if j + 1 < i {
            assert(s[j] == a[j] && s[j + 1] == a[j + 1]);
        } else {
            assert(s[j] == a[a.len() - 1]);
        }
    }
    law_first_pair(s, ':', ':', i);
    assert(s.take(i) =~= a);
    assert(s.skip(i + 2) =~= b);
    lemma_side_read(ps, g, false);
    lemma_side_read(qs, h, true);
    if ps.len() + qs.len() <= 7 {
        let n = (8 - ps.len() - qs.len()) as nat;
        let zeros = Seq::new(n, |i: int| 0nat);
        assert(zero_groups(n) =~= zeros);
        law_groups_value(as_nats(g) + zeros + as_nats(h));
    }
}

/// An IPv6 address in brackets and a port behind a colon are read as both.
pub proof fn law_socket6_text(text: Seq<char>, addr: Ipv6Addr, port: u16)
    requires
        ipv6_of(text) == Some(addr),
        !text.contains(']'),
        !text.contains('%'),
    ensures
        socket_of(seq!['['] + text + seq![']', ':'] + decimal(port as nat)) == Some(
            SocketAddr { ip: IpAddr::V6(addr), port, scope_id: 0 },
        ),
{
    let d = decimal(port as nat);
    let s = seq!['['] + text + seq![']', ':'] + d;
    let n = text.len() as int;
    lemma_decimal_shape(port as nat);
    assert forall|j: int| 0 <= j < n + 1 implies s[j] != ']' by {
        if j > 0 {
            assert(text.contains(text[j - 1]));
        }
    }
    lemma_first_of_is(s, ']', n + 1);
    let inner = before(s, ']').drop_first();
    assert(inner =~= text);
    lemma_first_of(text, '%');
    assert(before(text, '%') =~= text);
    assert(after(s, ']') =~= seq![':'] + d);
    assert(after(s, ']').drop_first() =~= d);
    lemma_cut(s, ':');
    if occurs(s, ':') && ipv4_of(before(s, ':')) is Some {
        let a = choose|a: Ipv4Addr| before(s, ':') == #[trigger] ipv4_text(a);
        lemma_ipv4_chars(a);
        assert(ipv4_text(a)[0] == before(s, ':')[0]);
        assert(s[0] == '[');
        assert(false);
    }
}

} // verus!
