//! IP-based access control lists for zone transfer (AXFR) authorization.
//!
//! A list of allowed CIDR ranges (or single IPs); `is_allowed` checks whether
//! a client IP falls within any of them. Empty list = deny all.

use crate::net::{ip_of, IpAddr, Ipv4Addr, Ipv6Addr};
use crate::text::{
    after, before, decimal, law_number, lemma_first_of, lemma_first_of_is, number, occurs,
    parse_number, split_once, trim, trim_spec,
};
use vstd::arithmetic::power2::pow2;
use vstd::prelude::*;

verus! {

/// A network in the ACL: an address and how many of its leading bits count.
#[allow(inconsistent_fields)]
#[derive(Debug, Clone, Copy, PartialEq, Eq, Structural)]
pub enum Cidr {
    V4 { addr: Ipv4Addr, prefix: u8 },
    V6 { addr: Ipv6Addr, prefix: u8 },
}

/// What is wrong with an ACL entry.
#[derive(Debug, Clone, Copy, PartialEq, Eq, Structural)]
pub enum CidrError {
    /// The prefix length is not a number that fits in an octet.
    InvalidPrefix,
    /// The prefix is longer than the address.
    PrefixTooLong,
    /// There is no valid IP address.
    InvalidAddress,
}

/// An ACL entry that could not be understood.
#[derive(Debug)]
pub struct AclError {
    /// The entry, without white space around it.
    pub entry: String,
    /// What is wrong with it.
    pub reason: CidrError,
}

/// An ACL: a list of CIDR ranges that are permitted.
#[derive(Debug)]
pub struct Acl {
    entries: Vec<Cidr>,
}

impl Clone for Acl {
    fn clone(&self) -> (r: Self)
        ensures
            r@ == self@,
    {
        proof {
            use_type_invariant(self);
        }
        let entries = self.entries.clone();
        assert(entries@ =~= self.entries@);
        Acl { entries }
    }
}

impl Cidr {
    /// Whether an address lies in the network: it is of the same version and its
    /// first `prefix` bits are those of the network.
    pub open spec fn matches(self, ip: IpAddr) -> bool {
        match (self, ip) {
            (Cidr::V4 { addr, prefix }, IpAddr::V4(a)) => a.bits as int / pow2(
                (32 - prefix) as nat,
            ) as int == addr.bits as int / pow2((32 - prefix) as nat) as int,
            (Cidr::V6 { addr, prefix }, IpAddr::V6(a)) => a.bits as int / pow2(
                (128 - prefix) as nat,
            ) as int == addr.bits as int / pow2((128 - prefix) as nat) as int,
            _ => false,
        }
    }

    /// Whether the prefix is no longer than the address.
    pub open spec fn wf(self) -> bool {
        match self {
            Cidr::V4 { prefix, .. } => prefix <= 32,
            Cidr::V6 { prefix, .. } => prefix <= 128,
        }
    }
}

/// The network of an address and a prefix length.
pub open spec fn cidr_with(ip: Option<IpAddr>, prefix: u8) -> Result<Cidr, CidrError> {
    match ip {
        Some(IpAddr::V4(addr)) => if prefix > 32 {
            Err(CidrError::PrefixTooLong)
        } else {
            Ok(Cidr::V4 { addr, prefix })
        },
        Some(IpAddr::V6(addr)) => if prefix > 128 {
            Err(CidrError::PrefixTooLong)
        } else {
            Ok(Cidr::V6 { addr, prefix })
        },
        None => Err(CidrError::InvalidAddress),
    }
}

/// The network that a text stands for: an address, or an address, a slash and a
/// prefix length. A single address is a network of one.
pub open spec fn cidr_of(s: Seq<char>) -> Result<Cidr, CidrError> {
    if occurs(s, '/') {
        match number(after(s, '/'), u8::MAX as nat) {
            Some(p) => cidr_with(ip_of(before(s, '/')), p as u8),
            None => Err(CidrError::InvalidPrefix),
        }
    } else {
        match ip_of(s) {
            Some(IpAddr::V4(addr)) => Ok(Cidr::V4 { addr, prefix: 32 }),
            Some(IpAddr::V6(addr)) => Ok(Cidr::V6 { addr, prefix: 128 }),
            None => Err(CidrError::InvalidAddress),
        }
    }
}

/// The networks that the entries stand for, blank entries left out; or the first
/// entry that does not stand for any, and why.
pub open spec fn cidrs_of(specs: Seq<Seq<char>>) -> Result<Seq<Cidr>, (Seq<char>, CidrError)>
    decreases specs.len(),
{
    if specs.len() == 0 {
        Ok(Seq::empty())
    } else {
        match cidrs_of(specs.drop_last()) {
            Err(e) => Err(e),
            Ok(cs) => {
                let s = trim_spec(specs.last());
                if s.len() == 0 {
                    Ok(cs)
                } else {
                    match cidr_of(s) {
                        Ok(c) => Ok(cs.push(c)),
                        Err(e) => Err((s, e)),
                    }
                }
            },
        }
    }
}

/// The texts of a list.
pub open spec fn string_views(v: Seq<String>) -> Seq<Seq<char>> {
    v.map_values(|s: String| s@)
}

proof fn lemma_cidrs_fail(specs: Seq<Seq<char>>, i: int)
    requires
        0 <= i <= specs.len(),
        cidrs_of(specs.take(i)) is Err,
    ensures
        cidrs_of(specs) == cidrs_of(specs.take(i)),
    decreases specs.len(),
{
    if i == specs.len() {
        assert(specs.take(i) =~= specs);
    } else {
        assert(specs.drop_last().take(i) =~= specs.take(i));
        lemma_cidrs_fail(specs.drop_last(), i);
    }
}

proof fn lemma_cidrs_wf(specs: Seq<Seq<char>>, cs: Seq<Cidr>)
    requires
        cidrs_of(specs) == Ok::<Seq<Cidr>, (Seq<char>, CidrError)>(cs),
    ensures
        forall|i: int| 0 <= i < cs.len() ==> (#[trigger] cs[i]).wf(),
    decreases specs.len(),
{
    if specs.len() > 0 {
        match cidrs_of(specs.drop_last()) {
            Ok(init) => {
                lemma_cidrs_wf(specs.drop_last(), init);
            },
            Err(_) => {},
        }
    }
}

impl View for Acl {
    type V = Seq<Cidr>;

    /// The permitted networks.
    closed spec fn view(&self) -> Seq<Cidr> {
        self.entries@
    }
}

impl Acl {
    #[verifier::type_invariant]
    spec fn wf(self) -> bool {
        forall|i: int| 0 <= i < self.entries@.len() ==> (#[trigger] self.entries@[i]).wf()
    }

    /// Parses a list of CIDR strings (e.g. `["10.0.0.0/8", "192.168.1.5"]`).
    /// A bare IP is treated as `/32` (v4) or `/128` (v6).
    pub fn parse(specs: &[String]) -> (r: Result<Self, AclError>)
        ensures
            match (r, cidrs_of(string_views(specs@))) {
                (Ok(acl), Ok(cs)) => acl@ == cs,
                (Err(e), Err((entry, reason))) => e.entry@ == entry && e.reason == reason,
                _ => false,
            },
    {
        let ghost all = string_views(specs@);
        let mut entries: Vec<Cidr> = Vec::new();
        let mut i: usize = 0;
        proof {
            assert(all.take(0) =~= Seq::empty());
        }
        while i < specs.len()
            invariant
                i <= specs@.len(),
                all == string_views(specs@),
                cidrs_of(all.take(i as int)) == Ok::<Seq<Cidr>, (Seq<char>, CidrError)>(entries@),
            decreases specs@.len() - i,
        {
            proof {
                assert(all.take(i + 1).drop_last() =~= all.take(i as int));
                assert(all.take(i + 1).last() == specs@[i as int]@);
            }
            let s = trim(specs[i].as_str());
            if !s.is_empty() {
                match parse_cidr(s) {
                    Ok(c) => {
                        entries.push(c);
                    },
                    Err(reason) => {
                        proof {
                            lemma_cidrs_fail(all, i + 1);
                        }
                        return Err(AclError { entry: s.to_owned(), reason });
                    },
                }
            }
            i = i + 1;
        }
        proof {
            assert(all.take(i as int) =~= all);
            lemma_cidrs_wf(all, entries@);
        }
        Ok(Acl { entries })
    }

    /// An ACL that denies everything.
    pub fn deny_all() -> (r: Self)
        ensures
            r@ == Seq::<Cidr>::empty(),
    {
        Acl { entries: Vec::new() }
    }

    /// Whether `ip` is permitted by this ACL.
    pub fn is_allowed(&self, ip: &IpAddr) -> (r: bool)
        ensures
            r == permits(self@, *ip),
    {
        proof {
            use_type_invariant(self);
        }
        let mut i: usize = 0;
        while i < self.entries.len()
            invariant
                i <= self.entries@.len(),
                self.wf(),
                forall|j: int| 0 <= j < i ==> !(#[trigger] self.entries@[j]).matches(*ip),
            decreases self.entries@.len() - i,
        {
            if cidr_matches(&self.entries[i], ip) {
                assert(self@[i as int].matches(*ip));
                return true;
            }
            i = i + 1;
        }
        false
    }
}

/// Whether some network of the list holds the address.
pub open spec fn permits(acl: Seq<Cidr>, ip: IpAddr) -> bool {
    exists|i: int| 0 <= i < acl.len() && (#[trigger] acl[i]).matches(ip)
}

/// An empty list permits nobody.
pub proof fn law_empty_denies(ip: IpAddr)
    ensures
        !permits(Seq::empty(), ip),
{
}

/// A longer list permits at least whom a shorter one does.
pub proof fn law_permits_monotonic(a: Seq<Cidr>, b: Seq<Cidr>, ip: IpAddr)
    ensures
        permits(a + b, ip) == (permits(a, ip) || permits(b, ip)),
{
    let c = a + b;
    if permits(a, ip) {
        let i = choose|i: int| 0 <= i < a.len() && (#[trigger] a[i]).matches(ip);
        assert(c[i].matches(ip));
    }
    if permits(b, ip) {
        let i = choose|i: int| 0 <= i < b.len() && (#[trigger] b[i]).matches(ip);
        assert(c[a.len() + i].matches(ip));
    }
    if permits(c, ip) {
        let i = choose|i: int| 0 <= i < c.len() && (#[trigger] c[i]).matches(ip);
        if i < a.len() {
            assert(a[i].matches(ip));
        } else {
            assert(b[i - a.len()].matches(ip));
        }
    }
}

/// A network of full length permits one address and no other.
pub proof fn law_single_host(addr: IpAddr, ip: IpAddr)
    ensures
        permits(
            seq![match addr {
                IpAddr::V4(addr) => Cidr::V4 { addr, prefix: 32 },
                IpAddr::V6(addr) => Cidr::V6 { addr, prefix: 128 },
            }],
            ip,
        ) == (ip == addr),
{
    vstd::arithmetic::power2::lemma2_to64();
    let c = match addr {
        IpAddr::V4(addr) => Cidr::V4 { addr, prefix: 32 },
        IpAddr::V6(addr) => Cidr::V6 { addr, prefix: 128 },
    };
    assert(pow2(0) == 1);
    match (addr, ip) {
        (IpAddr::V4(x), IpAddr::V4(y)) => {
            assert(x.bits as int / 1 == x.bits && y.bits as int / 1 == y.bits);
        },
        (IpAddr::V6(x), IpAddr::V6(y)) => {
            assert(x.bits as int / 1 == x.bits && y.bits as int / 1 == y.bits);
        },
        _ => {},
    }
    assert(c.matches(ip) == (ip == addr));
    assert(seq![c][0] == c);
}

fn parse_cidr(s: &str) -> (r: Result<Cidr, CidrError>)
    ensures
        r == cidr_of(s@),
{
    match split_once(s, '/') {
        Some((addr_part, prefix_part)) => {
            let prefix: u8 = match parse_number(prefix_part, 255) {
                Some(p) => {
                    proof {
                        crate::text::lemma_number_bound(prefix_part@, 255);
                    }
                    p as u8
                },
                None => return Err(CidrError::InvalidPrefix),
            };
            match IpAddr::parse(addr_part) {
                Some(IpAddr::V4(addr)) => {
                    if prefix > 32 {
                        return Err(CidrError::PrefixTooLong);
                    }
                    Ok(Cidr::V4 { addr, prefix })
                },
                Some(IpAddr::V6(addr)) => {
                    if prefix > 128 {
                        return Err(CidrError::PrefixTooLong);
                    }
                    Ok(Cidr::V6 { addr, prefix })
                },
                None => Err(CidrError::InvalidAddress),
            }
        },
        // No prefix -> single host (/32 or /128).
        None => match IpAddr::parse(s) {
            Some(IpAddr::V4(addr)) => Ok(Cidr::V4 { addr, prefix: 32 }),
            Some(IpAddr::V6(addr)) => Ok(Cidr::V6 { addr, prefix: 128 }),
            None => Err(CidrError::InvalidAddress),
        },
    }
}

/// The bits of a number above its lowest `drop`.
fn high_bits(x: u128, drop: u8, width: u8) -> (r: u128)
    requires
        drop <= width <= 128,
        x < pow2(width as nat),
    ensures
        r as int == x as int / pow2(drop as nat) as int,
{
    proof {
        vstd::arithmetic::power2::lemma_pow2_pos(drop as nat);
    }
    if drop >= 128 {
        proof {
            vstd::arithmetic::div_mod::lemma_basic_div(x as int, pow2(drop as nat) as int);
        }
        return 0;
    }
    proof {
        vstd::bits::lemma_u128_shr_is_div(x, drop as u128);
    }
    x >> (drop as u128)
}

/// Whether an address lies in a network: the leading bits are compared.
fn cidr_matches(c: &Cidr, ip: &IpAddr) -> (r: bool)
    requires
        c.wf(),
    ensures
        r == c.matches(*ip),
{
    proof {
        vstd::arithmetic::power2::lemma2_to64();
        lemma_pow2_128();
    }
    match (*c, *ip) {
        (Cidr::V4 { addr, prefix }, IpAddr::V4(a)) => high_bits(a.bits as u128, 32 - prefix, 32)
            == high_bits(addr.bits as u128, 32 - prefix, 32),
        (Cidr::V6 { addr, prefix }, IpAddr::V6(a)) => high_bits(a.bits, 128 - prefix, 128)
            == high_bits(addr.bits, 128 - prefix, 128),
        // v4 entry vs v6 client or vice versa
        _ => false,
    }
}

proof fn lemma_pow2_128()
    ensures
        pow2(128) == 0x1_0000_0000_0000_0000_0000_0000_0000_0000,
{
    vstd::arithmetic::power2::lemma2_to64();
    vstd::arithmetic::power2::lemma_pow2_adds(64, 64);
    assert(0x1_0000_0000_0000_0000int * 0x1_0000_0000_0000_0000int
        == 0x1_0000_0000_0000_0000_0000_0000_0000_0000int) by (nonlinear_arith);
}

/// A network is a run of addresses: those from its first one, whose bits behind the prefix
/// are all zero, on. There are two to the number of the bits behind the prefix of them.
pub proof fn law_network(c: Cidr, ip: IpAddr)
    requires
        c.wf(),
    ensures
        match (c, ip) {
            (Cidr::V4 { addr, prefix }, IpAddr::V4(a)) => {
                let size = pow2((32 - prefix) as nat) as int;
                let first = addr.bits - addr.bits as int % size;
                c.matches(ip) <==> first <= a.bits < first + size
            },
            (Cidr::V6 { addr, prefix }, IpAddr::V6(a)) => {
                let size = pow2((128 - prefix) as nat) as int;
                let first = addr.bits - addr.bits as int % size;
                c.matches(ip) <==> first <= a.bits < first + size
            },
            _ => !c.matches(ip),
        },
{
    match (c, ip) {
        (Cidr::V4 { addr, prefix }, IpAddr::V4(a)) => {
            vstd::arithmetic::power2::lemma_pow2_pos((32 - prefix) as nat);
            lemma_same_run(a.bits as int, addr.bits as int, pow2((32 - prefix) as nat) as int);
        },
        (Cidr::V6 { addr, prefix }, IpAddr::V6(a)) => {
            vstd::arithmetic::power2::lemma_pow2_pos((128 - prefix) as nat);
            lemma_same_run(a.bits as int, addr.bits as int, pow2((128 - prefix) as nat) as int);
        },
        _ => {},
    }
}

proof fn lemma_same_run(a: int, b: int, size: int)
    requires
        size > 0,
    ensures
        a / size == b / size <==> b - b % size <= a < b - b % size + size,
{
    let q = b / size;
    vstd::arithmetic::div_mod::lemma_fundamental_div_mod(a, size);
    vstd::arithmetic::div_mod::lemma_fundamental_div_mod(b, size);
    vstd::arithmetic::div_mod::lemma_mod_bound(a, size);
    vstd::arithmetic::div_mod::lemma_mod_bound(b, size);
    if b - b % size <= a < b - b % size + size {
        vstd::arithmetic::mul::lemma_mul_is_commutative(size, q);
        vstd::arithmetic::div_mod::lemma_fundamental_div_mod_converse(a, size, q, a - size * q);
    }
}

/// A network is read from its notation, the length of the prefix in decimal behind a
/// slash. A length that the address does not have is refused, and an address alone is a
/// network of one.
pub proof fn law_network_text(text: Seq<char>, ip: IpAddr, prefix: nat)
    requires
        ip_of(text) == Some(ip),
        !text.contains('/'),
    ensures
        ({
            let r = cidr_of(text + seq!['/'] + decimal(prefix));
            match ip {
                IpAddr::V4(addr) => {
                    &&& cidr_of(text) == Ok::<_, CidrError>(Cidr::V4 { addr, prefix: 32 })
                    &&& prefix <= 32 ==> r == Ok::<_, CidrError>(
                        Cidr::V4 { addr, prefix: prefix as u8 },
                    )
                    &&& 32 < prefix <= 255 ==> r == Err::<Cidr, _>(CidrError::PrefixTooLong)
                    &&& 255 < prefix ==> r == Err::<Cidr, _>(CidrError::InvalidPrefix)
                },
                IpAddr::V6(addr) => {
                    &&& cidr_of(text) == Ok::<_, CidrError>(Cidr::V6 { addr, prefix: 128 })
                    &&& prefix <= 128 ==> r == Ok::<_, CidrError>(
                        Cidr::V6 { addr, prefix: prefix as u8 },
                    )
                    &&& 128 < prefix <= 255 ==> r == Err::<Cidr, _>(CidrError::PrefixTooLong)
                    &&& 255 < prefix ==> r == Err::<Cidr, _>(CidrError::InvalidPrefix)
                },
            }
        }),
{
    let s = text + seq!['/'] + decimal(prefix);
    lemma_first_of(text, '/');
    assert forall|j: int| 0 <= j < text.len() implies s[j] != '/' by {
        assert(text.contains(text[j]));
    }
    lemma_first_of_is(s, '/', text.len() as int);
    assert(before(s, '/') =~= text);
    assert(after(s, '/') =~= decimal(prefix));
    law_number(prefix, u8::MAX as nat, text, 0);
}

/// Whether an entry of a list permits an address: it is not blank and its network holds
/// the address.
pub open spec fn entry_permits(entry: Seq<char>, ip: IpAddr) -> bool {
    trim_spec(entry).len() > 0 && (cidr_of(trim_spec(entry)) matches Ok(c) && c.matches(ip))
}

/// Whether an entry of a list is understood, or blank.
pub open spec fn entry_ok(entry: Seq<char>) -> bool {
    trim_spec(entry).len() == 0 || cidr_of(trim_spec(entry)) is Ok
}

/// A list permits an address where one of its entries does. All entries of a list that is
/// accepted are understood.
pub proof fn law_entries(specs: Seq<Seq<char>>, ip: IpAddr)
    requires
        cidrs_of(specs) is Ok,
    ensures
        permits(cidrs_of(specs)->Ok_0, ip) <==> exists|i: int|
            0 <= i < specs.len() && entry_permits(#[trigger] specs[i], ip),
        forall|i: int| 0 <= i < specs.len() ==> entry_ok(#[trigger] specs[i]),
    decreases specs.len(),
{
    if specs.len() > 0 {
        let init = specs.drop_last();
        let last = specs.last();
        law_entries(init, ip);
        let cs = cidrs_of(init)->Ok_0;
        let all = cidrs_of(specs)->Ok_0;
        assert(permits(all, ip) <==> permits(cs, ip) || entry_permits(last, ip)) by {
            if trim_spec(last).len() > 0 {
                let c = cidr_of(trim_spec(last))->Ok_0;
                assert(all =~= cs + seq![c]);
                law_permits_monotonic(cs, seq![c], ip);
                assert(seq![c][0] == c);
            }
        }
        lemma_some_entry(specs, ip);
        assert forall|i: int| 0 <= i < specs.len() implies entry_ok(#[trigger] specs[i]) by {
            if i < init.len() {
                assert(entry_ok(init[i]));
            }
        }
    }
}

proof fn lemma_some_entry(specs: Seq<Seq<char>>, ip: IpAddr)
    requires
        specs.len() > 0,
    ensures
        (exists|i: int| 0 <= i < specs.len() && entry_permits(#[trigger] specs[i], ip)) <==> (
        exists|i: int|
            0 <= i < specs.drop_last().len() && entry_permits(
                #[trigger] specs.drop_last()[i],
                ip,
            )) || entry_permits(specs.last(), ip),
{
    let init = specs.drop_last();
    if exists|i: int| 0 <= i < specs.len() && entry_permits(#[trigger] specs[i], ip) {
        let i = choose|i: int| 0 <= i < specs.len() && entry_permits(#[trigger] specs[i], ip);
        if i < init.len() {
            assert(entry_permits(init[i], ip));
        }
    }
    if exists|i: int| 0 <= i < init.len() && entry_permits(#[trigger] init[i], ip) {
        let i = choose|i: int| 0 <= i < init.len() && entry_permits(#[trigger] init[i], ip);
        assert(entry_permits(specs[i], ip));
    }
    if entry_permits(specs.last(), ip) {
        assert(entry_permits(specs[specs.len() - 1], ip));
    }
}

/// A list is refused by its first entry that is not understood, and only by such a one.
pub proof fn law_entry_refused(specs: Seq<Seq<char>>, i: int)
    requires
        0 <= i < specs.len(),
        !entry_ok(specs[i]),
        forall|j: int| 0 <= j < i ==> entry_ok(#[trigger] specs[j]),
    ensures
        cidrs_of(specs) == Err::<Seq<Cidr>, _>(
            (trim_spec(specs[i]), cidr_of(trim_spec(specs[i]))->Err_0),
        ),
{
    lemma_entries_ok(specs.take(i));
    assert(specs.take(i + 1).drop_last() =~= specs.take(i));
    lemma_cidrs_fail(specs, i + 1);
}

proof fn lemma_entries_ok(specs: Seq<Seq<char>>)
    requires
        forall|j: int| 0 <= j < specs.len() ==> entry_ok(#[trigger] specs[j]),
    ensures
        cidrs_of(specs) is Ok,
    decreases specs.len(),
{
    if specs.len() > 0 {
        let init = specs.drop_last();
        assert forall|j: int| 0 <= j < init.len() implies entry_ok(#[trigger] init[j]) by {
            assert(init[j] == specs[j]);
        }
        lemma_entries_ok(init);
        assert(entry_ok(specs[specs.len() - 1]));
    }
}

} // verus!
