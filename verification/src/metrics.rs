//! Counters for observability.

use crate::text::{decimal, decimal_text, holds};
use vstd::prelude::*;

verus! {

/// Per-query counters.
#[derive(Debug, Clone, Copy, PartialEq, Eq, Structural)]
pub struct Metrics {
    pub total: u64,
    pub authoritative: u64,
    pub cache_hits: u64,
    pub forwarded: u64,
    pub coalesced: u64,
    pub rate_limited: u64,
    pub blocked: u64,
    pub errors: u64,
}

/// The number after `n`; after the largest comes 0.
pub open spec fn next(n: u64) -> u64 {
    if n == u64::MAX {
        0
    } else {
        (n + 1) as u64
    }
}

fn bump(n: u64) -> (r: u64)
    ensures
        r == next(n),
{
    if n == u64::MAX {
        0
    } else {
        n + 1
    }
}

/// One counter in the Prometheus text format: what it means, its kind, its value.
pub open spec fn exposition(name: Seq<char>, help: Seq<char>, value: u64) -> Seq<char> {
    "# HELP "@ + name + " "@ + help + "\n# TYPE "@ + name + " counter\n"@ + name + " "@ + decimal(
        value as nat,
    ) + "\n"@
}

/// A name, an equals sign and a number.
pub open spec fn pair(name: Seq<char>, value: u64) -> Seq<char> {
    name + "="@ + decimal(value as nat)
}

fn append_exposition(out: &mut String, name: &str, help: &str, value: u64)
    ensures
        final(out)@ == old(out)@ + exposition(name@, help@, value),
{
    out.append("# HELP ");
    out.append(name);
    out.append(" ");
    out.append(help);
    out.append("\n# TYPE ");
    out.append(name);
    out.append(" counter\n");
    out.append(name);
    out.append(" ");
    out.append(decimal_text(value).as_str());
    out.append("\n");
    assert(out@ =~= old(out)@ + exposition(name@, help@, value));
}

fn append_pair(out: &mut String, name: &str, value: u64)
    ensures
        final(out)@ == old(out)@ + pair(name@, value),
{
    out.append(name);
    out.append("=");
    out.append(decimal_text(value).as_str());
    assert(out@ =~= old(out)@ + pair(name@, value));
}

impl Metrics {
    /// Nothing has been counted.
    pub open spec fn zero() -> Metrics {
        Metrics {
            total: 0,
            authoritative: 0,
            cache_hits: 0,
            forwarded: 0,
            coalesced: 0,
            rate_limited: 0,
            blocked: 0,
            errors: 0,
        }
    }
}

impl Default for Metrics {
    /// All counters at 0.
    fn default() -> (r: Self)
        ensures
            r == Metrics::zero(),
    {
        Metrics {
            total: 0,
            authoritative: 0,
            cache_hits: 0,
            forwarded: 0,
            coalesced: 0,
            rate_limited: 0,
            blocked: 0,
            errors: 0,
        }
    }
}

impl Metrics {
    /// Counts one more of: total queries received.
    pub fn inc_total(&mut self)
        ensures
            *final(self) == (Metrics { total: next(old(self).total), ..*old(self) }),
    {
        self.total = bump(self.total);
    }

    /// Counts one more of: queries answered from the local zone.
    pub fn inc_authoritative(&mut self)
        ensures
            *final(self) == (Metrics {
                authoritative: next(old(self).authoritative),
                ..*old(self)
            }),
    {
        self.authoritative = bump(self.authoritative);
    }

    /// Counts one more of: queries answered from the cache.
    pub fn inc_cache_hit(&mut self)
        ensures
            *final(self) == (Metrics { cache_hits: next(old(self).cache_hits), ..*old(self) }),
    {
        self.cache_hits = bump(self.cache_hits);
    }

    /// Counts one more of: queries forwarded upstream.
    pub fn inc_forwarded(&mut self)
        ensures
            *final(self) == (Metrics { forwarded: next(old(self).forwarded), ..*old(self) }),
    {
        self.forwarded = bump(self.forwarded);
    }

    /// Counts one more of: queries coalesced by single-flight.
    pub fn inc_coalesced(&mut self)
        ensures
            *final(self) == (Metrics { coalesced: next(old(self).coalesced), ..*old(self) }),
    {
        self.coalesced = bump(self.coalesced);
    }

    /// Counts one more of: queries dropped by the rate limiter.
    pub fn inc_rate_limited(&mut self)
        ensures
            *final(self) == (Metrics { rate_limited: next(old(self).rate_limited), ..*old(self) }),
    {
        self.rate_limited = bump(self.rate_limited);
    }

    /// Counts one more of: queries blocked by the blocklist.
    pub fn inc_blocked(&mut self)
        ensures
            *final(self) == (Metrics { blocked: next(old(self).blocked), ..*old(self) }),
    {
        self.blocked = bump(self.blocked);
    }

    /// Counts one more of: packets that failed to parse or forward.
    pub fn inc_error(&mut self)
        ensures
            *final(self) == (Metrics { errors: next(old(self).errors), ..*old(self) }),
    {
        self.errors = bump(self.errors);
    }

    /// Total queries received.
    pub fn total(&self) -> (n: u64)
        ensures
            n == self.total,
    {
        self.total
    }

    /// Queries answered from the local zone.
    pub fn authoritative(&self) -> (n: u64)
        ensures
            n == self.authoritative,
    {
        self.authoritative
    }

    /// Queries answered from the cache.
    pub fn cache_hits(&self) -> (n: u64)
        ensures
            n == self.cache_hits,
    {
        self.cache_hits
    }

    /// Queries forwarded upstream.
    pub fn forwarded(&self) -> (n: u64)
        ensures
            n == self.forwarded,
    {
        self.forwarded
    }

    /// Queries coalesced by single-flight.
    pub fn coalesced(&self) -> (n: u64)
        ensures
            n == self.coalesced,
    {
        self.coalesced
    }

    /// Queries dropped by the rate limiter.
    pub fn rate_limited(&self) -> (n: u64)
        ensures
            n == self.rate_limited,
    {
        self.rate_limited
    }

    /// Queries blocked by the blocklist.
    pub fn blocked(&self) -> (n: u64)
        ensures
            n == self.blocked,
    {
        self.blocked
    }

    /// Packets that failed to parse or forward.
    pub fn errors(&self) -> (n: u64)
        ensures
            n == self.errors,
    {
        self.errors
    }

    /// The counters in Prometheus text exposition format.
    pub open spec fn prometheus_spec(&self) -> Seq<char> {
        exposition("mini_dns_queries_total"@, "Total queries received"@, self.total)
            + exposition(
            "mini_dns_authoritative_total"@,
            "Queries answered from the local zone"@,
            self.authoritative,
        )
            + exposition(
            "mini_dns_cache_hits_total"@,
            "Queries answered from the cache"@,
            self.cache_hits,
        )
            + exposition(
            "mini_dns_forwarded_total"@,
            "Queries forwarded upstream"@,
            self.forwarded,
        )
            + exposition(
            "mini_dns_coalesced_total"@,
            "Queries coalesced by single-flight"@,
            self.coalesced,
        )
            + exposition(
            "mini_dns_rate_limited_total"@,
            "Queries dropped by the rate limiter"@,
            self.rate_limited,
        )
            + exposition(
            "mini_dns_blocked_total"@,
            "Queries blocked by the blocklist"@,
            self.blocked,
        )
            + exposition(
            "mini_dns_errors_total"@,
            "Packets that failed to parse or forward"@,
            self.errors,
        )
    }

    /// The counters on one line.
    pub open spec fn summary_spec(&self) -> Seq<char> {
        pair("total"@, self.total)
            + pair(" authoritative"@, self.authoritative)
            + pair(" cache_hits"@, self.cache_hits)
            + pair(" forwarded"@, self.forwarded)
            + pair(" coalesced"@, self.coalesced)
            + pair(" rate_limited"@, self.rate_limited)
            + pair(" blocked"@, self.blocked)
            + pair(" errors"@, self.errors)
    }

    /// Renders the counters in Prometheus text exposition format.
    pub fn prometheus(&self) -> (r: String)
        ensures
            r@ == self.prometheus_spec(),
    {
        let mut out = String::new();
        append_exposition(&mut out, "mini_dns_queries_total", "Total queries received", self.total);
        append_exposition(
            &mut out,
            "mini_dns_authoritative_total",
            "Queries answered from the local zone",
            self.authoritative,
        );
        append_exposition(
            &mut out,
            "mini_dns_cache_hits_total",
            "Queries answered from the cache",
            self.cache_hits,
        );
        append_exposition(
            &mut out,
            "mini_dns_forwarded_total",
            "Queries forwarded upstream",
            self.forwarded,
        );
        append_exposition(
            &mut out,
            "mini_dns_coalesced_total",
            "Queries coalesced by single-flight",
            self.coalesced,
        );
        append_exposition(
            &mut out,
            "mini_dns_rate_limited_total",
            "Queries dropped by the rate limiter",
            self.rate_limited,
        );
        append_exposition(
            &mut out,
            "mini_dns_blocked_total",
            "Queries blocked by the blocklist",
            self.blocked,
        );
        append_exposition(
            &mut out,
            "mini_dns_errors_total",
            "Packets that failed to parse or forward",
            self.errors,
        );
        assert(out@ =~= self.prometheus_spec());
        out
    }

    /// Returns a human-readable one-line snapshot of the current counters.
    pub fn summary(&self) -> (r: String)
        ensures
            r@ == self.summary_spec(),
    {
        let mut out = String::new();
        append_pair(&mut out, "total", self.total);
        append_pair(&mut out, " authoritative", self.authoritative);
        append_pair(&mut out, " cache_hits", self.cache_hits);
        append_pair(&mut out, " forwarded", self.forwarded);
        append_pair(&mut out, " coalesced", self.coalesced);
        append_pair(&mut out, " rate_limited", self.rate_limited);
        append_pair(&mut out, " blocked", self.blocked);
        append_pair(&mut out, " errors", self.errors);
        assert(out@ =~= self.summary_spec());
        out
    }
}

proof fn lemma_holds(a: Seq<char>, part: Seq<char>, b: Seq<char>)
    ensures
        holds(a + part + b, part),
{
    let text = a + part + b;
    let i = a.len() as int;
    assert(text.subrange(i, i + part.len()) =~= part);
}

/// The line of a counter: its name and its value in decimal.
pub open spec fn counter_line(name: Seq<char>, value: u64) -> Seq<char> {
    name + seq![' '] + decimal(value as nat) + seq!['\n']
}

proof fn lemma_counter_line(a: Seq<char>, name: Seq<char>, help: Seq<char>, v: u64, b: Seq<char>)
    ensures
        holds(a + exposition(name, help, v) + b, counter_line(name, v)),
{
    reveal_strlit(" ");
    reveal_strlit("\n");
    let front = "# HELP "@ + name + " "@ + help + "\n# TYPE "@ + name + " counter\n"@;
    assert(" "@ =~= seq![' ']);
    assert("\n"@ =~= seq!['\n']);
    assert(exposition(name, help, v) =~= front + counter_line(name, v));
    lemma_holds(a + front, counter_line(name, v), b);
    assert(a + front + counter_line(name, v) + b =~= a + exposition(name, help, v) + b);
}

proof fn lemma_eight(
    a: Seq<char>,
    b: Seq<char>,
    c: Seq<char>,
    d: Seq<char>,
    e: Seq<char>,
    f: Seq<char>,
    g: Seq<char>,
    h: Seq<char>,
)
    ensures
        a + b + c + d + e + f + g + h == a + (b + c + d + e + f + g + h),
        a + b + c + d + e + f + g + h == a + b + (c + d + e + f + g + h),
        a + b + c + d + e + f + g + h == a + b + c + (d + e + f + g + h),
        a + b + c + d + e + f + g + h == a + b + c + d + (e + f + g + h),
        a + b + c + d + e + f + g + h == a + b + c + d + e + (f + g + h),
        a + b + c + d + e + f + g + h == a + b + c + d + e + f + (g + h),
{
    assert(a + b + c + d + e + f + g + h =~= a + (b + c + d + e + f + g + h));
    assert(a + b + c + d + e + f + g + h =~= a + b + (c + d + e + f + g + h));
    assert(a + b + c + d + e + f + g + h =~= a + b + c + (d + e + f + g + h));
    assert(a + b + c + d + e + f + g + h =~= a + b + c + d + (e + f + g + h));
    assert(a + b + c + d + e + f + g + h =~= a + b + c + d + e + (f + g + h));
    assert(a + b + c + d + e + f + g + h =~= a + b + c + d + e + f + (g + h));
}

/// The page of the counters has a line for each of them, with the value of that counter.
pub proof fn law_prometheus(m: &Metrics)
    ensures
        holds(m.prometheus_spec(), counter_line("mini_dns_queries_total"@, m.total)),
        holds(m.prometheus_spec(), counter_line("mini_dns_authoritative_total"@, m.authoritative)),
        holds(m.prometheus_spec(), counter_line("mini_dns_cache_hits_total"@, m.cache_hits)),
        holds(m.prometheus_spec(), counter_line("mini_dns_forwarded_total"@, m.forwarded)),
        holds(m.prometheus_spec(), counter_line("mini_dns_coalesced_total"@, m.coalesced)),
        holds(m.prometheus_spec(), counter_line("mini_dns_rate_limited_total"@, m.rate_limited)),
        holds(m.prometheus_spec(), counter_line("mini_dns_blocked_total"@, m.blocked)),
        holds(m.prometheus_spec(), counter_line("mini_dns_errors_total"@, m.errors)),
{
    let none = Seq::<char>::empty();
    let e0 = exposition("mini_dns_queries_total"@, "Total queries received"@, m.total);
    let e1 = exposition(
        "mini_dns_authoritative_total"@,
        "Queries answered from the local zone"@,
        m.authoritative,
    );
    let e2 = exposition(
        "mini_dns_cache_hits_total"@,
        "Queries answered from the cache"@,
        m.cache_hits,
    );
    let e3 = exposition("mini_dns_forwarded_total"@, "Queries forwarded upstream"@, m.forwarded);
    let e4 = exposition(
        "mini_dns_coalesced_total"@,
        "Queries coalesced by single-flight"@,
        m.coalesced,
    );
    let e5 = exposition(
        "mini_dns_rate_limited_total"@,
        "Queries dropped by the rate limiter"@,
        m.rate_limited,
    );
    let e6 = exposition("mini_dns_blocked_total"@, "Queries blocked by the blocklist"@, m.blocked);
    let e7 = exposition(
        "mini_dns_errors_total"@,
        "Packets that failed to parse or forward"@,
        m.errors,
    );
    let all = m.prometheus_spec();
    lemma_eight(e0, e1, e2, e3, e4, e5, e6, e7);
    lemma_counter_line(
        none,
        "mini_dns_queries_total"@,
        "Total queries received"@,
        m.total,
        e1 + e2 + e3 + e4 + e5 + e6 + e7,
    );
    assert(none + e0 =~= e0);
    lemma_counter_line(
        e0,
        "mini_dns_authoritative_total"@,
        "Queries answered from the local zone"@,
        m.authoritative,
        e2 + e3 + e4 + e5 + e6 + e7,
    );
    lemma_counter_line(
        e0 + e1,
        "mini_dns_cache_hits_total"@,
        "Queries answered from the cache"@,
        m.cache_hits,
        e3 + e4 + e5 + e6 + e7,
    );
    lemma_counter_line(
        e0 + e1 + e2,
        "mini_dns_forwarded_total"@,
        "Queries forwarded upstream"@,
        m.forwarded,
        e4 + e5 + e6 + e7,
    );
    lemma_counter_line(
        e0 + e1 + e2 + e3,
        "mini_dns_coalesced_total"@,
        "Queries coalesced by single-flight"@,
        m.coalesced,
        e5 + e6 + e7,
    );
    lemma_counter_line(
        e0 + e1 + e2 + e3 + e4,
        "mini_dns_rate_limited_total"@,
        "Queries dropped by the rate limiter"@,
        m.rate_limited,
        e6 + e7,
    );
    lemma_counter_line(
        e0 + e1 + e2 + e3 + e4 + e5,
        "mini_dns_blocked_total"@,
        "Queries blocked by the blocklist"@,
        m.blocked,
        e7,
    );
    lemma_counter_line(
        e0 + e1 + e2 + e3 + e4 + e5 + e6,
        "mini_dns_errors_total"@,
        "Packets that failed to parse or forward"@,
        m.errors,
        none,
    );
    assert(all + none =~= all);
}

/// The summary names each counter and gives its value.
pub proof fn law_summary(m: &Metrics)
    ensures
        holds(m.summary_spec(), "total="@ + decimal(m.total as nat)),
        holds(m.summary_spec(), " authoritative="@ + decimal(m.authoritative as nat)),
        holds(m.summary_spec(), " cache_hits="@ + decimal(m.cache_hits as nat)),
        holds(m.summary_spec(), " forwarded="@ + decimal(m.forwarded as nat)),
        holds(m.summary_spec(), " coalesced="@ + decimal(m.coalesced as nat)),
        holds(m.summary_spec(), " rate_limited="@ + decimal(m.rate_limited as nat)),
        holds(m.summary_spec(), " blocked="@ + decimal(m.blocked as nat)),
        holds(m.summary_spec(), " errors="@ + decimal(m.errors as nat)),
{
    let none = Seq::<char>::empty();
    let e0 = pair("total"@, m.total);
    let e1 = pair(" authoritative"@, m.authoritative);
    let e2 = pair(" cache_hits"@, m.cache_hits);
    let e3 = pair(" forwarded"@, m.forwarded);
    let e4 = pair(" coalesced"@, m.coalesced);
    let e5 = pair(" rate_limited"@, m.rate_limited);
    let e6 = pair(" blocked"@, m.blocked);
    let e7 = pair(" errors"@, m.errors);
    let all = m.summary_spec();
    lemma_pair_names();
    lemma_eight(e0, e1, e2, e3, e4, e5, e6, e7);
    lemma_holds(none, e0, e1 + e2 + e3 + e4 + e5 + e6 + e7);
    assert(none + e0 =~= e0);
    lemma_holds(e0, e1, e2 + e3 + e4 + e5 + e6 + e7);
    lemma_holds(e0 + e1, e2, e3 + e4 + e5 + e6 + e7);
    lemma_holds(e0 + e1 + e2, e3, e4 + e5 + e6 + e7);
    lemma_holds(e0 + e1 + e2 + e3, e4, e5 + e6 + e7);
    lemma_holds(e0 + e1 + e2 + e3 + e4, e5, e6 + e7);
    lemma_holds(e0 + e1 + e2 + e3 + e4 + e5, e6, e7);
    lemma_holds(e0 + e1 + e2 + e3 + e4 + e5 + e6, e7, none);
    assert(all + none =~= all);
}

proof fn lemma_pair_names()
    ensures
        "total"@ + "="@ == "total="@,
        " authoritative"@ + "="@ == " authoritative="@,
        " cache_hits"@ + "="@ == " cache_hits="@,
        " forwarded"@ + "="@ == " forwarded="@,
        " coalesced"@ + "="@ == " coalesced="@,
        " rate_limited"@ + "="@ == " rate_limited="@,
        " blocked"@ + "="@ == " blocked="@,
        " errors"@ + "="@ == " errors="@,
{
    reveal_strlit("=");
    reveal_strlit("total");
    reveal_strlit("total=");
    reveal_strlit(" authoritative");
    reveal_strlit(" authoritative=");
    reveal_strlit(" cache_hits");
    reveal_strlit(" cache_hits=");
    reveal_strlit(" forwarded");
    reveal_strlit(" forwarded=");
    reveal_strlit(" coalesced");
    reveal_strlit(" coalesced=");
    reveal_strlit(" rate_limited");
    reveal_strlit(" rate_limited=");
    reveal_strlit(" blocked");
    reveal_strlit(" blocked=");
    reveal_strlit(" errors");
    reveal_strlit(" errors=");
    assert("total"@ + "="@ =~= "total="@);
    assert(" authoritative"@ + "="@ =~= " authoritative="@);
    assert(" cache_hits"@ + "="@ =~= " cache_hits="@);
    assert(" forwarded"@ + "="@ =~= " forwarded="@);
    assert(" coalesced"@ + "="@ =~= " coalesced="@);
    assert(" rate_limited"@ + "="@ =~= " rate_limited="@);
    assert(" blocked"@ + "="@ =~= " blocked="@);
    assert(" errors"@ + "="@ =~= " errors="@);
}

} // verus!
