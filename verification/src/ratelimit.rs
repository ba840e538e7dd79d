//! A simple per-client fixed-window rate limiter.

use crate::net::IpAddr;
use crate::time::{Clock, Duration};
use dashmap::DashMap;
use vstd::prelude::*;

verus! {

/// A client address as a key: the version and the bits.
pub type ClientKey = (u8, u128);

/// When the window of a client began, and the queries counted in it.
pub type Window = (u64, u32);

#[verifier::external_type_specification]
#[verifier::external_body]
#[verifier::reject_recursive_types(K)]
#[verifier::reject_recursive_types(V)]
#[verifier::reject_recursive_types(S)]
pub struct ExDashMap<K, V, S>(dashmap::DashMap<K, V, S>);

/// The windows that a map holds, by client.
pub uninterp spec fn windows(
    m: DashMap<(u8, u128), (u64, u32)>,
) -> Map<(u8, u128), (u64, u32)>;

/// `DashMap::new`: a map that holds nothing.
#[verifier::external_body]
fn windows_new() -> (m: DashMap<ClientKey, Window>)
    ensures
        windows(m) =~= map![],
{
    DashMap::new()
}

/// `DashMap::get`, with the value copied out: the value held for the key, if there
/// is one. No reference into the map stays behind.
#[verifier::external_body]
fn windows_get(m: &DashMap<ClientKey, Window>, key: ClientKey) -> (r: Option<Window>)
    ensures
        match r {
            Some(w) => windows(*m).contains_key(key) && w == windows(*m)[key],
            None => !windows(*m).contains_key(key),
        },
{
    m.get(&key).map(|w| *w.value())
}

/// `DashMap::insert`: the key now has the value, in place of any it had before, and
/// nothing else changes.
#[verifier::external_body]
fn windows_insert(m: &mut DashMap<ClientKey, Window>, key: ClientKey, w: Window)
    ensures
        windows(*final(m)) == windows(*old(m)).insert(key, w),
{
    m.insert(key, w);
}

/// `DashMap::len`: the number of keys.
#[verifier::external_body]
fn windows_len(m: &DashMap<ClientKey, Window>) -> (n: usize)
    ensures
        n == windows(*m).dom().len(),
{
    m.len()
}

/// `DashMap::retain`: the entries go for which the test fails, and the others stay
/// as they are. The test is whether the window is still open.
#[verifier::external_body]
fn windows_retain_open(m: &mut DashMap<ClientKey, Window>, now: u64, window: Duration)
    ensures
        windows(*final(m)) == still_open(windows(*old(m)), now, window),
{
    m.retain(|_, w| is_open(*w, now, window));
}

/// Whether the window has not elapsed at the time `now`. A window that begins
/// later than now has not.
pub open spec fn open_at(w: Window, now: u64, window: Duration) -> bool {
    if now >= w.0 {
        now - w.0 < window.nanos
    } else {
        0 < window.nanos
    }
}

/// The clients whose windows have not elapsed.
pub open spec fn still_open(
    m: Map<ClientKey, Window>,
    now: u64,
    window: Duration,
) -> Map<ClientKey, Window> {
    Map::new(
        |k: ClientKey| m.contains_key(k) && open_at(m[k], now, window),
        |k: ClientKey| m[k],
    )
}

/// Whether the window is still open at the time `now`.
fn is_open(w: Window, now: u64, window: Duration) -> (r: bool)
    ensures
        r == open_at(w, now, window),
{
    let elapsed: u64 = if now >= w.0 {
        now - w.0
    } else {
        0
    };
    (elapsed as u128) < window.nanos
}

/// The key of an address.
pub open spec fn client_key(ip: IpAddr) -> ClientKey {
    match ip {
        IpAddr::V4(a) => (4u8, a.bits as u128),
        IpAddr::V6(a) => (6u8, a.bits),
    }
}

/// Different addresses have different keys.
pub proof fn law_client_keys(a: IpAddr, b: IpAddr)
    ensures
        client_key(a) == client_key(b) <==> a == b,
{
}

/// The window of a client after one more query at the time `now`: a new window
/// where there was none or the old one has elapsed, and else the old one with the
/// query counted.
pub open spec fn window_after(
    m: Map<ClientKey, Window>,
    key: ClientKey,
    now: u64,
    window: Duration,
) -> Window {
    if m.contains_key(key) {
        let w = m[key];
        if now >= w.0 && now - w.0 >= window.nanos {
            (now, 1)
        } else if w.1 < u32::MAX {
            (w.0, (w.1 + 1) as u32)
        } else {
            w
        }
    } else {
        (now, 1)
    }
}

/// Limits each client IP to at most `max_per_window` queries per `window`.
///
/// A `max_per_window` of zero disables limiting (all queries are allowed). This
/// guards against floods and DNS amplification abuse.
pub struct RateLimiter {
    max_per_window: u32,
    window: Duration,
    clients: DashMap<ClientKey, Window>,
    clock: Clock,
}

impl View for RateLimiter {
    type V = Map<ClientKey, Window>;

    /// The windows of the clients that are tracked.
    closed spec fn view(&self) -> Map<ClientKey, Window> {
        windows(self.clients)
    }
}

impl RateLimiter {
    /// The number of queries allowed in a window; 0: any number.
    pub closed spec fn max_spec(&self) -> u32 {
        self.max_per_window
    }

    /// The length of a window.
    pub closed spec fn window_spec(&self) -> Duration {
        self.window
    }

    /// Whether a query at the time `now` is within the limit.
    pub open spec fn allows(&self, ip: IpAddr, now: u64) -> bool {
        self.max_spec() == 0 || window_after(self@, client_key(ip), now, self.window_spec()).1
            <= self.max_spec()
    }

    /// The windows after a query at the time `now`.
    pub open spec fn counted(&self, ip: IpAddr, now: u64) -> Map<ClientKey, Window> {
        if self.max_spec() == 0 {
            self@
        } else {
            self@.insert(
                client_key(ip),
                window_after(self@, client_key(ip), now, self.window_spec()),
            )
        }
    }

    /// Whether the limits are the same.
    pub open spec fn same_limits(&self, other: &Self) -> bool {
        self.max_spec() == other.max_spec() && self.window_spec() == other.window_spec()
    }

    /// Creates a limiter allowing `max_per_window` queries per `window`.
    /// Pass `max_per_window = 0` to disable limiting entirely.
    pub fn new(max_per_window: u32, window: Duration) -> (r: Self)
        ensures
            r.max_spec() == max_per_window,
            r.window_spec() == window,
            r@ == Map::<ClientKey, Window>::empty(),
    {
        RateLimiter { max_per_window, window, clients: windows_new(), clock: Clock::start() }
    }

    /// A disabled limiter that allows every query.
    pub fn disabled() -> (r: Self)
        ensures
            r.max_spec() == 0,
            r@ == Map::<ClientKey, Window>::empty(),
    {
        Self::new(0, Duration::from_secs(1))
    }

    /// The time of the limiter's clock, in nanoseconds.
    pub fn now(&self) -> u64 {
        self.clock.now()
    }

    /// Records a query from `ip` and returns `true` if it is within the limit.
    pub fn allow(&mut self, ip: IpAddr) -> (r: bool)
        ensures
            final(self).same_limits(old(self)),
            exists|now: u64| #[trigger]
                old(self).counted(ip, now) == final(self)@ && r == old(self).allows(ip, now),
    {
        let now: u64 = self.clock.now();
        self.allow_at(ip, now)
    }

    /// Records a query from `ip` at the time `now`, in nanoseconds of the
    /// limiter's clock, and returns `true` if it is within the limit.
    pub fn allow_at(&mut self, ip: IpAddr, now: u64) -> (r: bool)
        ensures
            final(self).same_limits(old(self)),
            final(self)@ == old(self).counted(ip, now),
            r == old(self).allows(ip, now),
    {
        if self.max_per_window == 0 {
            return true;
        }
        let key: ClientKey = match ip {
            IpAddr::V4(a) => (4u8, a.bits as u128),
            IpAddr::V6(a) => (6u8, a.bits),
        };
        let (started_at, count): (u64, u32) = match windows_get(&self.clients, key) {
            Some(w) => if now >= w.0 && (now - w.0) as u128 >= self.window.nanos {
                (now, 1)
            } else if w.1 < u32::MAX {
                (w.0, w.1 + 1)
            } else {
                w
            },
            None => (now, 1),
        };
        windows_insert(&mut self.clients, key, (started_at, count));
        count <= self.max_per_window
    }

    /// The number of distinct clients currently tracked.
    pub fn tracked_clients(&self) -> (n: usize)
        ensures
            n == self@.dom().len(),
    {
        windows_len(&self.clients)
    }

    /// Drops clients whose current window has fully elapsed.
    ///
    /// Such a client would have its window reset on its next query anyway, so
    /// removing it frees memory without changing rate-limiting behaviour. A
    /// background task calls this periodically to bound memory under a flood of
    /// many distinct (e.g. spoofed) source addresses.
    pub fn cleanup(&mut self)
        ensures
            final(self).same_limits(old(self)),
            exists|now: u64|
                final(self)@ == #[trigger] still_open(old(self)@, now, old(self).window_spec()),
    {
        let now: u64 = self.clock.now();
        self.cleanup_at(now);
    }

    /// Drops clients whose window has fully elapsed at the time `now`.
    pub fn cleanup_at(&mut self, now: u64)
        ensures
            final(self).same_limits(old(self)),
            final(self)@ == still_open(old(self)@, now, old(self).window_spec()),
    {
        windows_retain_open(&mut self.clients, now, self.window);
    }
}

/// Whether one limiter becomes another by counting a query at the time `now`.
pub open spec fn counts(before: &RateLimiter, after: &RateLimiter, ip: IpAddr, now: u64) -> bool {
    after.same_limits(before) && after@ == before.counted(ip, now)
}

/// Dropping the clients whose windows have elapsed changes nothing for any later
/// queries: each of them is allowed just as it would have been without, as long as
/// windows of no length do not begin in the future. `plain` are the states of a
/// limiter before and after each query, `cleaned` those of one that was cleaned up
/// first.
pub proof fn law_cleanup_neutral(
    plain: Seq<RateLimiter>,
    cleaned: Seq<RateLimiter>,
    cleaned_at: u64,
    queries: Seq<(IpAddr, u64)>,
)
    requires
        plain.len() == queries.len() + 1,
        cleaned.len() == queries.len() + 1,
        cleaned[0].same_limits(&plain[0]),
        cleaned[0]@ == still_open(plain[0]@, cleaned_at, plain[0].window_spec()),
        forall|i: int|
            #![trigger queries[i]]
            0 <= i < queries.len() ==> queries[i].1 >= cleaned_at && counts(
                &plain[i],
                &plain[i + 1],
                queries[i].0,
                queries[i].1,
            ) && counts(&cleaned[i], &cleaned[i + 1], queries[i].0, queries[i].1),
        forall|k: ClientKey| #[trigger]
            plain[0]@.contains_key(k) && plain[0].window_spec().nanos == 0 ==> plain[0]@[k].0
                <= cleaned_at,
    ensures
        forall|i: int|
            #![trigger queries[i]]
            0 <= i < queries.len() ==> cleaned[i].allows(queries[i].0, queries[i].1)
                == plain[i].allows(queries[i].0, queries[i].1),
{
    assert forall|i: int|
        #![trigger queries[i]]
        0 <= i < queries.len() implies cleaned[i].allows(queries[i].0, queries[i].1)
        == plain[i].allows(queries[i].0, queries[i].1) by {
        lemma_alike(plain, cleaned, cleaned_at, queries, i);
        let key = client_key(queries[i].0);
        assert(same_window(plain[i]@, cleaned[i]@, key) || elapsed_window(
            plain[i]@,
            cleaned[i]@,
            key,
            cleaned_at,
            plain[0].window_spec(),
        ));
    }
}

/// Whether two limiters have the same window for a client, or none.
spec fn same_window(m: Map<ClientKey, Window>, c: Map<ClientKey, Window>, key: ClientKey) -> bool {
    m.contains_key(key) == c.contains_key(key) && (m.contains_key(key) ==> m[key] == c[key])
}

/// Whether only the first of two limiters has a window for a client, and that one has
/// elapsed.
spec fn elapsed_window(
    m: Map<ClientKey, Window>,
    c: Map<ClientKey, Window>,
    key: ClientKey,
    at: u64,
    window: Duration,
) -> bool {
    m.contains_key(key) && !c.contains_key(key) && m[key].0 <= at && at - m[key].0 >= window.nanos
}

proof fn lemma_alike(
    plain: Seq<RateLimiter>,
    cleaned: Seq<RateLimiter>,
    cleaned_at: u64,
    queries: Seq<(IpAddr, u64)>,
    n: int,
)
    requires
        0 <= n <= queries.len(),
        plain.len() == queries.len() + 1,
        cleaned.len() == queries.len() + 1,
        cleaned[0].same_limits(&plain[0]),
        cleaned[0]@ == still_open(plain[0]@, cleaned_at, plain[0].window_spec()),
        forall|i: int|
            #![trigger queries[i]]
            0 <= i < queries.len() ==> queries[i].1 >= cleaned_at && counts(
                &plain[i],
                &plain[i + 1],
                queries[i].0,
                queries[i].1,
            ) && counts(&cleaned[i], &cleaned[i + 1], queries[i].0, queries[i].1),
        forall|k: ClientKey| #[trigger]
            plain[0]@.contains_key(k) && plain[0].window_spec().nanos == 0 ==> plain[0]@[k].0
                <= cleaned_at,
    ensures
        plain[n].same_limits(&plain[0]),
        cleaned[n].same_limits(&plain[0]),
        forall|k: ClientKey|
            #![trigger same_window(plain[n]@, cleaned[n]@, k)]
            same_window(plain[n]@, cleaned[n]@, k) || elapsed_window(
                plain[n]@,
                cleaned[n]@,
                k,
                cleaned_at,
                plain[0].window_spec(),
            ),
    decreases n,
{
    let window = plain[0].window_spec();
    if n > 0 {
        lemma_alike(plain, cleaned, cleaned_at, queries, n - 1);
        let (ip, now) = queries[n - 1];
        assert forall|k: ClientKey|
            #![trigger same_window(plain[n]@, cleaned[n]@, k)]
            same_window(plain[n]@, cleaned[n]@, k) || elapsed_window(
                plain[n]@,
                cleaned[n]@,
                k,
                cleaned_at,
                window,
            ) by {
            assert(same_window(plain[n - 1]@, cleaned[n - 1]@, k) || elapsed_window(
                plain[n - 1]@,
                cleaned[n - 1]@,
                k,
                cleaned_at,
                window,
            ));
        }
    }
}

/// While a window is open, a client that has used up its queries gets no more.
pub proof fn law_limit(
    m: Map<ClientKey, Window>,
    key: ClientKey,
    now: u64,
    window: Duration,
    max: u32,
)
    requires
        m.contains_key(key),
        m[key].1 >= max,
        max < u32::MAX,
        m[key].0 <= now,
        now - m[key].0 < window.nanos,
    ensures
        window_after(m, key, now, window).1 > max,
        window_after(m, key, now, window).0 == m[key].0,
{
}

/// The queries of one client do not count against another.
pub proof fn law_clients_apart(limiter: &RateLimiter, a: IpAddr, b: IpAddr, at: u64, now: u64)
    requires
        a != b,
    ensures
        window_after(limiter.counted(a, at), client_key(b), now, limiter.window_spec())
            == window_after(limiter@, client_key(b), now, limiter.window_spec()),
{
    law_client_keys(a, b);
}

/// The windows after a client's queries at the given times.
pub open spec fn after_queries(
    m: Map<ClientKey, Window>,
    key: ClientKey,
    times: Seq<u64>,
    window: Duration,
) -> Map<ClientKey, Window>
    decreases times.len(),
{
    if times.len() == 0 {
        m
    } else {
        let before = after_queries(m, key, times.drop_last(), window);
        before.insert(key, window_after(before, key, times.last(), window))
    }
}

/// The queries of a window are counted one by one, so that as many as the limit are
/// within it and no more: the last of them counts as many as there are.
pub proof fn law_window_quota(
    m: Map<ClientKey, Window>,
    key: ClientKey,
    times: Seq<u64>,
    window: Duration,
)
    requires
        0 < times.len() <= u32::MAX,
        m.contains_key(key) ==> m[key].0 <= times[0] && times[0] - m[key].0 >= window.nanos,
        forall|i: int|
            0 <= i < times.len() ==> times[0] <= #[trigger] times[i] && times[i] - times[0]
                < window.nanos,
    ensures
        after_queries(m, key, times, window)[key] == (times[0], times.len() as u32),
    decreases times.len(),
{
    let init = times.drop_last();
    if init.len() == 0 {
        assert(after_queries(m, key, init, window) == m);
    } else {
        assert forall|i: int| 0 <= i < init.len() implies init[0] <= #[trigger] init[i] && init[i]
            - init[0] < window.nanos by {
            assert(init[i] == times[i]);
        }
        law_window_quota(m, key, init, window);
        assert(times[0] <= times[times.len() - 1]);
    }
}

/// Without a limit every query is allowed and none is counted. With one, the first query
/// of a client is allowed, as is the first after its window has passed, which opens a new
/// one; within a window a query is allowed while fewer than the limit have come before it.
pub proof fn law_allowed(limiter: &RateLimiter, ip: IpAddr, now: u64)
    ensures
        ({
            let key = client_key(ip);
            let m = limiter@;
            let known = m.contains_key(key) && now < m[key].0 + limiter.window_spec().nanos;
            let after = limiter.counted(ip, now);
            if limiter.max_spec() == 0 {
                limiter.allows(ip, now) && after == m
            } else if !known {
                limiter.allows(ip, now) && after[key] == (now, 1u32)
            } else {
                &&& m[key].1 < u32::MAX ==> (limiter.allows(ip, now) <==> m[key].1
                    < limiter.max_spec()) && after[key] == (m[key].0, (m[key].1 + 1) as u32)
                &&& m[key].1 == u32::MAX ==> (limiter.allows(ip, now) <==> limiter.max_spec()
                    == u32::MAX) && after[key] == m[key]
            }
        }),
{
    let key = client_key(ip);
    let m = limiter@;
    if m.contains_key(key) {
        if now < m[key].0 {
            assert(!(now >= m[key].0 && now - m[key].0 >= limiter.window_spec().nanos));
        }
    }
}

/// Tidying up drops the clients whose window has passed, and no others; what is kept of a
/// client is not changed.
pub proof fn law_tidied(m: Map<ClientKey, Window>, now: u64, window: Duration, key: ClientKey)
    requires
        window.nanos > 0,
    ensures
        still_open(m, now, window).contains_key(key) <==> m.contains_key(key) && now < m[key].0
            + window.nanos,
        still_open(m, now, window).contains_key(key) ==> still_open(m, now, window)[key] == m[key],
{
}

} // verus!
