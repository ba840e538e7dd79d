//! Single-flight: of the queries for the same name and type that go upstream at the
//! same time, only the first does; the others wait for its reply.

use dashmap::DashMap;
use vstd::prelude::*;

verus! {

/// The names and types for which a map holds an entry.
pub uninterp spec fn under_way(m: DashMap<(String, u16), ()>) -> Set<(Seq<char>, u16)>;

/// `DashMap::new`: a map that holds nothing.
#[verifier::external_body]
fn flights_new() -> (m: DashMap<(String, u16), ()>)
    ensures
        under_way(m) =~= set![],
{
    DashMap::new()
}

/// `DashMap::insert`: the key now has an entry, and nothing else changes. The value
/// it had before comes back, if it had one.
#[verifier::external_body]
fn flights_insert(m: &mut DashMap<(String, u16), ()>, name: String, qtype: u16) -> (r: Option<()>)
    ensures
        under_way(*final(m)) == under_way(*old(m)).insert((name@, qtype)),
        r is Some == under_way(*old(m)).contains((name@, qtype)),
{
    m.insert((name, qtype), ())
}

/// `DashMap::remove`: the key goes, and nothing else changes.
#[verifier::external_body]
fn flights_remove(m: &mut DashMap<(String, u16), ()>, name: String, qtype: u16)
    ensures
        under_way(*final(m)) == under_way(*old(m)).remove((name@, qtype)),
{
    m.remove(&(name, qtype));
}

/// The queries that are being asked upstream.
pub struct Flights {
    table: DashMap<(String, u16), ()>,
}

impl View for Flights {
    type V = Set<(Seq<char>, u16)>;

    /// The names and types that are being asked for.
    closed spec fn view(&self) -> Set<(Seq<char>, u16)> {
        under_way(self.table)
    }
}

impl Flights {
    /// No query is under way.
    pub fn new() -> (r: Self)
        ensures
            r@ == Set::<(Seq<char>, u16)>::empty(),
    {
        let r = Flights { table: flights_new() };
        assert(r@ =~= Set::empty());
        r
    }

    /// Joins the query for a name and type, and says whether the caller has to ask:
    /// it does unless someone else is asking already.
    pub fn join(&mut self, name: &str, qtype: u16) -> (leads: bool)
        ensures
            leads == !old(self)@.contains((name@, qtype)),
            final(self)@ == old(self)@.insert((name@, qtype)),
    {
        flights_insert(&mut self.table, name.to_owned(), qtype).is_none()
    }

    /// The query for a name and type is over.
    pub fn land(&mut self, name: &str, qtype: u16)
        ensures
            final(self)@ == old(self)@.remove((name@, qtype)),
    {
        flights_remove(&mut self.table, name.to_owned(), qtype);
    }
}

/// From the time someone asks for a name and type until the query is over, nobody
/// else does; after that the next one does. Other names and types go their own way.
pub proof fn law_single_flight(
    flights: Set<(Seq<char>, u16)>,
    key: (Seq<char>, u16),
    other: (Seq<char>, u16),
)
    ensures
        flights.insert(key).contains(key),
        flights.insert(key).insert(key) == flights.insert(key),
        !flights.insert(key).remove(key).contains(key),
        other != key ==> flights.insert(key).contains(other) == flights.contains(other),
        other != key ==> flights.remove(key).contains(other) == flights.contains(other),
{
    assert(flights.insert(key).insert(key) =~= flights.insert(key));
}

} // verus!
