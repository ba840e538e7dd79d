//! Authoritative data: the records of a zone, and sets of zones.

use crate::dns::record::{record_views, DnsRecord, RecordView};
use crate::suffix::{
    is_under, law_ranked, lemma_below, longest_first, rank, ranked, sort_longest_first, under,
    Suffixed,
};
use crate::text::{
    after, finishes_with, lemma_cut, lemma_first_of, lemma_less_irreflexive, lemma_less_total,
    lemma_less_transitive, less, occurs, split_once, text_eq, text_less,
};
use vstd::prelude::*;

verus! {

/// The records of one owner name.
#[derive(Debug)]
struct ZoneEntry {
    name: String,
    records: Vec<DnsRecord>,
}

/// A `Zone` represents a collection of DNS records, keyed by domain name. The
/// owner names are kept in order.
#[derive(Debug)]
pub struct Zone {
    entries: Vec<ZoneEntry>,
}

/// Whether texts are in order, none of them twice.
pub open spec fn in_order(names: Seq<Seq<char>>) -> bool {
    forall|i: int, j: int| 0 <= i < j < names.len() ==> text_less(names[i], names[j])
}

/// The records of all the given owners, one owner after the other.
pub open spec fn records_of(
    zone: Map<Seq<char>, Seq<RecordView>>,
    owners: Seq<Seq<char>>,
) -> Seq<RecordView>
    decreases owners.len(),
{
    if owners.len() == 0 {
        Seq::empty()
    } else {
        records_of(zone, owners.drop_last()) + zone[owners.last()]
    }
}

/// The first SOA record of a list.
pub open spec fn first_soa(rs: Seq<RecordView>) -> Option<RecordView>
    decreases rs.len(),
{
    if rs.len() == 0 {
        None
    } else if rs[0] is SOA {
        Some(rs[0])
    } else {
        first_soa(rs.drop_first())
    }
}

/// The first SOA record of two lists is that of the first one that has any.
proof fn lemma_first_soa(a: Seq<RecordView>, b: Seq<RecordView>)
    ensures
        first_soa(a + b) == (if first_soa(a) is Some {
            first_soa(a)
        } else {
            first_soa(b)
        }),
    decreases a.len(),
{
    if a.len() == 0 {
        assert(a + b =~= b);
    } else {
        lemma_first_soa(a.drop_first(), b);
        assert((a + b).drop_first() =~= a.drop_first() + b);
    }
}

/// The first SOA record of some owners is the first one of all.
proof fn lemma_first_soa_stays(
    zone: Map<Seq<char>, Seq<RecordView>>,
    owners: Seq<Seq<char>>,
    n: int,
)
    requires
        0 <= n <= owners.len(),
        first_soa(records_of(zone, owners.take(n))) is Some,
    ensures
        first_soa(records_of(zone, owners)) == first_soa(records_of(zone, owners.take(n))),
    decreases owners.len(),
{
    if n == owners.len() {
        assert(owners.take(n) =~= owners);
    } else {
        let init = owners.drop_last();
        assert(init.take(n) =~= owners.take(n));
        lemma_first_soa_stays(zone, init, n);
        lemma_first_soa(records_of(zone, init), zone[owners.last()]);
    }
}

spec fn entry_names(entries: Seq<ZoneEntry>) -> Seq<Seq<char>> {
    entries.map_values(|e: ZoneEntry| e.name@)
}

/// The place of an owner name.
spec fn place(entries: Seq<ZoneEntry>, name: Seq<char>) -> int {
    choose|i: int| 0 <= i < entries.len() && (#[trigger] entries[i]).name@ == name
}

spec fn entry_map(entries: Seq<ZoneEntry>) -> Map<Seq<char>, Seq<RecordView>> {
    Map::new(
        |k: Seq<char>| exists|i: int| 0 <= i < entries.len() && (#[trigger] entries[i]).name@ == k,
        |k: Seq<char>| record_views(entries[place(entries, k)].records@),
    )
}

proof fn lemma_place(entries: Seq<ZoneEntry>, i: int)
    requires
        in_order(entry_names(entries)),
        0 <= i < entries.len(),
    ensures
        entry_map(entries).contains_key(entries[i].name@),
        place(entries, entries[i].name@) == i,
        entry_map(entries)[entries[i].name@] == record_views(entries[i].records@),
{
    let name = entries[i].name@;
    let names = entry_names(entries);
    let p = place(entries, name);
    assert(entries[i].name@ == name);
    assert(0 <= p < entries.len() && entries[p].name@ == name);
    assert(names[i] == name && names[p] == name);
    lemma_less_irreflexive(name);
}

impl View for Zone {
    type V = Map<Seq<char>, Seq<RecordView>>;

    /// The records of each owner name.
    closed spec fn view(&self) -> Map<Seq<char>, Seq<RecordView>> {
        entry_map(self.entries@)
    }
}

impl Zone {
    #[verifier::type_invariant]
    spec fn wf(self) -> bool {
        in_order(entry_names(self.entries@))
    }

    /// The owner names, in order.
    pub closed spec fn owners(&self) -> Seq<Seq<char>> {
        entry_names(self.entries@)
    }

    /// Whether the owner names are in order, and just the names that have records.
    pub open spec fn owners_in_order(&self) -> bool {
        &&& in_order(self.owners())
        &&& forall|k: Seq<char>| #[trigger]
            self@.contains_key(k) <==> self.owners().contains(k)
    }

    /// All records of the zone, by owner name in order.
    pub open spec fn all(&self) -> Seq<RecordView> {
        records_of(self@, self.owners())
    }

    /// A zone without records.
    pub fn new() -> (r: Zone)
        ensures
            r@ == Map::<Seq<char>, Seq<RecordView>>::empty(),
            r.owners() == Seq::<Seq<char>>::empty(),
            r.owners_in_order(),
    {
        let r = Zone { entries: Vec::new() };
        assert(r@ =~= Map::empty());
        assert(r.owners() =~= Seq::empty());
        r
    }

    /// The number of owner names.
    pub fn len(&self) -> (n: usize)
        ensures
            n == self@.dom().len(),
    {
        proof {
            use_type_invariant(self);
            lemma_owners(self.entries@);
            let names = entry_names(self.entries@);
            assert(self@.dom() =~= names.to_set());
            assert forall|i: int, j: int| 0 <= i < names.len() && 0 <= j < names.len() && i
                != j implies names[i] != names[j] by {
                lemma_less_irreflexive(names[i]);
            }
            names.unique_seq_to_set();
        }
        self.entries.len()
    }

    /// Where `name` stands among the owner names, or where it would stand.
    fn search(&self, name: &str) -> (r: (bool, usize))
        ensures
            r.1 <= self.entries@.len(),
            forall|i: int| 0 <= i < r.1 ==> text_less(self.entries@[i].name@, name@),
            r.0 ==> r.1 < self.entries@.len() && self.entries@[r.1 as int].name@ == name@,
            !r.0 ==> forall|i: int|
                r.1 <= i < self.entries@.len() ==> text_less(name@, self.entries@[i].name@),
            r.0 == self@.contains_key(name@),
            r.0 ==> self@[name@] == record_views(self.entries@[r.1 as int].records@),
    {
        proof {
            use_type_invariant(self);
        }
        let ghost names = entry_names(self.entries@);
        let mut lo: usize = 0;
        let mut hi: usize = self.entries.len();
        while lo < hi
            invariant
                lo <= hi <= self.entries@.len(),
                names == entry_names(self.entries@),
                in_order(names),
                forall|i: int| 0 <= i < lo ==> text_less(self.entries@[i].name@, name@),
                forall|i: int|
                    hi <= i < self.entries@.len() ==> !text_less(self.entries@[i].name@, name@),
            decreases hi - lo,
        {
            let mid: usize = lo + (hi - lo) / 2;
            if less(self.entries[mid].name.as_str(), name) {
                proof {
                    assert forall|i: int| 0 <= i < mid + 1 implies text_less(
                        self.entries@[i].name@,
                        name@,
                    ) by {
                        if i < mid {
                            assert(text_less(names[i], names[mid as int]));
                            lemma_less_transitive(names[i], names[mid as int], name@);
                        }
                    }
                }
                lo = mid + 1;
            } else {
                proof {
                    assert forall|i: int| mid <= i < self.entries@.len() implies !text_less(
                        self.entries@[i].name@,
                        name@,
                    ) by {
                        if i > mid && text_less(names[i], name@) {
                            assert(text_less(names[mid as int], names[i]));
                            lemma_less_transitive(names[mid as int], names[i], name@);
                        }
                    }
                }
                hi = mid;
            }
        }
        let found = lo < self.entries.len() && text_eq(self.entries[lo].name.as_str(), name);
        proof {
            if found {
                lemma_place(self.entries@, lo as int);
            } else {
                assert forall|i: int| lo <= i < self.entries@.len() implies text_less(
                    name@,
                    self.entries@[i].name@,
                ) by {
                    lemma_less_total(names[lo as int], name@);
                    if i > lo {
                        assert(text_less(names[lo as int], names[i]));
                        lemma_less_transitive(name@, names[lo as int], names[i]);
                    }
                }
                if self@.contains_key(name@) {
                    let i = choose|i: int|
                        0 <= i < self.entries@.len() && (#[trigger] self.entries@[i]).name@
                            == name@;
                    lemma_less_irreflexive(name@);
                }
            }
        }
        (found, lo)
    }

    /// The records of an owner name.
    pub fn get(&self, name: &str) -> (r: Option<&Vec<DnsRecord>>)
        ensures
            match r {
                Some(v) => self@.contains_key(name@) && record_views(v@) == self@[name@],
                None => !self@.contains_key(name@),
            },
    {
        let (found, at) = self.search(name);
        if found {
            Some(&self.entries[at].records)
        } else {
            None
        }
    }

    /// Whether there are records of an owner name.
    pub fn contains_key(&self, name: &str) -> (r: bool)
        ensures
            r == self@.contains_key(name@),
    {
        self.search(name).0
    }

    /// Sets the records of an owner name.
    pub fn insert(&mut self, name: String, records: Vec<DnsRecord>)
        ensures
            final(self)@ == old(self)@.insert(name@, record_views(records@)),
            final(self).owners_in_order(),
    {
        let (found, at) = self.search(name.as_str());
        let ghost before = self.entries@;
        proof {
            use_type_invariant(&*self);
        }
        let mut entries: Vec<ZoneEntry> = Vec::new();
        std::mem::swap(&mut entries, &mut self.entries);
        let ghost entry = ZoneEntry { name, records };
        if found {
            entries[at] = ZoneEntry { name, records };
            proof {
                assert(entry_names(entries@) =~= entry_names(before));
            }
        } else {
            entries.insert(at, ZoneEntry { name, records });
            proof {
                lemma_inserted(before, entry, at as int);
            }
        }
        proof {
            lemma_set(before, entries@, entry, at as int, found);
            lemma_owners(entries@);
        }
        self.entries = entries;
    }

    /// Adds a record to those of an owner name.
    pub fn push(&mut self, name: String, record: DnsRecord)
        ensures
            final(self)@ == old(self)@.insert(
                name@,
                if old(self)@.contains_key(name@) {
                    old(self)@[name@].push(record@)
                } else {
                    seq![record@]
                },
            ),
            final(self).owners_in_order(),
    {
        let (found, at) = self.search(name.as_str());
        let ghost before = self.entries@;
        proof {
            use_type_invariant(&*self);
        }
        let mut entries: Vec<ZoneEntry> = Vec::new();
        std::mem::swap(&mut entries, &mut self.entries);
        if found {
            let old_entry = entries.remove(at);
            let mut records = old_entry.records;
            let ghost had = records@;
            records.push(record);
            proof {
                assert(record_views(records@) =~= record_views(had).push(record@));
            }
            let ghost entry = ZoneEntry { name, records };
            entries.insert(at, ZoneEntry { name, records });
            proof {
                assert(entries@ =~= before.update(at as int, entry));
                assert(entry_names(entries@) =~= entry_names(before));
                lemma_set(before, entries@, entry, at as int, found);
            }
        } else {
            let mut records: Vec<DnsRecord> = Vec::new();
            records.push(record);
            let ghost entry = ZoneEntry { name, records };
            entries.insert(at, ZoneEntry { name, records });
            proof {
                assert(record_views(records@) =~= seq![record@]);
                lemma_inserted(before, entry, at as int);
                lemma_set(before, entries@, entry, at as int, found);
            }
        }
        proof {
            lemma_owners(entries@);
        }
        self.entries = entries;
    }

    /// The first SOA record, by owner name in order.
    pub fn soa(&self) -> (r: Option<&DnsRecord>)
        ensures
            match r {
                Some(x) => first_soa(self.all()) == Some(x@),
                None => first_soa(self.all()) is None,
            },
    {
        proof {
            use_type_invariant(self);
        }
        let ghost owners = self.owners();
        let mut i: usize = 0;
        proof {
            assert(owners.take(0) =~= Seq::empty());
            assert(owners.take(owners.len() as int) =~= owners);
        }
        while i < self.entries.len()
            invariant
                i <= self.entries@.len(),
                in_order(entry_names(self.entries@)),
                owners == self.owners(),
                owners.take(owners.len() as int) == owners,
                first_soa(records_of(self@, owners.take(i as int))) is None,
            decreases self.entries@.len() - i,
        {
            let records = &self.entries[i].records;
            let ghost rs = record_views(records@);
            proof {
                lemma_place(self.entries@, i as int);
                assert(owners.take(i + 1).drop_last() =~= owners.take(i as int));
                assert(owners.take(i + 1).last() == self.entries@[i as int].name@);
                lemma_first_soa(records_of(self@, owners.take(i as int)), rs);
                assert(rs.skip(0) =~= rs);
            }
            let mut j: usize = 0;
            while j < records.len()
                invariant
                    i < self.entries@.len(),
                    owners == self.owners(),
                    owners.take(owners.len() as int) == owners,
                    rs == record_views(records@),
                    j <= records@.len(),
                    first_soa(rs) == first_soa(rs.skip(j as int)),
                    first_soa(records_of(self@, owners.take(i + 1))) == first_soa(rs),
                decreases records@.len() - j,
            {
                proof {
                    assert(rs.skip(j as int)[0] == records@[j as int]@);
                    assert(rs.skip(j as int).drop_first() =~= rs.skip(j + 1));
                }
                if let DnsRecord::SOA { .. } = &records[j] {
                    proof {
                        lemma_first_soa_stays(self@, owners, i + 1);
                    }
                    return Some(&records[j]);
                }
                j = j + 1;
            }
            i = i + 1;
        }
        None
    }

    /// A copy of all records, by owner name in order.
    pub fn all_records(&self) -> (r: Vec<DnsRecord>)
        ensures
            record_views(r@) == self.all(),
            self.owners_in_order(),
    {
        proof {
            use_type_invariant(self);
            lemma_owners(self.entries@);
        }
        let ghost owners = self.owners();
        let mut out: Vec<DnsRecord> = Vec::new();
        let mut i: usize = 0;
        proof {
            assert(owners.take(0) =~= Seq::empty());
            assert(record_views(out@) =~= Seq::empty());
        }
        while i < self.entries.len()
            invariant
                i <= self.entries@.len(),
                in_order(entry_names(self.entries@)),
                owners == self.owners(),
                record_views(out@) == records_of(self@, owners.take(i as int)),
            decreases self.entries@.len() - i,
        {
            let records = &self.entries[i].records;
            let mut j: usize = 0;
            let ghost had = out@;
            proof {
                assert(record_views(out@) =~= record_views(had) + record_views(records@).take(0));
            }
            while j < records.len()
                invariant
                    j <= records@.len(),
                    record_views(out@) == record_views(had) + record_views(records@).take(j as int),
                decreases records@.len() - j,
            {
                let ghost prior = out@;
                out.push(records[j].clone());
                j = j + 1;
                proof {
                    assert(record_views(out@) =~= record_views(prior).push(records@[j - 1]@));
                    assert(record_views(out@) =~= record_views(had) + record_views(records@).take(
                        j as int,
                    ));
                }
            }
            proof {
                assert(record_views(records@).take(j as int) =~= record_views(records@));
                lemma_place(self.entries@, i as int);
                assert(owners.take(i + 1).drop_last() =~= owners.take(i as int));
                assert(owners.take(i + 1).last() == self.entries@[i as int].name@);
            }
            i = i + 1;
        }
        assert(owners.take(i as int) =~= owners);
        out
    }
}

/// The owner names are those that have records.
proof fn lemma_owners(entries: Seq<ZoneEntry>)
    ensures
        forall|k: Seq<char>| #[trigger]
            entry_map(entries).contains_key(k) <==> entry_names(entries).contains(k),
{
    let names = entry_names(entries);
    assert forall|k: Seq<char>| #[trigger]
        entry_map(entries).contains_key(k) <==> names.contains(k) by {
        if entry_map(entries).contains_key(k) {
            let i = choose|i: int| 0 <= i < entries.len() && (#[trigger] entries[i]).name@ == k;
            assert(names[i] == k);
        }
        if names.contains(k) {
            let i = names.index_of(k);
            assert(entries[i].name@ == k);
        }
    }
}

proof fn lemma_inserted(before: Seq<ZoneEntry>, entry: ZoneEntry, at: int)
    requires
        in_order(entry_names(before)),
        0 <= at <= before.len(),
        forall|i: int| 0 <= i < at ==> text_less(before[i].name@, entry.name@),
        forall|i: int| at <= i < before.len() ==> text_less(entry.name@, before[i].name@),
    ensures
        in_order(entry_names(before.insert(at, entry))),
{
    let b = entry_names(before);
    let n = entry_names(before.insert(at, entry));
    assert forall|i: int, j: int| 0 <= i < j < n.len() implies text_less(n[i], n[j]) by {
        let x = if i < at {
            i
        } else {
            i - 1
        };
        let y = if j < at {
            j
        } else {
            j - 1
        };
        if i != at && j != at {
            assert(n[i] == b[x] && n[j] == b[y]);
        } else if i == at {
            assert(n[j] == before[y].name@);
        } else {
            assert(n[i] == before[x].name@);
        }
    }
}

/// Setting or inserting one entry changes the records of its owner and no other.
proof fn lemma_set(
    before: Seq<ZoneEntry>,
    now: Seq<ZoneEntry>,
    entry: ZoneEntry,
    at: int,
    found: bool,
)
    requires
        in_order(entry_names(before)),
        in_order(entry_names(now)),
        0 <= at < now.len(),
        found ==> at < before.len() && before[at].name@ == entry.name@ && now == before.update(
            at,
            entry,
        ),
        !found ==> at <= before.len() && now == before.insert(at, entry),
    ensures
        entry_map(now) == entry_map(before).insert(entry.name@, record_views(entry.records@)),
{
    let a = entry_map(now);
    let b = entry_map(before).insert(entry.name@, record_views(entry.records@));
    assert forall|k: Seq<char>|
        #![trigger a.dom().contains(k)]
        #![trigger a[k]]
        a.dom().contains(k) == b.dom().contains(k) && (a.contains_key(k) ==> a[k] == b[k]) by {
        if a.contains_key(k) {
            let i = choose|i: int| 0 <= i < now.len() && (#[trigger] now[i]).name@ == k;
            lemma_place(now, i);
            if i == at {
                assert(k == entry.name@);
            } else {
                let j = if found || i < at {
                    i
                } else {
                    i - 1
                };
                assert(before[j] == now[i]);
                lemma_place(before, j);
                if k == entry.name@ {
                    lemma_place(now, at);
                }
            }
        }
        if b.contains_key(k) && k != entry.name@ {
            let j = choose|j: int| 0 <= j < before.len() && (#[trigger] before[j]).name@ == k;
            let i = if found || j < at {
                j
            } else {
                j + 1
            };
            assert(now[i] == before[j]);
        }
        if k == entry.name@ {
            lemma_place(now, at);
        }
    }
    assert(a.dom() =~= b.dom());
    assert(a =~= b);
}

/// The name of the wildcard below a name.
pub open spec fn starred(name: Seq<char>) -> Seq<char> {
    seq!['*', '.'] + name
}

/// The records that stand for a name where only a wildcard can: those of `*`
/// below the closest enclosing name that has any.
pub open spec fn wildcard(
    zone: Map<Seq<char>, Seq<RecordView>>,
    name: Seq<char>,
) -> Option<Seq<RecordView>>
    decreases name.len(),
{
    if occurs(name, '.') {
        proof {
            lemma_first_of(name, '.');
        }
        let parent = after(name, '.');
        let key = starred(parent);
        if zone.contains_key(key) {
            Some(zone[key])
        } else {
            wildcard(zone, parent)
        }
    } else {
        None
    }
}

/// The records that answer for a name: its own where there are any, and else
/// those of the closest wildcard.
pub open spec fn zone_lookup(
    zone: Map<Seq<char>, Seq<RecordView>>,
    name: Seq<char>,
) -> Option<Seq<RecordView>> {
    if zone.contains_key(name) {
        Some(zone[name])
    } else {
        wildcard(zone, name)
    }
}

/// A name with records of its own is answered from them, whatever wildcards there
/// are.
pub proof fn law_exact_first(zone: Map<Seq<char>, Seq<RecordView>>, name: Seq<char>)
    requires
        zone.contains_key(name),
    ensures
        zone_lookup(zone, name) == Some(zone[name]),
{
}

/// A wildcard answers for the names below it that have no records of their own and
/// no closer wildcard, at any depth.
pub proof fn law_wildcard_answers(
    zone: Map<Seq<char>, Seq<RecordView>>,
    name: Seq<char>,
    apex: Seq<char>,
)
    requires
        zone.contains_key(starred(apex)),
        finishes_with(name, seq!['.'] + apex),
        !zone.contains_key(name),
        forall|closer: Seq<char>|
            finishes_with(closer, seq!['.'] + apex) ==> !zone.contains_key(
                #[trigger] starred(closer),
            ),
    ensures
        zone_lookup(zone, name) == Some(zone[starred(apex)]),
{
    lemma_wildcard_below(zone, name, apex);
}

proof fn lemma_wildcard_below(
    zone: Map<Seq<char>, Seq<RecordView>>,
    name: Seq<char>,
    apex: Seq<char>,
)
    requires
        zone.contains_key(starred(apex)),
        finishes_with(name, seq!['.'] + apex),
        forall|closer: Seq<char>|
            finishes_with(closer, seq!['.'] + apex) ==> !zone.contains_key(
                #[trigger] starred(closer),
            ),
    ensures
        wildcard(zone, name) == Some(zone[starred(apex)]),
    decreases name.len(),
{
    lemma_below(name, apex);
    lemma_cut(name, '.');
    let parent = after(name, '.');
    if parent != apex {
        lemma_wildcard_below(zone, parent, apex);
    }
}

/// An authoritative zone: its origin (apex) name and its records.
#[derive(Debug)]
pub struct AuthZone {
    /// The apex name of this zone (e.g. `example.com`).
    pub origin: String,
    /// Records keyed by owner name (lowercase, trailing dot stripped).
    pub records: Zone,
}

impl Suffixed for AuthZone {
    open spec fn suffix_spec(&self) -> Seq<char> {
        self.origin@
    }

    fn suffix_text(&self) -> (r: &str) {
        self.origin.as_str()
    }
}

impl AuthZone {
    /// Whether the zone is authoritative for a name: the name is the origin or
    /// lies below it. An empty origin covers every name.
    pub open spec fn covers(&self, name: Seq<char>) -> bool {
        self.origin@.len() == 0 || under(name, self.origin@)
    }
}

/// The first zone that covers a name.
pub open spec fn find_zone(zones: Seq<AuthZone>, name: Seq<char>) -> Option<AuthZone>
    decreases zones.len(),
{
    if zones.len() == 0 {
        None
    } else if zones[0].covers(name) {
        Some(zones[0])
    } else {
        find_zone(zones.drop_first(), name)
    }
}

/// The zone found for a name is one with the longest origin that covers it, and
/// one is found wherever any covers it.
pub proof fn law_longest_zone(zones: Seq<AuthZone>, name: Seq<char>)
    ensures
        match find_zone(ranked(zones), name) {
            Some(z) => zones.contains(z) && z.covers(name) && forall|y: AuthZone|
                zones.contains(y) && #[trigger] y.covers(name) ==> rank(z) >= rank(y),
            None => forall|y: AuthZone| zones.contains(y) ==> !#[trigger] y.covers(name),
        },
{
    broadcast use vstd::seq_lib::group_to_multiset_ensures;

    let s = ranked(zones);
    law_ranked(zones);
    lemma_find_zone(s, name);
    assert forall|y: AuthZone| zones.contains(y) == s.contains(y) by {
        assert(zones.to_multiset().count(y) == s.to_multiset().count(y));
    }
}

proof fn lemma_find_zone(s: Seq<AuthZone>, name: Seq<char>)
    requires
        longest_first(s),
    ensures
        match find_zone(s, name) {
            Some(z) => s.contains(z) && z.covers(name) && forall|y: AuthZone|
                s.contains(y) && #[trigger] y.covers(name) ==> rank(z) >= rank(y),
            None => forall|y: AuthZone| s.contains(y) ==> !#[trigger] y.covers(name),
        },
    decreases s.len(),
{
    if s.len() > 0 {
        let t = s.drop_first();
        if s[0].covers(name) {
            assert(s.contains(s[0]));
            assert forall|y: AuthZone| s.contains(y) && #[trigger] y.covers(name) implies rank(s[0])
                >= rank(y) by {
                let i = s.index_of(y);
                assert(rank(s[0]) >= rank(s[i]));
            }
        } else {
            assert(longest_first(t));
            lemma_find_zone(t, name);
            if let Some(z) = find_zone(t, name) {
                let i = t.index_of(z);
                assert(s[i + 1] == z);
            }
            assert forall|y: AuthZone| s.contains(y) && y.covers(name) implies t.contains(y) by {
                let i = s.index_of(y);
                assert(t[i - 1] == y);
            }
        }
    }
}

/// The origin that a zone's records suggest: the owner of its first SOA record.
pub open spec fn inferred_origin(zone: &Zone) -> Seq<char> {
    match first_soa(zone.all()) {
        Some(r) => r.domain(),
        None => Seq::empty(),
    }
}

/// Infers the origin of a zone from its SOA record, if there is one.
pub fn infer_origin(zone: &Zone) -> (r: String)
    ensures
        r@ == inferred_origin(zone),
{
    match zone.soa() {
        Some(soa) => soa.domain().to_owned(),
        None => {
            let r = String::new();
            assert(r@ =~= Seq::empty());
            r
        },
    }
}

/// A collection of authoritative zones, supporting longest-suffix lookup so
/// a query for `www.corp.example.com` matches the `corp.example.com` zone
/// before the `example.com` zone.
#[derive(Debug)]
pub struct ZoneSet {
    /// Sorted by origin length descending so the longest-suffix match wins.
    zones: Vec<AuthZone>,
}

/// The number of records in a list of zones.
pub open spec fn total_records(zones: Seq<AuthZone>) -> nat
    decreases zones.len(),
{
    if zones.len() == 0 {
        0
    } else {
        total_records(zones.drop_last()) + zones.last().records.all().len()
    }
}

impl ZoneSet {
    #[verifier::type_invariant]
    spec fn wf(self) -> bool {
        longest_first(self.zones@)
    }

    /// The zones, those with the longest origins first.
    pub closed spec fn seq(&self) -> Seq<AuthZone> {
        self.zones@
    }

    /// Builds a zone set from the given zones, sorting for longest-match lookup.
    pub fn new(zones: Vec<AuthZone>) -> (r: Self)
        ensures
            r.seq() == ranked(zones@),
    {
        proof {
            law_ranked(zones@);
        }
        let zones = sort_longest_first(zones);
        ZoneSet { zones }
    }

    /// Convenience for the single-zone case.
    pub fn from_single(origin: String, records: Zone) -> (r: Self)
        ensures
            r.seq() == seq![AuthZone { origin, records }],
    {
        let ghost zone = AuthZone { origin, records };
        let mut zones: Vec<AuthZone> = Vec::new();
        zones.push(AuthZone { origin, records });
        proof {
            assert(zones@ =~= seq![zone]);
            assert(zones@.drop_first() =~= Seq::empty());
            assert(ranked(Seq::<AuthZone>::empty()) =~= Seq::empty());
            assert(ranked(zones@) =~= seq![zone]);
        }
        Self::new(zones)
    }

    /// Builds a single-zone `ZoneSet`, inferring the origin from the SOA
    /// record if present (empty origin otherwise).
    pub fn from_records(records: Zone) -> (r: Self)
        ensures
            r.seq().len() == 1,
            r.seq()[0].origin@ == inferred_origin(&records),
            r.seq()[0].records == records,
    {
        let origin = infer_origin(&records);
        Self::from_single(origin, records)
    }

    /// An empty zone set (nothing served authoritatively).
    pub fn empty() -> (r: Self)
        ensures
            r.seq() == Seq::<AuthZone>::empty(),
    {
        ZoneSet { zones: Vec::new() }
    }

    /// Whether no zones are configured.
    pub fn is_empty(&self) -> (r: bool)
        ensures
            r == (self.seq().len() == 0),
    {
        self.zones.len() == 0
    }

    /// The number of zones.
    pub fn len(&self) -> (n: usize)
        ensures
            n == self.seq().len(),
    {
        self.zones.len()
    }

    /// Finds the zone authoritative for `name` via longest-suffix match on
    /// each zone's origin. `name` matches a zone if it equals the origin or
    /// is a descendant of it (`<name>.<origin>`). A zone with an empty origin
    /// matches every name, but only after more specific zones have been tried
    /// (it sorts last by length).
    pub fn find(&self, name: &str) -> (r: Option<&AuthZone>)
        ensures
            match r {
                Some(z) => find_zone(self.seq(), name@) == Some(*z),
                None => find_zone(self.seq(), name@) is None,
            },
            longest_first(self.seq()),
    {
        proof {
            use_type_invariant(self);
            assert(self.zones@.skip(0) =~= self.zones@);
        }
        let mut i: usize = 0;
        while i < self.zones.len()
            invariant
                i <= self.zones@.len(),
                longest_first(self.zones@),
                find_zone(self.zones@, name@) == find_zone(self.zones@.skip(i as int), name@),
            decreases self.zones@.len() - i,
        {
            let z = &self.zones[i];
            if z.origin.as_str().is_empty() || is_under(name, z.origin.as_str()) {
                return Some(z);
            }
            proof {
                assert(self.zones@.skip(i as int).drop_first() =~= self.zones@.skip(i + 1));
            }
            i = i + 1;
        }
        None
    }

    /// All zones, in longest-origin-first order.
    pub fn zones(&self) -> (r: &[AuthZone])
        ensures
            r@ == self.seq(),
    {
        self.zones.as_slice()
    }

    /// Total record count across all zones (for logging).
    pub fn record_count(&self) -> (n: usize)
        ensures
            n == total_records(self.seq()) || (n == usize::MAX && total_records(self.seq())
                > usize::MAX),
    {
        let mut n: usize = 0;
        let mut i: usize = 0;
        proof {
            assert(self.zones@.take(0) =~= Seq::empty());
        }
        while i < self.zones.len()
            invariant
                i <= self.zones@.len(),
                n == total_records(self.zones@.take(i as int)) || (n == usize::MAX
                    && total_records(self.zones@.take(i as int)) > usize::MAX),
            decreases self.zones@.len() - i,
        {
            let records = self.zones[i].records.all_records();
            proof {
                assert(self.zones@.take(i + 1).drop_last() =~= self.zones@.take(i as int));
                assert(record_views(records@).len() == records@.len());
            }
            n = n.saturating_add(records.len());
            i = i + 1;
        }
        assert(self.zones@.take(i as int) =~= self.zones@);
        n
    }
}

/// What can answer authoritatively for names: one zone, or a set of them.
pub trait Authority {
    /// The records that answer for a name, if it exists.
    spec fn answer(&self, name: Seq<char>) -> Option<Seq<RecordView>>;

    /// The SOA record that goes with the news that a name does not exist.
    spec fn denial(&self, name: Seq<char>) -> Option<RecordView>;

    /// Looks up a name, falling back to wildcard records.
    fn lookup(&self, name: &str) -> (r: Option<&Vec<DnsRecord>>)
        ensures
            match r {
                Some(v) => self.answer(name@) == Some(record_views(v@)),
                None => self.answer(name@) is None,
            },
    ;

    /// Finds the SOA record that goes with the news that a name does not exist.
    fn denial_soa(&self, name: &str) -> (r: Option<DnsRecord>)
        ensures
            match r {
                Some(x) => self.denial(name@) == Some(x@),
                None => self.denial(name@) is None,
            },
    ;
}

impl Authority for Zone {
    open spec fn answer(&self, name: Seq<char>) -> Option<Seq<RecordView>> {
        zone_lookup(self@, name)
    }

    open spec fn denial(&self, name: Seq<char>) -> Option<RecordView> {
        None
    }

    /// An exact match wins; otherwise each parent suffix is tried as
    /// `*.<suffix>` from most to least specific (RFC 4592 style).
    fn lookup(&self, name: &str) -> (r: Option<&Vec<DnsRecord>>) {
        assert(self.answer(name@) == zone_lookup(self@, name@));
        if let Some(records) = self.get(name) {
            return Some(records);
        }
        let mut remainder: &str = name;
        loop
            invariant
                wildcard(self@, name@) == wildcard(self@, remainder@),
                !self@.contains_key(name@),
            decreases remainder@.len(),
        {
            proof {
                lemma_cut(remainder@, '.');
            }
            match split_once(remainder, '.') {
                Some((_, parent)) => {
                    let key = "*.".to_owned().concat(parent);
                    proof {
                        reveal_strlit("*.");
                        assert("*."@ =~= seq!['*', '.']);
                    }
                    if let Some(records) = self.get(key.as_str()) {
                        return Some(records);
                    }
                    remainder = parent;
                },
                None => {
                    return None;
                },
            }
        }
    }

    fn denial_soa(&self, name: &str) -> (r: Option<DnsRecord>) {
        None
    }
}

impl Authority for ZoneSet {
    open spec fn answer(&self, name: Seq<char>) -> Option<Seq<RecordView>> {
        match find_zone(self.seq(), name) {
            Some(z) => zone_lookup(z.records@, name),
            None => None,
        }
    }

    open spec fn denial(&self, name: Seq<char>) -> Option<RecordView> {
        match find_zone(self.seq(), name) {
            Some(z) => first_soa(z.records.all()),
            None => None,
        }
    }

    fn lookup(&self, name: &str) -> (r: Option<&Vec<DnsRecord>>) {
        match self.find(name) {
            Some(z) => z.records.lookup(name),
            None => None,
        }
    }

    fn denial_soa(&self, name: &str) -> (r: Option<DnsRecord>) {
        match self.find(name) {
            Some(z) => match z.records.soa() {
                Some(soa) => Some(soa.clone()),
                None => None,
            },
            None => None,
        }
    }
}

/// The records of several owners are those of the first ones followed by those of the
/// others, and the records of one owner are those that the zone holds for it.
pub proof fn law_records_of(
    zone: Map<Seq<char>, Seq<RecordView>>,
    a: Seq<Seq<char>>,
    b: Seq<Seq<char>>,
    name: Seq<char>,
)
    ensures
        records_of(zone, a + b) == records_of(zone, a) + records_of(zone, b),
        records_of(zone, seq![name]) == zone[name],
    decreases b.len(),
{
    let none = Seq::<Seq<char>>::empty();
    assert(seq![name].drop_last() =~= none);
    assert(records_of(zone, none) =~= Seq::empty());
    assert(records_of(zone, seq![name]) =~= zone[name]);
    if b.len() == 0 {
        assert(a + b =~= a);
        assert(records_of(zone, a) + records_of(zone, b) =~= records_of(zone, a));
    } else {
        law_records_of(zone, a, b.drop_last(), name);
        assert((a + b).drop_last() =~= a + b.drop_last());
        assert(records_of(zone, a + b) =~= records_of(zone, a) + records_of(zone, b));
    }
}

/// All records of a zone are there: every record of every owner stands in the list.
pub proof fn law_all_records(zone: &Zone, name: Seq<char>, r: RecordView)
    requires
        zone.owners_in_order(),
        zone@.contains_key(name),
        zone@[name].contains(r),
    ensures
        zone.all().contains(r),
{
    let owners = zone.owners();
    assert(owners.contains(name));
    let i = owners.index_of(name);
    let a = owners.take(i);
    let b = owners.skip(i + 1);
    assert(owners =~= a + seq![name] + b);
    law_records_of(zone@, a + seq![name], b, name);
    law_records_of(zone@, a, seq![name], name);
    let head = records_of(zone@, a);
    let k = zone@[name].index_of(r);
    assert(zone.all()[head.len() + k] == r);
}

/// The first SOA record of a list is one that has no other before it.
pub proof fn law_first_soa(rs: Seq<RecordView>)
    ensures
        match first_soa(rs) {
            Some(r) => exists|i: int|
                0 <= i < rs.len() && #[trigger] rs[i] == r && r is SOA && forall|j: int|
                    0 <= j < i ==> !((#[trigger] rs[j]) is SOA),
            None => forall|i: int| 0 <= i < rs.len() ==> !((#[trigger] rs[i]) is SOA),
        },
    decreases rs.len(),
{
    if rs.len() > 0 {
        if rs[0] is SOA {
            assert(rs[0] == rs[0]);
        } else {
            let t = rs.drop_first();
            law_first_soa(t);
            match first_soa(t) {
                Some(r) => {
                    let i = choose|i: int|
                        0 <= i < t.len() && #[trigger] t[i] == r && r is SOA && forall|j: int|
                            0 <= j < i ==> !((#[trigger] t[j]) is SOA);
                    assert(rs[i + 1] == r);
                    assert forall|j: int| 0 <= j < i + 1 implies !((#[trigger] rs[j]) is SOA) by {
                        if j > 0 {
                            assert(t[j - 1] == rs[j]);
                        }
                    }
                },
                None => {
                    assert forall|i: int| 0 <= i < rs.len() implies !((
                    #[trigger] rs[i]) is SOA) by {
                        if i > 0 {
                            assert(t[i - 1] == rs[i]);
                        }
                    }
                },
            }
        }
    }
}

/// A name exists only where it has records of its own, or lies below a name with a
/// wildcard; what answers for it are these records.
pub proof fn law_lookup_sound(zone: Map<Seq<char>, Seq<RecordView>>, name: Seq<char>)
    ensures
        zone_lookup(zone, name) matches Some(rs) ==> (zone.contains_key(name) && rs == zone[name])
            || exists|apex: Seq<char>|
            finishes_with(name, seq!['.'] + apex) && zone.contains_key(#[trigger] starred(apex))
                && rs == zone[starred(apex)],
{
    if !zone.contains_key(name) {
        lemma_wildcard_sound(zone, name);
    }
}

proof fn lemma_wildcard_sound(zone: Map<Seq<char>, Seq<RecordView>>, name: Seq<char>)
    ensures
        wildcard(zone, name) matches Some(rs) ==> exists|apex: Seq<char>|
            finishes_with(name, seq!['.'] + apex) && zone.contains_key(#[trigger] starred(apex))
                && rs == zone[starred(apex)],
    decreases name.len(),
{
    lemma_cut(name, '.');
    if occurs(name, '.') {
        let parent = after(name, '.');
        if zone.contains_key(starred(parent)) {
            assert(name.skip(name.len() - parent.len() - 1) =~= seq!['.'] + parent);
        } else {
            lemma_wildcard_sound(zone, parent);
            if let Some(rs) = wildcard(zone, parent) {
                let apex = choose|apex: Seq<char>|
                    finishes_with(parent, seq!['.'] + apex) && zone.contains_key(
                        #[trigger] starred(apex),
                    ) && rs == zone[starred(apex)];
                let dotted = seq!['.'] + apex;
                assert(name.skip(name.len() - dotted.len()) =~= parent.skip(
                    parent.len() - dotted.len(),
                ));
                assert(zone.contains_key(starred(apex)));
            }
        }
    }
}

/// A wildcard is found wherever a name lies below one: the lookup fails only where the
/// name has no records and no name around it has a wildcard.
pub proof fn law_lookup_complete(
    zone: Map<Seq<char>, Seq<RecordView>>,
    name: Seq<char>,
    apex: Seq<char>,
)
    requires
        zone.contains_key(starred(apex)),
        finishes_with(name, seq!['.'] + apex),
    ensures
        zone_lookup(zone, name) is Some,
{
    lemma_wildcard_found(zone, name, apex);
}

proof fn lemma_wildcard_found(
    zone: Map<Seq<char>, Seq<RecordView>>,
    name: Seq<char>,
    apex: Seq<char>,
)
    requires
        zone.contains_key(starred(apex)),
        finishes_with(name, seq!['.'] + apex),
    ensures
        wildcard(zone, name) is Some,
    decreases name.len(),
{
    lemma_below(name, apex);
    lemma_cut(name, '.');
    if after(name, '.') != apex {
        lemma_wildcard_found(zone, after(name, '.'), apex);
    }
}

/// A zone is responsible for its origin and the names below it; one without an origin
/// for every name.
pub proof fn law_covers(zone: &AuthZone, name: Seq<char>, below: Seq<char>)
    ensures
        zone.covers(zone.origin@),
        zone.covers(below + seq!['.'] + zone.origin@),
        zone.origin@.len() == 0 ==> zone.covers(name),
        zone.covers(name) && zone.origin@.len() > 0 && name != zone.origin@ ==> exists|p: Seq<char>|
            name == #[trigger] (p + seq!['.'] + zone.origin@),
{
    let o = zone.origin@;
    let n = below + seq!['.'] + o;
    assert(n.skip(n.len() - o.len() - 1) =~= seq!['.'] + o);
    if zone.covers(name) && o.len() > 0 && name != o {
        let p = name.take(name.len() - o.len() - 1);
        assert(name =~= p + name.skip(name.len() - o.len() - 1));
        assert(name =~= p + seq!['.'] + o);
    }
}

/// What a set of zones answers for a name is what the zone responsible for it holds, and
/// what it denies a name with is that zone's first SOA record.
pub proof fn law_zone_answers(zones: &ZoneSet, z: AuthZone, name: Seq<char>)
    requires
        find_zone(zones.seq(), name) == Some(z),
    ensures
        z.records@.contains_key(name) ==> zones.answer(name) == Some(z.records@[name]),
        zones.answer(name) matches Some(rs) ==> exists|k: Seq<char>|
            #![trigger z.records@.contains_key(k)]
            z.records@.contains_key(k) && rs == z.records@[k],
        zones.denial(name) matches Some(soa) ==> soa is SOA && z.records.all().contains(soa),
        zones.denial(name) is None ==> forall|i: int|
            0 <= i < z.records.all().len() ==> !((#[trigger] z.records.all()[i]) is SOA),
{
    law_lookup_sound(z.records@, name);
    law_first_soa(z.records.all());
    if let Some(rs) = zones.answer(name) {
        if !z.records@.contains_key(name) {
            let apex = choose|apex: Seq<char>|
                finishes_with(name, seq!['.'] + apex) && z.records@.contains_key(
                    #[trigger] starred(apex),
                ) && rs == z.records@[starred(apex)];
            assert(z.records@.contains_key(starred(apex)));
        }
    }
}

/// The records of zones are counted one by one.
pub proof fn law_total_records(a: Seq<AuthZone>, b: Seq<AuthZone>, z: AuthZone)
    ensures
        total_records(a + b) == total_records(a) + total_records(b),
        total_records(seq![z]) == z.records.all().len(),
    decreases b.len(),
{
    assert(seq![z].drop_last() =~= Seq::empty());
    assert(total_records(Seq::<AuthZone>::empty()) == 0);
    if b.len() == 0 {
        assert(a + b =~= a);
    } else {
        law_total_records(a, b.drop_last(), z);
        assert((a + b).drop_last() =~= a + b.drop_last());
    }
}

} // verus!
