//! Domain blocklist with wildcard support (RPZ-style filtering).
//!
//! A list of domain names (one per line, `;` or `#` comments supported). A name
//! is blocked if it matches exactly or falls under a wildcard entry
//! (`*.example.com` blocks `anything.example.com` but not `example.com` itself).
//!
//! Blocked queries get a synthesized NXDOMAIN response, so the client stops
//! retrying.

use crate::acl::string_views;
use crate::suffix::lemma_below;
use crate::text::{
    after, finishes_with, is_digit, joined, lemma_cut, lemma_first_of, lemma_joined_pieces,
    line_seq, lines, lowercase, occurs, pieces, split, split_once, texts, to_chars, to_lowercase,
    trim, trim_spec,
};
use vstd::hash_set::StringHashSet;
use vstd::prelude::*;

verus! {

/// Whether a wildcard of the list covers a name: `*` below one of the names that
/// enclose it.
pub open spec fn wildcard_listed(list: Set<Seq<char>>, name: Seq<char>) -> bool
    decreases name.len(),
{
    if occurs(name, '.') {
        proof {
            lemma_first_of(name, '.');
        }
        let parent = after(name, '.');
        list.contains(seq!['*', '.'] + parent) || wildcard_listed(list, parent)
    } else {
        false
    }
}

/// Whether a list blocks a name, whatever its case.
pub open spec fn blocks(list: Set<Seq<char>>, name: Seq<char>) -> bool {
    list.contains(lowercase(name)) || wildcard_listed(list, lowercase(name))
}

/// The lower-case forms of names.
pub open spec fn lowered(names: Seq<Seq<char>>) -> Set<Seq<char>>
    decreases names.len(),
{
    if names.len() == 0 {
        Set::empty()
    } else {
        lowered(names.drop_last()).insert(lowercase(names.last()))
    }
}

/// Whether a character may stand in a label.
pub open spec fn label_char(c: char) -> bool {
    is_digit(c) || 'a' <= c <= 'z' || 'A' <= c <= 'Z' || c == '-'
}

/// A label is valid if it is not empty and holds only letters, digits and
/// hyphens, in the first label of a name after at most one asterisk.
pub open spec fn valid_label(l: Seq<char>, first: bool) -> bool {
    &&& l.len() > 0
    &&& forall|i: int|
        0 <= i < l.len() ==> label_char(#[trigger] l[i]) || (first && i == 0 && l[i] == '*')
}

/// Whether every label of a name is valid.
pub open spec fn valid_domain(name: Seq<char>) -> bool {
    forall|i: int|
        0 <= i < pieces(name, '.').len() ==> valid_label(#[trigger] pieces(name, '.')[i], i == 0)
}

/// Whether a line of a blocklist is to be read: it is neither blank nor a comment.
pub open spec fn is_entry_line(line: Seq<char>) -> bool {
    line.len() > 0 && line[0] != ';' && line[0] != '#'
}

/// The names that the lines of a blocklist hold. Lines that hold no valid name
/// are passed over.
pub open spec fn listed(lines: Seq<Seq<char>>) -> Set<Seq<char>>
    decreases lines.len(),
{
    if lines.len() == 0 {
        Set::empty()
    } else {
        let rest = listed(lines.drop_last());
        let line = trim_spec(lines.last());
        if is_entry_line(line) && lowercase(line).len() > 0 && valid_domain(lowercase(line)) {
            rest.insert(lowercase(line))
        } else {
            rest
        }
    }
}

/// Whether a line of a blocklist is passed over because its name is not valid.
pub open spec fn is_bad_line(raw: Seq<char>) -> bool {
    let line = trim_spec(raw);
    is_entry_line(line) && lowercase(line).len() > 0 && !valid_domain(lowercase(line))
}

/// A domain blocklist.
pub struct Blocklist {
    entries: StringHashSet,
    /// The file path the blocklist was loaded from (for reload), if any.
    path: Option<String>,
}

impl View for Blocklist {
    type V = Set<Seq<char>>;

    /// The names and wildcards that are blocked.
    closed spec fn view(&self) -> Set<Seq<char>> {
        self.entries@
    }
}

impl Blocklist {
    /// The file path the blocklist was loaded from, if any.
    pub closed spec fn path_spec(&self) -> Option<Seq<char>> {
        match self.path {
            Some(p) => Some(p@),
            None => None,
        }
    }

    /// Creates an empty blocklist (nothing blocked).
    pub fn empty() -> (r: Self)
        ensures
            r@ == Set::<Seq<char>>::empty(),
            r.path_spec() is None,
    {
        Blocklist { entries: StringHashSet::new(), path: None }
    }

    /// Builds a blocklist from the text of the file at `path`, one domain per
    /// line; with it come the numbers of the lines that hold no valid name.
    pub fn from_text(path: String, content: &str) -> (r: (Self, Vec<usize>))
        ensures
            r.0@ == listed(line_seq(content@)),
            r.0.path_spec() == Some(path@),
            bad_lines(line_seq(content@), r.1@),
    {
        let (entries, bad) = parse_blocklist(content);
        (Blocklist { entries, path: Some(path) }, bad)
    }

    /// Builds a blocklist from an in-memory list of domains.
    pub fn from_domains(domains: Vec<String>) -> (r: Self)
        ensures
            r@ == lowered(string_views(domains@)),
            r.path_spec() is None,
    {
        let ghost all = string_views(domains@);
        let mut entries = StringHashSet::new();
        let mut i: usize = 0;
        proof {
            assert(all.take(0) =~= Seq::empty());
        }
        while i < domains.len()
            invariant
                i <= domains@.len(),
                all == string_views(domains@),
                entries@ == lowered(all.take(i as int)),
            decreases domains@.len() - i,
        {
            proof {
                assert(all.take(i + 1).drop_last() =~= all.take(i as int));
                assert(all.take(i + 1).last() == domains@[i as int]@);
            }
            entries.insert(to_lowercase(domains[i].as_str()));
            i = i + 1;
        }
        assert(all.take(i as int) =~= all);
        Blocklist { entries, path: None }
    }

    /// Whether blocking is active (a non-empty blocklist was loaded).
    pub fn is_active(&self) -> (r: bool)
        ensures
            r == !self@.is_empty(),
    {
        !self.entries.is_empty()
    }

    /// The number of entries.
    pub fn len(&self) -> (n: usize)
        ensures
            n == self@.len(),
    {
        self.entries.len()
    }

    /// The file path the blocklist was loaded from, if any.
    pub fn path(&self) -> (r: Option<&String>)
        ensures
            match r {
                Some(p) => self.path_spec() == Some(p@),
                None => self.path_spec() is None,
            },
    {
        self.path.as_ref()
    }

    /// Whether `name` is blocked, checking exact and wildcard matches.
    ///
    /// A wildcard entry `*.example.com` blocks `sub.example.com` and
    /// `a.b.example.com` but not `example.com` itself.
    pub fn is_blocked(&self, name: &str) -> (r: bool)
        ensures
            r == blocks(self@, name@),
    {
        let lower = to_lowercase(name);
        if self.entries.contains(lower.as_str()) {
            return true;
        }
        // Try wildcard matches: for each parent suffix, check if `*.<suffix>`
        // is in the blocklist.
        let mut remainder: &str = lower.as_str();
        loop
            invariant
                lower@ == lowercase(name@),
                !self@.contains(lower@),
                wildcard_listed(self@, lower@) == wildcard_listed(self@, remainder@),
            decreases remainder@.len(),
        {
            proof {
                lemma_cut(remainder@, '.');
            }
            match split_once(remainder, '.') {
                Some((_, parent)) => {
                    let key = "*.".to_owned().concat(parent);
                    proof {
                        reveal_strlit("*.");
                        assert("*."@ =~= seq!['*', '.']);
                    }
                    if self.entries.contains(key.as_str()) {
                        return true;
                    }
                    remainder = parent;
                },
                None => {
                    return false;
                },
            }
        }
    }

    /// Replaces the entries by those of the given text, which was read from the
    /// file that the blocklist came from. Without such a file nothing changes.
    pub fn reload(&mut self, content: &str) -> (bad: Vec<usize>)
        ensures
            final(self).path_spec() == old(self).path_spec(),
            old(self).path_spec() is None ==> final(self)@ == old(self)@ && bad@.len() == 0,
            old(self).path_spec() is Some ==> final(self)@ == listed(line_seq(content@))
                && bad_lines(line_seq(content@), bad@),
    {
        if self.path.is_none() {
            return Vec::new();
        }
        let (entries, bad) = parse_blocklist(content);
        self.entries = entries;
        bad
    }
}

/// Whether the numbers, counted from 1 and in order, are those of the lines that
/// hold no valid name.
pub open spec fn bad_lines(lines: Seq<Seq<char>>, numbers: Seq<usize>) -> bool {
    &&& forall|i: int, j: int| 0 <= i < j < numbers.len() ==> numbers[i] < numbers[j]
    &&& forall|i: int|
        0 <= i < numbers.len() ==> 1 <= #[trigger] numbers[i] <= lines.len() && is_bad_line(
            lines[numbers[i] - 1],
        )
    &&& forall|k: int|
        0 <= k < lines.len() && is_bad_line(#[trigger] lines[k]) ==> exists|i: int|
            0 <= i < numbers.len() && #[trigger] numbers[i] == k + 1
}

/// Parses a blocklist: one domain per line, `;` or `#` start a comment.
fn parse_blocklist(content: &str) -> (r: (StringHashSet, Vec<usize>))
    ensures
        r.0@ == listed(line_seq(content@)),
        bad_lines(line_seq(content@), r.1@),
{
    let all = lines(content);
    let ghost ls = line_seq(content@);
    let mut entries = StringHashSet::new();
    let mut bad: Vec<usize> = Vec::new();
    let mut i: usize = 0;
    proof {
        assert(ls.take(0) =~= Seq::empty());
        assert(texts(all@).len() == all@.len());
    }
    while i < all.len()
        invariant
            i <= all@.len(),
            ls == texts(all@),
            ls.len() == all@.len(),
            entries@ == listed(ls.take(i as int)),
            forall|j: int, k: int| 0 <= j < k < bad@.len() ==> bad@[j] < bad@[k],
            forall|j: int|
                0 <= j < bad@.len() ==> 1 <= #[trigger] bad@[j] <= i && is_bad_line(
                    ls[bad@[j] - 1],
                ),
            forall|k: int|
                0 <= k < i && is_bad_line(#[trigger] ls[k]) ==> exists|j: int|
                    0 <= j < bad@.len() && #[trigger] bad@[j] == k + 1,
        decreases all@.len() - i,
    {
        let ghost had = bad@;
        proof {
            assert(ls.take(i + 1).drop_last() =~= ls.take(i as int));
            assert(ls.take(i + 1).last() == all@[i as int]@);
            assert(ls[i as int] == all@[i as int]@);
        }
        let line = trim(all[i]);
        let skip = line.is_empty() || line.get_char(0) == ';' || line.get_char(0) == '#';
        if !skip {
            let domain = to_lowercase(line);
            if !domain.as_str().is_empty() {
                if is_valid_domain(domain.as_str()) {
                    entries.insert(domain);
                } else {
                    bad.push(i + 1);
                    assert(bad@[bad@.len() - 1] == i + 1);
                }
            }
        }
        proof {
            assert forall|k: int| 0 <= k < i + 1 && is_bad_line(#[trigger] ls[k]) implies exists|
                j: int,
            |
                0 <= j < bad@.len() && #[trigger] bad@[j] == k + 1 by {
                if k < i {
                    let j = choose|j: int| 0 <= j < had.len() && #[trigger] had[j] == k + 1;
                    assert(bad@[j] == k + 1);
                }
            }
        }
        i = i + 1;
    }
    assert(ls.take(i as int) =~= ls);
    (entries, bad)
}

fn is_valid_label(label: &str, first: bool) -> (r: bool)
    ensures
        r == valid_label(label@, first),
{
    let c = to_chars(label);
    if c.len() == 0 {
        return false;
    }
    let mut i: usize = 0;
    while i < c.len()
        invariant
            c@ == label@,
            i <= c@.len(),
            forall|j: int|
                0 <= j < i ==> label_char(#[trigger] c@[j]) || (first && j == 0 && c@[j] == '*'),
        decreases c@.len() - i,
    {
        let x = c[i];
        let plain = ('0' <= x && x <= '9') || ('a' <= x && x <= 'z') || ('A' <= x && x <= 'Z') || x
            == '-';
        if !plain && !(first && i == 0 && x == '*') {
            assert(!label_char(label@[i as int]));
            return false;
        }
        i = i + 1;
    }
    true
}

/// Minimal validation: domain labels are alphanumeric, hyphens, or a leading `*` in
/// the first one.
fn is_valid_domain(domain: &str) -> (r: bool)
    ensures
        r == valid_domain(domain@),
{
    let labels = split(domain, '.');
    let ghost ps = pieces(domain@, '.');
    let mut i: usize = 0;
    assert(texts(labels@).len() == labels@.len());
    while i < labels.len()
        invariant
            i <= labels@.len(),
            ps == pieces(domain@, '.'),
            ps == texts(labels@),
            ps.len() == labels@.len(),
            forall|j: int| 0 <= j < i ==> valid_label(#[trigger] ps[j], j == 0),
        decreases labels@.len() - i,
    {
        assert(ps[i as int] == labels@[i as int]@);
        if !is_valid_label(labels[i], i == 0) {
            return false;
        }
        i = i + 1;
    }
    true
}

/// A wildcard blocks every name below it, at any depth.
pub proof fn law_wildcard(list: Set<Seq<char>>, name: Seq<char>, apex: Seq<char>)
    requires
        list.contains(seq!['*', '.'] + apex),
        finishes_with(lowercase(name), seq!['.'] + apex),
    ensures
        blocks(list, name),
{
    lemma_wildcard_below(list, lowercase(name), apex);
}

proof fn lemma_wildcard_below(list: Set<Seq<char>>, name: Seq<char>, apex: Seq<char>)
    requires
        list.contains(seq!['*', '.'] + apex),
        finishes_with(name, seq!['.'] + apex),
    ensures
        wildcard_listed(list, name),
    decreases name.len(),
{
    lemma_below(name, apex);
    lemma_cut(name, '.');
    if after(name, '.') != apex {
        lemma_wildcard_below(list, after(name, '.'), apex);
    }
}

/// A wildcard alone does not block the name it stands below.
pub proof fn law_wildcard_spares_apex(apex: Seq<char>)
    ensures
        !wildcard_listed(set![seq!['*', '.'] + apex], apex),
{
    lemma_not_listed(set![seq!['*', '.'] + apex], apex, apex.len());
}

proof fn lemma_not_listed(list: Set<Seq<char>>, name: Seq<char>, n: nat)
    requires
        name.len() <= n,
        forall|k: Seq<char>| #[trigger] list.contains(k) ==> k.len() >= n + 2,
    ensures
        !wildcard_listed(list, name),
    decreases name.len(),
{
    lemma_cut(name, '.');
    if occurs(name, '.') {
        lemma_not_listed(list, after(name, '.'), n);
    }
}

/// An empty list blocks nothing.
pub proof fn law_empty_blocks_nothing(name: Seq<char>)
    ensures
        !blocks(Set::empty(), name),
{
    lemma_not_listed(Set::empty(), lowercase(name), lowercase(name).len());
}

/// A list blocks a name only where it holds the name itself, or a wildcard that the name
/// lies below.
pub proof fn law_blocks_only(list: Set<Seq<char>>, name: Seq<char>)
    requires
        blocks(list, name),
    ensures
        list.contains(lowercase(name)) || exists|apex: Seq<char>|
            list.contains(seq!['*', '.'] + apex) && #[trigger] finishes_with(
                lowercase(name),
                seq!['.'] + apex,
            ),
{
    if !list.contains(lowercase(name)) {
        lemma_wildcard_only(list, lowercase(name));
    }
}

proof fn lemma_wildcard_only(list: Set<Seq<char>>, name: Seq<char>)
    requires
        wildcard_listed(list, name),
    ensures
        exists|apex: Seq<char>|
            list.contains(seq!['*', '.'] + apex) && #[trigger] finishes_with(
                name,
                seq!['.'] + apex,
            ),
    decreases name.len(),
{
    lemma_cut(name, '.');
    let parent = after(name, '.');
    let n = name.len() - parent.len() - 1;
    if list.contains(seq!['*', '.'] + parent) {
        assert(name.skip(n) =~= seq!['.'] + parent);
        assert(finishes_with(name, seq!['.'] + parent));
    } else {
        lemma_wildcard_only(list, parent);
        let apex = choose|apex: Seq<char>|
            list.contains(seq!['*', '.'] + apex) && #[trigger] finishes_with(
                parent,
                seq!['.'] + apex,
            );
        let k = 1 + apex.len() as int;
        assert(name.skip(name.len() - k) =~= parent.skip(parent.len() - k));
        assert(finishes_with(name, seq!['.'] + apex));
    }
}

/// A name that is on a list is blocked, whatever the case it is asked in, and more entries
/// never unblock a name.
pub proof fn law_blocks_more(list: Set<Seq<char>>, more: Set<Seq<char>>, name: Seq<char>)
    requires
        list.subset_of(more),
    ensures
        list.contains(lowercase(name)) ==> blocks(list, name),
        blocks(list, name) ==> blocks(more, name),
{
    if wildcard_listed(list, lowercase(name)) {
        lemma_wildcard_more(list, more, lowercase(name));
    }
}

proof fn lemma_wildcard_more(list: Set<Seq<char>>, more: Set<Seq<char>>, name: Seq<char>)
    requires
        list.subset_of(more),
        wildcard_listed(list, name),
    ensures
        wildcard_listed(more, name),
    decreases name.len(),
{
    lemma_cut(name, '.');
    if !list.contains(seq!['*', '.'] + after(name, '.')) {
        lemma_wildcard_more(list, more, after(name, '.'));
    }
}

/// Whether a line of a file puts a name on the list: without the white space around it, it
/// does not begin with a semicolon or a hash, and in lower case it is the name, a valid one.
pub open spec fn puts(line: Seq<char>, name: Seq<char>) -> bool {
    let t = trim_spec(line);
    &&& t.len() > 0
    &&& t[0] != ';'
    &&& t[0] != '#'
    &&& name == lowercase(t)
    &&& name.len() > 0
    &&& valid_domain(name)
}

/// The list that is read from a file holds the names of all its lines and nothing else.
pub proof fn law_listed(lines: Seq<Seq<char>>, name: Seq<char>)
    ensures
        listed(lines).contains(name) <==> exists|k: int|
            0 <= k < lines.len() && puts(#[trigger] lines[k], name),
    decreases lines.len(),
{
    if lines.len() > 0 {
        let init = lines.drop_last();
        law_listed(init, name);
        if listed(init).contains(name) {
            let k = choose|k: int| 0 <= k < init.len() && puts(#[trigger] init[k], name);
            assert(puts(lines[k], name));
        }
        if listed(lines).contains(name) && !listed(init).contains(name) {
            assert(puts(lines[lines.len() - 1], name));
        }
        if exists|k: int| 0 <= k < lines.len() && puts(#[trigger] lines[k], name) {
            let k = choose|k: int| 0 <= k < lines.len() && puts(#[trigger] lines[k], name);
            if k < init.len() {
                assert(puts(init[k], name));
            }
        }
    }
}

/// The list that is made from names holds each in lower case and nothing else.
pub proof fn law_lowered(names: Seq<Seq<char>>, name: Seq<char>)
    ensures
        lowered(names).contains(name) <==> exists|k: int|
            0 <= k < names.len() && lowercase(#[trigger] names[k]) == name,
    decreases names.len(),
{
    if names.len() > 0 {
        let init = names.drop_last();
        law_lowered(init, name);
        if lowered(init).contains(name) {
            let k = choose|k: int| 0 <= k < init.len() && lowercase(#[trigger] init[k]) == name;
            assert(lowercase(names[k]) == name);
        }
        if lowercase(names.last()) == name {
            assert(lowercase(names[names.len() - 1]) == name);
        }
        if exists|k: int| 0 <= k < names.len() && lowercase(#[trigger] names[k]) == name {
            let k = choose|k: int| 0 <= k < names.len() && lowercase(#[trigger] names[k]) == name;
            if k < init.len() {
                assert(lowercase(init[k]) == name);
            }
        }
    }
}

/// Whether a character may stand in a label of a name, in the given place.
pub open spec fn fits(c: char, label: int, place: int) -> bool {
    ||| '0' <= c <= '9'
    ||| 'a' <= c <= 'z'
    ||| 'A' <= c <= 'Z'
    ||| c == '-'
    ||| label == 0 && place == 0 && c == '*'
}

/// A name whose labels are not empty and hold letters, digits and hyphens, with or without
/// an asterisk at the very front, is valid.
pub proof fn law_valid_domain(labels: Seq<Seq<char>>)
    requires
        labels.len() > 0,
        forall|i: int| 0 <= i < labels.len() ==> (#[trigger] labels[i]).len() > 0,
        forall|i: int, k: int|
            0 <= i < labels.len() && 0 <= k < labels[i].len() ==> fits(
                #[trigger] labels[i][k],
                i,
                k,
            ),
    ensures
        valid_domain(joined(labels, '.')),
{
    assert forall|i: int| 0 <= i < labels.len() implies !occurs(#[trigger] labels[i], '.')
        && valid_label(labels[i], i == 0) by {
        let l = labels[i];
        lemma_first_of(l, '.');
        assert forall|k: int| 0 <= k < l.len() implies #[trigger] l[k] != '.' && (label_char(l[k])
            || (i == 0 && k == 0 && l[k] == '*')) by {
            assert(fits(labels[i][k], i, k));
        }
    }
    lemma_joined_pieces(labels, '.');
}

/// A name with an empty label, or with any other character in one, is not valid.
pub proof fn law_invalid_domain(labels: Seq<Seq<char>>, i: int, k: int)
    requires
        forall|j: int| 0 <= j < labels.len() ==> !(#[trigger] labels[j]).contains('.'),
        0 <= i < labels.len(),
        labels[i].len() == 0 || (0 <= k < labels[i].len() && !fits(labels[i][k], i, k)),
    ensures
        !valid_domain(joined(labels, '.')),
{
    assert forall|j: int| 0 <= j < labels.len() implies !occurs(#[trigger] labels[j], '.') by {
        lemma_first_of(labels[j], '.');
    }
    lemma_joined_pieces(labels, '.');
    let name = joined(labels, '.');
    if valid_domain(name) {
        assert(valid_label(pieces(name, '.')[i], i == 0));
    }
}

} // verus!
