//! Longest-suffix matching of domain names.

use crate::text::{after, ends_with, finishes_with, first_of, lemma_first_of, occurs, text_eq};
use vstd::prelude::*;
use vstd::utf8::encode_utf8;

verus! {

/// Something that is chosen by the suffix of a name.
pub trait Suffixed: Sized {
    /// The suffix that names have to end in.
    spec fn suffix_spec(&self) -> Seq<char>;

    /// The suffix that names have to end in.
    fn suffix_text(&self) -> (r: &str)
        ensures
            r@ == self.suffix_spec(),
    ;
}

/// The length by which suffixes are ranked.
pub open spec fn rank<T: Suffixed>(x: T) -> nat {
    encode_utf8(x.suffix_spec()).len()
}

/// Puts `x` before the first item whose suffix is not longer.
pub open spec fn ranked_insert<T: Suffixed>(s: Seq<T>, x: T) -> Seq<T>
    decreases s.len(),
{
    if s.len() == 0 || rank(s[0]) <= rank(x) {
        seq![x] + s
    } else {
        seq![s[0]] + ranked_insert(s.drop_first(), x)
    }
}

/// The items by the length of their suffixes, longest first; those with suffixes
/// of one length stay in the order in which they came.
pub open spec fn ranked<T: Suffixed>(s: Seq<T>) -> Seq<T>
    decreases s.len(),
{
    if s.len() == 0 {
        s
    } else {
        ranked_insert(ranked(s.drop_first()), s[0])
    }
}

/// Whether no item comes after one with a shorter suffix.
pub open spec fn longest_first<T: Suffixed>(s: Seq<T>) -> bool {
    forall|i: int, j: int| 0 <= i <= j < s.len() ==> rank(s[i]) >= rank(s[j])
}

proof fn lemma_ranked_insert<T: Suffixed>(s: Seq<T>, x: T)
    requires
        longest_first(s),
    ensures
        longest_first(ranked_insert(s, x)),
        ranked_insert(s, x).to_multiset() == s.to_multiset().insert(x),
        ranked_insert(s, x).len() == s.len() + 1,
    decreases s.len(),
{
    broadcast use vstd::seq_lib::group_to_multiset_ensures;

    let r = ranked_insert(s, x);
    if s.len() == 0 || rank(s[0]) <= rank(x) {
        assert(seq![x] + s =~= s.insert(0, x));
        assert forall|i: int, j: int| 0 <= i <= j < r.len() implies rank(r[i]) >= rank(r[j]) by {
            if i == 0 && j > 0 {
                assert(rank(s[0]) >= rank(s[j - 1]));
            }
        }
    } else {
        let t = s.drop_first();
        lemma_ranked_insert(t, x);
        let u = ranked_insert(t, x);
        assert forall|i: int, j: int| 0 <= i <= j < r.len() implies rank(r[i]) >= rank(r[j]) by {
            if i == 0 && j > 0 {
                let y = u[j - 1];
                assert(u.to_multiset().count(y) > 0) by {
                    assert(u.contains(y));
                }
                if y != x {
                    assert(t.to_multiset().count(y) > 0);
                    assert(t.contains(y));
                    let k = t.index_of(y);
                    assert(s[k + 1] == y);
                }
            }
        }
        assert(r =~= u.insert(0, s[0]));
        assert(s =~= t.insert(0, s[0]));
        assert(r.to_multiset() =~= s.to_multiset().insert(x));
    }
}

/// Ranking keeps every item, and leaves the longest suffixes first.
pub proof fn law_ranked<T: Suffixed>(s: Seq<T>)
    ensures
        longest_first(ranked(s)),
        ranked(s).to_multiset() == s.to_multiset(),
        ranked(s).len() == s.len(),
    decreases s.len(),
{
    broadcast use vstd::seq_lib::group_to_multiset_ensures;

    if s.len() > 0 {
        let t = s.drop_first();
        law_ranked(t);
        lemma_ranked_insert(ranked(t), s[0]);
        assert(s =~= t.insert(0, s[0]));
    }
}

/// Ranking leaves alone what is ranked already.
pub proof fn lemma_ranked_sorted<T: Suffixed>(s: Seq<T>)
    requires
        longest_first(s),
    ensures
        ranked(s) == s,
    decreases s.len(),
{
    if s.len() > 0 {
        let t = s.drop_first();
        lemma_ranked_sorted(t);
        if t.len() > 0 {
            assert(rank(s[0]) >= rank(s[1]));
        }
        assert(seq![s[0]] + t =~= s);
    }
}

/// Items whose suffixes have one length stay in the order in which they came.
pub proof fn law_ranked_stable<T: Suffixed>(s: Seq<T>, n: nat)
    ensures
        ranked(s).filter(|x: T| rank(x) == n) == s.filter(|x: T| rank(x) == n),
    decreases s.len(),
{
    let same = |x: T| rank(x) == n;
    if s.len() > 0 {
        let t = s.drop_first();
        law_ranked_stable(t, n);
        law_ranked(t);
        lemma_insert_filter(ranked(t), s[0], n);
        assert(s =~= seq![s[0]] + t);
        lemma_filter_cons(s[0], t, n);
    }
}

proof fn lemma_filter_cons<T: Suffixed>(x: T, s: Seq<T>, n: nat)
    ensures
        (seq![x] + s).filter(|y: T| rank(y) == n) == (if rank(x) == n {
            seq![x]
        } else {
            Seq::empty()
        }) + s.filter(|y: T| rank(y) == n),
{
    let p = |y: T| rank(y) == n;
    Seq::filter_distributes_over_add(seq![x], s, p);
    reveal_with_fuel(Seq::filter, 2);
    assert(seq![x].drop_last() =~= Seq::empty());
    assert(Seq::<T>::empty().filter(p) =~= Seq::empty());
    if rank(x) == n {
        assert(Seq::<T>::empty().push(x) =~= seq![x]);
        assert(seq![x].filter(p) =~= seq![x]);
    } else {
        assert(seq![x].filter(p) =~= Seq::empty());
    }
}

proof fn lemma_insert_filter<T: Suffixed>(s: Seq<T>, x: T, n: nat)
    requires
        longest_first(s),
    ensures
        ranked_insert(s, x).filter(|y: T| rank(y) == n) == (if rank(x) == n {
            seq![x]
        } else {
            Seq::empty()
        }) + s.filter(|y: T| rank(y) == n),
    decreases s.len(),
{
    let p = |y: T| rank(y) == n;
    if s.len() == 0 || rank(s[0]) <= rank(x) {
        lemma_filter_cons(x, s, n);
    } else {
        let t = s.drop_first();
        lemma_insert_filter(t, x, n);
        lemma_filter_cons(s[0], ranked_insert(t, x), n);
        lemma_filter_cons(s[0], t, n);
        assert(seq![s[0]] + t =~= s);
        if rank(x) == n {
            assert(rank(s[0]) != n);
            assert(Seq::<T>::empty() + (seq![x] + t.filter(p)) =~= seq![x] + (Seq::<T>::empty()
                + t.filter(p)));
        } else {
            assert(Seq::<T>::empty() + t.filter(p) =~= t.filter(p));
        }
        assert(ranked_insert(s, x).filter(p) =~= (if rank(x) == n {
            seq![x]
        } else {
            Seq::empty()
        }) + s.filter(p));
    }
}

/// Orders the items by the length of their suffixes, longest first.
pub fn sort_longest_first<T: Suffixed>(items: Vec<T>) -> (r: Vec<T>)
    ensures
        r@ == ranked(items@),
{
    let mut items = items;
    let ghost all = items@;
    let mut out: Vec<T> = Vec::new();
    proof {
        assert(all.skip(all.len() as int) =~= Seq::empty());
    }
    while items.len() > 0
        invariant
            items@.len() <= all.len(),
            items@ == all.take(items@.len() as int),
            out@ == ranked(all.skip(items@.len() as int)),
        decreases items@.len(),
    {
        let ghost n = items@.len() as int;
        match items.pop() {
            Some(x) => {
                let ghost sorted = out@;
                let mut at: usize = 0;
                let len: usize = x.suffix_text().as_bytes().len();
                proof {
                    assert(sorted.skip(0) =~= sorted);
                    assert(sorted.take(0) + ranked_insert(sorted, x) =~= ranked_insert(sorted, x));
                }
                while at < out.len() && out[at].suffix_text().as_bytes().len() > len
                    invariant
                        out@ == sorted,
                        at <= sorted.len(),
                        len == rank(x),
                        sorted.take(at as int) + ranked_insert(sorted.skip(at as int), x)
                            == ranked_insert(sorted, x),
                    decreases sorted.len() - at,
                {
                    proof {
                        let s = sorted.skip(at as int);
                        assert(s.drop_first() =~= sorted.skip(at + 1));
                        assert(sorted.take(at + 1) + ranked_insert(sorted.skip(at + 1), x)
                            =~= sorted.take(at as int) + ranked_insert(s, x));
                    }
                    at = at + 1;
                }
                out.insert(at, x);
                proof {
                    let s = sorted.skip(at as int);
                    assert(out@ =~= sorted.take(at as int) + (seq![x] + s));
                    assert(all.skip(n - 1).drop_first() =~= all.skip(n));
                    assert(all.skip(n - 1)[0] == x);
                    assert(items@ =~= all.take(n - 1));
                }
            },
            None => {},
        }
    }
    assert(all.skip(0) =~= all);
    out
}

/// Whether a name is the suffix itself or lies below it.
pub open spec fn under(name: Seq<char>, suffix: Seq<char>) -> bool {
    name == suffix || finishes_with(name, seq!['.'] + suffix)
}

/// Whether a name is the suffix itself or lies below it.
pub fn is_under(name: &str, suffix: &str) -> (r: bool)
    ensures
        r == under(name@, suffix@),
{
    if text_eq(name, suffix) {
        return true;
    }
    let dotted = ".".to_owned().concat(suffix);
    proof {
        reveal_strlit(".");
        assert("."@ =~= seq!['.']);
    }
    ends_with(name, dotted.as_str())
}

/// The parent of a name below another is that name, or below it too.
pub proof fn lemma_below(name: Seq<char>, apex: Seq<char>)
    requires
        finishes_with(name, seq!['.'] + apex),
    ensures
        occurs(name, '.'),
        after(name, '.') == apex || finishes_with(after(name, '.'), seq!['.'] + apex),
{
    let dotted = seq!['.'] + apex;
    let at = name.len() - dotted.len();
    assert(name[at] == name.skip(at)[0]);
    lemma_first_of(name, '.');
    let i = first_of(name, '.');
    let parent = after(name, '.');
    if i == at {
        assert(parent =~= apex) by {
            assert forall|j: int| 0 <= j < apex.len() implies parent[j] == apex[j] by {
                assert(name.skip(at)[j + 1] == dotted[j + 1]);
            }
        }
    } else {
        assert(parent.skip(parent.len() - dotted.len()) =~= name.skip(at));
    }
}

/// A name lies under a suffix where it is the suffix, or has something and a dot in front
/// of it.
pub proof fn law_under(name: Seq<char>, front: Seq<char>, suffix: Seq<char>)
    ensures
        under(suffix, suffix),
        under(front + seq!['.'] + suffix, suffix),
        under(name, suffix) && name != suffix ==> name == name.take(
            name.len() - suffix.len() - 1,
        ) + seq!['.'] + suffix,
        name.len() < suffix.len() ==> !under(name, suffix),
{
    let whole = front + seq!['.'] + suffix;
    assert(whole.skip(whole.len() - 1 - suffix.len()) =~= seq!['.'] + suffix);
    if under(name, suffix) && name != suffix {
        let k = name.len() - suffix.len() - 1;
        assert(name =~= name.take(k) + name.skip(k));
        assert(name =~= name.take(k) + seq!['.'] + suffix);
    }
}

} // verus!
