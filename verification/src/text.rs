//! Text: the operations on `str` that names, zone files and messages need,
//! each stated over the sequence of characters.

use vstd::prelude::*;
use vstd::utf8::{decode_utf8, encode_utf8, encode_utf8_decode_utf8, valid_utf8};

verus! {

/// The text that octets stand for which are not well-formed UTF-8: every
/// ill-formed sequence is replaced by U+FFFD.
pub uninterp spec fn utf8_replaced(bytes: Seq<u8>) -> Seq<char>;

/// The text that a run of octets stands for.
pub open spec fn utf8_lossy(bytes: Seq<u8>) -> Seq<char> {
    if valid_utf8(bytes) {
        decode_utf8(bytes)
    } else {
        utf8_replaced(bytes)
    }
}

/// `String::from_utf8_lossy`, taken by value. Octets that are well-formed UTF-8
/// are decoded as they are; what comes of others is a function of them alone.
#[verifier::external_body]
pub(crate) fn lossy_text(bytes: &[u8]) -> (s: String)
    ensures
        valid_utf8(bytes@) ==> s@ == decode_utf8(bytes@),
        !valid_utf8(bytes@) ==> s@ == utf8_replaced(bytes@),
{
    String::from_utf8_lossy(bytes).into_owned()
}

/// The lower-case form of text that is not all ASCII, as Unicode maps it.
pub uninterp spec fn unicode_lowercase(s: Seq<char>) -> Seq<char>;

/// The lower-case form of an ASCII letter; any other character unchanged.
pub open spec fn ascii_lower(c: char) -> char {
    if 'A' <= c <= 'Z' {
        ((c as u32) + 32) as char
    } else {
        c
    }
}

/// The text with every ASCII capital replaced by its small letter.
pub open spec fn ascii_lowercase(s: Seq<char>) -> Seq<char> {
    s.map_values(|c: char| ascii_lower(c))
}

/// Whether every character of the text is ASCII.
pub open spec fn is_ascii_text(s: Seq<char>) -> bool {
    forall|i: int| 0 <= i < s.len() ==> (#[trigger] s[i] as u32) < 128
}

/// The text with every upper-case letter replaced by its lower-case form.
pub open spec fn lowercase(s: Seq<char>) -> Seq<char> {
    if is_ascii_text(s) {
        ascii_lowercase(s)
    } else {
        unicode_lowercase(s)
    }
}

/// `str::to_lowercase`. Of ASCII text it lowers the capitals and leaves the rest
/// as it is; what comes of other text is a function of it alone.
#[verifier::external_body]
pub(crate) fn to_lowercase(s: &str) -> (r: String)
    ensures
        is_ascii_text(s@) ==> r@ == ascii_lowercase(s@),
        !is_ascii_text(s@) ==> r@ == unicode_lowercase(s@),
{
    s.to_lowercase()
}

/// `String::push`: appends one character.
pub assume_specification[ String::push ](s: &mut String, c: char)
    ensures
        final(s)@ == old(s)@.push(c),
;

/// UTF-8 encoding distributes over concatenation.
pub proof fn lemma_encode_concat(a: Seq<char>, b: Seq<char>)
    ensures
        encode_utf8(a + b) == encode_utf8(a) + encode_utf8(b),
    decreases a.len(),
{
    if a.len() == 0 {
        assert(a + b =~= b);
        assert(encode_utf8(a) + encode_utf8(b) =~= encode_utf8(b));
    } else {
        lemma_encode_concat(a.drop_first(), b);
        assert((a + b).drop_first() =~= a.drop_first() + b);
        assert(encode_utf8(a + b) =~= encode_utf8(a) + encode_utf8(b));
    }
}

/// Texts with the same UTF-8 encoding are the same.
pub proof fn lemma_encode_injective(a: Seq<char>, b: Seq<char>)
    requires
        encode_utf8(a) == encode_utf8(b),
    ensures
        a == b,
{
    encode_utf8_decode_utf8(a);
    encode_utf8_decode_utf8(b);
}

/// Only the empty text has an empty encoding.
pub proof fn lemma_encode_len(a: Seq<char>)
    ensures
        a.len() <= encode_utf8(a).len() <= 4 * a.len(),
    decreases a.len(),
{
    if a.len() > 0 {
        lemma_encode_len(a.drop_first());
    }
}

/// Whether two texts are the same.
pub fn text_eq(a: &str, b: &str) -> (r: bool)
    ensures
        r == (a@ == b@),
{
    let x = a.as_bytes();
    let y = b.as_bytes();
    if x.len() != y.len() {
        return false;
    }
    let mut i: usize = 0;
    while i < x.len()
        invariant
            i <= x.len(),
            x@.len() == y@.len(),
            x@ == encode_utf8(a@),
            y@ == encode_utf8(b@),
            forall|j: int| 0 <= j < i ==> x@[j] == y@[j],
        decreases x.len() - i,
    {
        if x[i] != y[i] {
            return false;
        }
        i = i + 1;
    }
    proof {
        assert(x@ =~= y@);
        lemma_encode_injective(a@, b@);
    }
    true
}

/// The place of the first `c` in the text, counted in characters; the length of
/// the text where there is none.
pub open spec fn first_of(s: Seq<char>, c: char) -> int
    decreases s.len(),
{
    if s.len() == 0 || s[0] == c {
        0
    } else {
        1 + first_of(s.drop_first(), c)
    }
}

pub proof fn lemma_first_of(s: Seq<char>, c: char)
    ensures
        0 <= first_of(s, c) <= s.len(),
        first_of(s, c) < s.len() ==> s[first_of(s, c)] == c,
        forall|j: int| 0 <= j < first_of(s, c) ==> s[j] != c,
        first_of(s, c) == s.len() <==> !s.contains(c),
    decreases s.len(),
{
    if s.len() > 0 && s[0] != c {
        let t = s.drop_first();
        lemma_first_of(t, c);
        assert forall|j: int| 0 <= j < first_of(s, c) implies s[j] != c by {
            if j > 0 {
                assert(t[j - 1] == s[j]);
            }
        }
        if s.contains(c) {
            let k = s.index_of(c);
            assert(t[k - 1] == c);
        }
        if t.contains(c) {
            let k = t.index_of(c);
            assert(s[k + 1] == c);
        }
    }
}

/// The first place of `c` is fixed by what stands there and before it.
pub proof fn lemma_first_of_is(s: Seq<char>, c: char, i: int)
    requires
        0 <= i <= s.len(),
        i < s.len() ==> s[i] == c,
        forall|j: int| 0 <= j < i ==> s[j] != c,
    ensures
        first_of(s, c) == i,
{
    lemma_first_of(s, c);
}

/// Whether `c` occurs in the text.
pub open spec fn occurs(s: Seq<char>, c: char) -> bool {
    first_of(s, c) < s.len()
}

/// What stands before the first `c`; the whole text where there is none.
pub open spec fn before(s: Seq<char>, c: char) -> Seq<char> {
    s.take(first_of(s, c))
}

/// What stands after the first `c`.
pub open spec fn after(s: Seq<char>, c: char) -> Seq<char> {
    s.skip(first_of(s, c) + 1)
}

/// A text is what stands before the first `c`, that `c`, and what stands after.
pub proof fn lemma_cut(s: Seq<char>, c: char)
    ensures
        occurs(s, c) ==> s == before(s, c) + seq![c] + after(s, c),
        occurs(s, c) ==> after(s, c).len() < s.len(),
        !occurs(s, c) ==> before(s, c) == s,
        !occurs(before(s, c), c),
{
    lemma_first_of(s, c);
    let i = first_of(s, c);
    if occurs(s, c) {
        assert(s =~= before(s, c) + seq![c] + after(s, c));
    } else {
        assert(before(s, c) =~= s);
    }
    lemma_first_of_is(before(s, c), c, i);
}

/// The place of the first `c` in the text, counted in characters.
pub fn find_char(s: &str, c: char) -> (r: Option<usize>)
    ensures
        match r {
            Some(i) => occurs(s@, c) && i == first_of(s@, c),
            None => !occurs(s@, c),
        },
{
    let n: usize = s.unicode_len();
    let mut i: usize = 0;
    for x in it: s.chars()
        invariant
            n == s@.len(),
            it.seq() == s@,
            i == it.index(),
            forall|j: int| 0 <= j < i ==> s@[j] != c,
    {
        if x == c {
            proof {
                lemma_first_of_is(s@, c, i as int);
            }
            return Some(i);
        }
        i = i + 1;
    }
    proof {
        lemma_first_of_is(s@, c, s@.len() as int);
    }
    None
}

/// Cuts the text at the first `c`.
pub fn split_once<'a>(s: &'a str, c: char) -> (r: Option<(&'a str, &'a str)>)
    ensures
        match r {
            Some((a, b)) => occurs(s@, c) && a@ == before(s@, c) && b@ == after(s@, c),
            None => !occurs(s@, c),
        },
{
    match find_char(s, c) {
        Some(i) => {
            let n: usize = s.unicode_len();
            let a = s.substring_char(0, i);
            let b = s.substring_char(i + 1, n);
            assert(a@ =~= before(s@, c));
            assert(b@ =~= after(s@, c));
            Some((a, b))
        },
        None => None,
    }
}

/// The pieces of the text between the `c`s; one piece more than there are `c`s.
pub open spec fn pieces(s: Seq<char>, c: char) -> Seq<Seq<char>>
    decreases s.len(),
{
    if occurs(s, c) {
        proof {
            lemma_first_of(s, c);
        }
        seq![before(s, c)] + pieces(after(s, c), c)
    } else {
        seq![s]
    }
}

/// The texts of a list.
pub open spec fn texts(v: Seq<&str>) -> Seq<Seq<char>> {
    v.map_values(|x: &str| x@)
}

/// Splits the text at every `c`.
pub fn split<'a>(s: &'a str, c: char) -> (r: Vec<&'a str>)
    ensures
        texts(r@) == pieces(s@, c),
        r@.len() >= 1,
{
    let mut out: Vec<&'a str> = Vec::new();
    let mut rest: &'a str = s;
    assert(pieces(s@, c) =~= texts(out@) + pieces(rest@, c));
    loop
        invariant_except_break
            pieces(s@, c) == texts(out@) + pieces(rest@, c),
        ensures
            texts(out@) == pieces(s@, c),
        decreases rest@.len(),
    {
        let ghost done = out@;
        match split_once(rest, c) {
            Some((a, b)) => {
                proof {
                    lemma_cut(rest@, c);
                }
                out.push(a);
                rest = b;
                proof {
                    assert(texts(out@) =~= texts(done) + seq![a@]);
                    assert(pieces(s@, c) =~= texts(out@) + pieces(rest@, c));
                }
            },
            None => {
                out.push(rest);
                proof {
                    assert(texts(out@) =~= texts(done) + seq![rest@]);
                }
                break;
            },
        }
    }
    proof {
        assert(texts(out@).len() == out@.len());
        assert(pieces(s@, c).len() >= 1);
    }
    out
}

/// Whether the text begins with `p`.
pub open spec fn begins_with(s: Seq<char>, p: Seq<char>) -> bool {
    s.len() >= p.len() && s.take(p.len() as int) == p
}

/// Whether the text ends with `p`.
pub open spec fn finishes_with(s: Seq<char>, p: Seq<char>) -> bool {
    s.len() >= p.len() && s.skip(s.len() - p.len()) == p
}

pub fn starts_with(s: &str, p: &str) -> (r: bool)
    ensures
        r == begins_with(s@, p@),
{
    let n: usize = s.unicode_len();
    let m: usize = p.unicode_len();
    if n < m {
        return false;
    }
    let head = s.substring_char(0, m);
    assert(head@ =~= s@.take(m as int));
    text_eq(head, p)
}

pub fn ends_with(s: &str, p: &str) -> (r: bool)
    ensures
        r == finishes_with(s@, p@),
{
    let n: usize = s.unicode_len();
    let m: usize = p.unicode_len();
    if n < m {
        return false;
    }
    let tail = s.substring_char(n - m, n);
    assert(tail@ =~= s@.skip(n - m));
    text_eq(tail, p)
}

/// What is left of the text without its first `k` characters.
pub fn skip_chars<'a>(s: &'a str, k: usize) -> (r: &'a str)
    requires
        k <= s@.len(),
    ensures
        r@ == s@.skip(k as int),
{
    let n: usize = s.unicode_len();
    let r = s.substring_char(k, n);
    assert(r@ =~= s@.skip(k as int));
    r
}

/// The Unicode property White_Space.
pub open spec fn is_space(c: char) -> bool {
    let u = c as u32;
    ||| 0x09 <= u <= 0x0d
    ||| u == 0x20
    ||| u == 0x85
    ||| u == 0xa0
    ||| u == 0x1680
    ||| 0x2000 <= u <= 0x200a
    ||| u == 0x2028
    ||| u == 0x2029
    ||| u == 0x202f
    ||| u == 0x205f
    ||| u == 0x3000
}

/// Whether a character is cut off by trimming: the given one, or white space
/// where none is given.
pub open spec fn is_trimmed(c: char, m: Option<char>) -> bool {
    match m {
        Some(d) => c == d,
        None => is_space(c),
    }
}

fn trimmed(c: char, m: Option<char>) -> (r: bool)
    ensures
        r == is_trimmed(c, m),
{
    match m {
        Some(d) => c == d,
        None => space(c),
    }
}

/// Whether a character is white space.
pub fn space(c: char) -> (r: bool)
    ensures
        r == is_space(c),
{
    let u: u32 = c as u32;
    (0x09 <= u && u <= 0x0d) || u == 0x20 || u == 0x85 || u == 0xa0 || u == 0x1680 || (0x2000 <= u
        && u <= 0x200a) || u == 0x2028 || u == 0x2029 || u == 0x202f || u == 0x205f || u == 0x3000
}

/// The text without the trimmed characters at its head.
pub open spec fn trim_head(s: Seq<char>, m: Option<char>) -> Seq<char>
    decreases s.len(),
{
    if s.len() > 0 && is_trimmed(s[0], m) {
        trim_head(s.drop_first(), m)
    } else {
        s
    }
}

/// The text without the trimmed characters at its tail.
pub open spec fn trim_tail(s: Seq<char>, m: Option<char>) -> Seq<char>
    decreases s.len(),
{
    if s.len() > 0 && is_trimmed(s.last(), m) {
        trim_tail(s.drop_last(), m)
    } else {
        s
    }
}

/// The characters of the text, one by one.
pub fn to_chars(s: &str) -> (r: Vec<char>)
    ensures
        r@ == s@,
{
    let mut out: Vec<char> = Vec::new();
    for x in it: s.chars()
        invariant
            it.seq() == s@,
            out@ == s@.take(it.index() as int),
    {
        out.push(x);
        assert(out@ =~= s@.take(it.index() + 1));
    }
    assert(out@ =~= s@);
    out
}

/// Trims the tail of the text.
pub fn trim_end_of<'a>(s: &'a str, m: Option<char>) -> (r: &'a str)
    ensures
        r@ == trim_tail(s@, m),
{
    let v = to_chars(s);
    let mut hi: usize = v.len();
    proof {
        assert(s@.take(s@.len() as int) =~= s@);
    }
    while hi > 0 && trimmed(v[hi - 1], m)
        invariant
            v@ == s@,
            hi <= v@.len(),
            trim_tail(s@, m) == trim_tail(s@.take(hi as int), m),
        ensures
            trim_tail(s@, m) == trim_tail(s@.take(hi as int), m),
            hi <= v@.len(),
            hi > 0 ==> !is_trimmed(v@[hi - 1], m),
        decreases hi,
    {
        proof {
            assert(s@.take(hi as int).drop_last() =~= s@.take(hi - 1));
        }
        hi = hi - 1;
    }
    let r = s.substring_char(0, hi);
    assert(r@ =~= s@.take(hi as int));
    r
}

/// Trims the head of the text.
pub fn trim_start_of<'a>(s: &'a str, m: Option<char>) -> (r: &'a str)
    ensures
        r@ == trim_head(s@, m),
{
    let v = to_chars(s);
    let mut lo: usize = 0;
    proof {
        assert(s@.skip(0) =~= s@);
    }
    while lo < v.len() && trimmed(v[lo], m)
        invariant
            v@ == s@,
            lo <= v@.len(),
            trim_head(s@, m) == trim_head(s@.skip(lo as int), m),
        decreases v@.len() - lo,
    {
        proof {
            assert(s@.skip(lo as int).drop_first() =~= s@.skip(lo + 1));
        }
        lo = lo + 1;
    }
    skip_chars(s, lo)
}

/// The text without what is trimmed at either end.
pub open spec fn trim_both(s: Seq<char>, m: Option<char>) -> Seq<char> {
    trim_tail(trim_head(s, m), m)
}

/// The text without white space at either end.
pub open spec fn trim_spec(s: Seq<char>) -> Seq<char> {
    trim_both(s, None)
}

/// Cuts white space off both ends.
pub fn trim<'a>(s: &'a str) -> (r: &'a str)
    ensures
        r@ == trim_spec(s@),
{
    trim_end_of(trim_start_of(s, None), None)
}

/// Cuts every `c` off both ends.
pub fn trim_matches<'a>(s: &'a str, c: char) -> (r: &'a str)
    ensures
        r@ == trim_both(s@, Some(c)),
{
    trim_end_of(trim_start_of(s, Some(c)), Some(c))
}

/// How many characters stand before the first white space.
pub open spec fn word_len(s: Seq<char>) -> nat
    decreases s.len(),
{
    if s.len() == 0 || is_space(s[0]) {
        0
    } else {
        1 + word_len(s.drop_first())
    }
}

proof fn lemma_word_len(s: Seq<char>)
    ensures
        word_len(s) <= s.len(),
        s.len() > 0 && !is_space(s[0]) ==> word_len(s) > 0,
    decreases s.len(),
{
    if s.len() > 0 {
        lemma_word_len(s.drop_first());
    }
}

proof fn lemma_trim_head_len(s: Seq<char>, m: Option<char>)
    ensures
        trim_head(s, m).len() <= s.len(),
        trim_head(s, m).len() > 0 ==> !is_trimmed(trim_head(s, m)[0], m),
    decreases s.len(),
{
    if s.len() > 0 && is_trimmed(s[0], m) {
        lemma_trim_head_len(s.drop_first(), m);
    }
}

/// The words of the text: the runs of characters between white space.
pub open spec fn words(s: Seq<char>) -> Seq<Seq<char>>
    decreases s.len(),
    via words_decreases
{
    let t = trim_head(s, None);
    if t.len() == 0 {
        Seq::empty()
    } else {
        seq![t.take(word_len(t) as int)] + words(t.skip(word_len(t) as int))
    }
}

#[via_fn]
proof fn words_decreases(s: Seq<char>) {
    let t = trim_head(s, None);
    lemma_trim_head_len(s, None);
    lemma_word_len(t);
}

/// Splits the text at white space.
pub fn split_whitespace<'a>(s: &'a str) -> (r: Vec<&'a str>)
    ensures
        texts(r@) == words(s@),
{
    let mut out: Vec<&'a str> = Vec::new();
    let mut rest: &'a str = trim_start_of(s, None);
    proof {
        lemma_trim_head_idempotent(s@, None);
        assert(texts(out@) =~= Seq::empty());
        assert(words(s@) =~= texts(out@) + words(rest@));
    }
    while !rest.is_empty()
        invariant
            words(s@) == texts(out@) + words(rest@),
            trim_head(rest@, None) == rest@,
        decreases rest@.len(),
    {
        let ghost done = out@;
        let v = to_chars(rest);
        let mut k: usize = 0;
        proof {
            assert(rest@.skip(0) =~= rest@);
        }
        while k < v.len() && !space(v[k])
            invariant
                v@ == rest@,
                k <= v@.len(),
                word_len(rest@) == k + word_len(rest@.skip(k as int)),
            decreases v@.len() - k,
        {
            proof {
                assert(rest@.skip(k as int).drop_first() =~= rest@.skip(k + 1));
            }
            k = k + 1;
        }
        proof {
            lemma_trim_head_len(rest@, None);
            lemma_word_len(rest@);
        }
        let word = rest.substring_char(0, k);
        let tail = skip_chars(rest, k);
        out.push(word);
        proof {
            assert(word@ =~= rest@.take(k as int));
            assert(texts(out@) =~= texts(done) + seq![word@]);
            lemma_trim_head_idempotent(tail@, None);
            lemma_trim_head_len(tail@, None);
            assert(words(tail@) == words(trim_head(tail@, None)));
        }
        rest = trim_start_of(tail, None);
        proof {
            assert(words(s@) =~= texts(out@) + words(rest@));
        }
    }
    proof {
        assert(words(rest@) =~= Seq::empty());
    }
    out
}

proof fn lemma_trim_head_idempotent(s: Seq<char>, m: Option<char>)
    ensures
        trim_head(trim_head(s, m), m) == trim_head(s, m),
    decreases s.len(),
{
    if s.len() > 0 && is_trimmed(s[0], m) {
        lemma_trim_head_idempotent(s.drop_first(), m);
    }
}

/// The text without one `c` at its end.
pub open spec fn chop_end(s: Seq<char>, c: char) -> Seq<char> {
    if s.len() > 0 && s.last() == c {
        s.drop_last()
    } else {
        s
    }
}

/// Removes one `c` from the end of the text, if it ends so.
pub fn strip_end<'a>(s: &'a str, c: char) -> (r: &'a str)
    ensures
        r@ == chop_end(s@, c),
{
    let n: usize = s.unicode_len();
    if n > 0 && s.get_char(n - 1) == c {
        let r = s.substring_char(0, n - 1);
        assert(r@ =~= s@.drop_last());
        r
    } else {
        s
    }
}

/// The lines of the text. A line ends in a line feed, before which one carriage
/// return is dropped; the last line may go without.
pub open spec fn line_seq(s: Seq<char>) -> Seq<Seq<char>>
    decreases s.len(),
{
    if s.len() == 0 {
        Seq::empty()
    } else if occurs(s, '\n') {
        proof {
            lemma_first_of(s, '\n');
        }
        seq![chop_end(before(s, '\n'), '\r')] + line_seq(after(s, '\n'))
    } else {
        seq![s]
    }
}

/// Splits the text into lines.
pub fn lines<'a>(s: &'a str) -> (r: Vec<&'a str>)
    ensures
        texts(r@) == line_seq(s@),
{
    let mut out: Vec<&'a str> = Vec::new();
    let mut rest: &'a str = s;
    assert(line_seq(s@) =~= texts(out@) + line_seq(rest@));
    while !rest.is_empty()
        invariant
            line_seq(s@) == texts(out@) + line_seq(rest@),
        decreases rest@.len(),
    {
        let ghost done = out@;
        match split_once(rest, '\n') {
            Some((a, b)) => {
                proof {
                    lemma_cut(rest@, '\n');
                }
                let line = strip_end(a, '\r');
                out.push(line);
                rest = b;
                proof {
                    assert(texts(out@) =~= texts(done) + seq![line@]);
                    assert(line_seq(s@) =~= texts(out@) + line_seq(rest@));
                }
            },
            None => {
                out.push(rest);
                proof {
                    assert(texts(out@) =~= texts(done) + seq![rest@]);
                }
                rest = "";
                proof {
                    reveal_strlit("");
                    assert(line_seq(rest@) =~= Seq::empty());
                    assert(line_seq(s@) =~= texts(out@) + line_seq(rest@));
                }
            },
        }
    }
    proof {
        assert(line_seq(rest@) =~= Seq::empty());
        assert(texts(out@) =~= line_seq(s@));
    }
    out
}

/// The texts one after the other, with `sep` between them.
pub open spec fn joined(v: Seq<Seq<char>>, sep: char) -> Seq<char>
    decreases v.len(),
{
    if v.len() == 0 {
        Seq::empty()
    } else if v.len() == 1 {
        v[0]
    } else {
        joined(v.drop_last(), sep).push(sep) + v.last()
    }
}

/// Joins `v[start..]`, with `sep` between the texts.
pub fn join_from(v: &Vec<&str>, start: usize, sep: char) -> (r: String)
    requires
        start <= v@.len(),
    ensures
        r@ == joined(texts(v@).skip(start as int), sep),
{
    let mut out = String::new();
    let mut i: usize = start;
    proof {
        assert(texts(v@).subrange(start as int, start as int) =~= Seq::empty());
        assert(out@ =~= Seq::empty());
    }
    while i < v.len()
        invariant
            start <= i <= v@.len(),
            out@ == joined(texts(v@).subrange(start as int, i as int), sep),
        decreases v@.len() - i,
    {
        let ghost t = texts(v@).subrange(start as int, i + 1);
        proof {
            assert(t.drop_last() =~= texts(v@).subrange(start as int, i as int));
            assert(t.last() == v@[i as int]@);
        }
        if i > start {
            out.push(sep);
        }
        out.append(v[i]);
        i = i + 1;
        proof {
            assert(out@ =~= joined(t, sep));
        }
    }
    proof {
        assert(texts(v@).subrange(start as int, v@.len() as int) =~= texts(v@).skip(
            start as int,
        ));
    }
    out
}

/// The value of a decimal digit.
pub open spec fn digit_value(c: char) -> int {
    c as int - '0' as int
}

pub open spec fn is_digit(c: char) -> bool {
    '0' <= c <= '9'
}

/// The number that a run of decimal digits stands for.
pub open spec fn digits_value(s: Seq<char>) -> int
    decreases s.len(),
{
    if s.len() == 0 {
        0
    } else {
        digits_value(s.drop_last()) * 10 + digit_value(s.last())
    }
}

/// Whether the text is a run of decimal digits, at least one.
pub open spec fn is_digits(s: Seq<char>) -> bool {
    s.len() > 0 && forall|i: int| 0 <= i < s.len() ==> is_digit(#[trigger] s[i])
}

/// The text without a plus sign at its head.
pub open spec fn unsigned(s: Seq<char>) -> Seq<char> {
    if s.len() > 0 && s[0] == '+' {
        s.drop_first()
    } else {
        s
    }
}

/// The number that a text stands for: decimal digits, at least one, with or
/// without a plus sign before them; at most `max`.
pub open spec fn number(s: Seq<char>, max: nat) -> Option<nat> {
    if is_digits(unsigned(s)) && digits_value(unsigned(s)) <= max {
        Some(digits_value(unsigned(s)) as nat)
    } else {
        None
    }
}

pub proof fn lemma_digits_value_mono(s: Seq<char>, i: int)
    requires
        0 <= i <= s.len(),
        forall|j: int| 0 <= j < s.len() ==> is_digit(#[trigger] s[j]),
    ensures
        0 <= digits_value(s.take(i)) <= digits_value(s),
    decreases s.len(),
{
    if s.len() == 0 {
        assert(s.take(i) =~= s);
    } else if i == s.len() {
        assert(s.take(i) =~= s);
        lemma_digits_value_mono(s.drop_last(), s.len() - 1);
        assert(s.drop_last().take(s.len() - 1) =~= s.drop_last());
    } else {
        lemma_digits_value_mono(s.drop_last(), i);
        assert(s.drop_last().take(i) =~= s.take(i));
        assert(is_digit(s.last()));
    }
}

/// A number that was read is within its bound.
pub proof fn lemma_number_bound(s: Seq<char>, max: nat)
    ensures
        number(s, max) matches Some(v) ==> v <= max,
{
    let d = unsigned(s);
    if is_digits(d) {
        lemma_digits_value_mono(d, d.len() as int);
        assert(d.take(d.len() as int) =~= d);
    }
}

/// Reads a decimal number of at most `max`.
pub fn parse_number(s: &str, max: u64) -> (r: Option<u64>)
    ensures
        match r {
            Some(v) => number(s@, max as nat) == Some(v as nat),
            None => number(s@, max as nat) is None,
        },
{
    let v = to_chars(s);
    let start: usize = if v.len() > 0 && v[0] == '+' {
        1
    } else {
        0
    };
    let ghost d = s@.skip(start as int);
    proof {
        if start == 0 {
            assert(d =~= s@);
        } else {
            assert(d =~= s@.drop_first());
        }
    }
    if v.len() == start {
        return None;
    }
    let mut i: usize = start;
    let mut value: u64 = 0;
    let mut over = false;
    proof {
        assert(d.take(0) =~= Seq::empty());
    }
    while i < v.len()
        invariant
            v@ == s@,
            start <= i <= v@.len(),
            start <= 1,
            d == s@.skip(start as int),
            d == unsigned(s@),
            d.len() > 0,
            forall|j: int| 0 <= j < i - start ==> is_digit(#[trigger] d[j]),
            !over ==> value <= max && digits_value(d.take(i - start)) == value,
            over ==> digits_value(d.take(i - start)) > max,
        decreases v@.len() - i,
    {
        let c = v[i];
        proof {
            assert(d[i - start] == c);
            assert(d.take(i + 1 - start).drop_last() =~= d.take(i - start));
            assert(d.take(i + 1 - start).last() == c);
            assert(is_digits(d) ==> is_digit(d[i - start]));
        }
        if !('0' <= c && c <= '9') {
            return None;
        }
        if !over {
            let digit: u64 = c as u64 - '0' as u64;
            if digit > max || value > (max - digit) / 10 {
                over = true;
            } else {
                value = value * 10 + digit;
            }
        }
        i = i + 1;
    }
    proof {
        assert(d.take(i - start) =~= d);
    }
    if over {
        None
    } else {
        Some(value)
    }
}

/// A number in decimal digits, without leading zeros.
pub open spec fn decimal(n: nat) -> Seq<char>
    decreases n,
{
    if n < 10 {
        seq![(n + '0' as nat) as char]
    } else {
        decimal(n / 10).push((n % 10 + '0' as nat) as char)
    }
}

fn digit_char(d: u64) -> (c: char)
    requires
        d < 10,
    ensures
        c == (d as nat + '0' as nat) as char,
{
    (d as u8 + 48) as char
}

/// Writes a number in decimal digits.
pub fn decimal_text(n: u64) -> (r: String)
    ensures
        r@ == decimal(n as nat),
    decreases n,
{
    if n < 10 {
        let mut s = String::new();
        s.push(digit_char(n));
        assert(s@ =~= decimal(n as nat));
        s
    } else {
        let mut s = decimal_text(n / 10);
        s.push(digit_char(n % 10));
        s
    }
}

/// What is written in decimal reads back as the same number.
pub proof fn lemma_decimal_round_trip(n: nat, max: nat)
    requires
        n <= max,
    ensures
        number(decimal(n), max) == Some(n),
{
    lemma_decimal_digits(n);
    let d = decimal(n);
    assert(is_digit(d[0]));
}

pub proof fn lemma_decimal_digits(n: nat)
    ensures
        decimal(n).len() > 0,
        forall|i: int| 0 <= i < decimal(n).len() ==> is_digit(#[trigger] decimal(n)[i]),
        digits_value(decimal(n)) == n,
    decreases n,
{
    if n < 10 {
        assert(decimal(n).drop_last() =~= Seq::empty());
        assert(digits_value(Seq::empty()) == 0);
    } else {
        lemma_decimal_digits(n / 10);
        assert(decimal(n).drop_last() =~= decimal(n / 10));
    }
}

/// Whether two texts are the same but for the case of ASCII letters.
pub open spec fn same_but_case(a: Seq<char>, b: Seq<char>) -> bool {
    ascii_lowercase(a) == ascii_lowercase(b)
}

/// ASCII text has the same lower-case form in whatever case it is written.
pub proof fn law_same_lowercase(a: Seq<char>, b: Seq<char>)
    requires
        is_ascii_text(a),
        same_but_case(a, b),
    ensures
        lowercase(a) == lowercase(b),
{
    assert(ascii_lowercase(a).len() == a.len());
    assert(ascii_lowercase(b).len() == b.len());
    assert forall|i: int| 0 <= i < b.len() implies (#[trigger] b[i] as u32) < 128 by {
        assert(ascii_lowercase(a)[i] == ascii_lower(a[i]));
        assert(ascii_lowercase(b)[i] == ascii_lower(b[i]));
        assert((a[i] as u32) < 128);
    }
}

/// Lowers an ASCII capital.
pub fn lower_char(c: char) -> (r: char)
    ensures
        r == ascii_lower(c),
{
    if 'A' <= c && c <= 'Z' {
        (c as u8 + 32) as char
    } else {
        c
    }
}

/// Compares two texts without regard to the case of ASCII letters.
pub fn eq_ignore_ascii_case(a: &str, b: &str) -> (r: bool)
    ensures
        r == same_but_case(a@, b@),
{
    let x = to_chars(a);
    let y = to_chars(b);
    proof {
        assert(ascii_lowercase(a@).len() == a@.len());
        assert(ascii_lowercase(b@).len() == b@.len());
    }
    if x.len() != y.len() {
        return false;
    }
    let mut i: usize = 0;
    while i < x.len()
        invariant
            x@ == a@,
            y@ == b@,
            x@.len() == y@.len(),
            i <= x@.len(),
            forall|j: int| 0 <= j < i ==> ascii_lower(x@[j]) == ascii_lower(y@[j]),
        decreases x@.len() - i,
    {
        if lower_char(x[i]) != lower_char(y[i]) {
            proof {
                assert(ascii_lowercase(a@)[i as int] != ascii_lowercase(b@)[i as int]);
            }
            return false;
        }
        i = i + 1;
    }
    assert(ascii_lowercase(a@) =~= ascii_lowercase(b@));
    true
}

/// Whether `a` comes before `b` in the order of their characters.
pub open spec fn text_less(a: Seq<char>, b: Seq<char>) -> bool
    decreases b.len(),
{
    if b.len() == 0 {
        false
    } else if a.len() == 0 {
        true
    } else if a[0] != b[0] {
        a[0] < b[0]
    } else {
        text_less(a.drop_first(), b.drop_first())
    }
}

/// No text comes before itself.
pub proof fn lemma_less_irreflexive(a: Seq<char>)
    ensures
        !text_less(a, a),
    decreases a.len(),
{
    if a.len() > 0 {
        lemma_less_irreflexive(a.drop_first());
    }
}

/// The order of texts is transitive.
pub proof fn lemma_less_transitive(a: Seq<char>, b: Seq<char>, c: Seq<char>)
    requires
        text_less(a, b),
        text_less(b, c),
    ensures
        text_less(a, c),
    decreases c.len(),
{
    if a.len() > 0 && a[0] == b[0] && b[0] == c[0] {
        lemma_less_transitive(a.drop_first(), b.drop_first(), c.drop_first());
    }
}

/// Of two different texts one comes first.
pub proof fn lemma_less_total(a: Seq<char>, b: Seq<char>)
    ensures
        a == b || text_less(a, b) || text_less(b, a),
    decreases a.len(),
{
    if a.len() == 0 || b.len() == 0 {
        if a.len() == b.len() {
            assert(a =~= b);
        }
    } else if a[0] == b[0] {
        lemma_less_total(a.drop_first(), b.drop_first());
        if a.drop_first() == b.drop_first() {
            assert(a =~= seq![a[0]] + a.drop_first());
            assert(b =~= seq![b[0]] + b.drop_first());
        }
    }
}

/// Compares two texts by the order of their characters.
pub fn less(a: &str, b: &str) -> (r: bool)
    ensures
        r == text_less(a@, b@),
{
    let x = to_chars(a);
    let y = to_chars(b);
    let mut i: usize = 0;
    proof {
        assert(a@.skip(0) =~= a@);
        assert(b@.skip(0) =~= b@);
    }
    while i < x.len() && i < y.len()
        invariant
            x@ == a@,
            y@ == b@,
            i <= x@.len(),
            i <= y@.len(),
            text_less(a@, b@) == text_less(a@.skip(i as int), b@.skip(i as int)),
        decreases x@.len() - i,
    {
        if x[i] != y[i] {
            return x[i] < y[i];
        }
        proof {
            assert(a@.skip(i as int).drop_first() =~= a@.skip(i + 1));
            assert(b@.skip(i as int).drop_first() =~= b@.skip(i + 1));
        }
        i = i + 1;
    }
    i < y.len()
}

/// The place of the first `a` that `b` follows; the length of the text where there
/// is none.
pub open spec fn first_pair(s: Seq<char>, a: char, b: char) -> int
    decreases s.len(),
{
    if s.len() < 2 {
        s.len() as int
    } else if s[0] == a && s[1] == b {
        0
    } else {
        1 + first_pair(s.drop_first(), a, b)
    }
}

pub proof fn lemma_first_pair(s: Seq<char>, a: char, b: char)
    ensures
        first_pair(s, a, b) == s.len() || 0 <= first_pair(s, a, b) <= s.len() - 2,
    decreases s.len(),
{
    if s.len() >= 2 {
        lemma_first_pair(s.drop_first(), a, b);
    }
}

/// Finds the first `a` that `b` follows.
pub fn find_pair(s: &str, a: char, b: char) -> (r: Option<usize>)
    ensures
        match r {
            Some(i) => i == first_pair(s@, a, b) && i + 2 <= s@.len() && i + 2 <= usize::MAX,
            None => first_pair(s@, a, b) == s@.len(),
        },
{
    let c = to_chars(s);
    let mut i: usize = 0;
    proof {
        assert(s@.skip(0) =~= s@);
    }
    while c.len() - i >= 2
        invariant
            c@ == s@,
            i <= c@.len(),
            first_pair(s@, a, b) == i + first_pair(s@.skip(i as int), a, b),
        decreases c@.len() - i,
    {
        if c[i] == a && c[i + 1] == b {
            return Some(i);
        }
        proof {
            assert(s@.skip(i as int).drop_first() =~= s@.skip(i + 1));
        }
        i = i + 1;
    }
    None
}

/// The parts of the text between the places where `b` follows `a`.
pub open spec fn pair_pieces(s: Seq<char>, a: char, b: char) -> Seq<Seq<char>>
    decreases s.len(),
{
    let i = first_pair(s, a, b);
    if i == s.len() {
        seq![s]
    } else {
        proof {
            lemma_first_pair(s, a, b);
        }
        seq![s.take(i)] + pair_pieces(s.skip(i + 2), a, b)
    }
}

/// Splits the text wherever `b` follows `a`.
pub fn split_pairs<'a>(s: &'a str, a: char, b: char) -> (r: Vec<&'a str>)
    ensures
        texts(r@) == pair_pieces(s@, a, b),
        r@.len() >= 1,
{
    let mut out: Vec<&'a str> = Vec::new();
    let mut rest: &'a str = s;
    assert(pair_pieces(s@, a, b) =~= texts(out@) + pair_pieces(rest@, a, b));
    loop
        invariant_except_break
            pair_pieces(s@, a, b) == texts(out@) + pair_pieces(rest@, a, b),
        ensures
            texts(out@) == pair_pieces(s@, a, b),
        decreases rest@.len(),
    {
        let ghost done = out@;
        match find_pair(rest, a, b) {
            Some(i) => {
                let head = rest.substring_char(0, i);
                let tail = skip_chars(rest, i + 2);
                out.push(head);
                proof {
                    assert(head@ =~= rest@.take(i as int));
                    assert(texts(out@) =~= texts(done) + seq![head@]);
                    assert(pair_pieces(s@, a, b) =~= texts(out@) + pair_pieces(tail@, a, b));
                }
                rest = tail;
            },
            None => {
                out.push(rest);
                proof {
                    assert(texts(out@) =~= texts(done) + seq![rest@]);
                }
                break ;
            },
        }
    }
    proof {
        assert(texts(out@).len() == out@.len());
    }
    out
}

/// Joining a list of texts joins its two parts.
pub proof fn lemma_joined_cut(v: Seq<Seq<char>>, k: int, sep: char)
    requires
        0 < k < v.len(),
    ensures
        joined(v, sep) == joined(v.take(k), sep).push(sep) + joined(v.skip(k), sep),
    decreases v.len(),
{
    let head = joined(v.take(k), sep).push(sep);
    if k == v.len() - 1 {
        assert(v.take(k) =~= v.drop_last());
        assert(v.skip(k) =~= seq![v.last()]);
    } else {
        let init = v.drop_last();
        lemma_joined_cut(init, k, sep);
        assert(init.take(k) =~= v.take(k));
        assert(init.skip(k) =~= v.skip(k).drop_last());
        let tail = joined(init.skip(k), sep);
        assert((head + tail).push(sep) + v.last() =~= head + (tail.push(sep) + v.last()));
    }
}

/// The pieces of a text, joined again, are the text; none of them holds the
/// separator.
pub proof fn lemma_pieces_joined(s: Seq<char>, c: char)
    ensures
        pieces(s, c).len() > 0,
        joined(pieces(s, c), c) == s,
        forall|i: int| 0 <= i < pieces(s, c).len() ==> !occurs(#[trigger] pieces(s, c)[i], c),
    decreases s.len(),
{
    lemma_cut(s, c);
    if occurs(s, c) {
        let rest = pieces(after(s, c), c);
        let all = pieces(s, c);
        lemma_pieces_joined(after(s, c), c);
        lemma_joined_cut(all, 1, c);
        assert(all.take(1) =~= seq![before(s, c)]);
        assert(all.skip(1) =~= rest);
        assert(joined(all, c) =~= s);
        assert forall|i: int| 0 <= i < all.len() implies !occurs(#[trigger] all[i], c) by {
            if i > 0 {
                assert(all[i] == rest[i - 1]);
            }
        }
    }
}

/// Texts without the separator, joined, have themselves as their pieces.
pub proof fn lemma_joined_pieces(v: Seq<Seq<char>>, c: char)
    requires
        v.len() > 0,
        forall|i: int| 0 <= i < v.len() ==> !occurs(#[trigger] v[i], c),
    ensures
        pieces(joined(v, c), c) == v,
    decreases v.len(),
{
    let s = joined(v, c);
    lemma_first_of(v[0], c);
    if v.len() == 1 {
        assert(v =~= seq![s]);
    } else {
        let t = v.skip(1);
        lemma_joined_cut(v, 1, c);
        assert(v.take(1) =~= seq![v[0]]);
        assert(s == v[0].push(c) + joined(t, c));
        assert forall|j: int| 0 <= j < v[0].len() implies s[j] != c by {
            assert(s[j] == v[0][j]);
        }
        lemma_first_of_is(s, c, v[0].len() as int);
        assert(before(s, c) =~= v[0]);
        assert(after(s, c) =~= joined(t, c));
        assert forall|i: int| 0 <= i < t.len() implies !occurs(#[trigger] t[i], c) by {
            assert(t[i] == v[i + 1]);
        }
        lemma_joined_pieces(t, c);
        assert(seq![v[0]] + t =~= v);
    }
}

/// Whether a text is one word: not empty, and without white space.
pub open spec fn is_word(w: Seq<char>) -> bool {
    w.len() > 0 && forall|i: int| 0 <= i < w.len() ==> !is_space(#[trigger] w[i])
}

/// Whether a text is white space, or empty.
pub open spec fn is_blank(s: Seq<char>) -> bool {
    forall|i: int| 0 <= i < s.len() ==> is_space(#[trigger] s[i])
}

/// White space separates words and does nothing else: it is passed over in front, a word
/// by itself is one word, and a word before white space is the first one.
pub proof fn law_words(w: Seq<char>, c: char, s: Seq<char>)
    requires
        is_word(w),
        is_space(c),
    ensures
        words(Seq::empty()).len() == 0,
        words(seq![c] + s) == words(s),
        words(w) == seq![w],
        words(w + seq![c] + s) == seq![w] + words(s),
{
    let none = Seq::<char>::empty();
    assert((seq![c] + s).drop_first() =~= s);
    assert(trim_head(seq![c] + s, None) == trim_head(s, None));
    assert(!is_space(w[0]));
    lemma_word_len_of(w, none);
    assert(w + none =~= w);
    assert(w.take(w.len() as int) =~= w);
    assert(w.skip(w.len() as int) =~= none);
    assert(words(none) =~= Seq::empty());
    assert(seq![w] + words(none) =~= seq![w]);
    let t = w + seq![c] + s;
    assert(t[0] == w[0]);
    assert(t =~= w + (seq![c] + s));
    lemma_word_len_of(w, seq![c] + s);
    assert(t.take(w.len() as int) =~= w);
    assert(t.skip(w.len() as int) =~= seq![c] + s);
}

proof fn lemma_word_len_of(w: Seq<char>, s: Seq<char>)
    requires
        forall|i: int| 0 <= i < w.len() ==> !is_space(#[trigger] w[i]),
        s.len() > 0 ==> is_space(s[0]),
    ensures
        word_len(w + s) == w.len(),
    decreases w.len(),
{
    if w.len() == 0 {
        assert(w + s =~= s);
    } else {
        let t = w.drop_first();
        assert(!is_space(w[0]));
        assert forall|i: int| 0 <= i < t.len() implies !is_space(#[trigger] t[i]) by {
            assert(t[i] == w[i + 1]);
        }
        lemma_word_len_of(t, s);
        assert((w + s).drop_first() =~= t + s);
    }
}

/// Words that are joined by a blank are split into the same words again.
pub proof fn law_words_joined(f: Seq<Seq<char>>)
    requires
        forall|i: int| 0 <= i < f.len() ==> is_word(#[trigger] f[i]),
    ensures
        words(joined(f, ' ')) == f,
    decreases f.len(),
{
    if f.len() == 0 {
        assert(words(Seq::<char>::empty()) =~= Seq::empty());
        assert(f =~= Seq::empty());
    } else if f.len() == 1 {
        law_words(f[0], ' ', Seq::empty());
        assert(f =~= seq![f[0]]);
    } else {
        let rest = f.skip(1);
        assert forall|i: int| 0 <= i < rest.len() implies is_word(#[trigger] rest[i]) by {
            assert(rest[i] == f[i + 1]);
        }
        law_words_joined(rest);
        lemma_joined_cut(f, 1, ' ');
        assert(f.take(1) =~= seq![f[0]]);
        assert(joined(f.take(1), ' ') == f[0]);
        assert(joined(f, ' ') =~= f[0] + seq![' '] + joined(rest, ' '));
        law_words(f[0], ' ', joined(rest, ' '));
        assert(seq![f[0]] + rest =~= f);
    }
}

/// Trimming takes the white space off both ends and leaves what is between.
pub proof fn law_trim(a: Seq<char>, t: Seq<char>, b: Seq<char>)
    requires
        is_blank(a),
        is_blank(b),
        t.len() > 0 ==> !is_space(t[0]) && !is_space(t.last()),
    ensures
        trim_spec(a + t + b) == t,
{
    lemma_trim_head_of(a, t + b);
    assert(a + t + b =~= a + (t + b));
    if t.len() > 0 {
        assert((t + b)[0] == t[0]);
        lemma_trim_tail_of(t, b);
    } else {
        assert(t + b =~= b);
        assert(b =~= b + Seq::<char>::empty());
        lemma_trim_head_of(b, Seq::empty());
        assert(trim_head(b, None) =~= Seq::empty());
        assert(t =~= Seq::empty());
    }
}

proof fn lemma_trim_head_of(a: Seq<char>, s: Seq<char>)
    requires
        is_blank(a),
    ensures
        trim_head(a + s, None) == trim_head(s, None),
    decreases a.len(),
{
    if a.len() == 0 {
        assert(a + s =~= s);
    } else {
        let t = a.drop_first();
        assert(is_space(a[0]));
        assert forall|i: int| 0 <= i < t.len() implies is_space(#[trigger] t[i]) by {
            assert(t[i] == a[i + 1]);
        }
        lemma_trim_head_of(t, s);
        assert((a + s).drop_first() =~= t + s);
    }
}

proof fn lemma_trim_tail_of(t: Seq<char>, b: Seq<char>)
    requires
        is_blank(b),
        t.len() > 0,
        !is_space(t.last()),
    ensures
        trim_tail(t + b, None) == t,
    decreases b.len(),
{
    if b.len() == 0 {
        assert(t + b =~= t);
    } else {
        let c = b.drop_last();
        assert(is_space(b[b.len() - 1]));
        assert forall|i: int| 0 <= i < c.len() implies is_space(#[trigger] c[i]) by {
            assert(c[i] == b[i]);
        }
        lemma_trim_tail_of(t, c);
        assert((t + b).drop_last() =~= t + c);
    }
}

/// Lines end at line feeds, with or without a carriage return before them, and the last
/// one may go without.
pub proof fn law_lines(l: Seq<char>, s: Seq<char>)
    requires
        !l.contains('\n'),
    ensures
        line_seq(Seq::empty()).len() == 0,
        l.len() > 0 ==> line_seq(l) == seq![l],
        l.len() == 0 || l.last() != '\r' ==> line_seq(l + seq!['\n'] + s) == seq![l] + line_seq(s),
        line_seq(l + seq!['\r', '\n'] + s) == seq![l] + line_seq(s),
{
    lemma_first_of(l, '\n');
    let t = l + seq!['\n'] + s;
    let i = l.len() as int;
    lemma_first_of_is(t, '\n', i);
    assert(before(t, '\n') =~= l);
    assert(after(t, '\n') =~= s);
    let u = l + seq!['\r', '\n'] + s;
    assert forall|j: int| 0 <= j < i + 1 implies u[j] != '\n' by {
        if j < i {
            assert(l.contains(l[j]));
        }
    }
    lemma_first_of_is(u, '\n', i + 1);
    assert(before(u, '\n') =~= l.push('\r'));
    assert(l.push('\r').drop_last() =~= l);
    assert(after(u, '\n') =~= s);
}

/// ASCII text in lower case: capitals become small letters and nothing else changes, so
/// that doing it again does nothing.
pub proof fn law_lowercase(s: Seq<char>, i: int)
    requires
        is_ascii_text(s),
        0 <= i < s.len(),
    ensures
        lowercase(s).len() == s.len(),
        'A' <= s[i] <= 'Z' ==> lowercase(s)[i] as int == s[i] as int + 32,
        !('A' <= s[i] <= 'Z') ==> lowercase(s)[i] == s[i],
        lowercase(lowercase(s)) == lowercase(s),
{
    let l = lowercase(s);
    assert forall|j: int| 0 <= j < l.len() implies (#[trigger] l[j] as u32) < 128 by {
        assert(l[j] == ascii_lower(s[j]));
        assert((s[j] as u32) < 128);
    }
    assert(l[i] == ascii_lower(s[i]));
    assert((s[i] as u32) < 128);
    assert(lowercase(l) =~= l);
}

/// A number is read from its decimal digits wherever it is within the bound, with or
/// without a plus sign; anything but digits is no number.
pub proof fn law_number(n: nat, max: nat, s: Seq<char>, i: int)
    ensures
        n <= max ==> number(decimal(n), max) == Some(n),
        n <= max ==> number(seq!['+'] + decimal(n), max) == Some(n),
        n > max ==> number(decimal(n), max) is None,
        s.len() == 0 ==> number(s, max) is None,
        0 <= i < s.len() && !('0' <= s[i] <= '9') && !(i == 0 && s[i] == '+') ==> number(s, max)
            is None,
{
    lemma_decimal_digits(n);
    let d = decimal(n);
    assert(is_digit(d[0]));
    assert((seq!['+'] + d).drop_first() =~= d);
    if 0 <= i < s.len() && !('0' <= s[i] <= '9') && !(i == 0 && s[i] == '+') {
        if s[0] == '+' {
            assert(unsigned(s)[i - 1] == s[i]);
        } else {
            assert(unsigned(s)[i] == s[i]);
        }
    }
}

/// A pair of characters is found where it first stands, and nowhere else.
pub proof fn law_first_pair(s: Seq<char>, a: char, b: char, i: int)
    requires
        0 <= i <= s.len(),
        forall|j: int| 0 <= j < i && j + 1 < s.len() ==> !(#[trigger] s[j] == a && s[j + 1] == b),
        i == s.len() || (i + 1 < s.len() && s[i] == a && s[i + 1] == b),
    ensures
        first_pair(s, a, b) == i,
    decreases s.len(),
{
    if s.len() >= 2 && i > 0 {
        let t = s.drop_first();
        assert(!(s[0] == a && s[1] == b));
        assert forall|j: int| 0 <= j < i - 1 && j + 1 < t.len() implies !(#[trigger] t[j] == a
            && t[j + 1] == b) by {
            assert(t[j] == s[j + 1]);
        }
        law_first_pair(t, a, b, i - 1);
    }
}

/// Whether a text has another in it.
pub open spec fn holds(text: Seq<char>, part: Seq<char>) -> bool {
    exists|i: int|
        0 <= i <= text.len() - part.len() && #[trigger] text.subrange(i, i + part.len()) == part
}

} // verus!
