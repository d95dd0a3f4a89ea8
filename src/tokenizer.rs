//! Splitting text into normalized terms.

use vstd::prelude::*;

verus! {

/// Whether `c` is alphabetic or numeric, as Unicode defines it.
pub uninterp spec fn alnum_of(c: char) -> bool;

/// The lower-case form of `c`, as Unicode defines it (one or more characters).
pub uninterp spec fn lower_of(c: char) -> Seq<char>;

/// Relies on `char::is_alphanumeric`: whether the character is alphabetic or numeric.
#[verifier::external_body]
fn is_alnum(c: char) -> (r: bool)
    ensures
        r == alnum_of(c),
{
    c.is_alphanumeric()
}

/// Relies on `char::to_lowercase`, collected into a vector: the lower-case mapping of the
/// character, which is never empty.
#[verifier::external_body]
fn lower_chars(c: char) -> (r: Vec<char>)
    ensures
        r@ == lower_of(c),
        r@.len() > 0,
{
    c.to_lowercase().collect()
}

/// Scanning state after reading `s`: the finished terms and the term being read.
pub open spec fn scan(s: Seq<char>) -> (Seq<Seq<char>>, Seq<char>)
    decreases s.len(),
{
    if s.len() == 0 {
        (seq![], seq![])
    } else {
        let (done, cur) = scan(s.drop_last());
        let c = s.last();
        if alnum_of(c) {
            (done, cur + lower_of(c))
        } else if cur.len() > 0 {
            (done.push(cur), seq![])
        } else {
            (done, cur)
        }
    }
}

/// The terms of `s`: its maximal runs of alphanumeric characters, lower-cased, in order.
pub open spec fn terms_of(s: Seq<char>) -> Seq<Seq<char>> {
    let (done, cur) = scan(s);
    if cur.len() > 0 {
        done.push(cur)
    } else {
        done
    }
}

proof fn lemma_scan_nonempty(s: Seq<char>)
    ensures
        forall|i: int| 0 <= i < scan(s).0.len() ==> (#[trigger] scan(s).0[i]).len() > 0,
    decreases s.len(),
{
    if s.len() > 0 {
        lemma_scan_nonempty(s.drop_last());
        let (done, cur) = scan(s.drop_last());
        let c = s.last();
        if !alnum_of(c) && cur.len() > 0 {
            let next = done.push(cur);
            assert forall|i: int| 0 <= i < next.len() implies (#[trigger] next[i]).len() > 0 by {
                if i < done.len() {
                    assert(next[i] == done[i]);
                }
            }
        }
    }
}

/// No term of a text is empty.
pub proof fn lemma_terms_nonempty(s: Seq<char>)
    ensures
        forall|i: int| 0 <= i < terms_of(s).len() ==> (#[trigger] terms_of(s)[i]).len() > 0,
{
    lemma_scan_nonempty(s);
    let (done, cur) = scan(s);
    if cur.len() > 0 {
        let all = done.push(cur);
        assert forall|i: int| 0 <= i < all.len() implies (#[trigger] all[i]).len() > 0 by {
            if i < done.len() {
                assert(all[i] == done[i]);
            }
        }
    }
}

/// The characters of a string, in order.
pub fn chars_of(s: &str) -> (r: Vec<char>)
    ensures
        r@ == s@,
{
    let n = s.unicode_len();
    let mut r: Vec<char> = Vec::new();
    let mut i: usize = 0;
    while i < n
        invariant
            i <= n,
            n == s@.len(),
            r@ == s@.take(i as int),
        decreases n - i,
    {
        r.push(s.get_char(i));
        assert(s@.take(i + 1) == s@.take(i as int).push(s@[i as int]));
        i = i + 1;
    }
    assert(s@.take(n as int) == s@);
    r
}

/// Splits a character sequence into its terms.
pub fn tokenize_chars(s: &Vec<char>) -> (r: Vec<Vec<char>>)
    ensures
        r@.len() == terms_of(s@).len(),
        forall|i: int| 0 <= i < r@.len() ==> #[trigger] r@[i]@ == terms_of(s@)[i],
{
    let mut done: Vec<Vec<char>> = Vec::new();
    let mut cur: Vec<char> = Vec::new();
    let mut i: usize = 0;
    while i < s.len()
        invariant
            i <= s@.len(),
            done@.len() == scan(s@.take(i as int)).0.len(),
            forall|j: int| 0 <= j < done@.len() ==> #[trigger] done@[j]@ == scan(s@.take(i as int)).0[j],
            cur@ == scan(s@.take(i as int)).1,
        decreases s@.len() - i,
    {
        let c = s[i];
        assert(s@.take(i + 1).drop_last() == s@.take(i as int));
        assert(s@.take(i + 1).last() == c);
        if is_alnum(c) {
            let mut l = lower_chars(c);
            cur.append(&mut l);
        } else if cur.len() > 0 {
            let mut t: Vec<char> = Vec::new();
            std::mem::swap(&mut t, &mut cur);
            done.push(t);
        }
        i = i + 1;
    }
    assert(s@.take(s@.len() as int) == s@);
    if cur.len() > 0 {
        done.push(cur);
    }
    done
}

/// Splits text into its terms: maximal runs of alphanumeric characters, lower-cased.
pub fn tokenize(text: &str) -> (r: Vec<Vec<char>>)
    ensures
        r@.len() == terms_of(text@).len(),
        forall|i: int| 0 <= i < r@.len() ==> #[trigger] r@[i]@ == terms_of(text@)[i],
{
    let cs = chars_of(text);
    tokenize_chars(&cs)
}

} // verus!
