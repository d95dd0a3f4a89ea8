//! Query expressions, relevance scoring and top-k retrieval.

use vstd::prelude::*;
use crate::index::{InvertedIndex, Occurrences, Posting, count, lemma_postings_upto, postings_of};
use crate::topk::{Hit, offer, ranked, shuts_out};

verus! {

/// A term to look up in one field. Leaves that share `group` and `clause` form a clause,
/// which holds when any of its leaves occurs; a group holds when all of its clauses hold;
/// a query holds when any of its groups holds.
pub struct QueryLeaf {
    pub field: usize,
    pub term: Vec<char>,
    pub group: usize,
    pub clause: usize,
}

pub struct Query {
    pub leaves: Vec<QueryLeaf>,
}

/// A leaf as (field, term, group, clause).
pub type LeafModel = (usize, Seq<char>, usize, usize);

pub open spec fn leaf_view(v: Seq<QueryLeaf>) -> Seq<LeafModel> {
    v.map_values(|l: QueryLeaf| (l.field, l.term@, l.group, l.clause))
}

/// Whether each leaf's term occurs in document `d`.
pub open spec fn hit_seq(occ: Seq<Occurrences>, d: int, ls: Seq<LeafModel>) -> Seq<bool> {
    Seq::new(ls.len(), |j: int| count(occ[d], ls[j].0, ls[j].1) > 0)
}

pub open spec fn clause_ok(ls: Seq<LeafModel>, hits: Seq<bool>, j: int) -> bool {
    exists|m: int|
        0 <= m < ls.len() && (#[trigger] ls[m]).2 == ls[j].2 && ls[m].3 == ls[j].3
            && hits[m]
}

pub open spec fn group_ok(ls: Seq<LeafModel>, hits: Seq<bool>, i: int) -> bool {
    forall|j: int| 0 <= j < ls.len() && ls[j].2 == ls[i].2 ==> #[trigger] clause_ok(ls, hits, j)
}

pub open spec fn matches_hits(ls: Seq<LeafModel>, hits: Seq<bool>) -> bool {
    exists|i: int| 0 <= i < ls.len() && #[trigger] group_ok(ls, hits, i)
}

/// Document `d` satisfies the query.
pub open spec fn satisfies(occ: Seq<Occurrences>, d: int, ls: Seq<LeafModel>) -> bool {
    matches_hits(ls, hit_seq(occ, d, ls))
}

/// Weight of a term frequency: zero for zero, growing with diminishing returns, below 100.
pub open spec fn tf_weight(tf: int) -> int {
    100int - 100int / (tf + 1)
}

/// Weight of rarity: one more than the number of documents per document holding the term.
pub open spec fn idf_weight(df: int, n: int) -> int {
    if df == 0 {
        0
    } else {
        n / df + 1
    }
}

pub open spec fn sat(x: int) -> u64 {
    if x > u64::MAX {
        u64::MAX
    } else {
        x as u64
    }
}

pub open spec fn leaf_score(occ: Seq<Occurrences>, d: int, l: LeafModel) -> u64 {
    sat(
        tf_weight(count(occ[d], l.0, l.1) as int) * idf_weight(
            postings_of(occ, l.0, l.1).len() as int,
            occ.len() as int,
        ),
    )
}

pub open spec fn score_upto(occ: Seq<Occurrences>, d: int, ls: Seq<LeafModel>, m: int) -> u64
    decreases m,
{
    if m <= 0 {
        0
    } else {
        sat(score_upto(occ, d, ls, m - 1) + leaf_score(occ, d, ls[m - 1]))
    }
}

/// The relevance of document `d`: the sum of its leaf scores, saturating at `u64::MAX`.
pub open spec fn score(occ: Seq<Occurrences>, d: int, ls: Seq<LeafModel>) -> u64 {
    score_upto(occ, d, ls, ls.len() as int)
}

/// The frequency of document `d` in a posting list, found by binary search on the
/// ascending document ids.
pub fn tf_in(postings: &Vec<Posting>, d: usize, Ghost(occ): Ghost<Seq<Occurrences>>, f: usize, t: &Vec<char>) -> (r: usize)
    requires
        postings@ == postings_of(occ, f, t@),
        d < occ.len(),
        occ.len() <= usize::MAX,
        forall|x: int| 0 <= x < occ.len() ==> (#[trigger] occ[x]).len() <= usize::MAX,
    ensures
        r == count(occ[d as int], f, t@),
{
    proof {
        lemma_postings_upto(occ, occ.len() as int, f, t@);
    }
    let mut lo: usize = 0;
    let mut hi: usize = postings.len();
    while lo < hi
        invariant
            lo <= hi <= postings@.len(),
            postings@ == postings_of(occ, f, t@),
            d < occ.len(),
            occ.len() <= usize::MAX,
            forall|x: int| 0 <= x < occ.len() ==> (#[trigger] occ[x]).len() <= usize::MAX,
            forall|i: int, j: int|
                0 <= i < j < postings@.len() ==> (#[trigger] postings@[i]).doc < (#[trigger] postings@[j]).doc,
            forall|j: int| 0 <= j < lo ==> (#[trigger] postings@[j]).doc < d,
            forall|j: int| hi <= j < postings@.len() ==> (#[trigger] postings@[j]).doc > d,
        decreases hi - lo,
    {
        let mid = lo + (hi - lo) / 2;
        let doc = postings[mid].doc;
        if doc < d {
            lo = mid + 1;
        } else if doc > d {
            hi = mid;
        } else {
            proof {
                lemma_postings_upto(occ, occ.len() as int, f, t@);
            }
            return postings[mid].tf;
        }
    }
    0
}

pub fn sat_add(a: u64, b: u64) -> (r: u64)
    ensures
        r == sat(a + b),
{
    if a > u64::MAX - b {
        u64::MAX
    } else {
        a + b
    }
}

/// The score of one leaf from the term's frequency in the document and its document frequency.
pub fn leaf_weight(tf: usize, df: usize, n: usize) -> (r: u64)
    ensures
        r == sat(tf_weight(tf as int) * idf_weight(df as int, n as int)),
{
    let tw: u128 = 100 - 100 / (tf as u128 + 1);
    let iw: u128 = if df == 0 {
        0
    } else {
        (n / df) as u128 + 1
    };
    assert(tw <= 100);
    assert(iw <= 0x1_0000_0000_0000_0000) by {
        if df != 0 {
            assert(n / df <= n) by (nonlinear_arith)
                requires df > 0, n >= 0;
        }
    }
    assert(tw * iw <= 100 * 0x1_0000_0000_0000_0000) by (nonlinear_arith)
        requires tw <= 100, iw <= 0x1_0000_0000_0000_0000;
    let p: u128 = tw * iw;
    if p > u64::MAX as u128 {
        u64::MAX
    } else {
        p as u64
    }
}


pub fn clause_hit(ls: &Vec<QueryLeaf>, hits: &Vec<bool>, j: usize) -> (r: bool)
    requires
        hits@.len() == ls@.len(),
        j < ls@.len(),
    ensures
        r == clause_ok(leaf_view(ls@), hits@, j as int),
{
    let mut m: usize = 0;
    while m < ls.len()
        invariant
            m <= ls@.len(),
            hits@.len() == ls@.len(),
            j < ls@.len(),
            forall|x: int|
                0 <= x < m ==> !((#[trigger] ls@[x]).group == ls@[j as int].group && ls@[x].clause
                    == ls@[j as int].clause && hits@[x]),
        decreases ls@.len() - m,
    {
        if ls[m].group == ls[j].group && ls[m].clause == ls[j].clause && hits[m] {
            assert(leaf_view(ls@)[m as int].2 == leaf_view(ls@)[j as int].2);
            return true;
        }
        m = m + 1;
    }
    false
}

pub fn group_hit(ls: &Vec<QueryLeaf>, hits: &Vec<bool>, i: usize) -> (r: bool)
    requires
        hits@.len() == ls@.len(),
        i < ls@.len(),
    ensures
        r == group_ok(leaf_view(ls@), hits@, i as int),
{
    let mut j: usize = 0;
    while j < ls.len()
        invariant
            j <= ls@.len(),
            hits@.len() == ls@.len(),
            i < ls@.len(),
            forall|x: int|
                0 <= x < j && ls@[x].group == ls@[i as int].group ==> #[trigger] clause_ok(leaf_view(ls@), hits@, x),
        decreases ls@.len() - j,
    {
        if ls[j].group == ls[i].group && !clause_hit(ls, hits, j) {
            return false;
        }
        j = j + 1;
    }
    true
}

/// Whether the query holds, given for each leaf whether its term occurs.
pub fn matches_exec(ls: &Vec<QueryLeaf>, hits: &Vec<bool>) -> (r: bool)
    requires
        hits@.len() == ls@.len(),
    ensures
        r == matches_hits(leaf_view(ls@), hits@),
{
    let mut i: usize = 0;
    while i < ls.len()
        invariant
            i <= ls@.len(),
            hits@.len() == ls@.len(),
            forall|x: int| 0 <= x < i ==> !#[trigger] group_ok(leaf_view(ls@), hits@, x),
        decreases ls@.len() - i,
    {
        if group_hit(ls, hits, i) {
            return true;
        }
        i = i + 1;
    }
    false
}

pub proof fn lemma_index_bounded(ix: &InvertedIndex)
    ensures
        ix.occ().len() <= usize::MAX,
        forall|x: int| 0 <= x < ix.occ().len() ==> (#[trigger] ix.occ()[x]).len() <= usize::MAX,
{
    assert(ix.forward@.len() == ix.forward.len());
    assert forall|x: int| 0 <= x < ix.occ().len() implies (#[trigger] ix.occ()[x]).len() <= usize::MAX by {
        assert(ix.forward@[x].len() == ix.forward@[x]@.len());
    }
}

/// Whether document `d` satisfies the query, and its score.
pub fn evaluate_doc(ix: &InvertedIndex, q: &Query, lists: &Vec<Vec<Posting>>, d: usize) -> (r: (
    bool,
    u64,
))
    requires
        ix.wf(),
        d < ix.occ().len(),
        lists@.len() == q.leaves@.len(),
        forall|j: int|
            0 <= j < lists@.len() ==> (#[trigger] lists@[j])@ == postings_of(
                ix.occ(),
                q.leaves@[j].field,
                q.leaves@[j].term@,
            ),
    ensures
        r.0 == satisfies(ix.occ(), d as int, leaf_view(q.leaves@)),
        r.1 == score(ix.occ(), d as int, leaf_view(q.leaves@)),
{
    let ghost occ = ix.occ();
    let ghost ls = leaf_view(q.leaves@);
    proof {
        lemma_index_bounded(ix);
    }
    let n = ix.document_count();
    let mut hits: Vec<bool> = Vec::new();
    let mut s: u64 = 0;
    let mut j: usize = 0;
    while j < q.leaves.len()
        invariant
            j <= ls.len(),
            ls == leaf_view(q.leaves@),
            occ == ix.occ(),
            n == occ.len(),
            d < occ.len(),
            occ.len() <= usize::MAX,
            forall|x: int| 0 <= x < occ.len() ==> (#[trigger] occ[x]).len() <= usize::MAX,
            lists@.len() == ls.len(),
            forall|x: int|
                0 <= x < lists@.len() ==> (#[trigger] lists@[x])@ == postings_of(
                    occ,
                    ls[x].0,
                    ls[x].1,
                ),
            hits@ == hit_seq(occ, d as int, ls).take(j as int),
            s == score_upto(occ, d as int, ls, j as int),
        decreases ls.len() - j,
    {
        let leaf = &q.leaves[j];
        let tf = tf_in(&lists[j], d, Ghost(occ), leaf.field, &leaf.term);
        let df = lists[j].len();
        let w = leaf_weight(tf, df, n);
        s = sat_add(s, w);
        hits.push(tf > 0);
        assert(hit_seq(occ, d as int, ls).take(j + 1) == hit_seq(occ, d as int, ls).take(j as int).push(tf > 0));
        j = j + 1;
    }
    assert(hit_seq(occ, d as int, ls).take(j as int) == hit_seq(occ, d as int, ls));
    let m = matches_exec(&q.leaves, &hits);
    (m, s)
}

/// The hit of document `d` as ranked for the query.
pub open spec fn hit_of(occ: Seq<Occurrences>, d: int, ls: Seq<LeafModel>) -> Hit {
    Hit { doc: d as usize, score: score(occ, d, ls) }
}

/// `r` is the best `k` matching documents, by descending score and then ascending id.
pub open spec fn is_top_k(occ: Seq<Occurrences>, ls: Seq<LeafModel>, k: usize, r: Seq<Hit>) -> bool {
    &&& r.len() <= k
    &&& ranked(r)
    &&& forall|i: int|
        0 <= i < r.len() ==> {
            &&& (#[trigger] r[i]).doc < occ.len()
            &&& satisfies(occ, r[i].doc as int, ls)
            &&& r[i] == hit_of(occ, r[i].doc as int, ls)
        }
    &&& forall|d: int|
        0 <= d < occ.len() && #[trigger] satisfies(occ, d, ls) && !r.contains(hit_of(occ, d, ls))
            ==> shuts_out(r, k, hit_of(occ, d, ls))
}

/// The `k` best documents for the query, best first; ties go to the lower document id.
pub fn collect(q: &Query, ix: &InvertedIndex, k: usize) -> (r: Vec<Hit>)
    requires
        ix.wf(),
    ensures
        is_top_k(ix.occ(), leaf_view(q.leaves@), k, r@),
{
    let ghost occ = ix.occ();
    let ghost ls = leaf_view(q.leaves@);
    proof {
        lemma_index_bounded(ix);
    }
    let mut lists: Vec<Vec<Posting>> = Vec::new();
    let mut j: usize = 0;
    while j < q.leaves.len()
        invariant
            j <= ls.len(),
            ls == leaf_view(q.leaves@),
            occ == ix.occ(),
            ix.wf(),
            lists@.len() == j,
            forall|x: int|
                0 <= x < j ==> (#[trigger] lists@[x])@ == postings_of(occ, ls[x].0, ls[x].1),
        decreases ls.len() - j,
    {
        let p = ix.lookup(q.leaves[j].field, &q.leaves[j].term);
        lists.push(p);
        j = j + 1;
    }
    let n = ix.document_count();
    let mut buf: Vec<Hit> = Vec::new();
    let mut d: usize = 0;
    while d < n
        invariant
            d <= n,
            n == occ.len(),
            ls == leaf_view(q.leaves@),
            occ == ix.occ(),
            ix.wf(),
            lists@.len() == ls.len(),
            forall|x: int|
                0 <= x < lists@.len() ==> (#[trigger] lists@[x])@ == postings_of(
                    occ,
                    ls[x].0,
                    ls[x].1,
                ),
            buf@.len() <= k,
            ranked(buf@),
            forall|i: int|
                0 <= i < buf@.len() ==> {
                    &&& (#[trigger] buf@[i]).doc < d
                    &&& satisfies(occ, buf@[i].doc as int, ls)
                    &&& buf@[i] == hit_of(occ, buf@[i].doc as int, ls)
                },
            forall|e: int|
                0 <= e < d && #[trigger] satisfies(occ, e, ls) && !buf@.contains(hit_of(occ, e, ls))
                    ==> shuts_out(buf@, k, hit_of(occ, e, ls)),
        decreases n - d,
    {
        let (m, s) = evaluate_doc(ix, q, &lists, d);
        if m {
            let h = Hit { doc: d, score: s };
            let ghost prev = buf@;
            assert(h == hit_of(occ, d as int, ls));
            offer(&mut buf, h, k);
            assert forall|i: int| 0 <= i < buf@.len() implies {
                &&& (#[trigger] buf@[i]).doc < d + 1
                &&& satisfies(occ, buf@[i].doc as int, ls)
                &&& buf@[i] == hit_of(occ, buf@[i].doc as int, ls)
            } by {
                if buf@[i] != h {
                    let x = choose|x: int| 0 <= x < prev.len() && prev[x] == buf@[i];
                }
            }
            assert forall|e: int|
                0 <= e < d + 1 && #[trigger] satisfies(occ, e, ls) && !buf@.contains(hit_of(occ, e, ls))
                    implies shuts_out(buf@, k, hit_of(occ, e, ls)) by {
                let x = hit_of(occ, e, ls);
                if prev.contains(x) || x == h {
                } else {
                    assert(shuts_out(prev, k, x));
                }
            }
        }
        d = d + 1;
    }
    buf
}

} // verus!
