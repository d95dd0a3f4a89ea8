//! Document ingestion and the inverted index.

use vstd::prelude::*;
use crate::schema::{FieldEntry, Schema, names_at};
use crate::tokenizer::{terms_of, tokenize};

verus! {

/// A document's entry in a posting list: the term occurs `tf` times in document `doc`.
#[derive(Debug, Clone, Copy, PartialEq, Eq, Structural)]
pub struct Posting {
    pub doc: usize,
    pub tf: usize,
}

/// A term of one field with its posting list.
pub struct TermEntry {
    pub field: usize,
    pub term: Vec<char>,
    pub postings: Vec<Posting>,
}

/// What a document's indexed fields contribute: (field id, term) in reading order.
pub type Occurrences = Seq<(usize, Seq<char>)>;

pub open spec fn occ_view(occs: Seq<Vec<(usize, Vec<char>)>>) -> Seq<Occurrences> {
    occs.map_values(|v: Vec<(usize, Vec<char>)>| v@.map_values(|p: (usize, Vec<char>)| (p.0, p.1@)))
}

/// How often `(f, t)` occurs in `s`.
pub open spec fn count(s: Occurrences, f: usize, t: Seq<char>) -> nat
    decreases s.len(),
{
    if s.len() == 0 {
        0
    } else {
        count(s.drop_last(), f, t) + if s.last() == (f, t) { 1nat } else { 0nat }
    }
}

/// The posting of document `d` for `(f, t)`, if the term occurs there.
pub open spec fn posting_of(s: Occurrences, d: int, f: usize, t: Seq<char>) -> Seq<Posting> {
    if count(s, f, t) > 0 {
        seq![Posting { doc: d as usize, tf: count(s, f, t) as usize }]
    } else {
        seq![]
    }
}

/// The posting list of `(f, t)` over the first `n` documents, by ascending document id.
pub open spec fn postings_upto(occ: Seq<Occurrences>, n: int, f: usize, t: Seq<char>) -> Seq<Posting>
    decreases n,
{
    if n <= 0 {
        seq![]
    } else {
        postings_upto(occ, n - 1, f, t) + posting_of(occ[n - 1], n - 1, f, t)
    }
}

pub open spec fn postings_of(occ: Seq<Occurrences>, f: usize, t: Seq<char>) -> Seq<Posting> {
    postings_upto(occ, occ.len() as int, f, t)
}

pub proof fn lemma_count_le(s: Occurrences, f: usize, t: Seq<char>)
    ensures
        count(s, f, t) <= s.len(),
    decreases s.len(),
{
    if s.len() > 0 {
        lemma_count_le(s.drop_last(), f, t);
    }
}

/// Every posting over the first `n` documents names a document below `n`, the list is
/// strictly ascending by document id, and each posting holds the exact count.
pub proof fn lemma_postings_upto(occ: Seq<Occurrences>, n: int, f: usize, t: Seq<char>)
    requires
        0 <= n <= occ.len(),
        occ.len() <= usize::MAX,
        forall|d: int| 0 <= d < occ.len() ==> (#[trigger] occ[d]).len() <= usize::MAX,
    ensures
        forall|j: int| 0 <= j < postings_upto(occ, n, f, t).len() ==> {
            let p = #[trigger] postings_upto(occ, n, f, t)[j];
            &&& p.doc < n
            &&& p.tf == count(occ[p.doc as int], f, t)
            &&& p.tf > 0
        },
        forall|i: int, j: int|
            0 <= i < j < postings_upto(occ, n, f, t).len() ==> (#[trigger] postings_upto(
                occ,
                n,
                f,
                t,
            )[i]).doc < (#[trigger] postings_upto(occ, n, f, t)[j]).doc,
        forall|d: int|
            0 <= d < n && count(#[trigger] occ[d], f, t) > 0 ==> exists|j: int|
                0 <= j < postings_upto(occ, n, f, t).len() && (#[trigger] postings_upto(
                    occ,
                    n,
                    f,
                    t,
                )[j]).doc == d,
    decreases n,
{
    if n > 0 {
        lemma_postings_upto(occ, n - 1, f, t);
        lemma_count_le(occ[n - 1], f, t);
        let prev = postings_upto(occ, n - 1, f, t);
        let all = postings_upto(occ, n, f, t);
        assert(all == prev + posting_of(occ[n - 1], n - 1, f, t));
        assert forall|d: int| 0 <= d < n && count(#[trigger] occ[d], f, t) > 0 implies exists|j: int|
            0 <= j < all.len() && (#[trigger] all[j]).doc == d by {
            if d < n - 1 {
                let j = choose|j: int| 0 <= j < prev.len() && (#[trigger] prev[j]).doc == d;
                assert(all[j] == prev[j]);
            } else {
                assert(all[prev.len() as int].doc == d);
            }
        }
    }
}

pub open spec fn key_at(entries: Seq<TermEntry>, a: int, f: usize, t: Seq<char>) -> bool {
    0 <= a < entries.len() && entries[a].field == f && entries[a].term@ == t
}

/// No two entries share a field and term.
pub open spec fn keys_unique(entries: Seq<TermEntry>) -> bool {
    forall|a: int, b: int|
        0 <= a < b < entries.len() ==> (#[trigger] entries[a]).field != (#[trigger] entries[b]).field
            || entries[a].term@ != entries[b].term@
}

pub fn chars_eq(a: &Vec<char>, b: &Vec<char>) -> (r: bool)
    ensures
        r == (a@ == b@),
{
    if a.len() != b.len() {
        return false;
    }
    let mut i: usize = 0;
    while i < a.len()
        invariant
            i <= a@.len(),
            a@.len() == b@.len(),
            forall|j: int| 0 <= j < i ==> a@[j] == b@[j],
        decreases a@.len() - i,
    {
        if a[i] != b[i] {
            return false;
        }
        i = i + 1;
    }
    assert(a@ == b@);
    true
}

pub fn copy_chars(a: &Vec<char>) -> (r: Vec<char>)
    ensures
        r@ == a@,
{
    let mut r: Vec<char> = Vec::new();
    let mut i: usize = 0;
    while i < a.len()
        invariant
            i <= a@.len(),
            r@ == a@.take(i as int),
        decreases a@.len() - i,
    {
        r.push(a[i]);
        i = i + 1;
    }
    assert(a@.take(a@.len() as int) == a@);
    r
}

/// The position of the entry for `(f, t)`, if there is one.
pub fn find_entry(entries: &Vec<TermEntry>, f: usize, t: &Vec<char>) -> (r: Option<usize>)
    ensures
        r matches Some(a) ==> key_at(entries@, a as int, f, t@),
        r is None ==> forall|a: int| !key_at(entries@, a, f, t@),
{
    let mut a: usize = 0;
    while a < entries.len()
        invariant
            a <= entries@.len(),
            forall|b: int| 0 <= b < a ==> !key_at(entries@, b, f, t@),
        decreases entries@.len() - a,
    {
        if entries[a].field == f && chars_eq(&entries[a].term, t) {
            return Some(a);
        }
        a = a + 1;
    }
    None
}

/// The term `(f, t)` has a posting over the first `d` documents, or occurs in `s`.
pub open spec fn seen(occ: Seq<Occurrences>, d: int, s: Occurrences, f: usize, t: Seq<char>) -> bool {
    postings_upto(occ, d, f, t).len() > 0 || count(s, f, t) > 0
}

/// Builds one entry per (field, term) that occurs, holding its exact posting list.
pub fn build_entries(occs: &Vec<Vec<(usize, Vec<char>)>>) -> (r: Vec<TermEntry>)
    ensures
        keys_unique(r@),
        forall|a: int|
            0 <= a < r@.len() ==> (#[trigger] r@[a]).postings@ == postings_of(
                occ_view(occs@),
                r@[a].field,
                r@[a].term@,
            ),
        forall|f: usize, t: Seq<char>|
            #[trigger] postings_of(occ_view(occs@), f, t).len() > 0 ==> exists|a: int|
                key_at(r@, a, f, t),
{
    let ghost occ = occ_view(occs@);
    assert forall|x: int| 0 <= x < occ.len() implies (#[trigger] occ[x]).len() <= usize::MAX by {
        assert(occs@[x].len() == occs@[x]@.len());
    }
    assert(occs@.len() == occs.len());
    let mut entries: Vec<TermEntry> = Vec::new();
    let mut d: usize = 0;
    while d < occs.len()
        invariant
            d <= occs@.len(),
            occ == occ_view(occs@),
            occ.len() == occs@.len(),
            occ.len() <= usize::MAX,
            forall|x: int| 0 <= x < occ.len() ==> (#[trigger] occ[x]).len() <= usize::MAX,
            keys_unique(entries@),
            forall|a: int|
                0 <= a < entries@.len() ==> (#[trigger] entries@[a]).postings@ == postings_upto(
                    occ,
                    d as int,
                    entries@[a].field,
                    entries@[a].term@,
                ),
            forall|f: usize, t: Seq<char>|
                #[trigger] postings_upto(occ, d as int, f, t).len() > 0 ==> exists|a: int|
                    key_at(entries@, a, f, t),
        decreases occs@.len() - d,
    {
        let doc = &occs[d];
        let ghost s = occ[d as int];
        assert(s == doc@.map_values(|p: (usize, Vec<char>)| (p.0, p.1@)));
        let mut k: usize = 0;
        while k < doc.len()
            invariant
                d < occs@.len(),
                k <= doc@.len(),
                occ == occ_view(occs@),
                occ.len() == occs@.len(),
                occ.len() <= usize::MAX,
                forall|x: int| 0 <= x < occ.len() ==> (#[trigger] occ[x]).len() <= usize::MAX,
                doc == occs@[d as int],
                s == occ[d as int],
                s == doc@.map_values(|p: (usize, Vec<char>)| (p.0, p.1@)),
                keys_unique(entries@),
                forall|a: int|
                    0 <= a < entries@.len() ==> (#[trigger] entries@[a]).postings@ == postings_upto(
                        occ,
                        d as int,
                        entries@[a].field,
                        entries@[a].term@,
                    ) + posting_of(s.take(k as int), d as int, entries@[a].field, entries@[a].term@),
                forall|f: usize, t: Seq<char>|
                    #[trigger] seen(occ, d as int, s.take(k as int), f, t) ==> exists|a: int|
                        key_at(entries@, a, f, t),
            decreases doc@.len() - k,
        {
            let f = doc[k].0;
            let t = &doc[k].1;
            let ghost pre = s.take(k as int);
            let ghost post = s.take(k + 1);
            assert(post.drop_last() == pre);
            assert(post.last() == (f, t@));
            proof {
                lemma_count_le(pre, f, t@);
                lemma_postings_upto(occ, d as int, f, t@);
            }
            assert forall|g: usize, u: Seq<char>| (g, u) != (f, t@) implies count(post, g, u)
                == count(pre, g, u) by {}
            let found = find_entry(&entries, f, t);
            let ghost old_entries = entries@;
            match found {
                Some(a) => {
                    let mut e = entries.remove(a);
                    let n = e.postings.len();
                    if n > 0 && e.postings[n - 1].doc == d {
                        let last = e.postings.pop().unwrap();
                        e.postings.push(Posting { doc: d, tf: last.tf + 1 });
                    } else {
                        assert(count(pre, f, t@) == 0) by {
                            if count(pre, f, t@) > 0 {
                                assert(e.postings@.last().doc == d);
                            }
                        }
                        e.postings.push(Posting { doc: d, tf: 1 });
                    }
                    assert(e.postings@ == postings_upto(occ, d as int, f, t@) + posting_of(post, d as int, f, t@));
                    entries.insert(a, e);
                    assert forall|b: int| 0 <= b < entries@.len() && b != a implies #[trigger] entries@[b] == old_entries[b] by {}
                    assert(entries@.len() == old_entries.len());
                },
                None => {
                    assert(!seen(occ, d as int, pre, f, t@));
                    let term = copy_chars(t);
                    let mut postings: Vec<Posting> = Vec::new();
                    postings.push(Posting { doc: d, tf: 1 });
                    entries.push(TermEntry { field: f, term, postings });
                    assert(entries@.last().postings@ == postings_upto(occ, d as int, f, t@) + posting_of(post, d as int, f, t@));
                },
            }
            assert(forall|b: int| 0 <= b < old_entries.len() ==> (#[trigger] entries@[b]).field == old_entries[b].field
                && entries@[b].term@ == old_entries[b].term@);
            assert forall|x: int, y: int| 0 <= x < y < entries@.len() implies (#[trigger] entries@[x]).field
                != (#[trigger] entries@[y]).field || entries@[x].term@ != entries@[y].term@ by {
                if y < old_entries.len() {
                    assert(old_entries[x].field != old_entries[y].field || old_entries[x].term@ != old_entries[y].term@);
                } else {
                    assert(!key_at(old_entries, x, f, t@));
                }
            }
            assert forall|g: usize, u: Seq<char>|
                #[trigger] seen(occ, d as int, post, g, u) implies exists|a: int|
                    key_at(entries@, a, g, u) by {
                if (g, u) == (f, t@) {
                    match found {
                        Some(a) => {
                            assert(key_at(entries@, a as int, g, u));
                        },
                        None => {
                            assert(key_at(entries@, old_entries.len() as int, g, u));
                        },
                    }
                } else {
                    assert(seen(occ, d as int, pre, g, u));
                    let a = choose|a: int| key_at(old_entries, a, g, u);
                    assert(key_at(entries@, a, g, u));
                }
            }
            k = k + 1;
        }
        assert(s.take(k as int) == s);
        assert forall|f: usize, t: Seq<char>| #[trigger] postings_upto(occ, d + 1, f, t).len() > 0 implies exists|a: int|
            key_at(entries@, a, f, t) by {
            assert(seen(occ, d as int, s.take(k as int), f, t));
        }
        d = d + 1;
    }
    entries
}

/// A document: (field name, text) pairs in the order they were added; a name may repeat.
pub struct Document {
    pub values: Vec<(String, String)>,
}

impl Document {
    pub fn new() -> (r: Document)
        ensures
            r.values@.len() == 0,
    {
        Document { values: Vec::new() }
    }

    /// Adds one value to a field; adding to the same field again makes it multivalued.
    pub fn add_field(&mut self, name: &str, value: &str)
        ensures
            final(self).values@.len() == old(self).values@.len() + 1,
            final(self).values@.drop_last() == old(self).values@,
            final(self).values@.last().0@ == name@,
            final(self).values@.last().1@ == value@,
    {
        let n = <String as vstd::string::StringExecFns>::from_str(name);
        let v = <String as vstd::string::StringExecFns>::from_str(value);
        self.values.push((n, v));
        assert(self.values@.drop_last() == old(self).values@);
    }
}

#[derive(Debug, PartialEq, Eq, Structural, Clone, Copy)]
pub enum IndexError {
    /// The document names a field that the schema does not declare.
    UnknownField,
    /// The index was already committed and takes no more documents.
    IndexFrozen,
}

/// The id of the field named `name`.
pub open spec fn id_of(fields: Seq<FieldEntry>, name: Seq<char>) -> int {
    choose|i: int| names_at(fields, i, name)
}

pub proof fn lemma_id_of(fields: Seq<FieldEntry>, i: int, name: Seq<char>)
    requires
        names_at(fields, i, name),
        forall|a: int, b: int|
            0 <= a < b < fields.len() ==> #[trigger] fields[a].name@ != #[trigger] fields[b].name@,
    ensures
        id_of(fields, name) == i,
{
    let j = id_of(fields, name);
    assert(names_at(fields, j, name));
    if j < i {
        assert(fields[j].name@ != fields[i].name@);
    } else if i < j {
        assert(fields[i].name@ != fields[j].name@);
    }
}

/// Every field name of `vals` is declared.
pub open spec fn all_known(fields: Seq<FieldEntry>, vals: Seq<(String, String)>) -> bool {
    forall|i: int| 0 <= i < vals.len() ==> #[trigger] known(fields, vals[i].0@)
}

pub open spec fn known(fields: Seq<FieldEntry>, name: Seq<char>) -> bool {
    exists|f: int| names_at(fields, f, name)
}

/// The terms that one value contributes, tagged with its field.
pub open spec fn tagged(f: int, text: Seq<char>) -> Occurrences {
    terms_of(text).map_values(|t: Seq<char>| (f as usize, t))
}

/// The term occurrences of a document: the terms of each value of an indexed field.
pub open spec fn doc_occ(fields: Seq<FieldEntry>, vals: Seq<(String, String)>) -> Occurrences
    decreases vals.len(),
{
    if vals.len() == 0 {
        seq![]
    } else {
        let f = id_of(fields, vals.last().0@);
        doc_occ(fields, vals.drop_last()) + if fields[f].indexed {
            tagged(f, vals.last().1@)
        } else {
            seq![]
        }
    }
}

/// The stored part of a document: each value of a stored field with its field id, in order.
pub open spec fn doc_stored(fields: Seq<FieldEntry>, vals: Seq<(String, String)>) -> Seq<(usize, Seq<char>)>
    decreases vals.len(),
{
    if vals.len() == 0 {
        seq![]
    } else {
        let f = id_of(fields, vals.last().0@);
        doc_stored(fields, vals.drop_last()) + if fields[f].stored {
            seq![(f as usize, vals.last().1@)]
        } else {
            seq![]
        }
    }
}

pub open spec fn pair_view(v: Seq<(usize, String)>) -> Seq<(usize, Seq<char>)> {
    v.map_values(|p: (usize, String)| (p.0, p.1@))
}

pub open spec fn store_view(store: Seq<Vec<(usize, String)>>) -> Seq<Seq<(usize, Seq<char>)>> {
    store.map_values(|v: Vec<(usize, String)>| pair_view(v@))
}

/// The id of each field name of `doc`, if all are declared.
pub fn resolve_fields(schema: &Schema, doc: &Document) -> (r: Option<Vec<usize>>)
    ensures
        r is None <==> !all_known(schema.fields@, doc.values@),
        r matches Some(ids) ==> ids@.len() == doc.values@.len() && forall|j: int|
            0 <= j < doc.values@.len() ==> names_at(
                schema.fields@,
                #[trigger] ids@[j] as int,
                doc.values@[j].0@,
            ),
{
    let ghost fields = schema.fields@;
    let ghost vals = doc.values@;
    let mut ids: Vec<usize> = Vec::new();
    let mut i: usize = 0;
    while i < doc.values.len()
        invariant
            i <= vals.len(),
            vals == doc.values@,
            fields == schema.fields@,
            ids@.len() == i,
            forall|j: int| 0 <= j < i ==> names_at(fields, #[trigger] ids@[j] as int, vals[j].0@),
        decreases vals.len() - i,
    {
        match schema.field_id(doc.values[i].0.as_str()) {
            None => {
                assert(!all_known(fields, vals)) by {
                    if all_known(fields, vals) {
                        assert(known(fields, vals[i as int].0@));
                    }
                }
                return None;
            },
            Some(f) => {
                ids.push(f);
            },
        }
        i = i + 1;
    }
    assert(all_known(fields, vals)) by {
        assert forall|i: int| 0 <= i < vals.len() implies #[trigger] known(fields, vals[i].0@) by {
            assert(names_at(fields, ids@[i] as int, vals[i].0@));
        }
    }
    Some(ids)
}

/// Collects documents until it is committed.
pub struct IndexBuilder {
    pub schema: Schema,
    /// For each document, the (field id, term) occurrences of its indexed fields.
    pub forward: Vec<Vec<(usize, Vec<char>)>>,
    /// For each document, the (field id, value) pairs of its stored fields.
    pub store: Vec<Vec<(usize, String)>>,
    pub frozen: bool,
}

impl IndexBuilder {
    pub open spec fn wf(&self) -> bool {
        &&& self.schema.wf()
        &&& self.forward@.len() == self.store@.len()
    }

    pub open spec fn occ(&self) -> Seq<Occurrences> {
        occ_view(self.forward@)
    }

    pub open spec fn stored(&self) -> Seq<Seq<(usize, Seq<char>)>> {
        store_view(self.store@)
    }

    pub fn new(schema: Schema) -> (r: IndexBuilder)
        requires
            schema.wf(),
        ensures
            r.wf(),
            r.schema == schema,
            r.occ().len() == 0,
            r.stored().len() == 0,
            !r.frozen,
    {
        IndexBuilder { schema, forward: Vec::new(), store: Vec::new(), frozen: false }
    }

    /// Ingests a document and returns its id, the number of documents before it.
    pub fn add_document(&mut self, doc: &Document) -> (r: Result<usize, IndexError>)
        requires
            old(self).wf(),
        ensures
            final(self).wf(),
            old(self).frozen ==> r == Err::<usize, IndexError>(IndexError::IndexFrozen)
                && *final(self) == *old(self),
            !old(self).frozen && !all_known(old(self).schema.fields@, doc.values@) ==> r == Err::<
                usize,
                IndexError,
            >(IndexError::UnknownField) && *final(self) == *old(self),
            !old(self).frozen && all_known(old(self).schema.fields@, doc.values@) ==> {
                &&& r == Ok::<usize, IndexError>(old(self).forward@.len() as usize)
                &&& final(self).schema == old(self).schema
                &&& !final(self).frozen
                &&& final(self).occ() == old(self).occ().push(
                    doc_occ(old(self).schema.fields@, doc.values@),
                )
                &&& final(self).stored() == old(self).stored().push(
                    doc_stored(old(self).schema.fields@, doc.values@),
                )
            },
    {
        if self.frozen {
            return Err(IndexError::IndexFrozen);
        }
        let ghost fields = self.schema.fields@;
        let ghost vals = doc.values@;
        let ids = match resolve_fields(&self.schema, doc) {
            None => {
                return Err(IndexError::UnknownField);
            },
            Some(ids) => ids,
        };
        let mut occ: Vec<(usize, Vec<char>)> = Vec::new();
        let mut stored: Vec<(usize, String)> = Vec::new();
        let mut j: usize = 0;
        while j < doc.values.len()
            invariant
                j <= vals.len(),
                vals == doc.values@,
                fields == self.schema.fields@,
                self.schema.wf(),
                ids@.len() == vals.len(),
                forall|j: int| 0 <= j < vals.len() ==> names_at(fields, #[trigger] ids@[j] as int, vals[j].0@),
                occ@.map_values(|p: (usize, Vec<char>)| (p.0, p.1@)) == doc_occ(fields, vals.take(j as int)),
                pair_view(stored@) == doc_stored(fields, vals.take(j as int)),
            decreases vals.len() - j,
        {
            let f = ids[j];
            let value = &doc.values[j].1;
            proof {
                lemma_id_of(fields, f as int, vals[j as int].0@);
                assert(vals.take(j + 1).drop_last() == vals.take(j as int));
                assert(vals.take(j + 1).last() == vals[j as int]);
            }
            let ghost occ_before = occ@.map_values(|p: (usize, Vec<char>)| (p.0, p.1@));
            if self.schema.fields[f].indexed {
                let toks = tokenize(value.as_str());
                let mut m: usize = 0;
                while m < toks.len()
                    invariant
                        m <= toks@.len(),
                        toks@.len() == terms_of(value@).len(),
                        forall|x: int| 0 <= x < toks@.len() ==> #[trigger] toks@[x]@ == terms_of(value@)[x],
                        occ@.map_values(|p: (usize, Vec<char>)| (p.0, p.1@)) == occ_before + tagged(
                            f as int,
                            value@,
                        ).take(m as int),
                    decreases toks@.len() - m,
                {
                    let t = copy_chars(&toks[m]);
                    let ghost prev = occ@;
                    occ.push((f, t));
                    assert(occ@.map_values(|p: (usize, Vec<char>)| (p.0, p.1@)) == prev.map_values(
                        |p: (usize, Vec<char>)| (p.0, p.1@)).push((f, toks@[m as int]@)));
                    assert(tagged(f as int, value@).take(m + 1) == tagged(f as int, value@).take(
                        m as int,
                    ).push((f, toks@[m as int]@)));
                    assert(occ@.map_values(|p: (usize, Vec<char>)| (p.0, p.1@)) == occ_before + tagged(
                        f as int,
                        value@,
                    ).take(m + 1));
                    m = m + 1;
                }
                assert(tagged(f as int, value@).take(m as int) == tagged(f as int, value@));
            }
            if self.schema.fields[f].stored {
                stored.push((f, value.clone()));
                assert(pair_view(stored@) == doc_stored(fields, vals.take(j + 1)));
            }
            j = j + 1;
        }
        assert(vals.take(j as int) == vals);
        self.forward.push(occ);
        self.store.push(stored);
        assert(self.occ() == old(self).occ().push(doc_occ(fields, vals)));
        assert(self.stored() == old(self).stored().push(doc_stored(fields, vals)));
        Ok(self.forward.len() - 1)
    }
}


impl IndexBuilder {
    /// Freezes the index: later documents are refused.
    pub fn commit(&mut self) -> (r: Result<InvertedIndex, IndexError>)
        requires
            old(self).wf(),
        ensures
            final(self).wf(),
            final(self).frozen,
            old(self).frozen ==> r == Err::<InvertedIndex, IndexError>(IndexError::IndexFrozen),
            !old(self).frozen ==> (r matches Ok(ix) && ix.wf() && ix.schema == old(self).schema
                && ix.occ() == old(self).occ() && ix.stored() == old(self).stored()),
    {
        if self.frozen {
            return Err(IndexError::IndexFrozen);
        }
        self.frozen = true;
        let mut schema = Schema::new();
        let mut forward: Vec<Vec<(usize, Vec<char>)>> = Vec::new();
        let mut store: Vec<Vec<(usize, String)>> = Vec::new();
        std::mem::swap(&mut schema, &mut self.schema);
        std::mem::swap(&mut forward, &mut self.forward);
        std::mem::swap(&mut store, &mut self.store);
        let entries = build_entries(&forward);
        Ok(InvertedIndex { schema, entries, forward, store })
    }
}

/// The committed, read-only index with its document store.
pub struct InvertedIndex {
    pub schema: Schema,
    /// One entry per (field, term) that occurs, with its posting list.
    pub entries: Vec<TermEntry>,
    /// For each document, the (field id, term) occurrences of its indexed fields.
    pub forward: Vec<Vec<(usize, Vec<char>)>>,
    /// The document store: for each document, its stored (field id, value) pairs.
    pub store: Vec<Vec<(usize, String)>>,
}

impl InvertedIndex {
    pub open spec fn occ(&self) -> Seq<Occurrences> {
        occ_view(self.forward@)
    }

    pub open spec fn stored(&self) -> Seq<Seq<(usize, Seq<char>)>> {
        store_view(self.store@)
    }

    pub open spec fn wf(&self) -> bool {
        &&& self.schema.wf()
        &&& self.forward@.len() == self.store@.len()
        &&& keys_unique(self.entries@)
        &&& forall|a: int|
            0 <= a < self.entries@.len() ==> (#[trigger] self.entries@[a]).postings@ == postings_of(
                self.occ(),
                self.entries@[a].field,
                self.entries@[a].term@,
            )
        &&& forall|f: usize, t: Seq<char>|
            #[trigger] postings_of(self.occ(), f, t).len() > 0 ==> exists|a: int|
                key_at(self.entries@, a, f, t)
    }

    /// The posting list of a term in a field, ascending by document id; empty if absent.
    pub fn lookup(&self, field: usize, term: &Vec<char>) -> (r: Vec<Posting>)
        requires
            self.wf(),
        ensures
            r@ == postings_of(self.occ(), field, term@),
    {
        match find_entry(&self.entries, field, term) {
            None => {
                assert(postings_of(self.occ(), field, term@).len() == 0);
                Vec::new()
            },
            Some(a) => {
                let src = &self.entries[a].postings;
                let mut r: Vec<Posting> = Vec::new();
                let mut i: usize = 0;
                while i < src.len()
                    invariant
                        i <= src@.len(),
                        r@ == src@.take(i as int),
                    decreases src@.len() - i,
                {
                    r.push(src[i]);
                    i = i + 1;
                }
                assert(src@.take(src@.len() as int) == src@);
                r
            },
        }
    }

    /// In how many documents the term occurs in the field.
    pub fn document_frequency(&self, field: usize, term: &Vec<char>) -> (r: usize)
        requires
            self.wf(),
        ensures
            r == postings_of(self.occ(), field, term@).len(),
    {
        match find_entry(&self.entries, field, term) {
            None => 0,
            Some(a) => self.entries[a].postings.len(),
        }
    }

    /// The number of committed documents.
    pub fn document_count(&self) -> (r: usize)
        ensures
            r == self.occ().len(),
    {
        self.forward.len()
    }
}

} // verus!
