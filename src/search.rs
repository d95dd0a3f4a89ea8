//! Result records and the query entry point.

use vstd::prelude::*;
use crate::engine::{LeafModel, collect, hit_of, is_top_k, leaf_view};
use crate::index::{InvertedIndex, Occurrences, pair_view};
use crate::query::{QueryError, parse, parse_spec};
use crate::schema::FieldEntry;
use crate::topk::Hit;

verus! {

/// The form of a search request: the query string.
pub struct Search {
    pub search: String,
}

/// A matched document: its id and, for each stored field that has values, in schema
/// order, the field's name and its values in the order they were added.
pub struct ResultRecord {
    pub doc: usize,
    pub fields: Vec<(String, Vec<String>)>,
}

#[derive(Debug, PartialEq, Eq, Structural, Clone, Copy)]
pub enum SearchError {
    /// The query string was refused.
    Query(QueryError),
    /// No document has that id.
    MissingDocument,
}

/// The values of field `f` in a document's stored part, in order.
pub open spec fn values_of(sd: Seq<(usize, Seq<char>)>, f: usize) -> Seq<Seq<char>>
    decreases sd.len(),
{
    if sd.len() == 0 {
        seq![]
    } else {
        values_of(sd.drop_last(), f) + if sd.last().0 == f {
            seq![sd.last().1]
        } else {
            seq![]
        }
    }
}

/// The record of a stored document over the first `n` fields of the schema.
pub open spec fn record_upto(fields: Seq<FieldEntry>, sd: Seq<(usize, Seq<char>)>, n: int) -> Seq<
    (Seq<char>, Seq<Seq<char>>),
>
    decreases n,
{
    if n <= 0 {
        seq![]
    } else {
        let f = (n - 1) as usize;
        record_upto(fields, sd, n - 1) + if fields[n - 1].stored && values_of(sd, f).len() > 0 {
            seq![(fields[n - 1].name@, values_of(sd, f))]
        } else {
            seq![]
        }
    }
}

pub open spec fn record_spec(fields: Seq<FieldEntry>, sd: Seq<(usize, Seq<char>)>) -> Seq<
    (Seq<char>, Seq<Seq<char>>),
> {
    record_upto(fields, sd, fields.len() as int)
}

pub open spec fn strs_view(v: Seq<String>) -> Seq<Seq<char>> {
    v.map_values(|s: String| s@)
}

pub open spec fn record_view(v: Seq<(String, Vec<String>)>) -> Seq<(Seq<char>, Seq<Seq<char>>)> {
    v.map_values(|p: (String, Vec<String>)| (p.0@, strs_view(p.1@)))
}

fn values_exec(sd: &Vec<(usize, String)>, f: usize) -> (r: Vec<String>)
    ensures
        strs_view(r@) == values_of(pair_view(sd@), f),
{
    let ghost ps = pair_view(sd@);
    let mut r: Vec<String> = Vec::new();
    let mut i: usize = 0;
    while i < sd.len()
        invariant
            i <= sd@.len(),
            ps == pair_view(sd@),
            strs_view(r@) == values_of(ps.take(i as int), f),
        decreases sd@.len() - i,
    {
        assert(ps.take(i + 1).drop_last() == ps.take(i as int));
        assert(ps.take(i + 1).last() == (sd@[i as int].0, sd@[i as int].1@));
        if sd[i].0 == f {
            let ghost prev = r@;
            r.push(sd[i].1.clone());
            assert(strs_view(r@) == strs_view(prev).push(sd@[i as int].1@));
        }
        i = i + 1;
    }
    assert(ps.take(i as int) == ps);
    r
}

/// Projects the stored fields of a document into a record.
pub fn serialize(ix: &InvertedIndex, doc: usize) -> (r: Result<ResultRecord, SearchError>)
    ensures
        doc >= ix.stored().len() <==> r is Err,
        r matches Err(e) ==> e == SearchError::MissingDocument,
        r matches Ok(rec) ==> rec.doc == doc && record_view(rec.fields@) == record_spec(
            ix.schema.fields@,
            ix.stored()[doc as int],
        ),
{
    if doc >= ix.store.len() {
        return Err(SearchError::MissingDocument);
    }
    let sd = &ix.store[doc];
    let ghost fields = ix.schema.fields@;
    let ghost ps = pair_view(sd@);
    assert(ps == ix.stored()[doc as int]);
    let mut out: Vec<(String, Vec<String>)> = Vec::new();
    let mut f: usize = 0;
    while f < ix.schema.fields.len()
        invariant
            f <= fields.len(),
            fields == ix.schema.fields@,
            ps == pair_view(sd@),
            record_view(out@) == record_upto(fields, ps, f as int),
        decreases fields.len() - f,
    {
        if ix.schema.fields[f].stored {
            let vals = values_exec(sd, f);
            if vals.len() > 0 {
                let ghost prev = out@;
                out.push((ix.schema.fields[f].name.clone(), vals));
                assert(record_view(out@) == record_view(prev).push((fields[f as int].name@, values_of(ps, f))));
            }
        }
        f = f + 1;
    }
    Ok(ResultRecord { doc, fields: out })
}

/// The hits that the records stand for.
pub open spec fn hits_of(occ: Seq<Occurrences>, ls: Seq<LeafModel>, rs: Seq<ResultRecord>) -> Seq<Hit> {
    rs.map_values(|r: ResultRecord| hit_of(occ, r.doc as int, ls))
}

/// `rs` holds the records of the best `k` documents for the leaves `ls`, best first.
pub open spec fn answers(ix: &InvertedIndex, ls: Seq<LeafModel>, k: usize, rs: Seq<ResultRecord>) -> bool {
    &&& is_top_k(ix.occ(), ls, k, hits_of(ix.occ(), ls, rs))
    &&& forall|i: int|
        0 <= i < rs.len() ==> record_view((#[trigger] rs[i]).fields@) == record_spec(
            ix.schema.fields@,
            ix.stored()[rs[i].doc as int],
        )
}

/// Answers a query string with the records of the best `k` documents, best first.
pub fn evaluate_query(ix: &InvertedIndex, search: &str, k: usize) -> (r: Result<Vec<ResultRecord>, SearchError>)
    requires
        ix.wf(),
    ensures
        parse_spec(ix.schema.fields@, search@) matches Err(e) ==> r == Err::<Vec<ResultRecord>, SearchError>(
            SearchError::Query(e),
        ),
        parse_spec(ix.schema.fields@, search@) is Ok ==> r is Ok && answers(
            ix,
            parse_spec(ix.schema.fields@, search@)->Ok_0,
            k,
            r->Ok_0@,
        ),
{
    let q = match parse(&ix.schema, search) {
        Err(e) => {
            return Err(SearchError::Query(e));
        },
        Ok(q) => q,
    };
    let hs = collect(&q, ix, k);
    let mut rs: Vec<ResultRecord> = Vec::new();
    let mut i: usize = 0;
    while i < hs.len()
        invariant
            i <= hs@.len(),
            ix.wf(),
            parse_spec(ix.schema.fields@, search@) == Ok::<Seq<LeafModel>, QueryError>(leaf_view(q.leaves@)),
            is_top_k(ix.occ(), leaf_view(q.leaves@), k, hs@),
            rs@.len() == i,
            forall|j: int|
                0 <= j < i ==> (#[trigger] rs@[j]).doc == hs@[j].doc && record_view(rs@[j].fields@)
                    == record_spec(ix.schema.fields@, ix.stored()[hs@[j].doc as int]),
        decreases hs@.len() - i,
    {
        assert(hs@[i as int].doc < ix.occ().len());
        assert(ix.stored().len() == ix.occ().len());
        match serialize(ix, hs[i].doc) {
            Err(e) => {
                return Err(e);
            },
            Ok(rec) => {
                rs.push(rec);
            },
        }
        i = i + 1;
    }
    assert(hits_of(ix.occ(), leaf_view(q.leaves@), rs@) == hs@);
    Ok(rs)
}

} // verus!
