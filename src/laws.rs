//! Properties that relate ingestion, querying, ranking and result records.

use vstd::prelude::*;
use vstd::set_lib::{lemma_int_range, lemma_len_subset, set_int_range};
use crate::engine::{lemma_index_bounded, 
    LeafModel, clause_ok, group_ok, hit_of, hit_seq, is_top_k, satisfies, matches_hits,
};
use crate::index::{InvertedIndex, Occurrences, all_known, count, doc_stored, id_of, known, lemma_id_of};
use crate::query::{ParseState, QueryError, expand, parse_units, find_colon, is_op, is_space, lex, lex_scan, parse_spec};
use crate::schema::{FieldEntry, names_at};
use crate::tokenizer::terms_of;
use crate::search::{ResultRecord, answers, hits_of, record_upto, values_of};
use crate::topk::{Hit, beats, shuts_out};

verus! {

/// The documents that satisfy a query.
pub open spec fn match_set(occ: Seq<Occurrences>, ls: Seq<LeafModel>) -> Set<int> {
    Set::new(|d: int| 0 <= d < occ.len() && satisfies(occ, d, ls))
}

/// A top-k result names each document at most once.
pub proof fn lemma_top_k_distinct(occ: Seq<Occurrences>, ls: Seq<LeafModel>, k: usize, r: Seq<Hit>)
    requires
        is_top_k(occ, ls, k, r),
    ensures
        forall|i: int, j: int| 0 <= i < j < r.len() ==> (#[trigger] r[i]).doc != (#[trigger] r[j]).doc,
{
    assert forall|i: int, j: int| 0 <= i < j < r.len() implies (#[trigger] r[i]).doc != (#[trigger] r[j]).doc by {
        assert(beats(r[i], r[j]));
    }
}

/// When `k` is at least the number of matching documents, the top-k result holds exactly
/// the matching documents, one hit each.
pub proof fn lemma_top_k_complete(occ: Seq<Occurrences>, ls: Seq<LeafModel>, k: usize, r: Seq<Hit>)
    requires
        is_top_k(occ, ls, k, r),
        occ.len() <= usize::MAX,
        k >= match_set(occ, ls).len(),
    ensures
        r.len() == match_set(occ, ls).len(),
        forall|d: int| #[trigger] match_set(occ, ls).contains(d) <==> exists|i: int| 0 <= i < r.len() && r[i].doc == d,
{
    lemma_match_set_finite(occ, ls);
    let m = match_set(occ, ls);
    let ids = r.map_values(|h: Hit| h.doc as int);
    lemma_top_k_distinct(occ, ls, k, r);
    assert(ids.no_duplicates());
    ids.unique_seq_to_set();
    let s = ids.to_set();
    assert(s.subset_of(m)) by {
        assert forall|d: int| s.contains(d) implies m.contains(d) by {
            let i = choose|i: int| 0 <= i < ids.len() && ids[i] == d;
            assert(r[i].doc < occ.len());
        }
    }
    assert forall|d: int| #[trigger] m.contains(d) implies exists|i: int| 0 <= i < r.len() && r[i].doc == d by {
        if !(exists|i: int| 0 <= i < r.len() && r[i].doc == d) {
            let x = hit_of(occ, d, ls);
            assert(!r.contains(x)) by {
                if r.contains(x) {
                    let j = choose|j: int| 0 <= j < r.len() && r[j] == x;
                    assert(r[j].doc == d);
                }
            }
            assert(shuts_out(r, k, x));
            lemma_len_subset(s, m.remove(d));
        }
    }
    assert(m.subset_of(s)) by {
        assert forall|d: int| m.contains(d) implies s.contains(d) by {
            let i = choose|i: int| 0 <= i < r.len() && r[i].doc == d;
            assert(ids[i] == d);
        }
    }
    assert(s == m);
}

/// The set of matching documents is finite.
pub proof fn lemma_match_set_finite(occ: Seq<Occurrences>, ls: Seq<LeafModel>)
    ensures
        match_set(occ, ls).finite(),
        match_set(occ, ls).len() <= occ.len(),
{
    lemma_int_range(0, occ.len() as int);
    lemma_len_subset(match_set(occ, ls), set_int_range(0, occ.len() as int));
}

/// A term that occurs in a field of a document makes that document match the query that
/// looks up the term in that field, and, with `k` no smaller than the number of documents,
/// puts it in the top-k result.
pub proof fn lemma_occurring_term_found(occ: Seq<Occurrences>, f: usize, t: Seq<char>, d: int, k: usize, r: Seq<Hit>)
    requires
        0 <= d < occ.len(),
        count(occ[d], f, t) > 0,
        is_top_k(occ, seq![(f, t, 0usize, 0usize)], k, r),
        k >= occ.len(),
        occ.len() <= usize::MAX,
    ensures
        satisfies(occ, d, seq![(f, t, 0usize, 0usize)]),
        exists|i: int| 0 <= i < r.len() && r[i].doc == d,
{
    let ls = seq![(f, t, 0usize, 0usize)];
    let hits = hit_seq(occ, d, ls);
    assert(hits[0]);
    assert(clause_ok(ls, hits, 0));
    assert(group_ok(ls, hits, 0));
    assert(matches_hits(ls, hits));
    lemma_match_set_finite(occ, ls);
    lemma_top_k_complete(occ, ls, k, r);
    assert(match_set(occ, ls).contains(d));
}

/// A query none of whose terms occurs in any document has an empty top-k result.
pub proof fn lemma_absent_terms_no_results(occ: Seq<Occurrences>, ls: Seq<LeafModel>, k: usize, r: Seq<Hit>)
    requires
        is_top_k(occ, ls, k, r),
        forall|d: int, j: int| 0 <= d < occ.len() && 0 <= j < ls.len() ==> count(#[trigger] occ[d], ls[j].0, #[trigger] ls[j].1) == 0,
    ensures
        r.len() == 0,
{
    if r.len() > 0 {
        let d = r[0].doc as int;
        let hits = hit_seq(occ, d, ls);
        assert(satisfies(occ, d, ls));
        let i = choose|i: int| 0 <= i < ls.len() && #[trigger] group_ok(ls, hits, i);
        assert(clause_ok(ls, hits, i));
        let m = choose|m: int| 0 <= m < ls.len() && (#[trigger] ls[m]).2 == ls[i].2 && ls[m].3 == ls[i].3 && hits[m];
        assert(count(occ[d], ls[m].0, ls[m].1) == 0);
    }
}

/// The values of a document that name field `f`, in the order they were added.
pub open spec fn values_named(fields: Seq<FieldEntry>, vals: Seq<(String, String)>, f: usize) -> Seq<Seq<char>>
    decreases vals.len(),
{
    if vals.len() == 0 {
        seq![]
    } else {
        values_named(fields, vals.drop_last(), f) + if id_of(fields, vals.last().0@) == f {
            seq![vals.last().1@]
        } else {
            seq![]
        }
    }
}

/// A stored field keeps every value added to it, repeats included, in the order added.
pub proof fn lemma_multivalued_round_trip(fields: Seq<FieldEntry>, vals: Seq<(String, String)>, f: usize)
    requires
        0 <= f < fields.len(),
        fields.len() <= usize::MAX,
        fields[f as int].stored,
        all_known(fields, vals),
    ensures
        values_of(doc_stored(fields, vals), f) == values_named(fields, vals, f),
    decreases vals.len(),
{
    if vals.len() > 0 {
        assert(all_known(fields, vals.drop_last())) by {
            assert forall|i: int| 0 <= i < vals.drop_last().len() implies #[trigger] known(fields, vals.drop_last()[i].0@) by {
                assert(vals.drop_last()[i] == vals[i]);
                assert(known(fields, vals[i].0@));
            }
        }
        lemma_multivalued_round_trip(fields, vals.drop_last(), f);
        assert(known(fields, vals[vals.len() - 1].0@));
        let g = id_of(fields, vals.last().0@);
        assert(names_at(fields, g, vals.last().0@));
        assert(values_named(fields, vals, f) == values_named(fields, vals.drop_last(), f) + if g == f {
            seq![vals.last().1@]
        } else {
            seq![]
        });
        let prev = doc_stored(fields, vals.drop_last());
        if fields[g].stored {
            let cur = prev + seq![(g as usize, vals.last().1@)];
            assert(doc_stored(fields, vals) == cur);
            assert(cur.drop_last() == prev);
            assert(cur.last() == (g as usize, vals.last().1@));
            assert(values_of(cur, f) == values_of(prev, f) + if g as usize == f {
                seq![vals.last().1@]
            } else {
                seq![]
            });
            assert(values_of(doc_stored(fields, vals), f) == values_named(fields, vals, f));
        } else {
            assert(doc_stored(fields, vals) == prev);
            if g == f {
                assert(false);
            }
            assert(values_of(doc_stored(fields, vals), f) == values_named(fields, vals, f));
        }
    }
}

/// Some stored field of the schema has this name.
pub open spec fn stored_name(fields: Seq<FieldEntry>, name: Seq<char>) -> bool {
    exists|f: int| 0 <= f < fields.len() && fields[f].stored && #[trigger] fields[f].name@ == name
}

/// Every field of a result record is a stored field of the schema, whatever was matched.
pub proof fn lemma_record_only_stored(fields: Seq<FieldEntry>, sd: Seq<(usize, Seq<char>)>, n: int)
    requires
        0 <= n <= fields.len(),
    ensures
        forall|i: int| 0 <= i < record_upto(fields, sd, n).len() ==> stored_name(fields, (#[trigger] record_upto(fields, sd, n)[i]).0),
    decreases n,
{
    if n > 0 {
        lemma_record_only_stored(fields, sd, n - 1);
        let prev = record_upto(fields, sd, n - 1);
        let all = record_upto(fields, sd, n);
        assert forall|i: int| 0 <= i < all.len() implies stored_name(fields, (#[trigger] all[i]).0) by {
            if i < prev.len() {
                assert(all[i] == prev[i]);
            } else {
                assert(fields[n - 1].name@ == all[i].0);
            }
        }
    }
}

/// `w` holds no white space, quotation mark, parenthesis or colon.
pub open spec fn plain_word(w: Seq<char>) -> bool {
    forall|i: int|
        0 <= i < w.len() ==> !is_space(#[trigger] w[i]) && w[i] != '"' && w[i] != ':' && w[i] != '('
            && w[i] != ')'
}

proof fn lemma_lex_one_word(w: Seq<char>, n: int)
    requires
        0 <= n <= w.len(),
        forall|i: int|
            0 <= i < w.len() ==> !is_space(#[trigger] w[i]) && w[i] != '"' && w[i] != '(' && w[i] != ')',
    ensures
        lex_scan(w.take(n)) == (Seq::<(Seq<char>, bool)>::empty(), w.take(n), false, 0int, false),
    decreases n,
{
    if n > 0 {
        lemma_lex_one_word(w, n - 1);
        assert(w.take(n).drop_last() == w.take(n - 1));
        assert(w.take(n - 1).push(w[n - 1]) == w.take(n));
    } else {
        assert(w.take(0) == Seq::<char>::empty());
    }
}

proof fn lemma_colon_prefix(w: Seq<char>, p: int, n: int)
    requires
        0 <= p < w.len(),
        w[p] == ':',
        forall|i: int| 0 <= i < p ==> #[trigger] w[i] != ':',
        0 <= n <= w.len(),
    ensures
        n <= p ==> find_colon(w.take(n)) == -1,
        n > p ==> find_colon(w.take(n)) == p,
    decreases n,
{
    if n > 0 {
        lemma_colon_prefix(w, p, n - 1);
        assert(w.take(n).drop_last() == w.take(n - 1));
    } else {
        assert(w.take(0) == Seq::<char>::empty());
    }
}

/// Querying `name:term`, for an indexed field and a term that tokenizes to itself, looks up
/// exactly that term in exactly that field.
pub proof fn lemma_field_term_query(fields: Seq<FieldEntry>, name: Seq<char>, f: int, t: Seq<char>)
    requires
        names_at(fields, f, name),
        fields[f].indexed,
        fields.len() <= usize::MAX,
        forall|a: int, b: int|
            0 <= a < b < fields.len() ==> #[trigger] fields[a].name@ != #[trigger] fields[b].name@,
        plain_word(name),
        plain_word(t),
        terms_of(t) == seq![t],
    ensures
        parse_spec(fields, name + seq![':'] + t) == Ok::<Seq<LeafModel>, QueryError>(
            seq![(f as usize, t, 0usize, 0usize)],
        ),
{
    let w = name + seq![':'] + t;
    let p = name.len() as int;
    assert forall|i: int| 0 <= i < w.len() implies !is_space(#[trigger] w[i]) && w[i] != '"' && w[i] != '('
        && w[i] != ')' by {
        if i < p {
            assert(w[i] == name[i]);
        } else if i > p {
            assert(w[i] == t[i - p - 1]);
        }
    }
    lemma_lex_one_word(w, w.len() as int);
    assert(w.take(w.len() as int) == w);
    assert(lex(w) == Ok::<Seq<(Seq<char>, bool)>, QueryError>(seq![(w, false)]));
    assert forall|i: int| 0 <= i < p implies #[trigger] w[i] != ':' by {
        assert(w[i] == name[i]);
    }
    lemma_colon_prefix(w, p, w.len() as int);
    assert(find_colon(w) == p);
    assert(w.take(p) == name);
    assert(w.skip(p + 1) == t);
    lemma_id_of(fields, f, name);
    assert(known(fields, name));
    assert(!is_op((w, false))) by {
        assert(w[p] == ':');
    }
    let us = seq![(w, false)];
    assert(us.drop_last() == Seq::<(Seq<char>, bool)>::empty());
    assert(expand(fields, seq![t], Some(f as usize), 0, 0) == seq![(f as usize, t, 0usize, 0usize)]) by {
        assert(seq![t].drop_last() == Seq::<Seq<char>>::empty());
        assert(seq![t].last() == t);
        assert(expand(fields, Seq::<Seq<char>>::empty(), Some(f as usize), 0, 0) == Seq::<LeafModel>::empty());
        assert(Seq::<LeafModel>::empty() + seq![(f as usize, t, 0usize, 0usize)] =~= seq![(f as usize, t, 0usize, 0usize)]);
    }
    assert(parse_units(fields, us.drop_last()) == Ok::<ParseState, QueryError>((Seq::<LeafModel>::empty(), 0, 0, 0)));
    assert(us.last() == (w, false));
    assert(Seq::<LeafModel>::empty() + seq![(f as usize, t, 0usize, 0usize)] == seq![(f as usize, t, 0usize, 0usize)]);
}

proof fn lemma_blank_scan(s: Seq<char>, n: int)
    requires
        0 <= n <= s.len(),
        forall|i: int| 0 <= i < s.len() ==> is_space(#[trigger] s[i]),
    ensures
        lex_scan(s.take(n)) == (Seq::<(Seq<char>, bool)>::empty(), Seq::<char>::empty(), false, 0int, false),
    decreases n,
{
    if n > 0 {
        lemma_blank_scan(s, n - 1);
        assert(s.take(n).drop_last() == s.take(n - 1));
        assert(is_space(s[n - 1]));
    } else {
        assert(s.take(0) == Seq::<char>::empty());
    }
}

/// A query made only of white space, or of nothing, is refused as empty.
pub proof fn lemma_blank_query_empty(fields: Seq<FieldEntry>, s: Seq<char>)
    requires
        forall|i: int| 0 <= i < s.len() ==> is_space(#[trigger] s[i]),
    ensures
        parse_spec(fields, s) == Err::<Seq<LeafModel>, QueryError>(QueryError::Empty),
{
    lemma_blank_scan(s, s.len() as int);
    assert(s.take(s.len() as int) == s);
}

/// A term that occurs in an indexed field of a document, and that tokenizes to itself, is
/// found again by querying `name:term` on that field: with `k` no smaller than the number of
/// documents, the document is among the records returned.
pub proof fn lemma_field_query_finds_document(
    ix: &InvertedIndex,
    name: Seq<char>,
    f: int,
    t: Seq<char>,
    d: int,
    k: usize,
    rs: Seq<ResultRecord>,
)
    requires
        ix.wf(),
        names_at(ix.schema.fields@, f, name),
        ix.schema.fields@[f].indexed,
        plain_word(name),
        plain_word(t),
        terms_of(t) == seq![t],
        0 <= d < ix.occ().len(),
        count(ix.occ()[d], f as usize, t) > 0,
        k >= ix.occ().len(),
        answers(ix, seq![(f as usize, t, 0usize, 0usize)], k, rs),
    ensures
        parse_spec(ix.schema.fields@, name + seq![':'] + t) == Ok::<Seq<LeafModel>, QueryError>(
            seq![(f as usize, t, 0usize, 0usize)],
        ),
        exists|i: int| 0 <= i < rs.len() && (#[trigger] rs[i]).doc == d,
{
    assert(ix.schema.fields@.len() == ix.schema.fields.len());
    lemma_field_term_query(ix.schema.fields@, name, f, t);
    lemma_index_bounded(ix);
    let ls = seq![(f as usize, t, 0usize, 0usize)];
    let r = hits_of(ix.occ(), ls, rs);
    lemma_occurring_term_found(ix.occ(), f as usize, t, d, k, r);
    let i = choose|i: int| 0 <= i < r.len() && r[i].doc == d;
    assert(rs[i].doc == d);
}

/// A query none of whose terms occurs in the field it is looked up in, in any document, is
/// answered with no records.
pub proof fn lemma_absent_query_no_records(ix: &InvertedIndex, s: Seq<char>, k: usize, rs: Seq<ResultRecord>)
    requires
        ix.wf(),
        parse_spec(ix.schema.fields@, s) is Ok,
        forall|d: int, j: int|
            0 <= d < ix.occ().len() && 0 <= j < parse_spec(ix.schema.fields@, s)->Ok_0.len() ==> count(
                #[trigger] ix.occ()[d],
                parse_spec(ix.schema.fields@, s)->Ok_0[j].0,
                #[trigger] parse_spec(ix.schema.fields@, s)->Ok_0[j].1,
            ) == 0,
        answers(ix, parse_spec(ix.schema.fields@, s)->Ok_0, k, rs),
    ensures
        rs.len() == 0,
{
    let ls = parse_spec(ix.schema.fields@, s)->Ok_0;
    let r = hits_of(ix.occ(), ls, rs);
    lemma_absent_terms_no_results(ix.occ(), ls, k, r);
}

} // verus!
