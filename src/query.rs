//! Parsing query strings into query expressions.

use vstd::prelude::*;
use crate::engine::{LeafModel, Query, QueryLeaf, leaf_view};
use crate::index::{chars_eq, copy_chars, id_of, known, lemma_id_of};
use crate::schema::{FieldEntry, Schema, names_at};
use crate::tokenizer::{chars_of, terms_of, tokenize_chars};

verus! {

/// Why a query string was refused.
#[derive(Debug, PartialEq, Eq, Structural, Clone, Copy)]
pub enum QueryError {
    /// The query holds nothing but white space.
    Empty,
    /// A quotation mark is never closed.
    UnbalancedQuote,
    /// A parenthesis is never closed, or closes none that is open.
    UnbalancedParenthesis,
    /// A `field:` qualifier names no indexed field.
    UnknownField,
    /// `AND` or `OR` stands at either end or next to another operator.
    MisplacedOperator,
    /// The query has more clauses than an id can count.
    TooLong,
}

/// A word, or a quoted phrase, of a query string.
pub struct Unit {
    pub text: Vec<char>,
    pub quoted: bool,
}

/// White space as Unicode's `White_Space` property lists it.
pub open spec fn is_space(c: char) -> bool {
    let u = c as u32;
    (0x9 <= u && u <= 0xd) || u == 0x20 || u == 0x85 || u == 0xa0 || u == 0x1680 || (0x2000 <= u
        && u <= 0x200a) || u == 0x2028 || u == 0x2029 || u == 0x202f || u == 0x205f || u == 0x3000
}

pub open spec fn flush(us: Seq<(Seq<char>, bool)>, cur: Seq<char>) -> Seq<(Seq<char>, bool)> {
    if cur.len() > 0 {
        us.push((cur, false))
    } else {
        us
    }
}

/// Lexing state after `s`: finished units, the unit being read, whether a quote is open,
/// how many parentheses are open, and whether a parenthesis closed none.
pub open spec fn lex_scan(s: Seq<char>) -> (Seq<(Seq<char>, bool)>, Seq<char>, bool, int, bool)
    decreases s.len(),
{
    if s.len() == 0 {
        (seq![], seq![], false, 0, false)
    } else {
        let (us, cur, q, depth, bad) = lex_scan(s.drop_last());
        let c = s.last();
        if q {
            if c == '"' {
                (us.push((cur, true)), seq![], false, depth, bad)
            } else {
                (us, cur.push(c), true, depth, bad)
            }
        } else if c == '"' {
            (flush(us, cur), seq![], true, depth, bad)
        } else if is_space(c) {
            (flush(us, cur), seq![], false, depth, bad)
        } else if c == '(' {
            (flush(us, cur), seq![], false, depth + 1, bad)
        } else if c == ')' {
            (flush(us, cur), seq![], false, if depth > 0 { depth - 1 } else { 0 }, bad || depth == 0)
        } else {
            (us, cur.push(c), false, depth, bad)
        }
    }
}

/// The units of a query string: words separated by white space or parentheses, and
/// quoted phrases, as (text, quoted); refused when a quote or a parenthesis is unbalanced.
pub open spec fn lex(s: Seq<char>) -> Result<Seq<(Seq<char>, bool)>, QueryError> {
    let (us, cur, q, depth, bad) = lex_scan(s);
    if q {
        Err(QueryError::UnbalancedQuote)
    } else if bad || depth != 0 {
        Err(QueryError::UnbalancedParenthesis)
    } else {
        Ok(flush(us, cur))
    }
}

pub open spec fn unit_view(v: Seq<Unit>) -> Seq<(Seq<char>, bool)> {
    v.map_values(|u: Unit| (u.text@, u.quoted))
}

pub fn is_space_exec(c: char) -> (r: bool)
    ensures
        r == is_space(c),
{
    let u = c as u32;
    (0x9 <= u && u <= 0xd) || u == 0x20 || u == 0x85 || u == 0xa0 || u == 0x1680 || (0x2000 <= u
        && u <= 0x200a) || u == 0x2028 || u == 0x2029 || u == 0x202f || u == 0x205f || u == 0x3000
}

fn flush_exec(us: &mut Vec<Unit>, cur: &mut Vec<char>)
    ensures
        unit_view(final(us)@) == flush(unit_view(old(us)@), old(cur)@),
        final(cur)@.len() == 0,
{
    if cur.len() > 0 {
        let mut t: Vec<char> = Vec::new();
        std::mem::swap(&mut t, cur);
        let ghost prev = us@;
        us.push(Unit { text: t, quoted: false });
        assert(unit_view(us@) == unit_view(prev).push((t@, false)));
    }
}

/// Splits a query string into units.
pub fn lex_exec(s: &Vec<char>) -> (r: Result<Vec<Unit>, QueryError>)
    ensures
        r matches Err(e) ==> lex(s@) == Err::<Seq<(Seq<char>, bool)>, QueryError>(e),
        r matches Ok(v) ==> lex(s@) == Ok::<Seq<(Seq<char>, bool)>, QueryError>(unit_view(v@)),
{
    let mut us: Vec<Unit> = Vec::new();
    let mut cur: Vec<char> = Vec::new();
    let mut q = false;
    let mut depth: usize = 0;
    let mut bad = false;
    let mut i: usize = 0;
    while i < s.len()
        invariant
            i <= s@.len(),
            depth <= i,
            lex_scan(s@.take(i as int)) == (unit_view(us@), cur@, q, depth as int, bad),
        decreases s@.len() - i,
    {
        let c = s[i];
        assert(s@.take(i + 1).drop_last() == s@.take(i as int));
        assert(s@.take(i + 1).last() == c);
        if q {
            if c == '"' {
                let mut t: Vec<char> = Vec::new();
                std::mem::swap(&mut t, &mut cur);
                let ghost prev = us@;
                us.push(Unit { text: t, quoted: true });
                assert(unit_view(us@) == unit_view(prev).push((t@, true)));
                q = false;
            } else {
                cur.push(c);
            }
        } else if c == '"' {
            flush_exec(&mut us, &mut cur);
            assert(cur@ == Seq::<char>::empty());
            q = true;
        } else if is_space_exec(c) {
            flush_exec(&mut us, &mut cur);
            assert(cur@ == Seq::<char>::empty());
        } else if c == '(' {
            flush_exec(&mut us, &mut cur);
            assert(cur@ == Seq::<char>::empty());
            depth = depth + 1;
        } else if c == ')' {
            flush_exec(&mut us, &mut cur);
            assert(cur@ == Seq::<char>::empty());
            if depth > 0 {
                depth = depth - 1;
            } else {
                bad = true;
            }
        } else {
            cur.push(c);
        }
        i = i + 1;
    }
    assert(s@.take(s@.len() as int) == s@);
    if q {
        Err(QueryError::UnbalancedQuote)
    } else if bad || depth != 0 {
        Err(QueryError::UnbalancedParenthesis)
    } else {
        flush_exec(&mut us, &mut cur);
        Ok(us)
    }
}

/// One leaf for each indexed field among the first `n`, in declaration order.
pub open spec fn field_leaves(fields: Seq<FieldEntry>, n: int, t: Seq<char>, g: usize, c: usize) -> Seq<LeafModel>
    decreases n,
{
    if n <= 0 {
        seq![]
    } else {
        field_leaves(fields, n - 1, t, g, c) + if fields[n - 1].indexed {
            seq![((n - 1) as usize, t, g, c)]
        } else {
            seq![]
        }
    }
}

/// The leaves of a unit's terms: term `i` becomes clause `c0 + i` of group `g`, on the
/// named field or else on every indexed field.
pub open spec fn expand(fields: Seq<FieldEntry>, terms: Seq<Seq<char>>, fsel: Option<usize>, g: usize, c0: int) -> Seq<LeafModel>
    decreases terms.len(),
{
    if terms.len() == 0 {
        seq![]
    } else {
        let c = (c0 + terms.len() - 1) as usize;
        let t = terms.last();
        expand(fields, terms.drop_last(), fsel, g, c0) + match fsel {
            Some(f) => seq![(f, t, g, c)],
            None => field_leaves(fields, fields.len() as int, t, g, c),
        }
    }
}

/// The position of the first `:` in `t`, or -1.
pub open spec fn find_colon(t: Seq<char>) -> int
    decreases t.len(),
{
    if t.len() == 0 {
        -1
    } else {
        let p = find_colon(t.drop_last());
        if p >= 0 {
            p
        } else if t.last() == ':' {
            t.len() - 1
        } else {
            -1
        }
    }
}

pub open spec fn is_op(u: (Seq<char>, bool)) -> bool {
    !u.1 && (u.0 == seq!['A', 'N', 'D'] || u.0 == seq!['O', 'R'])
}

/// The field may qualify a term: it is declared and indexed.
pub open spec fn field_ok(fields: Seq<FieldEntry>, name: Seq<char>) -> bool {
    known(fields, name) && fields[id_of(fields, name)].indexed
}

/// Parsing state: leaves so far, groups and clauses used, and what the last unit was
/// (0 nothing, 1 terms, 2 `AND`, 3 `OR`).
pub type ParseState = (Seq<LeafModel>, int, int, int);

pub open spec fn step(fields: Seq<FieldEntry>, st: ParseState, u: (Seq<char>, bool)) -> Result<ParseState, QueryError> {
    let (ls, gs, cs, last) = st;
    if is_op(u) {
        if last != 1 {
            Err(QueryError::MisplacedOperator)
        } else {
            Ok((ls, gs, cs, if u.0 == seq!['A', 'N', 'D'] { 2 } else { 3 }))
        }
    } else {
        let p = if u.1 { -1 } else { find_colon(u.0) };
        let name = u.0.take(p);
        let body = if p >= 0 { u.0.skip(p + 1) } else { u.0 };
        if p >= 0 && !field_ok(fields, name) {
            Err(QueryError::UnknownField)
        } else {
            let terms = terms_of(body);
            let join = last == 2;
            let g = if join { gs - 1 } else { gs };
            let ngs = if join { gs } else { gs + 1 };
            if ngs > usize::MAX || cs + terms.len() > usize::MAX {
                Err(QueryError::TooLong)
            } else {
                let fsel = if p >= 0 { Some(id_of(fields, name) as usize) } else { None };
                Ok((ls + expand(fields, terms, fsel, g as usize, cs), ngs, cs + terms.len(), 1))
            }
        }
    }
}

pub open spec fn parse_units(fields: Seq<FieldEntry>, us: Seq<(Seq<char>, bool)>) -> Result<ParseState, QueryError>
    decreases us.len(),
{
    if us.len() == 0 {
        Ok((seq![], 0, 0, 0))
    } else {
        match parse_units(fields, us.drop_last()) {
            Err(e) => Err(e),
            Ok(st) => step(fields, st, us.last()),
        }
    }
}

/// The leaves of a query string, or why it is refused.
pub open spec fn parse_spec(fields: Seq<FieldEntry>, s: Seq<char>) -> Result<Seq<LeafModel>, QueryError> {
    match lex(s) {
        Err(e) => Err(e),
        Ok(us) => if us.len() == 0 {
            Err(QueryError::Empty)
        } else {
            match parse_units(fields, us) {
                Err(e) => Err(e),
                Ok(st) => if st.3 == 1 {
                    Ok(st.0)
                } else {
                    Err(QueryError::MisplacedOperator)
                },
            }
        },
    }
}

fn find_colon_exec(t: &Vec<char>) -> (r: Option<usize>)
    ensures
        r matches Some(p) ==> p == find_colon(t@) && p < t@.len(),
        r is None ==> find_colon(t@) == -1,
{
    let mut i: usize = 0;
    while i < t.len()
        invariant
            i <= t@.len(),
            find_colon(t@.take(i as int)) == -1,
        decreases t@.len() - i,
    {
        assert(t@.take(i + 1).drop_last() == t@.take(i as int));
        if t[i] == ':' {
            proof {
                lemma_find_colon_prefix(t@, i as int + 1);
            }
            return Some(i);
        }
        i = i + 1;
    }
    assert(t@.take(i as int) == t@);
    None
}

proof fn lemma_find_colon_prefix(t: Seq<char>, n: int)
    requires
        0 < n <= t.len(),
        find_colon(t.take(n)) >= 0,
    ensures
        find_colon(t) == find_colon(t.take(n)),
    decreases t.len() - n,
{
    if n < t.len() {
        assert(t.take(n + 1).drop_last() == t.take(n));
        lemma_find_colon_prefix(t, n + 1);
    } else {
        assert(t.take(n) == t);
    }
}

/// The id of the field whose name is `name`, using the names as character vectors.
fn resolve_chars(schema: &Schema, names: &Vec<Vec<char>>, cand: &Vec<char>) -> (r: Option<usize>)
    requires
        schema.wf(),
        names@.len() == schema.fields@.len(),
        forall|i: int| 0 <= i < names@.len() ==> (#[trigger] names@[i])@ == schema.fields@[i].name@,
    ensures
        r matches Some(i) ==> names_at(schema.fields@, i as int, cand@) && id_of(schema.fields@, cand@) == i,
        r is None ==> !known(schema.fields@, cand@),
{
    let mut i: usize = 0;
    while i < names.len()
        invariant
            i <= names@.len(),
            schema.wf(),
            names@.len() == schema.fields@.len(),
            forall|i: int| 0 <= i < names@.len() ==> (#[trigger] names@[i])@ == schema.fields@[i].name@,
            forall|j: int| 0 <= j < i ==> !names_at(schema.fields@, j, cand@),
        decreases names@.len() - i,
    {
        if chars_eq(&names[i], cand) {
            proof {
                lemma_id_of(schema.fields@, i as int, cand@);
            }
            return Some(i);
        }
        i = i + 1;
    }
    None
}


fn slice_chars(t: &Vec<char>, from: usize, to: usize) -> (r: Vec<char>)
    requires
        from <= to <= t@.len(),
    ensures
        r@ == t@.subrange(from as int, to as int),
{
    let mut r: Vec<char> = Vec::new();
    let mut i: usize = from;
    while i < to
        invariant
            from <= i <= to,
            to <= t@.len(),
            r@ == t@.subrange(from as int, i as int),
        decreases to - i,
    {
        r.push(t[i]);
        assert(t@.subrange(from as int, i + 1) == t@.subrange(from as int, i as int).push(t@[i as int]));
        i = i + 1;
    }
    r
}

fn push_field_leaves(schema: &Schema, leaves: &mut Vec<QueryLeaf>, t: &Vec<char>, g: usize, c: usize)
    ensures
        leaf_view(final(leaves)@) == leaf_view(old(leaves)@) + field_leaves(
            schema.fields@,
            schema.fields@.len() as int,
            t@,
            g,
            c,
        ),
{
    let mut i: usize = 0;
    while i < schema.fields.len()
        invariant
            i <= schema.fields@.len(),
            leaf_view(leaves@) == leaf_view(old(leaves)@) + field_leaves(schema.fields@, i as int, t@, g, c),
        decreases schema.fields@.len() - i,
    {
        if schema.fields[i].indexed {
            let ghost prev = leaves@;
            leaves.push(QueryLeaf { field: i, term: copy_chars(t), group: g, clause: c });
            assert(leaf_view(leaves@) == leaf_view(prev).push((i, t@, g, c)));
        }
        i = i + 1;
    }
}

pub open spec fn terms_view(v: Seq<Vec<char>>) -> Seq<Seq<char>> {
    v.map_values(|t: Vec<char>| t@)
}

fn push_expand(
    schema: &Schema,
    leaves: &mut Vec<QueryLeaf>,
    terms: &Vec<Vec<char>>,
    fsel: Option<usize>,
    g: usize,
    c0: usize,
)
    requires
        c0 + terms@.len() <= usize::MAX,
    ensures
        leaf_view(final(leaves)@) == leaf_view(old(leaves)@) + expand(
            schema.fields@,
            terms_view(terms@),
            fsel,
            g,
            c0 as int,
        ),
{
    let ghost ts = terms_view(terms@);
    let mut m: usize = 0;
    while m < terms.len()
        invariant
            m <= terms@.len(),
            ts == terms_view(terms@),
            c0 + terms@.len() <= usize::MAX,
            leaf_view(leaves@) == leaf_view(old(leaves)@) + expand(
                schema.fields@,
                ts.take(m as int),
                fsel,
                g,
                c0 as int,
            ),
        decreases terms@.len() - m,
    {
        assert(ts.take(m + 1).drop_last() == ts.take(m as int));
        assert(ts.take(m + 1).last() == terms@[m as int]@);
        let ghost prev = leaves@;
        match fsel {
            Some(f) => {
                leaves.push(QueryLeaf { field: f, term: copy_chars(&terms[m]), group: g, clause: c0 + m });
                assert(leaf_view(leaves@) == leaf_view(prev).push((f, terms@[m as int]@, g, (c0 + m) as usize)));
            },
            None => {
                push_field_leaves(schema, leaves, &terms[m], g, c0 + m);
            },
        }
        m = m + 1;
    }
    assert(ts.take(m as int) == ts);
}

proof fn lemma_error_sticks(fields: Seq<FieldEntry>, us: Seq<(Seq<char>, bool)>, n: int, e: QueryError)
    requires
        0 <= n <= us.len(),
        parse_units(fields, us.take(n)) == Err::<ParseState, QueryError>(e),
    ensures
        parse_units(fields, us) == Err::<ParseState, QueryError>(e),
    decreases us.len() - n,
{
    if n < us.len() {
        assert(us.take(n + 1).drop_last() == us.take(n));
        lemma_error_sticks(fields, us, n + 1, e);
    } else {
        assert(us.take(n) == us);
    }
}

/// Parses a query string against the schema.
pub fn parse(schema: &Schema, query: &str) -> (r: Result<Query, QueryError>)
    requires
        schema.wf(),
    ensures
        r matches Ok(q) ==> parse_spec(schema.fields@, query@) == Ok::<Seq<LeafModel>, QueryError>(
            leaf_view(q.leaves@),
        ),
        r matches Err(e) ==> parse_spec(schema.fields@, query@) == Err::<Seq<LeafModel>, QueryError>(e),
{
    let ghost fields = schema.fields@;
    let cs_in = chars_of(query);
    let units = match lex_exec(&cs_in) {
        Err(e) => {
            return Err(e);
        },
        Ok(v) => v,
    };
    if units.len() == 0 {
        return Err(QueryError::Empty);
    }
    let ghost uv = unit_view(units@);
    let mut names: Vec<Vec<char>> = Vec::new();
    let mut k: usize = 0;
    while k < schema.fields.len()
        invariant
            k <= schema.fields@.len(),
            names@.len() == k,
            forall|i: int| 0 <= i < k ==> (#[trigger] names@[i])@ == schema.fields@[i].name@,
        decreases schema.fields@.len() - k,
    {
        names.push(chars_of(schema.fields[k].name.as_str()));
        k = k + 1;
    }
    let and_w: Vec<char> = vec!['A', 'N', 'D'];
    let or_w: Vec<char> = vec!['O', 'R'];
    let mut leaves: Vec<QueryLeaf> = Vec::new();
    let mut gs: usize = 0;
    let mut cs: usize = 0;
    let mut last: u8 = 0;
    let mut i: usize = 0;
    assert(uv.take(0) == Seq::<(Seq<char>, bool)>::empty());
    assert(leaf_view(leaves@) == Seq::<LeafModel>::empty());
    while i < units.len()
        invariant
            i <= units@.len(),
            uv == unit_view(units@),
            lex(query@) == Ok::<Seq<(Seq<char>, bool)>, QueryError>(uv),
            uv.len() > 0,
            fields == schema.fields@,
            schema.wf(),
            names@.len() == schema.fields@.len(),
            forall|i: int| 0 <= i < names@.len() ==> (#[trigger] names@[i])@ == schema.fields@[i].name@,
            and_w@ == seq!['A', 'N', 'D'],
            or_w@ == seq!['O', 'R'],
            last <= 3,
            last != 0 ==> gs > 0,
            parse_units(fields, uv.take(i as int)) == Ok::<ParseState, QueryError>(
                (leaf_view(leaves@), gs as int, cs as int, last as int),
            ),
        decreases units@.len() - i,
    {
        let ghost st = (leaf_view(leaves@), gs as int, cs as int, last as int);
        let ghost u = uv[i as int];
        assert(uv.take(i + 1).drop_last() == uv.take(i as int));
        assert(uv.take(i + 1).last() == u);
        let text = &units[i].text;
        let quoted = units[i].quoted;
        assert(u == (text@, quoted));
        if !quoted && (chars_eq(text, &and_w) || chars_eq(text, &or_w)) {
            if last != 1 {
                proof {
                    lemma_error_sticks(fields, uv, i + 1, QueryError::MisplacedOperator);
                }
                return Err(QueryError::MisplacedOperator);
            }
            last = if chars_eq(text, &and_w) { 2 } else { 3 };
        } else {
            let colon = if quoted { None } else { find_colon_exec(text) };
            let mut fsel: Option<usize> = None;
            let body = match colon {
                None => copy_chars(text),
                Some(p) => {
                    let name = slice_chars(text, 0, p);
                    assert(name@ == text@.take(p as int));
                    match resolve_chars(schema, &names, &name) {
                        None => {
                            proof {
                                lemma_error_sticks(fields, uv, i + 1, QueryError::UnknownField);
                            }
                            return Err(QueryError::UnknownField);
                        },
                        Some(f) => {
                            if !schema.fields[f].indexed {
                                proof {
                                    lemma_error_sticks(fields, uv, i + 1, QueryError::UnknownField);
                                }
                                return Err(QueryError::UnknownField);
                            }
                            fsel = Some(f);
                        },
                    }
                    let tl = text.len();
                    assert(p < tl);
                    let b = slice_chars(text, p + 1, tl);
                    assert(b@ == text@.skip(p + 1));
                    b
                },
            };
            let terms = tokenize_chars(&body);
            assert(terms_view(terms@) == terms_of(body@));
            let join = last == 2;
            if !join && gs == usize::MAX || terms.len() > usize::MAX - cs {
                proof {
                    lemma_error_sticks(fields, uv, i + 1, QueryError::TooLong);
                }
                return Err(QueryError::TooLong);
            }
            let g = if join { gs - 1 } else { gs };
            push_expand(schema, &mut leaves, &terms, fsel, g, cs);
            if !join {
                gs = gs + 1;
            }
            cs = cs + terms.len();
            last = 1;
        }
        i = i + 1;
    }
    assert(uv.take(i as int) == uv);
    if last != 1 {
        return Err(QueryError::MisplacedOperator);
    }
    Ok(Query { leaves })
}

} // verus!
