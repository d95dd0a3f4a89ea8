use minisearch::engine::{collect, leaf_weight, sat_add, Query, QueryLeaf};
use minisearch::index::{Document, IndexBuilder, IndexError, InvertedIndex, Posting};
use minisearch::query::{parse, QueryError};
use minisearch::schema::{Schema, SchemaError};
use minisearch::search::{evaluate_query, serialize, ResultRecord, Search, SearchError};
use minisearch::tokenizer::tokenize;
use minisearch::topk::{offer, Hit};

const MICE_BODY: &str = "A few miles south of Soledad, the Salinas River drops in close to the hillside \
     bank and runs deep and green. The water is warm too, for it has slipped twinkling \
     over the yellow sands in the sunlight before reaching the narrow pool. On one \
     side of the river the golden foothill slopes curve up to the strong and rocky \
     Gabilan Mountains, but on the valley side the water is lined with trees\u{2014}willows \
     fresh and green with every spring, carrying in their lower leaf junctures the \
     debris of the winter\u{2019}s flooding; and sycamores with mottled, white, recumbent \
     limbs and branches that arch over the pool";

fn corpus() -> InvertedIndex {
    let mut schema = Schema::new();
    assert_eq!(schema.define_field("title", true, true), Ok(0));
    assert_eq!(schema.define_field("body", true, false), Ok(1));
    let mut builder = IndexBuilder::new(schema);

    let mut old_man = Document::new();
    old_man.add_field("title", "The Old Man and the Sea");
    old_man.add_field(
        "body",
        "He was an old man who fished alone in a skiff in the Gulf Stream and \
         he had gone eighty-four days now without taking a fish.",
    );
    assert_eq!(builder.add_document(&old_man), Ok(0));

    for expected in 1..3usize {
        let mut mice = Document::new();
        mice.add_field("title", "Of Mice and Men");
        mice.add_field("body", MICE_BODY);
        assert_eq!(builder.add_document(&mice), Ok(expected));
    }

    let mut frankenstein = Document::new();
    frankenstein.add_field("title", "Frankenstein");
    frankenstein.add_field("title", "The Modern Prometheus");
    frankenstein.add_field(
        "body",
        "You will rejoice to hear that no disaster has accompanied the commencement of an \
         enterprise which you have regarded with such evil forebodings.  I arrived here \
         yesterday, and my first task is to assure my dear sister of my welfare and \
         increasing confidence in the success of my undertaking.",
    );
    assert_eq!(builder.add_document(&frankenstein), Ok(3));

    match builder.commit() {
        Ok(ix) => ix,
        Err(_) => panic!("commit failed"),
    }
}

fn titles(rec: &ResultRecord) -> Vec<String> {
    assert_eq!(rec.fields.len(), 1);
    assert_eq!(rec.fields[0].0, "title");
    rec.fields[0].1.clone()
}

fn chars(s: &str) -> Vec<char> {
    s.chars().collect()
}

#[test]
fn scenario_soledad_finds_both_mice_documents() {
    let ix = corpus();
    let recs = match evaluate_query(&ix, "Soledad", 10) {
        Ok(r) => r,
        Err(_) => panic!("query refused"),
    };
    assert_eq!(recs.len(), 2);
    assert_eq!(recs[0].doc, 1);
    assert_eq!(recs[1].doc, 2);
    for rec in &recs {
        assert_eq!(titles(rec), vec!["Of Mice and Men".to_string()]);
    }
}

#[test]
fn scenario_prometheus_returns_multivalued_title() {
    let ix = corpus();
    let recs = match evaluate_query(&ix, "Prometheus", 10) {
        Ok(r) => r,
        Err(_) => panic!("query refused"),
    };
    assert_eq!(recs.len(), 1);
    assert_eq!(recs[0].doc, 3);
    assert_eq!(
        titles(&recs[0]),
        vec!["Frankenstein".to_string(), "The Modern Prometheus".to_string()]
    );
}

#[test]
fn scenario_absent_word_gives_empty_result() {
    let ix = corpus();
    match evaluate_query(&ix, "nonexistentwordzzz", 10) {
        Ok(r) => assert!(r.is_empty()),
        Err(_) => panic!("query refused"),
    }
}

#[test]
fn scenario_unbalanced_quote_is_a_parse_error() {
    let ix = corpus();
    match evaluate_query(&ix, "\"old man", 10) {
        Err(e) => assert_eq!(e, SearchError::Query(QueryError::UnbalancedQuote)),
        Ok(_) => panic!("query accepted"),
    }
}

#[test]
fn either_title_value_returns_the_document_once() {
    let ix = corpus();
    for q in ["frankenstein", "modern", "frankenstein OR prometheus", "title:prometheus"] {
        let recs = match evaluate_query(&ix, q, 10) {
            Ok(r) => r,
            Err(_) => panic!("query refused"),
        };
        assert_eq!(recs.len(), 1);
        assert_eq!(recs[0].doc, 3);
    }
}

#[test]
fn non_stored_body_never_in_records() {
    let ix = corpus();
    let recs = match evaluate_query(&ix, "skiff", 10) {
        Ok(r) => r,
        Err(_) => panic!("query refused"),
    };
    assert_eq!(recs.len(), 1);
    assert_eq!(recs[0].doc, 0);
    assert_eq!(titles(&recs[0]), vec!["The Old Man and the Sea".to_string()]);
}

#[test]
fn field_query_finds_document_with_term() {
    let ix = corpus();
    let recs = match evaluate_query(&ix, "body:fished", 10) {
        Ok(r) => r,
        Err(_) => panic!("query refused"),
    };
    assert_eq!(recs.len(), 1);
    assert_eq!(recs[0].doc, 0);
    match evaluate_query(&ix, "title:fished", 10) {
        Ok(r) => assert!(r.is_empty()),
        Err(_) => panic!("query refused"),
    }
}

#[test]
fn tokenize_splits_and_lowercases() {
    let toks = tokenize("Hello, World! x2--eighty-four");
    assert_eq!(toks, vec![chars("hello"), chars("world"), chars("x2"), chars("eighty"), chars("four")]);
    assert!(tokenize("").is_empty());
    assert!(tokenize(" ,;\u{2014} ").is_empty());
    assert_eq!(tokenize("winter\u{2019}s"), vec![chars("winter"), chars("s")]);
}

#[test]
fn tokenize_handles_unicode_letters() {
    assert_eq!(tokenize("Caf\u{e9} na\u{ef}ve"), vec![chars("caf\u{e9}"), chars("na\u{ef}ve")]);
    assert_eq!(tokenize("ta\u{212a}ing"), vec![chars("taking")]);
    assert_eq!(tokenize("\u{c9}T\u{c9}"), vec![chars("\u{e9}t\u{e9}")]);
}

#[test]
fn unicode_query_is_folded_like_the_text() {
    let ix = corpus();
    let recs = match evaluate_query(&ix, "ta\u{212a}ing", 10) {
        Ok(r) => r,
        Err(_) => panic!("query refused"),
    };
    assert_eq!(recs.len(), 1);
    assert_eq!(recs[0].doc, 0);
    match evaluate_query(&ix, "caf\u{e9}", 10) {
        Ok(r) => assert!(r.is_empty()),
        Err(_) => panic!("query refused"),
    }
}

#[test]
fn unbalanced_parentheses_are_refused() {
    let ix = corpus();
    for q in ["(soledad", "soledad)", "(old (man)", ")(sea"] {
        match evaluate_query(&ix, q, 10) {
            Err(e) => assert_eq!(e, SearchError::Query(QueryError::UnbalancedParenthesis)),
            Ok(_) => panic!("query accepted"),
        }
    }
    let recs = match evaluate_query(&ix, "(soledad)", 10) {
        Ok(r) => r,
        Err(_) => panic!("query refused"),
    };
    assert_eq!(recs.len(), 2);
    match evaluate_query(&ix, "\"(soledad\"", 10) {
        Ok(r) => assert_eq!(r.len(), 2),
        Err(_) => panic!("query refused"),
    }
    match evaluate_query(&ix, "\"open (", 10) {
        Err(e) => assert_eq!(e, SearchError::Query(QueryError::UnbalancedQuote)),
        Ok(_) => panic!("query accepted"),
    }
}

#[test]
fn define_field_refuses_duplicates_and_unused_fields() {
    let mut schema = Schema::new();
    assert_eq!(schema.define_field("title", true, true), Ok(0));
    assert_eq!(schema.define_field("title", true, false), Err(SchemaError::DuplicateField));
    assert_eq!(schema.define_field("note", false, false), Err(SchemaError::UnusedField));
    assert_eq!(schema.define_field("body", true, false), Ok(1));
    assert_eq!(schema.field_id("body"), Some(1));
    assert_eq!(schema.field_id("missing"), None);
}

#[test]
fn add_document_refuses_unknown_field_and_frozen_index() {
    let mut schema = Schema::new();
    assert_eq!(schema.define_field("title", true, true), Ok(0));
    let mut builder = IndexBuilder::new(schema);
    let mut bad = Document::new();
    bad.add_field("title", "x");
    bad.add_field("author", "y");
    assert_eq!(builder.add_document(&bad), Err(IndexError::UnknownField));
    let mut good = Document::new();
    good.add_field("title", "x");
    assert_eq!(builder.add_document(&good), Ok(0));
    let ix = match builder.commit() {
        Ok(ix) => ix,
        Err(_) => panic!("commit failed"),
    };
    assert_eq!(ix.document_count(), 1);
    assert_eq!(builder.add_document(&good), Err(IndexError::IndexFrozen));
    assert!(matches!(builder.commit(), Err(IndexError::IndexFrozen)));
}

#[test]
fn lookup_gives_sorted_postings_with_frequencies() {
    let ix = corpus();
    assert_eq!(ix.document_count(), 4);
    let the = chars("the");
    assert_eq!(
        ix.lookup(0, &the),
        vec![Posting { doc: 0, tf: 2 }, Posting { doc: 3, tf: 1 }]
    );
    assert_eq!(ix.document_frequency(0, &the), 2);
    assert_eq!(ix.lookup(1, &chars("soledad")), vec![Posting { doc: 1, tf: 1 }, Posting { doc: 2, tf: 1 }]);
    assert!(ix.lookup(1, &chars("zzz")).is_empty());
    assert_eq!(ix.document_frequency(1, &chars("zzz")), 0);
}

#[test]
fn parse_builds_groups_and_clauses() {
    let ix = corpus();
    let q = match parse(&ix.schema, "title:Old man AND sea") {
        Ok(q) => q,
        Err(_) => panic!("query refused"),
    };
    let leaves: Vec<(usize, String, usize, usize)> = q
        .leaves
        .iter()
        .map(|l| (l.field, l.term.iter().collect::<String>(), l.group, l.clause))
        .collect();
    assert_eq!(
        leaves,
        vec![
            (0, "old".to_string(), 0, 0),
            (0, "man".to_string(), 1, 1),
            (1, "man".to_string(), 1, 1),
            (0, "sea".to_string(), 1, 2),
            (1, "sea".to_string(), 1, 2),
        ]
    );
}

#[test]
fn parse_errors() {
    let ix = corpus();
    let err = |s: &str| match parse(&ix.schema, s) {
        Err(e) => e,
        Ok(_) => panic!("query accepted"),
    };
    assert_eq!(err(""), QueryError::Empty);
    assert_eq!(err("   "), QueryError::Empty);
    assert_eq!(err("\"open"), QueryError::UnbalancedQuote);
    assert_eq!(err("author:x"), QueryError::UnknownField);
    assert_eq!(err("AND old"), QueryError::MisplacedOperator);
    assert_eq!(err("old AND"), QueryError::MisplacedOperator);
    assert_eq!(err("old OR AND man"), QueryError::MisplacedOperator);
}

#[test]
fn dropped_terms_and_phrases() {
    let ix = corpus();
    match evaluate_query(&ix, "!!!", 10) {
        Ok(r) => assert!(r.is_empty()),
        Err(_) => panic!("query refused"),
    }
    let recs = match evaluate_query(&ix, "\"old man\"", 10) {
        Ok(r) => r,
        Err(_) => panic!("query refused"),
    };
    assert_eq!(recs.len(), 1);
    assert_eq!(recs[0].doc, 0);
    let recs = match evaluate_query(&ix, "sea AND soledad", 10) {
        Ok(r) => r,
        Err(_) => panic!("query refused"),
    };
    assert!(recs.is_empty());
}

#[test]
fn collect_scores_and_bounds() {
    let ix = corpus();
    let q = match parse(&ix.schema, "prometheus") {
        Ok(q) => q,
        Err(_) => panic!("query refused"),
    };
    assert_eq!(collect(&q, &ix, 10), vec![Hit { doc: 3, score: 250 }]);
    let q = match parse(&ix.schema, "soledad") {
        Ok(q) => q,
        Err(_) => panic!("query refused"),
    };
    assert_eq!(collect(&q, &ix, 10), vec![Hit { doc: 1, score: 150 }, Hit { doc: 2, score: 150 }]);
    assert_eq!(collect(&q, &ix, 1), vec![Hit { doc: 1, score: 150 }]);
    assert!(collect(&q, &ix, 0).is_empty());
}

#[test]
fn collect_orders_by_descending_score() {
    let ix = corpus();
    let q = Query {
        leaves: vec![
            QueryLeaf { field: 0, term: chars("the"), group: 0, clause: 0 },
            QueryLeaf { field: 0, term: chars("the"), group: 1, clause: 1 },
        ],
    };
    let hits = collect(&q, &ix, 10);
    assert_eq!(hits.len(), 2);
    assert_eq!(hits[0].doc, 0);
    assert_eq!(hits[1].doc, 3);
    assert!(hits[0].score > hits[1].score);
}

#[test]
fn weights_are_exact() {
    assert_eq!(leaf_weight(0, 2, 10), 0);
    assert_eq!(leaf_weight(1, 1, 4), 250);
    assert_eq!(leaf_weight(3, 2, 10), 450);
    assert_eq!(leaf_weight(5, 0, 10), 0);
    assert_eq!(sat_add(u64::MAX - 1, 5), u64::MAX);
    assert_eq!(sat_add(2, 3), 5);
}

#[test]
fn offer_keeps_best_k() {
    let mut buf: Vec<Hit> = Vec::new();
    offer(&mut buf, Hit { doc: 0, score: 5 }, 2);
    offer(&mut buf, Hit { doc: 1, score: 9 }, 2);
    offer(&mut buf, Hit { doc: 2, score: 5 }, 2);
    assert_eq!(buf, vec![Hit { doc: 1, score: 9 }, Hit { doc: 0, score: 5 }]);
    offer(&mut buf, Hit { doc: 3, score: 7 }, 2);
    assert_eq!(buf, vec![Hit { doc: 1, score: 9 }, Hit { doc: 3, score: 7 }]);
}

#[test]
fn serialize_checks_document_id() {
    let ix = corpus();
    assert!(matches!(serialize(&ix, 4), Err(SearchError::MissingDocument)));
    let rec = match serialize(&ix, 3) {
        Ok(r) => r,
        Err(_) => panic!("missing"),
    };
    assert_eq!(titles(&rec), vec!["Frankenstein".to_string(), "The Modern Prometheus".to_string()]);
}

#[test]
fn search_form_holds_query() {
    let s = Search { search: "bar".to_string() };
    assert_eq!(s.search, "bar");
}

#[test]
fn unicode_blank_queries_are_empty() {
    let ix = corpus();
    for q in ["\u{c}", "\u{a0}", " \u{3000}\u{2028}\t", "\u{85}"] {
        match evaluate_query(&ix, q, 10) {
            Err(e) => assert_eq!(e, SearchError::Query(QueryError::Empty)),
            Ok(_) => panic!("query accepted"),
        }
    }
}

#[test]
fn unicode_white_space_separates_words() {
    let ix = corpus();
    let recs = match evaluate_query(&ix, "Soledad\u{a0}Prometheus", 10) {
        Ok(r) => r,
        Err(_) => panic!("query refused"),
    };
    let docs: Vec<usize> = recs.iter().map(|r| r.doc).collect();
    assert_eq!(docs, vec![3, 1, 2]);
}

#[test]
fn offer_accepts_ids_in_any_order() {
    let mut buf: Vec<Hit> = Vec::new();
    offer(&mut buf, Hit { doc: 7, score: 5 }, 3);
    offer(&mut buf, Hit { doc: 2, score: 5 }, 3);
    offer(&mut buf, Hit { doc: 4, score: 8 }, 3);
    offer(&mut buf, Hit { doc: 1, score: 1 }, 3);
    assert_eq!(
        buf,
        vec![Hit { doc: 4, score: 8 }, Hit { doc: 2, score: 5 }, Hit { doc: 7, score: 5 }]
    );
}
