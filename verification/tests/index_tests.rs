use tfidf_search::idf::idf_value;
use tfidf_search::indexer::{build, index_document, is_word, load_index, recompute_df, trim_token};
use tfidf_search::model::{calc_idf, calc_tf, Model, TermFreq};

fn corpus(pairs: &[(&str, &str)]) -> Vec<(String, String)> {
    pairs
        .iter()
        .map(|(id, text)| (id.to_string(), text.to_string()))
        .collect()
}

#[test]
fn word_filter_drops_punctuation_runs() {
    assert!(!is_word(""));
    assert!(!is_word(","));
    assert!(!is_word("?!..."));
    assert!(is_word("GL4"));
    assert!(is_word("A,B"));
    assert!(is_word("✅"));
}

#[test]
fn trim_token_strips_any_whitespace() {
    assert_eq!(trim_token("  abc\t"), "abc");
    assert_eq!(trim_token("\u{a0}"), "");
    assert_eq!(trim_token("x"), "x");
}

#[test]
fn index_document_counts_terms() {
    let tf = index_document("cat cat dog");
    assert_eq!(tf.get("CAT"), 2);
    assert_eq!(tf.get("DOG"), 1);
    assert_eq!(tf.get("BIRD"), 0);
    assert_eq!(tf.total(), 3);
    // stored entries come out in ascending term order
    let entries = tf.entries();
    assert_eq!(entries[0].0, "CAT");
    assert_eq!(entries[1].0, "DOG");
}

#[test]
fn index_document_drops_punctuation_and_unicode_whitespace() {
    // the comma and the exclamation mark are punctuation-only tokens; the
    // no-break space is whitespace-only after trimming
    let tf = index_document("who, are you!\u{a0}now");
    assert_eq!(tf.get("WHO"), 1);
    assert_eq!(tf.get("ARE"), 1);
    assert_eq!(tf.get("YOU"), 1);
    assert_eq!(tf.get("NOW"), 1);
    assert_eq!(tf.total(), 4);
}

#[test]
fn empty_document_is_indexed_empty() {
    let tf = index_document("  ,,, ");
    assert_eq!(tf.total(), 0);
    assert_eq!(tf.len(), 0);
}

#[test]
fn tf_is_exact_fraction() {
    let tf = index_document("cat cat dog");
    assert_eq!(calc_tf("CAT", &tf), (2, 3));
    assert_eq!(calc_tf("DOG", &tf), (1, 3));
    assert_eq!(calc_tf("BIRD", &tf), (0, 3));
}

#[test]
fn tf_numerators_sum_to_denominator() {
    let tf = index_document("to be or not to be");
    let mut sum: usize = 0;
    for i in 0..tf.len() {
        let term = tf.term_at(i).clone();
        let (count, total) = calc_tf(term.as_str(), &tf);
        assert_eq!(total, tf.total());
        sum += count;
    }
    assert_eq!(sum, tf.total());
}

#[test]
fn idf_fixed_point_values() {
    // one decade is exactly the scale
    assert_eq!(idf_value(10, 1), 1_000_000);
    assert_eq!(idf_value(100, 1), 2_000_000);
    // ratio one scores zero
    assert_eq!(idf_value(5, 5), 0);
    assert_eq!(idf_value(1, 1), 0);
    // inside a decade the position is interpolated: (2 - 1) / (9 * 1)
    assert_eq!(idf_value(2, 1), 111_111);
    // (3 - 2) / (9 * 2) of the scale
    assert_eq!(idf_value(3, 2), 55_555);
    // ratios below one clamp to zero
    assert_eq!(idf_value(1, 2), 0);
    assert_eq!(idf_value(0, 1), 0);
}

#[test]
fn idf_never_negative_examples() {
    for n in 0..30usize {
        for m in 0..30usize {
            let v = idf_value(n, m);
            if m >= 1 && m <= n {
                assert!(v <= 20_000_000);
            } else {
                assert_eq!(v, 0);
            }
        }
    }
}

#[test]
fn build_links_document_frequency() {
    let m = build(corpus(&[("a", "cat dog"), ("b", "dog bird"), ("c", "dog")]));
    assert_eq!(m.doc_count(), 3);
    let df = m.df_entries();
    let expected: Vec<(String, usize)> = vec![
        ("BIRD".to_string(), 1),
        ("CAT".to_string(), 1),
        ("DOG".to_string(), 3),
    ];
    assert_eq!(df, &expected);
}

#[test]
fn recomputed_df_matches_stored() {
    let m = build(corpus(&[
        ("x", "alpha beta beta"),
        ("y", "beta gamma"),
        ("z", ""),
    ]));
    let recomputed = recompute_df(&m);
    assert_eq!(&recomputed, m.df_entries());
}

#[test]
fn build_is_order_insensitive() {
    let m1 = build(corpus(&[("a", "cat dog"), ("b", "dog bird"), ("c", "")]));
    let m2 = build(corpus(&[("c", ""), ("b", "dog bird"), ("a", "cat dog")]));
    assert!(m1.model_eq(&m2));
    let m3 = build(corpus(&[("a", "cat dog"), ("b", "dog bird"), ("c", "")]));
    assert!(m1.model_eq(&m3));
    // and a different corpus is told apart
    let m4 = build(corpus(&[("a", "cat dog"), ("b", "dog"), ("c", "")]));
    assert!(!m1.model_eq(&m4));
}

#[test]
fn duplicate_identifier_keeps_the_later_document() {
    let m = build(corpus(&[("a", "cat"), ("a", "dog")]));
    assert_eq!(m.doc_count(), 1);
    let tf = m.doc_tf(0);
    assert_eq!(tf.get("DOG"), 1);
    assert_eq!(tf.get("CAT"), 0);
}

#[test]
fn df_lookup_defaults_to_one() {
    let m = build(corpus(&[("a", "cat"), ("b", "cat")]));
    assert_eq!(m.df_lookup("CAT"), 2);
    assert_eq!(m.df_lookup("DOG"), 1);
    assert_eq!(calc_idf("CAT", &m), 0);
    assert_eq!(calc_idf("DOG", &m), 111_111);
}

#[test]
fn from_entries_rejects_bad_statistics() {
    // unsorted terms
    let bad = vec![("DOG".to_string(), 1usize), ("CAT".to_string(), 1usize)];
    assert!(TermFreq::from_entries(bad).is_none());
    // duplicate terms
    let dup = vec![("CAT".to_string(), 1usize), ("CAT".to_string(), 2usize)];
    assert!(TermFreq::from_entries(dup).is_none());
    // a zero count
    let zero = vec![("CAT".to_string(), 0usize)];
    assert!(TermFreq::from_entries(zero).is_none());
    // a sorted, positive list is accepted
    let good = vec![("CAT".to_string(), 2usize), ("DOG".to_string(), 1usize)];
    assert!(TermFreq::from_entries(good).is_some());
}

#[test]
fn load_index_round_trip() {
    let m = build(corpus(&[("a", "cat dog"), ("b", "dog")]));
    // re-assemble the persisted shape from the model's own parts
    let mut docs: Vec<(String, Vec<(String, usize)>)> = Vec::new();
    for i in 0..m.doc_count() {
        docs.push((m.doc_id(i).clone(), m.doc_tf(i).entries().clone()));
    }
    let df = m.df_entries().clone();
    let loaded = load_index(&docs, df).expect("a persisted build must load");
    assert!(loaded.model_eq(&m));
}

#[test]
fn load_index_rejects_inconsistent_df() {
    let m = build(corpus(&[("a", "cat dog"), ("b", "dog")]));
    let mut docs: Vec<(String, Vec<(String, usize)>)> = Vec::new();
    for i in 0..m.doc_count() {
        docs.push((m.doc_id(i).clone(), m.doc_tf(i).entries().clone()));
    }
    // claim CAT occurs in two documents; it occurs in one
    let df = vec![("CAT".to_string(), 2usize), ("DOG".to_string(), 2usize)];
    assert!(load_index(&docs, df).is_none());
    // unsorted document identifiers are rejected too
    let mut backwards = docs.clone();
    backwards.reverse();
    let df_ok = m.df_entries().clone();
    assert!(load_index(&backwards, df_ok).is_none());
}

#[test]
fn empty_model_is_well_formed() {
    let m = Model::new();
    assert_eq!(m.doc_count(), 0);
    assert!(m.df_entries().is_empty());
}
