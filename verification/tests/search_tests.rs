use tfidf_search::indexer::build;
use tfidf_search::search::{query, query_terms, score_document};

fn corpus(pairs: &[(&str, &str)]) -> Vec<(String, String)> {
    pairs
        .iter()
        .map(|(id, text)| (id.to_string(), text.to_string()))
        .collect()
}

#[test]
fn query_terms_match_indexing_pipeline() {
    let terms = query_terms("who, are you! ✅");
    assert_eq!(terms, vec!["WHO", "ARE", "YOU", "✅"]);
    assert_eq!(query_terms(""), Vec::<String>::new());
    assert_eq!(query_terms(" ,. !"), Vec::<String>::new());
}

#[test]
fn ranking_scenario_two_documents() {
    // doc a: {CAT: 2, DOG: 1}, three tokens; doc b: {DOG: 3}, three tokens
    let m = build(corpus(&[("a", "cat cat dog"), ("b", "dog dog dog")]));
    let r = query(&m, "cat", 10);
    assert_eq!(r.len(), 2);
    assert_eq!(r[0].0, "a");
    assert!(r[0].1 > 0);
    assert_eq!(r[1].0, "b");
    assert_eq!(r[1].1, 0);
    // the exact fixed-point value: (2 / 3) * idf(2, 1) * 10^6
    // with idf(2, 1) = 111_111 fixed-point units
    assert_eq!(r[0].1, 2 * 111_111 * 1_000_000 / 3);
}

#[test]
fn repeated_query_terms_count_per_occurrence() {
    let m = build(corpus(&[("a", "cat cat dog"), ("b", "dog dog dog")]));
    let once = query(&m, "cat", 10);
    let twice = query(&m, "cat cat", 10);
    assert_eq!(twice[0].1, 2 * once[0].1);
}

#[test]
fn top_k_truncates_to_ten() {
    let mut docs = Vec::new();
    for i in 0..15 {
        let id = format!("doc{:02}", i);
        // every document mentions SHARED; a few also mention RARE
        let text = if i % 3 == 0 {
            "rare shared".to_string()
        } else {
            "shared shared".to_string()
        };
        docs.push((id, text));
    }
    let m = build(docs);
    assert_eq!(m.doc_count(), 15);
    let r = query(&m, "rare shared", 10);
    assert_eq!(r.len(), 10);
    // scores never ascend, and among equal scores identifiers ascend
    for w in r.windows(2) {
        assert!(w[0].1 >= w[1].1);
        if w[0].1 == w[1].1 {
            assert!(w[0].0 < w[1].0);
        }
    }
    // the documents containing the rare term outrank the rest
    assert_eq!(r[0].0, "doc00");
    assert!(r[0].1 > r[5].1);
}

#[test]
fn empty_query_scores_all_documents_zero_in_id_order() {
    let m = build(corpus(&[("c", "gamma"), ("a", "alpha"), ("b", "beta")]));
    let r = query(&m, "", 10);
    assert_eq!(r.len(), 3);
    assert_eq!(r[0], ("a".to_string(), 0));
    assert_eq!(r[1], ("b".to_string(), 0));
    assert_eq!(r[2], ("c".to_string(), 0));
}

#[test]
fn querying_an_empty_model_finds_nothing() {
    let m = build(Vec::new());
    let r = query(&m, "anything", 10);
    assert!(r.is_empty());
}

#[test]
fn score_document_matches_query() {
    let m = build(corpus(&[("a", "cat cat dog"), ("b", "dog dog dog")]));
    let terms = query_terms("cat dog");
    let sa = score_document(&m, 0, &terms);
    let sb = score_document(&m, 1, &terms);
    // DOG occurs in both documents: idf(2, 2) is zero, so only CAT scores
    assert_eq!(sa, 2 * 111_111 * 1_000_000 / 3);
    assert_eq!(sb, 0);
    let r = query(&m, "cat dog", 2);
    assert_eq!(r[0], ("a".to_string(), sa));
    assert_eq!(r[1], ("b".to_string(), sb));
}

#[test]
fn k_zero_returns_nothing() {
    let m = build(corpus(&[("a", "cat")]));
    assert!(query(&m, "cat", 0).is_empty());
}
