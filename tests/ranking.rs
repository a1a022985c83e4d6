use meilisearch_core::{
    bucket_sort, bucket_sort_with_distinct, sort_window, Criterion, DocIndex, PostingsKey, SortResult,
};
use std::collections::HashMap;

fn pos(document_id: u64, word_index: u16) -> DocIndex {
    DocIndex { document_id, attribute: 0, word_index, char_index: 0, char_length: 1 }
}

fn key(query: usize) -> PostingsKey {
    PostingsKey { query, input: b"captain".to_vec(), distance: 0, is_exact: true }
}

fn criterion(ranks: &[(u64, u64)]) -> Criterion {
    let mut m = HashMap::new();
    for (d, r) in ranks {
        m.insert(*d, *r);
    }
    Criterion::new(m)
}

fn one_term(docs: &[u64]) -> Vec<(PostingsKey, Vec<DocIndex>)> {
    vec![(key(0), docs.iter().map(|d| pos(*d, 0)).collect())]
}

fn search(docids: &[u64], range: std::ops::Range<usize>, criteria: &Vec<Criterion>) -> SortResult {
    bucket_sort(&docids.to_vec(), one_term(docids), range, None, None, None, criteria)
}

#[test]
fn empty_index_search_has_no_hits() {
    let r = bucket_sort(&vec![], vec![], 0..3, None, None, None, &vec![]);
    assert!(r.documents.is_empty());
    assert_eq!(r.nb_hits, 0);
    assert!(r.facets.is_none());
    assert_eq!(r.exhaustive_facets_count, None);
}

#[test]
fn pagination_beyond_candidates_is_empty() {
    let r = search(&[1, 2, 3], 5..10, &vec![]);
    assert!(r.documents.is_empty());
    assert_eq!(r.nb_hits, 3);
}

#[test]
fn documents_follow_the_rules_then_the_identifier() {
    let c1 = criterion(&[(1, 2), (2, 1), (3, 2), (4, 0)]);
    let c2 = criterion(&[(1, 5), (3, 4)]);
    let r = search(&[1, 2, 3, 4], 0..4, &vec![c1, c2]);
    assert_eq!(r.documents, vec![4, 2, 3, 1]);
    let r = search(&[1, 2, 3, 4], 1..3, &vec![criterion(&[(1, 2), (2, 1), (3, 2), (4, 0)]), criterion(&[(1, 5), (3, 4)])]);
    assert_eq!(r.documents, vec![2, 3]);
}

#[test]
fn without_rules_documents_stay_in_identifier_order() {
    let r = search(&[3, 7, 9], 0..10, &vec![]);
    assert_eq!(r.documents, vec![3, 7, 9]);
}

fn oracle(ids: &[u64], f: &dyn Fn(usize, u64) -> u64) -> Vec<u64> {
    let mut v: Vec<(Vec<u64>, u64)> = ids.iter().map(|d| ((0..2).map(|c| f(c, *d)).collect(), *d)).collect();
    v.sort();
    v.into_iter().map(|(_, d)| d).collect()
}

#[test]
fn early_termination_matches_full_sort() {
    let ids: Vec<u64> = (1..=1000).collect();
    let f = |c: usize, d: u64| if c == 0 { d % 7 } else { (d * 31) % 11 };
    let c0: Vec<(u64, u64)> = ids.iter().map(|d| (*d, f(0, *d))).collect();
    let c1: Vec<(u64, u64)> = ids.iter().map(|d| (*d, f(1, *d))).collect();
    let criteria = vec![criterion(&c0), criterion(&c1)];
    let full = oracle(&ids, &f);
    let page = sort_window(&ids, &criteria, 0, 10);
    assert_eq!(page, full[0..10].to_vec());
    let page = sort_window(&ids, &criteria, 990, 1000);
    assert_eq!(page, full[990..1000].to_vec());
}

#[test]
fn every_window_matches_full_sort() {
    let ids: Vec<u64> = (1..=30).collect();
    let f = |c: usize, d: u64| if c == 0 { d % 3 } else { (d * 7) % 5 };
    let c0: Vec<(u64, u64)> = ids.iter().map(|d| (*d, f(0, *d))).collect();
    let c1: Vec<(u64, u64)> = ids.iter().map(|d| (*d, f(1, *d))).collect();
    let criteria = vec![criterion(&c0), criterion(&c1)];
    let full = oracle(&ids, &f);
    for s in 0..32 {
        for e in s..33 {
            let page = sort_window(&ids, &criteria, s, e);
            let lo = s.min(30);
            let hi = e.min(30);
            assert_eq!(page, full[lo..hi].to_vec(), "window {}..{}", s, e);
        }
    }
}

#[test]
fn facet_filter_restricts_the_hits() {
    let docids = vec![1, 2, 3, 4, 5];
    let r = bucket_sort(&docids, one_term(&docids), 0..10, Some(vec![2, 4, 6]), None, None, &vec![]);
    assert_eq!(r.nb_hits, 2);
    assert_eq!(r.documents, vec![2, 4]);
}

#[test]
fn facet_counts_are_over_the_candidates() {
    let docids = vec![1, 2, 3, 4, 5];
    let facets = vec![(
        "color".to_string(),
        vec![("red".to_string(), vec![1, 2, 9]), ("blue".to_string(), vec![4, 5])],
    )];
    let r = bucket_sort(&docids, one_term(&docids), 0..10, Some(vec![1, 2, 4]), Some(facets), None, &vec![]);
    let f = r.facets.unwrap();
    assert_eq!(f[0].0, "color");
    assert_eq!(f[0].1, vec![("red".to_string(), 2), ("blue".to_string(), 1)]);
    assert_eq!(r.exhaustive_facets_count, Some(true));
    assert!(!r.exhaustive_nb_hit);
}

#[test]
fn only_documents_with_a_match_are_ranked() {
    let docids = vec![1, 2, 3];
    let r = bucket_sort(&docids, one_term(&[1, 3]), 0..10, None, None, None, &vec![]);
    assert_eq!(r.nb_hits, 3);
    assert_eq!(r.documents, vec![1, 3]);
}

#[test]
fn filter_keeps_accepted_documents_only() {
    let docids = vec![1, 2, 3, 4];
    let c = criterion(&[(1, 3), (2, 2), (3, 1), (4, 0)]);
    let r = bucket_sort(&docids, one_term(&docids), 0..10, None, None, Some(&vec![1, 3, 4]), &vec![c]);
    assert_eq!(r.documents, vec![4, 3, 1]);
    assert_eq!(r.nb_hits, 4);
}

#[test]
fn distinct_size_one_keeps_best_of_each_key() {
    let docids = vec![1, 2, 3, 4, 5];
    let c = criterion(&[(1, 0), (2, 1), (3, 2), (4, 3), (5, 4)]);
    let mut colors = HashMap::new();
    for d in 1..=3 {
        colors.insert(d, 100);
    }
    for d in 4..=5 {
        colors.insert(d, 200);
    }
    let r = bucket_sort_with_distinct(&docids, one_term(&docids), 0..5, None, None, None, &colors, 1, &vec![c]);
    assert_eq!(r.documents, vec![1, 4]);
    assert_eq!(r.nb_hits, 5);
}

#[test]
fn distinct_cap_holds_and_keyless_documents_stay() {
    let docids: Vec<u64> = (1..=8).collect();
    let c = criterion(&docids.iter().map(|d| (*d, *d)).collect::<Vec<_>>());
    let mut keys = HashMap::new();
    for d in [1u64, 2, 3, 5, 6] {
        keys.insert(d, 7);
    }
    let r = bucket_sort_with_distinct(&docids, one_term(&docids), 0..8, None, None, None, &keys, 2, &vec![c]);
    assert_eq!(r.documents, vec![1, 2, 4, 7, 8]);
    let with_key = r.documents.iter().filter(|d| keys.get(d) == Some(&7)).count();
    assert!(with_key <= 2);
}

#[test]
fn distinct_pagination_counts_distinct_documents() {
    let docids: Vec<u64> = (1..=6).collect();
    let c = criterion(&docids.iter().map(|d| (*d, *d)).collect::<Vec<_>>());
    let mut keys = HashMap::new();
    keys.insert(1, 1);
    keys.insert(2, 1);
    keys.insert(3, 2);
    keys.insert(4, 2);
    keys.insert(5, 3);
    keys.insert(6, 3);
    let r = bucket_sort_with_distinct(&docids, one_term(&docids), 1..3, None, None, None, &keys, 1, &vec![c]);
    assert_eq!(r.documents, vec![3, 5]);
}

#[test]
fn equal_rules_criterion_ties_fall_back_to_identifier() {
    let c = criterion(&[(5, 1), (6, 1), (7, 0)]);
    let page = sort_window(&vec![5, 6, 7], &vec![c], 0, 3);
    assert_eq!(page, vec![7, 5, 6]);
}

#[test]
fn eq_implies_equal_evaluation() {
    let c = criterion(&[(1, 4), (2, 4), (3, 9)]);
    assert!(c.eq(1, 2));
    assert_eq!(c.evaluate(1, 2), std::cmp::Ordering::Equal);
    assert!(!c.eq(1, 3));
    assert_eq!(c.evaluate(1, 3), std::cmp::Ordering::Less);
    assert_eq!(c.evaluate(3, 1), std::cmp::Ordering::Greater);
    assert_eq!(c.rank(42), u64::MAX);
    assert!(c.eq(42, 43));
}
