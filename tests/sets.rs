use meilisearch_core::{candidate_docids, facet_count, DistinctMap};

#[test]
fn candidates_intersect_the_facet_filter() {
    assert_eq!(candidate_docids(&vec![1, 3, 5, 7], &Some(vec![2, 3, 7, 9])), vec![3, 7]);
    assert_eq!(candidate_docids(&vec![1, 3], &None), vec![1, 3]);
    assert!(candidate_docids(&vec![1, 3], &Some(vec![])).is_empty());
}

#[test]
fn facet_count_counts_common_documents() {
    let f = vec![
        ("tags".to_string(), vec![("a".to_string(), vec![1, 2, 3]), ("b".to_string(), vec![])]),
        ("gender".to_string(), vec![("male".to_string(), vec![2, 4, 6, 8])]),
    ];
    let r = facet_count(&f, &vec![2, 3, 4, 10]);
    assert_eq!(r.len(), 2);
    assert_eq!(r[0].0, "tags");
    assert_eq!(r[0].1, vec![("a".to_string(), 2), ("b".to_string(), 0)]);
    assert_eq!(r[1].1, vec![("male".to_string(), 2)]);
}

#[test]
fn distinct_map_caps_each_key() {
    let mut m = DistinctMap::new(2);
    assert!(m.register(5));
    assert!(m.register(5));
    assert!(!m.register(5));
    assert!(m.register(6));
    assert!(m.register_without_key());
    assert!(m.register_without_key());
    assert!(m.register_without_key());
    assert_eq!(m.len(), 6);
}
