use meilisearch_core::{
    cleanup_bare_matches, matches_by_docids, matches_by_postings, raw_documents, Arena, DocIndex, PostingsKey,
    PostingsListView,
};
use std::rc::Rc;

fn pos(document_id: u64, word_index: u16) -> DocIndex {
    DocIndex { document_id, attribute: 0, word_index, char_index: 0, char_length: 1 }
}

fn list() -> Vec<DocIndex> {
    vec![pos(1, 0), pos(1, 4), pos(2, 1), pos(4, 0), pos(4, 2), pos(4, 9), pos(7, 3)]
}

#[test]
fn range_of_original_view_is_the_slice() {
    let l = list();
    let v = PostingsListView::original(Rc::new(b"word".to_vec()), Rc::new(l.clone()));
    assert_eq!(v.len(), 7);
    assert_eq!(v.input(), b"word");
    for off in 0..=7 {
        for len in 0..=(7 - off) {
            let r = v.range(off, len);
            assert_eq!(r.as_slice(), &l[off..off + len]);
            assert_eq!(r.len(), len);
            assert_eq!(r.input(), b"word");
        }
    }
    let inner = v.range(2, 4);
    assert_eq!(inner.range(1, 2).as_slice(), &l[3..5]);
}

#[test]
fn rewrite_keeps_the_word() {
    let mut v = PostingsListView::original(Rc::new(b"word".to_vec()), Rc::new(list()));
    v.rewrite_with(vec![pos(9, 9)]);
    assert_eq!(v.len(), 1);
    assert_eq!(v.as_slice(), &[pos(9, 9)]);
    assert_eq!(v.input(), b"word");
    assert!(matches!(v, PostingsListView::Rewritten { .. }));
    let w = PostingsListView::rewritten(Rc::new(b"x".to_vec()), vec![]);
    assert_eq!(w.len(), 0);
    assert_eq!(w.input(), b"x");
}

fn key(query: usize, distance: u8) -> PostingsKey {
    PostingsKey { query, input: format!("q{}", query).into_bytes(), distance, is_exact: distance == 0 }
}

fn extract(docids: &[u64], l: Vec<DocIndex>) -> Vec<(u64, Vec<DocIndex>)> {
    let mut arena = Arena::new();
    let bm = cleanup_bare_matches(&mut arena, &docids.to_vec(), vec![(key(3, 1), l)]);
    assert_eq!(arena.len(), bm.len());
    bm.iter()
        .map(|m| {
            assert_eq!(m.query_index, 3);
            assert_eq!(m.distance, 1);
            assert!(!m.is_exact);
            (m.document_id, arena.get(m.postings_list).as_slice().to_vec())
        })
        .collect()
}

#[test]
fn dense_and_sparse_extraction_agree() {
    let expected = vec![(1, vec![pos(1, 0), pos(1, 4)]), (4, vec![pos(4, 0), pos(4, 2), pos(4, 9)])];
    // six candidates against seven positions: walked
    let dense = extract(&[1, 3, 4, 5, 6, 8], list());
    // two candidates against seven positions: searched
    let sparse = extract(&[1, 4], list());
    assert_eq!(dense.iter().filter(|m| m.0 == 1 || m.0 == 4).cloned().collect::<Vec<_>>(), expected);
    assert_eq!(sparse, expected);
    assert_eq!(dense.len(), 2);
}

#[test]
fn sparse_search_finds_runs_after_gaps() {
    let got = extract(&[2, 7], list());
    assert_eq!(got, vec![(2, vec![pos(2, 1)]), (7, vec![pos(7, 3)])]);
    let none = extract(&[3, 5], list());
    assert!(none.is_empty());
}

#[test]
fn matches_of_several_words_are_grouped_by_document() {
    let mut arena = Arena::new();
    let q0 = vec![pos(2, 0), pos(5, 1)];
    let q1 = vec![pos(1, 0), pos(2, 3), pos(2, 4)];
    let bm = cleanup_bare_matches(&mut arena, &vec![1, 2, 5], vec![(key(0, 0), q0), (key(1, 0), q1)]);
    let docs: Vec<u64> = bm.iter().map(|m| m.document_id).collect();
    assert_eq!(docs, vec![1, 2, 2, 5]);
    let raws = raw_documents(&bm);
    let ids: Vec<(u64, usize, usize)> = raws.iter().map(|r| (r.id, r.start, r.len)).collect();
    assert_eq!(ids, vec![(1, 0, 1), (2, 1, 2), (5, 3, 1)]);
    let mut words: Vec<usize> = bm[1..3].iter().map(|m| m.query_index).collect();
    words.sort();
    assert_eq!(words, vec![0, 1]);
}

#[test]
fn empty_lists_give_no_matches() {
    assert!(extract(&[1, 2], vec![]).is_empty());
    assert!(extract(&[], list()).is_empty());
    assert!(raw_documents(&vec![]).is_empty());
}

#[test]
fn bare_matches_come_out_sorted_by_document() {
    let mut arena = Arena::new();
    let q0 = vec![pos(1, 0)];
    let q1 = vec![pos(5, 2), pos(8, 0)];
    let bm = cleanup_bare_matches(&mut arena, &vec![1, 5, 8], vec![(key(0, 0), q0), (key(1, 2), q1)]);
    let docs: Vec<(u64, usize)> = bm.iter().map(|m| (m.document_id, m.query_index)).collect();
    assert_eq!(docs, vec![(1, 0), (5, 1), (8, 1)]);
    assert_eq!(arena.get(bm[0].postings_list).input(), b"q0");
}

#[test]
fn both_branches_find_the_same_runs() {
    let l = list();
    for docids in [vec![1u64, 4], vec![2, 3, 7], vec![1, 2, 4, 7], vec![5], vec![0, 8]] {
        let mut dense = matches_by_postings(&docids, &l);
        let mut sparse = matches_by_docids(&docids, &l);
        dense.sort();
        sparse.sort();
        assert_eq!(dense, sparse);
    }
    assert_eq!(matches_by_docids(&vec![1, 4, 7], &l), vec![(1, 0, 2), (4, 3, 3), (7, 6, 1)]);
}
