use meilisearch_core::{placeholder_document_sort, Error, RankedMap, RankingRule, Schema};
use std::collections::HashMap;

fn ranked(values: &[(u64, u16, i64)]) -> RankedMap {
    let mut m: HashMap<u64, HashMap<u16, i64>> = HashMap::new();
    for (d, f, v) in values {
        m.entry(*d).or_default().insert(*f, *v);
    }
    RankedMap { values: m }
}

fn schema() -> Option<Schema> {
    Some(Schema { fields: vec!["id".to_string(), "v".to_string(), "w".to_string()] })
}

#[test]
fn placeholder_ascending_sort() {
    let mut ids = vec![1, 2, 3];
    let rm = ranked(&[(1, 1, 3), (2, 1, 1), (3, 1, 2)]);
    let rules = Some(vec![RankingRule::Typo, RankingRule::Asc("v".to_string())]);
    assert_eq!(placeholder_document_sort(&mut ids, &rules, &schema(), &rm), Ok(()));
    assert_eq!(ids, vec![2, 3, 1]);
}

#[test]
fn placeholder_descending_then_ascending() {
    let mut ids = vec![1, 2, 3, 4];
    let rm = ranked(&[(1, 1, 5), (2, 1, 5), (3, 1, 9), (4, 1, 5), (1, 2, 2), (2, 2, 1), (4, 2, 0)]);
    let rules = Some(vec![RankingRule::Desc("v".to_string()), RankingRule::Asc("w".to_string())]);
    assert_eq!(placeholder_document_sort(&mut ids, &rules, &schema(), &rm), Ok(()));
    assert_eq!(ids, vec![3, 4, 2, 1]);
}

#[test]
fn placeholder_equal_values_keep_input_order() {
    let mut ids = vec![9, 4, 7, 1];
    let rm = ranked(&[(9, 1, 2), (4, 1, 2), (7, 1, 2), (1, 1, 1)]);
    let rules = Some(vec![RankingRule::Asc("v".to_string())]);
    assert_eq!(placeholder_document_sort(&mut ids, &rules, &schema(), &rm), Ok(()));
    assert_eq!(ids, vec![1, 9, 4, 7]);
}

#[test]
fn placeholder_missing_values_sort_last_ascending_first_descending() {
    let rm = ranked(&[(1, 1, 3), (3, 1, 1)]);
    let mut asc = vec![1, 2, 3];
    placeholder_document_sort(&mut asc, &Some(vec![RankingRule::Asc("v".to_string())]), &schema(), &rm).unwrap();
    assert_eq!(asc, vec![3, 1, 2]);
    let mut desc = vec![1, 2, 3];
    placeholder_document_sort(&mut desc, &Some(vec![RankingRule::Desc("v".to_string())]), &schema(), &rm).unwrap();
    assert_eq!(desc, vec![2, 1, 3]);
}

#[test]
fn placeholder_unknown_attribute_and_no_rules_change_nothing() {
    let rm = ranked(&[(1, 1, 3), (2, 1, 1)]);
    let mut ids = vec![1, 2];
    placeholder_document_sort(&mut ids, &Some(vec![RankingRule::Asc("nope".to_string())]), &schema(), &rm).unwrap();
    assert_eq!(ids, vec![1, 2]);
    placeholder_document_sort(&mut ids, &None, &schema(), &rm).unwrap();
    assert_eq!(ids, vec![1, 2]);
}

#[test]
fn placeholder_without_schema_is_an_error() {
    let rm = ranked(&[]);
    let mut ids = vec![2, 1];
    let r = placeholder_document_sort(&mut ids, &Some(vec![RankingRule::Words]), &None, &rm);
    assert_eq!(r, Err(Error::SchemaMissing));
    assert_eq!(ids, vec![2, 1]);
}

#[test]
fn schema_finds_field_ids() {
    let s = schema().unwrap();
    assert_eq!(s.id(&"w".to_string()), Some(2));
    assert_eq!(s.id(&"x".to_string()), None);
}
