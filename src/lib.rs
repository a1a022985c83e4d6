//! Ranking core of a full-text search engine: posting-list views, match
//! extraction, the cascaded bucket sort with early termination, distinct-aware
//! pagination, placeholder sorting, facet counting, and the access decision
//! of the HTTP layer.

pub mod auth;
pub mod criterion;
pub mod distinct;
pub mod docset;
pub mod matches;
pub mod placeholder;
pub mod posting;
pub mod ranking;
pub mod search;

pub use auth::{authorize, ApiKeys, AuthDecision, Authentication, LoggingMiddleware};
pub use criterion::Criterion;
pub use distinct::{distinct_window, DistinctMap};
pub use matches::{
    cleanup_bare_matches, matches_by_docids, matches_by_postings, raw_documents, Arena, BareMatch, PostingsKey, RawDocument, SimpleMatch,
};
pub use placeholder::{placeholder_document_sort, Error, RankedMap, RankingRule, Schema};
pub use posting::{DocIndex, PostingsListView};
pub use ranking::sort_window;
pub use search::{
    bucket_sort, bucket_sort_with_distinct, candidate_docids, facet_count, FacetCounts, FacetDocids, SortResult,
};
