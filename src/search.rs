use crate::criterion::Criterion;
use crate::distinct::{distinct_ranked, distinct_window, kept, lemma_distinct_page_matches_full_sort, opt_seq};
use std::collections::HashMap;
use crate::docset::{common_count, count_common, intersect, strictly_sorted};
use crate::matches::{
    cleanup_bare_matches, described_by_some, describes, groups_matches, has_match, match_at, is_run, raw_documents, term_matches,
    Arena, BareMatch, PostingsKey, RawDocument,
};
use crate::posting::{postings_sorted, DocIndex};
use crate::ranking::{
    is_arrangement, lemma_full_ranking_exists, lemma_page_is_full_sort_window, min_int, prefix_ranked, sort_window, window,
};
use std::ops::Range;
use vstd::prelude::*;

verus! {

broadcast use vstd::seq_lib::group_seq_properties;

/// For each facet, each of its values with its documents.
pub type FacetDocids = Vec<(String, Vec<(String, Vec<u64>)>)>;

/// For each facet, each of its values with its number of hits.
pub type FacetCounts = Vec<(String, Vec<(String, usize)>)>;

/// A ranked page of results.
pub struct SortResult {
    pub documents: Vec<u64>,
    pub nb_hits: usize,
    pub exhaustive_nb_hit: bool,
    pub facets: Option<FacetCounts>,
    pub exhaustive_facets_count: Option<bool>,
}

/// Every document set of the facets is sorted and deduplicated.
pub open spec fn facets_wf(f: Seq<(String, Vec<(String, Vec<u64>)>)>) -> bool {
    forall|i: int, j: int|
        0 <= i < f.len() && 0 <= j < f[i].1@.len() ==> strictly_sorted((#[trigger] f[i].1@[j]).1@)
}

/// `r` counts, for each facet value of `f`, its documents among `candidates`.
pub open spec fn counts_of(f: Seq<(String, Vec<(String, Vec<u64>)>)>, candidates: Seq<u64>, r: Seq<(String, Vec<(String, usize)>)>) -> bool {
    &&& r.len() == f.len()
    &&& forall|i: int|
        0 <= i < f.len() ==> (#[trigger] r[i]).0@ == f[i].0@ && r[i].1@.len() == f[i].1@.len()
    &&& forall|i: int, j: int|
        0 <= i < f.len() && 0 <= j < f[i].1@.len() ==> (#[trigger] r[i].1@[j]).0@ == f[i].1@[j].0@
            && r[i].1@[j].1 == common_count(f[i].1@[j].1@, candidates)
}

/// For each facet value, the number of its documents that are candidates.
pub fn facet_count(facet_docids: &FacetDocids, candidate_docids: &Vec<u64>) -> (r: FacetCounts)
    requires
        facets_wf(facet_docids@),
        strictly_sorted(candidate_docids@),
    ensures
        counts_of(facet_docids@, candidate_docids@, r@),
{
    let mut facets_counts: FacetCounts = Vec::new();
    let mut i: usize = 0;
    while i < facet_docids.len()
        invariant
            i <= facet_docids@.len(),
            facets_wf(facet_docids@),
            strictly_sorted(candidate_docids@),
            facets_counts@.len() == i,
            forall|x: int|
                0 <= x < i ==> (#[trigger] facets_counts@[x]).0@ == facet_docids@[x].0@
                    && facets_counts@[x].1@.len() == facet_docids@[x].1@.len(),
            forall|x: int, j: int|
                0 <= x < i && 0 <= j < facet_docids@[x].1@.len() ==> (#[trigger] facets_counts@[x].1@[j]).0@
                    == facet_docids@[x].1@[j].0@ && facets_counts@[x].1@[j].1 == common_count(
                    facet_docids@[x].1@[j].1@,
                    candidate_docids@,
                ),
        decreases facet_docids@.len() - i,
    {
        let values = &facet_docids[i].1;
        let mut count_map: Vec<(String, usize)> = Vec::new();
        let mut j: usize = 0;
        while j < values.len()
            invariant
                j <= values@.len(),
                *values == facet_docids@[i as int].1,
                i < facet_docids@.len(),
                facets_wf(facet_docids@),
                strictly_sorted(candidate_docids@),
                count_map@.len() == j,
                forall|y: int|
                    0 <= y < j ==> (#[trigger] count_map@[y]).0@ == values@[y].0@ && count_map@[y].1
                        == common_count(values@[y].1@, candidate_docids@),
            decreases values@.len() - j,
        {
            let (value, docids) = (&values[j].0, &values[j].1);
            proof {
                assert(strictly_sorted(facet_docids@[i as int].1@[j as int].1@));
            }
            let count = count_common(docids, candidate_docids);
            count_map.push((value.clone(), count));
            j += 1;
        }
        let key = facet_docids[i].0.clone();
        facets_counts.push((key, count_map));
        i += 1;
    }
    facets_counts
}

/// The candidates: the documents of the query, restricted to the facet filter if there is one.
pub open spec fn candidates_of(docids: Seq<u64>, facets_docids: Option<Seq<u64>>) -> Set<u64> {
    match facets_docids {
        Some(f) => docids.to_set().intersect(f.to_set()),
        None => docids.to_set(),
    }
}

/// Intersects the documents of the query with the facet filter, if any.
pub fn candidate_docids(docids: &Vec<u64>, facets_docids: &Option<Vec<u64>>) -> (r: Vec<u64>)
    requires
        strictly_sorted(docids@),
        facets_docids is Some ==> strictly_sorted(facets_docids->0@),
    ensures
        strictly_sorted(r@),
        r@.to_set() == candidates_of(
            docids@,
            match facets_docids {
                Some(f) => Some(f@),
                None => None,
            },
        ),
        r@.len() == r@.to_set().len(),
{
    let r = match facets_docids {
        Some(f) => intersect(docids, f),
        None => {
            let mut c: Vec<u64> = Vec::new();
            let mut i: usize = 0;
            while i < docids.len()
                invariant
                    i <= docids@.len(),
                    c@ == docids@.subrange(0, i as int),
                decreases docids@.len() - i,
            {
                c.push(docids[i]);
                i += 1;
            }
            proof {
                assert(c@ =~= docids@);
            }
            c
        },
    };
    proof {
        lemma_sorted_len_is_set_len(r@);
    }
    r
}

proof fn lemma_sorted_len_is_set_len(s: Seq<u64>)
    requires
        strictly_sorted(s),
    ensures
        s.len() == s.to_set().len(),
{
    assert(s.no_duplicates()) by {
        assert forall|i: int, j: int| 0 <= i < s.len() && 0 <= j < s.len() && i != j implies s[i] != s[j] by {
            if i < j {
                assert(s[i] < s[j]);
            } else {
                assert(s[j] < s[i]);
            }
        }
    }
    s.unique_seq_to_set();
}

/// `d` is a candidate in which one of the query words occurs.
pub open spec fn matched(cands: Seq<u64>, qs: Seq<(PostingsKey, Vec<DocIndex>)>, d: u64) -> bool {
    &&& cands.contains(d)
    &&& exists|q: int, off: int, len: int| 0 <= q < qs.len() && #[trigger] is_run(qs[q].1@, d, off, len)
}

/// `docs` is the window `[start, end)` of the ranking of `ids` by `cs`.
pub open spec fn ranked_page(cs: Seq<Criterion>, ids: Seq<u64>, start: int, end: int, docs: Seq<u64>) -> bool {
    exists|order: Seq<u64>|
        is_arrangement(order, ids) && prefix_ranked(cs, order, min_int(end, ids.len() as int)) && docs == window(
            order,
            start,
            end,
        )
}

pub open spec fn opt_view(o: Option<Vec<u64>>) -> Option<Seq<u64>> {
    match o {
        Some(v) => Some(v@),
        None => None,
    }
}

proof fn lemma_find_group(bm: Seq<BareMatch>, raws: Seq<RawDocument>, j: int, k: int) -> (g: int)
    requires
        groups_matches(bm, raws),
        0 <= k < raws.len(),
        raws[k].start <= j < bm.len(),
    ensures
        0 <= g < raws.len(),
        raws[g].start <= j < raws[g].start + raws[g].len,
    decreases raws.len() - k,
{
    if j < raws[k].start + raws[k].len {
        k
    } else {
        if k == raws.len() - 1 {
            assert(false);
        }
        assert(raws[k].start + raws[k].len == raws[k + 1].start);
        lemma_find_group(bm, raws, j, k + 1)
    }
}

/// The documents of the raw documents are exactly the matched candidates.
proof fn lemma_raw_ids(
    cands: Seq<u64>,
    qs: Seq<(PostingsKey, Vec<DocIndex>)>,
    arena: Seq<crate::posting::PostingsListView>,
    bm: Seq<BareMatch>,
    raws: Seq<RawDocument>,
    ids: Seq<u64>,
)
    requires
        forall|i: int| #![trigger bm[i]] 0 <= i < bm.len() ==> described_by_some(arena, cands, qs, bm[i]),
        forall|q: int, d: u64, off: int, len: int|
            0 <= q < qs.len() && cands.contains(d) && #[trigger] is_run(qs[q].1@, d, off, len) ==> has_match(
                arena,
                bm,
                qs[q].0,
                qs[q].1@,
                d,
                off,
                len,
            ),
        groups_matches(bm, raws),
        ids.len() == raws.len(),
        forall|i: int| 0 <= i < ids.len() ==> #[trigger] ids[i] == raws[i].id,
    ensures
        forall|d: u64| ids.contains(d) <==> matched(cands, qs, d),
{
    assert forall|d: u64| ids.contains(d) implies matched(cands, qs, d) by {
        let i = choose|i: int| 0 <= i < ids.len() && ids[i] == d;
        assert(raws[i].len > 0);
        let j = raws[i].start as int;
        assert(bm[j].document_id == raws[i].id);
        assert(described_by_some(arena, cands, qs, bm[j]));
        let q = choose|q: int| 0 <= q < qs.len() && describes(arena, cands, qs[q].0, qs[q].1@, bm[j]);
        let (off, len) = choose|off: int, len: int|
            #[trigger] is_run(qs[q].1@, bm[j].document_id, off, len) && arena[bm[j].postings_list as int]@
                == qs[q].1@.subrange(off, off + len);
        assert(is_run(qs[q].1@, d, off, len));
    }
    assert forall|d: u64| matched(cands, qs, d) implies ids.contains(d) by {
        let (q, off, len) = choose|q: int, off: int, len: int| 0 <= q < qs.len() && #[trigger] is_run(qs[q].1@, d, off, len);
        assert(has_match(arena, bm, qs[q].0, qs[q].1@, d, off, len));
        let i = choose|i: int| 0 <= i < bm.len() && #[trigger] match_at(arena, bm[i], qs[q].0, qs[q].1@, d, off, len);
        assert(raws.len() > 0);
        let g = lemma_find_group(bm, raws, i, 0);
        assert(bm[i].document_id == raws[g].id);
        assert(ids[g] == d);
    }
}

/// The candidates, the facet counts over them, and the candidates in which
/// a query word occurs, in identifier order.
fn prepare(
    docids: &Vec<u64>,
    queries: Vec<(PostingsKey, Vec<DocIndex>)>,
    facets_docids: &Option<Vec<u64>>,
    facet_count_docids: &Option<FacetDocids>,
) -> (r: (Vec<u64>, Option<FacetCounts>, Vec<u64>))
    requires
        strictly_sorted(docids@),
        facets_docids is Some ==> strictly_sorted(facets_docids->0@),
        facet_count_docids is Some ==> facets_wf(facet_count_docids->0@),
        forall|q: int| 0 <= q < queries@.len() ==> postings_sorted((#[trigger] queries@[q]).1@),
    ensures
        strictly_sorted(r.0@),
        r.0@.to_set() == candidates_of(docids@, opt_view(*facets_docids)),
        r.0@.len() == candidates_of(docids@, opt_view(*facets_docids)).len(),
        r.1 is Some <==> facet_count_docids is Some,
        facet_count_docids is Some ==> counts_of(facet_count_docids->0@, r.0@, r.1->0@),
        strictly_sorted(r.2@),
        forall|d: u64| r.2@.contains(d) <==> matched(r.0@, queries@, d),
{
    let ghost qs = queries@;
    let candidates = candidate_docids(docids, facets_docids);
    let facets = match facet_count_docids {
        Some(f) => Some(facet_count(f, &candidates)),
        None => None,
    };
    let mut arena = Arena::new();
    let bare_matches = cleanup_bare_matches(&mut arena, &candidates, queries);
    let raws = raw_documents(&bare_matches);
    let mut ids: Vec<u64> = Vec::new();
    let mut i: usize = 0;
    while i < raws.len()
        invariant
            i <= raws@.len(),
            ids@.len() == i,
            forall|x: int| 0 <= x < i ==> #[trigger] ids@[x] == raws@[x].id,
        decreases raws@.len() - i,
    {
        ids.push(raws[i].id);
        i += 1;
    }
    proof {
        lemma_raw_ids(candidates@, qs, arena@, bare_matches@, raws@, ids@);
        assert forall|x: int, y: int| 0 <= x < y < ids@.len() implies #[trigger] ids@[x] < #[trigger] ids@[y] by {
            assert(raws@[x].id < raws@[y].id);
        }
    }
    (candidates, facets, ids)
}

/// Ranks the candidates of a query and returns the requested page.
///
/// The candidates are the documents of the query, restricted to the facet
/// filter when one is given; their number is the number of hits. Facet values
/// are counted over the candidates. The candidates in which a query word
/// occurs are ranked by the rules, and the window `range` of that ranking is
/// returned. With a document filter, the page is read as with distinct keys
/// of which no document has one: only accepted documents count.
pub fn bucket_sort(
    docids: &Vec<u64>,
    queries: Vec<(PostingsKey, Vec<DocIndex>)>,
    range: Range<usize>,
    facets_docids: Option<Vec<u64>>,
    facet_count_docids: Option<FacetDocids>,
    filter: Option<&Vec<u64>>,
    criteria: &Vec<Criterion>,
) -> (r: SortResult)
    requires
        strictly_sorted(docids@),
        facets_docids is Some ==> strictly_sorted(facets_docids->0@),
        facet_count_docids is Some ==> facets_wf(facet_count_docids->0@),
        filter is Some ==> strictly_sorted(filter->0@),
        forall|q: int| 0 <= q < queries@.len() ==> postings_sorted((#[trigger] queries@[q]).1@),
    ensures
        r.nb_hits == candidates_of(docids@, opt_view(facets_docids)).len(),
        !r.exhaustive_nb_hit,
        r.facets is Some <==> facet_count_docids is Some,
        r.exhaustive_facets_count == (if facet_count_docids is Some {
            Some(true)
        } else {
            None
        }),
        exists|cands: Seq<u64>, ids: Seq<u64>|
            {
                &&& strictly_sorted(cands)
                &&& cands.to_set() == candidates_of(docids@, opt_view(facets_docids))
                &&& (facet_count_docids is Some ==> counts_of(facet_count_docids->0@, cands, r.facets->0@))
                &&& strictly_sorted(ids)
                &&& forall|d: u64| ids.contains(d) <==> matched(cands, queries@, d)
                &&& filter is None ==> ranked_page(criteria@, ids, range.start as int, range.end as int, r.documents@)
                &&& filter is Some ==> distinct_page(
                    criteria@,
                    ids,
                    opt_seq(filter),
                    Map::empty(),
                    1,
                    range.start as int,
                    range.end as int,
                    r.documents@,
                )
            },
{
    match filter {
        Some(f) => {
            let distinct: HashMap<u64, u64> = HashMap::new();
            let r = bucket_sort_with_distinct(
                docids,
                queries,
                range,
                facets_docids,
                facet_count_docids,
                Some(f),
                &distinct,
                1,
                criteria,
            );
            proof {
                assert(distinct@ == Map::<u64, u64>::empty());
            }
            return r;
        },
        None => {},
    }
    let ghost qs = queries@;
    let (candidates, facets, ids) = prepare(docids, queries, &facets_docids, &facet_count_docids);
    let exhaustive_facets_count = match facet_count_docids {
        Some(_) => Some(true),
        None => None,
    };
    let documents = sort_window(&ids, criteria, range.start, range.end);
    let r = SortResult {
        documents,
        nb_hits: candidates.len(),
        exhaustive_nb_hit: false,
        facets,
        exhaustive_facets_count,
    };
    proof {
        assert(ranked_page(criteria@, ids@, range.start as int, range.end as int, r.documents@));
        assert(forall|d: u64| ids@.contains(d) <==> matched(candidates@, qs, d));
    }
    r
}

/// `docs` is the window `[start, end)` of the kept documents of the ranking
/// of `ids`, ranked far enough to fill the window.
pub open spec fn distinct_page(
    cs: Seq<Criterion>,
    ids: Seq<u64>,
    filter: Option<Seq<u64>>,
    keys: Map<u64, u64>,
    size: nat,
    start: int,
    end: int,
    docs: Seq<u64>,
) -> bool {
    exists|order: Seq<u64>, p: int|
        distinct_ranked(cs, ids, filter, keys, size, end, order, p) && docs == window(
            kept(order.subrange(0, p), filter, keys, size),
            start,
            end,
        )
}

/// Like `bucket_sort`, with a document filter and distinct keys: the window
/// counts only documents the filter accepts, and at most `distinct_size`
/// documents per key; documents without a key are never dropped as duplicates.
pub fn bucket_sort_with_distinct(
    docids: &Vec<u64>,
    queries: Vec<(PostingsKey, Vec<DocIndex>)>,
    range: Range<usize>,
    facets_docids: Option<Vec<u64>>,
    facet_count_docids: Option<FacetDocids>,
    filter: Option<&Vec<u64>>,
    distinct: &HashMap<u64, u64>,
    distinct_size: usize,
    criteria: &Vec<Criterion>,
) -> (r: SortResult)
    requires
        strictly_sorted(docids@),
        facets_docids is Some ==> strictly_sorted(facets_docids->0@),
        facet_count_docids is Some ==> facets_wf(facet_count_docids->0@),
        filter is Some ==> strictly_sorted(filter->0@),
        forall|q: int| 0 <= q < queries@.len() ==> postings_sorted((#[trigger] queries@[q]).1@),
    ensures
        r.nb_hits == candidates_of(docids@, opt_view(facets_docids)).len(),
        !r.exhaustive_nb_hit,
        r.facets is Some <==> facet_count_docids is Some,
        r.exhaustive_facets_count == (if facet_count_docids is Some {
            Some(true)
        } else {
            None
        }),
        exists|cands: Seq<u64>, ids: Seq<u64>|
            {
                &&& strictly_sorted(cands)
                &&& cands.to_set() == candidates_of(docids@, opt_view(facets_docids))
                &&& (facet_count_docids is Some ==> counts_of(facet_count_docids->0@, cands, r.facets->0@))
                &&& strictly_sorted(ids)
                &&& forall|d: u64| ids.contains(d) <==> matched(cands, queries@, d)
                &&& distinct_page(
                    criteria@,
                    ids,
                    opt_seq(filter),
                    distinct@,
                    distinct_size as nat,
                    range.start as int,
                    range.end as int,
                    r.documents@,
                )
            },
{
    let ghost qs = queries@;
    let (candidates, facets, ids) = prepare(docids, queries, &facets_docids, &facet_count_docids);
    let exhaustive_facets_count = match facet_count_docids {
        Some(_) => Some(true),
        None => None,
    };
    let documents = distinct_window(&ids, criteria, filter, distinct, distinct_size, range.start, range.end);
    let r = SortResult {
        documents,
        nb_hits: candidates.len(),
        exhaustive_nb_hit: false,
        facets,
        exhaustive_facets_count,
    };
    proof {
        assert(forall|d: u64| ids@.contains(d) <==> matched(candidates@, qs, d));
    }
    r
}

proof fn lemma_sorted_no_duplicates(ids: Seq<u64>)
    requires
        strictly_sorted(ids),
    ensures
        ids.no_duplicates(),
{
    assert forall|i: int, j: int| 0 <= i < ids.len() && 0 <= j < ids.len() && i != j implies ids[i] != ids[j] by {
        if i < j {
            assert(ids[i] < ids[j]);
        } else {
            assert(ids[j] < ids[i]);
        }
    }
}

/// The page of `bucket_sort` is the window of a full sort of the ranked
/// candidates: the early exit changes nothing.
pub proof fn lemma_ranked_page_is_full_sort_window(cs: Seq<Criterion>, ids: Seq<u64>, start: int, end: int, docs: Seq<u64>)
    requires
        strictly_sorted(ids),
        ranked_page(cs, ids, start, end, docs),
        0 <= start,
        0 <= end,
    ensures
        exists|full: Seq<u64>|
            is_arrangement(full, ids) && prefix_ranked(cs, full, ids.len() as int) && docs == window(full, start, end),
{
    lemma_sorted_no_duplicates(ids);
    let order = choose|order: Seq<u64>|
        is_arrangement(order, ids) && prefix_ranked(cs, order, min_int(end, ids.len() as int)) && docs == window(
            order,
            start,
            end,
        );
    lemma_page_is_full_sort_window(cs, ids, order, start, end);
}

/// The page of `bucket_sort_with_distinct` is the window of the kept stream
/// of a full sort of the ranked candidates.
pub proof fn lemma_distinct_page_is_full_stream_window(
    cs: Seq<Criterion>,
    ids: Seq<u64>,
    filter: Option<Seq<u64>>,
    keys: Map<u64, u64>,
    size: nat,
    start: int,
    end: int,
    docs: Seq<u64>,
)
    requires
        strictly_sorted(ids),
        distinct_page(cs, ids, filter, keys, size, start, end, docs),
        0 <= start,
        0 <= end,
    ensures
        exists|full: Seq<u64>|
            is_arrangement(full, ids) && prefix_ranked(cs, full, ids.len() as int) && docs == window(
                kept(full, filter, keys, size),
                start,
                end,
            ),
{
    lemma_sorted_no_duplicates(ids);
    let (order, p) = choose|order: Seq<u64>, p: int|
        distinct_ranked(cs, ids, filter, keys, size, end, order, p) && docs == window(
            kept(order.subrange(0, p), filter, keys, size),
            start,
            end,
        );
    let full = lemma_full_ranking_exists(cs, ids);
    lemma_distinct_page_matches_full_sort(cs, ids, filter, keys, size, order, p, full, start, end);
}

} // verus!
