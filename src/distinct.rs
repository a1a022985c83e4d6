use crate::criterion::Criterion;
use crate::docset::{set_contains, strictly_sorted};
use crate::ranking::{is_arrangement, lemma_prefix_agree, min_int, prefix_ranked, sort_window, window};
use std::collections::HashMap;
use vstd::prelude::*;

verus! {

broadcast use vstd::std_specs::hash::group_hash_axioms;

/// How many times `k` was registered in `m`.
pub open spec fn count_of(m: Map<u64, usize>, k: u64) -> nat {
    if m.contains_key(k) {
        m[k] as nat
    } else {
        0
    }
}

/// Counts registrations per key, accepting at most `limit` per key.
pub struct DistinctMap {
    inner: HashMap<u64, usize>,
    limit: usize,
    len: usize,
}

impl DistinctMap {
    pub closed spec fn counts(&self) -> Map<u64, usize> {
        self.inner@
    }

    pub closed spec fn spec_limit(&self) -> usize {
        self.limit
    }

    /// Accepted registrations, with and without a key.
    pub closed spec fn spec_len(&self) -> usize {
        self.len
    }

    /// No key is counted more than `limit` times.
    pub open spec fn wf(&self) -> bool {
        forall|k: u64| #[trigger] count_of(self.counts(), k) <= self.spec_limit()
    }

    pub fn new(limit: usize) -> (r: DistinctMap)
        ensures
            r.wf(),
            r.spec_limit() == limit,
            r.spec_len() == 0,
            forall|k: u64| #[trigger] count_of(r.counts(), k) == 0,
    {
        DistinctMap { inner: HashMap::new(), limit, len: 0 }
    }

    fn count(&self, key: u64) -> (r: usize)
        ensures
            r == count_of(self.counts(), key),
    {
        match self.inner.get(&key) {
            Some(c) => *c,
            None => 0,
        }
    }

    /// Counts `key` once more unless it reached the limit; tells whether it was counted.
    pub fn register(&mut self, key: u64) -> (accepted: bool)
        requires
            old(self).wf(),
            old(self).spec_len() < usize::MAX,
        ensures
            final(self).wf(),
            final(self).spec_limit() == old(self).spec_limit(),
            accepted == (count_of(old(self).counts(), key) < old(self).spec_limit()),
            accepted ==> final(self).spec_len() == old(self).spec_len() + 1,
            !accepted ==> final(self).spec_len() == old(self).spec_len(),
            forall|k: u64|
                #[trigger] count_of(final(self).counts(), k) == count_of(old(self).counts(), k) + (if accepted
                    && k == key {
                    1int
                } else {
                    0int
                }),
    {
        let seen = self.count(key);
        if seen < self.limit {
            let ghost pre = self.inner@;
            self.inner.insert(key, seen + 1);
            self.len = self.len + 1;
            proof {
                assert forall|k: u64| #[trigger] count_of(self.counts(), k) <= self.spec_limit() by {
                    if k != key {
                        assert(count_of(pre, k) <= self.limit);
                    }
                }
            }
            true
        } else {
            false
        }
    }

    /// A registration without a key is always accepted.
    pub fn register_without_key(&mut self) -> (accepted: bool)
        requires
            old(self).spec_len() < usize::MAX,
        ensures
            accepted,
            final(self).spec_len() == old(self).spec_len() + 1,
            final(self).counts() == old(self).counts(),
            final(self).spec_limit() == old(self).spec_limit(),
    {
        self.len = self.len + 1;
        true
    }

    pub fn len(&self) -> (r: usize)
        ensures
            r == self.spec_len(),
    {
        self.len
    }
}

/// The distinct key of a document, if it has one.
pub open spec fn key_of(keys: Map<u64, u64>, d: u64) -> Option<u64> {
    if keys.contains_key(d) {
        Some(keys[d])
    } else {
        None
    }
}

/// How many of `docs` have the distinct key `k`.
pub open spec fn count_key(docs: Seq<u64>, keys: Map<u64, u64>, k: u64) -> nat {
    docs.filter(|d: u64| key_of(keys, d) == Some(k)).len()
}

fn lookup_key(distinct: &HashMap<u64, u64>, d: u64) -> (r: Option<u64>)
    ensures
        r == key_of(distinct@, d),
{
    match distinct.get(&d) {
        Some(k) => Some(*k),
        None => None,
    }
}

/// Whether the filter, if any, accepts `d`.
pub open spec fn accepts(filter: Option<Seq<u64>>, d: u64) -> bool {
    match filter {
        Some(f) => f.contains(d),
        None => true,
    }
}

fn filter_accepts(filter: Option<&Vec<u64>>, d: u64) -> (r: bool)
    requires
        filter is Some ==> strictly_sorted(filter->0@),
    ensures
        r == accepts(opt_seq(filter), d),
{
    match filter {
        Some(f) => set_contains(f, d),
        None => true,
    }
}

pub open spec fn opt_seq(filter: Option<&Vec<u64>>) -> Option<Seq<u64>> {
    match filter {
        Some(f) => Some(f@),
        None => None,
    }
}

/// The documents of the ranked stream `s` that are kept: those the filter
/// accepts, except that a document with a key is dropped once `size`
/// documents with that key were kept before it.
pub open spec fn kept(s: Seq<u64>, filter: Option<Seq<u64>>, keys: Map<u64, u64>, size: nat) -> Seq<u64>
    decreases s.len(),
{
    if s.len() == 0 {
        Seq::empty()
    } else {
        let prev = kept(s.drop_last(), filter, keys, size);
        let d = s.last();
        if accepts(filter, d) && match key_of(keys, d) {
            Some(k) => count_key(prev, keys, k) < size,
            None => true,
        } {
            prev.push(d)
        } else {
            prev
        }
    }
}

/// Walks a ranked page and keeps its distinct documents.
fn keep_distinct(page: &Vec<u64>, filter: Option<&Vec<u64>>, distinct: &HashMap<u64, u64>, distinct_size: usize) -> (r: Vec<u64>)
    requires
        filter is Some ==> strictly_sorted(filter->0@),
    ensures
        r@ == kept(page@, opt_seq(filter), distinct@, distinct_size as nat),
{
    let mut map = DistinctMap::new(distinct_size);
    let mut out: Vec<u64> = Vec::new();
    let mut i: usize = 0;
    while i < page.len()
        invariant
            i <= page@.len(),
            filter is Some ==> strictly_sorted(filter->0@),
            out@ == kept(page@.subrange(0, i as int), opt_seq(filter), distinct@, distinct_size as nat),
            map.wf(),
            map.spec_limit() == distinct_size,
            map.spec_len() == out@.len(),
            out@.len() <= i,
            forall|k: u64| #[trigger] count_of(map.counts(), k) == count_key(out@, distinct@, k),
        decreases page@.len() - i,
    {
        let d = page[i];
        let ghost before = out@;
        proof {
            assert(page@.subrange(0, i + 1).drop_last() == page@.subrange(0, i as int));
            assert(page@.subrange(0, i + 1).last() == d);
        }
        if filter_accepts(filter, d) {
            let accepted = match lookup_key(distinct, d) {
                Some(key) => map.register(key),
                None => map.register_without_key(),
            };
            if accepted {
                out.push(d);
            }
            proof {
                assert forall|k: u64| #[trigger] count_of(map.counts(), k) == count_key(out@, distinct@, k) by {
                    before.lemma_filter_len_push(|e: u64| key_of(distinct@, e) == Some(k), d);
                }
            }
        }
        i += 1;
    }
    proof {
        assert(page@.subrange(0, i as int) == page@);
    }
    out
}

/// Ranks the candidates and returns the window `[start, end)` of the stream
/// of kept documents: filtered-out documents do not count, and at most
/// `distinct_size` documents share a key. The cascade first ranks `end`
/// documents; while they keep fewer than `end`, it ranks twice as many.
pub fn distinct_window(
    ids: &Vec<u64>,
    criteria: &Vec<Criterion>,
    filter: Option<&Vec<u64>>,
    distinct: &HashMap<u64, u64>,
    distinct_size: usize,
    start: usize,
    end: usize,
) -> (r: Vec<u64>)
    requires
        strictly_sorted(ids@),
        filter is Some ==> strictly_sorted(filter->0@),
    ensures
        exists|order: Seq<u64>, p: int|
            distinct_ranked(criteria@, ids@, opt_seq(filter), distinct@, distinct_size as nat, end as int, order, p)
                && r@ == window(kept(order.subrange(0, p), opt_seq(filter), distinct@, distinct_size as nat), start as int, end as int),
{
    let n = ids.len();
    let mut p: usize = if end < n {
        end
    } else {
        n
    };
    loop
        invariant
            n == ids@.len(),
            p <= n,
            strictly_sorted(ids@),
            filter is Some ==> strictly_sorted(filter->0@),
        decreases n - p,
    {
        let page = sort_window(ids, criteria, 0, p);
        let stream = keep_distinct(&page, filter, distinct, distinct_size);
        if stream.len() >= end || p >= n {
            let ne = if end < stream.len() {
                end
            } else {
                stream.len()
            };
            let ns = if start < ne {
                start
            } else {
                ne
            };
            let mut r: Vec<u64> = Vec::new();
            let mut q: usize = ns;
            while q < ne
                invariant
                    ns <= q <= ne,
                    ne <= stream@.len(),
                    r@ == stream@.subrange(ns as int, q as int),
                decreases ne - q,
            {
                r.push(stream[q]);
                q += 1;
            }
            proof {
                let order = choose|order: Seq<u64>|
                    is_arrangement(order, ids@) && prefix_ranked(criteria@, order, min_int(p as int, ids@.len() as int))
                        && page@ == window(order, 0, p as int);
                assert(page@ == order.subrange(0, p as int));
                assert(r@ =~= window(stream@, start as int, end as int));
                assert(distinct_ranked(criteria@, ids@, opt_seq(filter), distinct@, distinct_size as nat, end as int, order, p as int));
            }
            return r;
        }
        p = if p >= n - p {
            n
        } else if p == 0 {
            1
        } else {
            p + p
        };
    }
}

/// `order` ranks the candidates `ids` up to `p`, and that prefix yields the
/// `end` kept documents the window needs, or is all of them.
pub open spec fn distinct_ranked(
    cs: Seq<Criterion>,
    ids: Seq<u64>,
    filter: Option<Seq<u64>>,
    keys: Map<u64, u64>,
    size: nat,
    end: int,
    order: Seq<u64>,
    p: int,
) -> bool {
    &&& is_arrangement(order, ids)
    &&& 0 <= p <= ids.len()
    &&& prefix_ranked(cs, order, p)
    &&& (p == ids.len() || kept(order.subrange(0, p), filter, keys, size).len() >= end)
}

/// No key is kept more than `size` times, and every kept document is one
/// the filter accepts, taken once from the stream.
pub proof fn lemma_kept_cap(s: Seq<u64>, filter: Option<Seq<u64>>, keys: Map<u64, u64>, size: nat)
    ensures
        forall|k: u64| #[trigger] count_key(kept(s, filter, keys, size), keys, k) <= size,
        forall|i: int| 0 <= i < kept(s, filter, keys, size).len() ==> s.contains(#[trigger] kept(s, filter, keys, size)[i])
            && accepts(filter, kept(s, filter, keys, size)[i]),
        s.no_duplicates() ==> kept(s, filter, keys, size).no_duplicates(),
        kept(s, filter, keys, size).len() <= s.len(),
    decreases s.len(),
{
    if s.len() > 0 {
        let prev = kept(s.drop_last(), filter, keys, size);
        let d = s.last();
        lemma_kept_cap(s.drop_last(), filter, keys, size);
        let cur = kept(s, filter, keys, size);
        assert forall|k: u64| #[trigger] count_key(cur, keys, k) <= size by {
            assert(count_key(prev, keys, k) <= size);
            if accepts(filter, d) && match key_of(keys, d) {
                Some(k0) => count_key(prev, keys, k0) < size,
                None => true,
            } {
                assert(cur == prev.push(d));
                prev.lemma_filter_len_push(|e: u64| key_of(keys, e) == Some(k), d);
                if key_of(keys, d) == Some(k) {
                    assert(count_key(prev, keys, k) < size);
                }
            } else {
                assert(cur == prev);
            }
        }
        assert forall|i: int| 0 <= i < cur.len() implies s.contains(#[trigger] cur[i]) && accepts(filter, cur[i]) by {
            if i < prev.len() {
                assert(cur[i] == prev[i]);
                assert(s.drop_last().contains(prev[i]));
                let j = choose|j: int| 0 <= j < s.drop_last().len() && s.drop_last()[j] == prev[i];
                assert(s[j] == prev[i]);
            } else {
                assert(cur[i] == d);
                assert(s[s.len() - 1] == d);
            }
        }
        if s.no_duplicates() {
            assert(s.drop_last().no_duplicates()) by {
                assert forall|x: int, y: int| 0 <= x < s.len() - 1 && 0 <= y < s.len() - 1 && x != y
                    implies s.drop_last()[x] != s.drop_last()[y] by {
                    assert(s[x] != s[y]);
                }
            }
            if cur != prev {
                assert(!prev.contains(d)) by {
                    if prev.contains(d) {
                        let i = choose|i: int| 0 <= i < prev.len() && prev[i] == d;
                        assert(s.drop_last().contains(prev[i]));
                        let j = choose|j: int| 0 <= j < s.drop_last().len() && s.drop_last()[j] == d;
                        assert(s[j] == s[s.len() - 1]);
                    }
                }
                assert forall|x: int, y: int| 0 <= x < cur.len() && 0 <= y < cur.len() && x != y implies cur[x] != cur[y] by {
                    if x < prev.len() && y < prev.len() {
                        assert(cur[x] == prev[x] && cur[y] == prev[y]);
                    } else if x < prev.len() {
                        assert(prev.contains(cur[x]));
                    } else if y < prev.len() {
                        assert(prev.contains(cur[y]));
                    }
                }
            }
        }
    }
}

proof fn lemma_count_key_subrange(s: Seq<u64>, keys: Map<u64, u64>, k: u64, a: int, b: int)
    requires
        0 <= a <= b <= s.len(),
    ensures
        count_key(s.subrange(a, b), keys, k) <= count_key(s, keys, k),
{
    let pred = |d: u64| key_of(keys, d) == Some(k);
    let x = s.subrange(0, a);
    let y = s.subrange(a, b);
    let z = s.subrange(b, s.len() as int);
    assert(s == x + y + z);
    Seq::filter_distributes_over_add(x + y, z, pred);
    Seq::filter_distributes_over_add(x, y, pred);
}

/// The page returned holds different candidates accepted by the filter, and
/// no key more than `size` times.
pub proof fn lemma_page_cap(
    cs: Seq<Criterion>,
    ids: Seq<u64>,
    filter: Option<Seq<u64>>,
    keys: Map<u64, u64>,
    size: nat,
    end: int,
    order: Seq<u64>,
    p: int,
    start: int,
    docs: Seq<u64>,
)
    requires
        distinct_ranked(cs, ids, filter, keys, size, end, order, p),
        docs == window(kept(order.subrange(0, p), filter, keys, size), start, end),
        0 <= start,
        0 <= end,
    ensures
        forall|k: u64| #[trigger] count_key(docs, keys, k) <= size,
        docs.no_duplicates(),
        forall|i: int| 0 <= i < docs.len() ==> ids.contains(#[trigger] docs[i]) && accepts(filter, docs[i]),
{
    let s = order.subrange(0, p);
    let all = kept(s, filter, keys, size);
    assert(s.no_duplicates()) by {
        assert forall|x: int, y: int| 0 <= x < s.len() && 0 <= y < s.len() && x != y implies s[x] != s[y] by {
            assert(s[x] == order[x] && s[y] == order[y]);
        }
    }
    lemma_kept_cap(s, filter, keys, size);
    let e = if end < all.len() { end } else { all.len() as int };
    let b = if start < e { start } else { e };
    assert(docs == all.subrange(b, e));
    assert forall|k: u64| #[trigger] count_key(docs, keys, k) <= size by {
        lemma_count_key_subrange(all, keys, k, b, e);
    }
    assert forall|i: int| 0 <= i < docs.len() implies ids.contains(#[trigger] docs[i]) && accepts(filter, docs[i]) by {
        assert(docs[i] == all[b + i]);
        assert(s.contains(all[b + i]));
        let j = choose|j: int| 0 <= j < s.len() && s[j] == all[b + i];
        assert(order[j] == s[j]);
        assert(order.contains(order[j]));
    }
    assert forall|x: int, y: int| 0 <= x < docs.len() && 0 <= y < docs.len() && x != y implies docs[x] != docs[y] by {
        assert(docs[x] == all[b + x] && docs[y] == all[b + y]);
    }
}

/// A document without a key that the filter accepts is never dropped.
pub proof fn lemma_keyless_kept(s: Seq<u64>, filter: Option<Seq<u64>>, keys: Map<u64, u64>, size: nat, i: int)
    requires
        0 <= i < s.len(),
        key_of(keys, s[i]) is None,
        accepts(filter, s[i]),
    ensures
        kept(s, filter, keys, size).contains(s[i]),
    decreases s.len(),
{
    if i < s.len() - 1 {
        lemma_keyless_kept(s.drop_last(), filter, keys, size, i);
        let prev = kept(s.drop_last(), filter, keys, size);
        let j = choose|j: int| 0 <= j < prev.len() && prev[j] == s.drop_last()[i];
        let cur = kept(s, filter, keys, size);
        assert(cur[j] == prev[j]);
    } else {
        let cur = kept(s, filter, keys, size);
        assert(cur[cur.len() - 1] == s[i]);
    }
}

/// The kept documents of a prefix of the stream begin the kept documents of the stream.
proof fn lemma_kept_prefix(s: Seq<u64>, p: int, filter: Option<Seq<u64>>, keys: Map<u64, u64>, size: nat)
    requires
        0 <= p <= s.len(),
    ensures
        kept(s, filter, keys, size).len() >= kept(s.subrange(0, p), filter, keys, size).len(),
        kept(s, filter, keys, size).subrange(0, kept(s.subrange(0, p), filter, keys, size).len() as int)
            == kept(s.subrange(0, p), filter, keys, size),
    decreases s.len() - p,
{
    if p < s.len() {
        lemma_kept_prefix(s, p + 1, filter, keys, size);
        let sp = s.subrange(0, p + 1);
        assert(sp.drop_last() == s.subrange(0, p));
        let a = kept(s.subrange(0, p), filter, keys, size);
        let b = kept(sp, filter, keys, size);
        let full = kept(s, filter, keys, size);
        assert(full.subrange(0, a.len() as int) == b.subrange(0, a.len() as int));
        assert(b.subrange(0, a.len() as int) == a);
    } else {
        assert(s.subrange(0, p) == s);
    }
}

/// The early exit loses nothing: the page equals the window of the kept
/// stream of the fully sorted candidate list.
pub proof fn lemma_distinct_page_matches_full_sort(
    cs: Seq<Criterion>,
    ids: Seq<u64>,
    filter: Option<Seq<u64>>,
    keys: Map<u64, u64>,
    size: nat,
    order: Seq<u64>,
    p: int,
    full: Seq<u64>,
    start: int,
    end: int,
)
    requires
        distinct_ranked(cs, ids, filter, keys, size, end, order, p),
        is_arrangement(full, ids),
        prefix_ranked(cs, full, ids.len() as int),
        0 <= start,
        0 <= end,
    ensures
        window(kept(order.subrange(0, p), filter, keys, size), start, end) == window(kept(full, filter, keys, size), start, end),
{
    lemma_prefix_agree(cs, ids, order, full, p, p);
    assert(order.subrange(0, p) == full.subrange(0, p));
    lemma_kept_prefix(full, p, filter, keys, size);
    let a = kept(full.subrange(0, p), filter, keys, size);
    let b = kept(full, filter, keys, size);
    if p == ids.len() {
        assert(full.subrange(0, p) == full);
    }
    assert(window(a, start, end) =~= window(b, start, end));
}

} // verus!
