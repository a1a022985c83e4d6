use crate::criterion::{lemma_ranked_before_asym, lemma_ranked_before_order, ranked_before, ranks_equal, ranks_less, Criterion};
use crate::docset::strictly_sorted;
use slice_group_by::GroupBy;
use vstd::prelude::*;

verus! {

broadcast use vstd::seq_lib::group_seq_properties;

/// `order` lists each document of `ids` exactly once.
pub open spec fn is_arrangement(order: Seq<u64>, ids: Seq<u64>) -> bool {
    &&& order.len() == ids.len()
    &&& order.no_duplicates()
    &&& forall|x: u64| order.contains(x) <==> ids.contains(x)
}

/// The first `p` documents of `order` come in ranking order, each before
/// every document that follows it.
pub open spec fn prefix_ranked(cs: Seq<Criterion>, order: Seq<u64>, p: int) -> bool {
    forall|i: int, j: int|
        0 <= i < j < order.len() && i < p ==> #[trigger] ranked_before(cs, cs.len(), order[i], order[j])
}

/// The pagination window `[start, end)` of `order`, cut to what it holds.
pub open spec fn window(order: Seq<u64>, start: int, end: int) -> Seq<u64> {
    let e = if end < order.len() { end } else { order.len() as int };
    let s = if start < e { start } else { e };
    order.subrange(s, e)
}

pub open spec fn min_int(a: int, b: int) -> int {
    if a < b { a } else { b }
}

/// Lexicographic order on pairs of integers.
pub open spec fn pair_le(x: (u64, u64), y: (u64, u64)) -> bool {
    x.0 < y.0 || (x.0 == y.0 && x.1 <= y.1)
}

/// Relies on `<[T]>::sort_unstable`: the same elements, in ascending order
/// (tuples of integers compare lexicographically).
#[verifier::external_body]
pub(crate) fn sort_pairs(v: &mut Vec<(u64, u64)>)
    ensures
        final(v)@.to_multiset() == old(v)@.to_multiset(),
        forall|i: int, j: int| 0 <= i < j < final(v)@.len() ==> pair_le(#[trigger] final(v)@[i], #[trigger] final(v)@[j]),
{
    v.sort_unstable()
}

/// Sum of the first `t` run lengths: where run `t` starts.
pub open spec fn run_start(runs: Seq<usize>, t: int) -> int
    decreases t,
{
    if t <= 0 {
        0
    } else {
        run_start(runs, t - 1) + runs[t - 1]
    }
}

/// Relies on slice_group_by's `binary_group`: on a sorted slice it yields the
/// maximal runs of equal values, in order.
#[verifier::external_body]
pub(crate) fn equal_runs(s: &Vec<u64>) -> (runs: Vec<usize>)
    requires
        forall|i: int, j: int| 0 <= i < j < s@.len() ==> s@[i] <= s@[j],
    ensures
        forall|t: int| 0 <= t < runs@.len() ==> runs@[t] > 0,
        run_start(runs@, runs@.len() as int) == s@.len(),
        forall|t: int, i: int|
            #![trigger s@[i], runs@[t]]
            0 <= t < runs@.len() && run_start(runs@, t) <= i < run_start(runs@, t + 1) ==> s@[i]
                == s@[run_start(runs@, t)],
        forall|t: int|
            0 < t < runs@.len() ==> s@[run_start(runs@, t) - 1] != #[trigger] s@[run_start(
                runs@,
                t,
            )],
{
    s.binary_group().map(|g| g.len()).collect()
}

/// Where bucket `t` starts: buckets are given by their ends.
pub open spec fn gstart(b: Seq<usize>, t: int) -> int {
    if t <= 0 {
        0
    } else {
        b[t - 1] as int
    }
}

/// How many documents the buckets cover.
pub open spec fn covered(b: Seq<usize>) -> int {
    if b.len() == 0 {
        0
    } else {
        b[b.len() - 1] as int
    }
}

/// The state of the cascade after `k` rules: the buckets split a prefix of
/// `docs`; a bucket holds documents equal under those rules, in identifier
/// order, and each of them comes before every later document.
#[verifier::opaque]
pub open spec fn buckets_ordered(cs: Seq<Criterion>, k: nat, docs: Seq<u64>, b: Seq<usize>) -> bool {
    &&& forall|t: int| 0 <= t < b.len() ==> gstart(b, t) < #[trigger] b[t]
    &&& forall|t: int| 0 <= t < b.len() ==> #[trigger] b[t] <= docs.len()
    &&& forall|t: int, i: int, j: int|
        #![trigger b[t], docs[i], docs[j]]
        0 <= t < b.len() && gstart(b, t) <= i < b[t] && gstart(b, t) <= j < b[t] ==> ranks_equal(
            cs,
            k,
            docs[i],
            docs[j],
        ) && (i < j ==> docs[i] < docs[j])
    &&& forall|t: int, i: int, j: int|
        #![trigger b[t], docs[i], docs[j]]
        0 <= t < b.len() && gstart(b, t) <= i < b[t] <= j < docs.len() ==> ranks_less(
            cs,
            k,
            docs[i],
            docs[j],
        )
}

proof fn lemma_find_bucket(b: Seq<usize>, i: int) -> (t: int)
    requires
        forall|t: int| 0 <= t < b.len() ==> gstart(b, t) < #[trigger] b[t],
        0 <= i < covered(b),
    ensures
        0 <= t < b.len(),
        gstart(b, t) <= i < b[t],
    decreases b.len(),
{
    let last = b.len() - 1;
    if i >= gstart(b, last) {
        last
    } else {
        let b2 = b.drop_last();
        assert forall|t: int| 0 <= t < b2.len() implies gstart(b2, t) < #[trigger] b2[t] by {
            assert(b[t] == b2[t]);
            assert(gstart(b, t) < b[t]);
        }
        assert(covered(b2) == gstart(b, last));
        let t = lemma_find_bucket(b2, i);
        assert(b[t] == b2[t]);
        t
    }
}

proof fn lemma_buckets_rank_prefix(cs: Seq<Criterion>, docs: Seq<u64>, b: Seq<usize>, p: int)
    requires
        buckets_ordered(cs, cs.len(), docs, b),
        p <= covered(b),
    ensures
        prefix_ranked(cs, docs, p),
{
    reveal(buckets_ordered);
    assert forall|i: int, j: int| 0 <= i < j < docs.len() && i < p implies #[trigger] ranked_before(
        cs,
        cs.len(),
        docs[i],
        docs[j],
    ) by {
        let t = lemma_find_bucket(b, i);
        if j < b[t] {
            assert(ranks_equal(cs, cs.len(), docs[i], docs[j]) && docs[i] < docs[j]);
        } else {
            assert(ranks_less(cs, cs.len(), docs[i], docs[j]));
        }
    }
}

/// Two sequences with the same multiset: each element of one is found in the other.
pub(crate) proof fn lemma_perm_witness<A>(s: Seq<A>, s0: Seq<A>)
    requires
        s.to_multiset() == s0.to_multiset(),
    ensures
        s.len() == s0.len(),
        forall|q: int| 0 <= q < s.len() ==> s0.contains(#[trigger] s[q]),
        forall|q2: int| 0 <= q2 < s0.len() ==> s.contains(#[trigger] s0[q2]),
        s0.no_duplicates() ==> s.no_duplicates(),
{
    s.to_multiset_ensures();
    s0.to_multiset_ensures();
    assert(s.len() == s.to_multiset().len());
    assert(s0.len() == s0.to_multiset().len());
    assert forall|q: int| 0 <= q < s.len() implies s0.contains(#[trigger] s[q]) by {
        assert(s.contains(s[q]));
        assert(s.to_multiset().count(s[q]) > 0);
        assert(s0.to_multiset().count(s[q]) > 0);
    }
    assert forall|q2: int| 0 <= q2 < s0.len() implies s.contains(#[trigger] s0[q2]) by {
        assert(s0.contains(s0[q2]));
        assert(s0.to_multiset().count(s0[q2]) > 0);
        assert(s.to_multiset().count(s0[q2]) > 0);
    }
    if s0.no_duplicates() {
        s0.lemma_multiset_has_no_duplicates();
        s.lemma_multiset_has_no_duplicates_conv();
    }
}

/// `x` stands somewhere in `s[a..b]`.
pub open spec fn occurs_in(s: Seq<u64>, a: int, b: int, x: u64) -> bool {
    exists|j: int| a <= j < b && s[j] == x
}

/// A segment `[a, b)` of `prev` replaced by the second components of a
/// permutation of its keyed elements.
proof fn lemma_segment_rewrite(
    c: Criterion,
    prev: Seq<u64>,
    docs: Seq<u64>,
    a: int,
    b: int,
    keyed0: Seq<(u64, u64)>,
    keyed: Seq<(u64, u64)>,
)
    requires
        0 <= a <= b <= prev.len(),
        docs.len() == prev.len(),
        prev.no_duplicates(),
        keyed0.len() == b - a,
        forall|q: int| 0 <= q < b - a ==> #[trigger] keyed0[q] == (c.rank_of(prev[a + q]), prev[a + q]),
        keyed.to_multiset() == keyed0.to_multiset(),
        forall|j: int| 0 <= j < docs.len() && !(a <= j < b) ==> docs[j] == prev[j],
        forall|j: int| a <= j < b ==> docs[j] == #[trigger] keyed[j - a].1,
    ensures
        keyed.len() == b - a,
        forall|q: int| 0 <= q < b - a ==> (#[trigger] keyed[q]).0 == c.rank_of(keyed[q].1),
        forall|j: int| a <= j < b ==> occurs_in(prev, a, b, #[trigger] docs[j]),
        forall|j2: int| a <= j2 < b ==> occurs_in(docs, a, b, #[trigger] prev[j2]),
        docs.no_duplicates(),
        forall|x: u64| docs.contains(x) <==> prev.contains(x),
{
    assert(keyed0.no_duplicates()) by {
        assert forall|x: int, y: int| 0 <= x < keyed0.len() && 0 <= y < keyed0.len() && x != y
            implies keyed0[x] != keyed0[y] by {
            assert(keyed0[x] == (c.rank_of(prev[a + x]), prev[a + x]));
            assert(keyed0[y] == (c.rank_of(prev[a + y]), prev[a + y]));
        }
    }
    lemma_perm_witness(keyed, keyed0);
    assert forall|q: int| 0 <= q < b - a implies (#[trigger] keyed[q]).0 == c.rank_of(keyed[q].1) by {
        let q2 = choose|q2: int| 0 <= q2 < keyed0.len() && keyed0[q2] == keyed[q];
        assert(keyed0[q2] == (c.rank_of(prev[a + q2]), prev[a + q2]));
    }
    assert forall|j: int| a <= j < b implies occurs_in(prev, a, b, #[trigger] docs[j]) by {
        let q = j - a;
        let q2 = choose|q2: int| 0 <= q2 < keyed0.len() && keyed0[q2] == keyed[q];
        assert(keyed0[q2] == (c.rank_of(prev[a + q2]), prev[a + q2]));
        assert(docs[j] == prev[a + q2]);
    }
    assert forall|j2: int| a <= j2 < b implies occurs_in(docs, a, b, #[trigger] prev[j2]) by {
        let q2 = j2 - a;
        let q = choose|q: int| 0 <= q < keyed.len() && keyed[q] == keyed0[q2];
        assert(keyed0[q2] == (c.rank_of(prev[a + q2]), prev[a + q2]));
        assert(docs[a + q] == keyed[(a + q) - a].1);
        assert(docs[a + q] == prev[j2]);
    }
    assert forall|i: int, j: int| 0 <= i < docs.len() && 0 <= j < docs.len() && i != j implies docs[i]
        != docs[j] by {
        if docs[i] == docs[j] {
            if a <= i < b && a <= j < b {
                let qi = choose|q2: int| 0 <= q2 < keyed0.len() && keyed0[q2] == keyed[i - a];
                let qj = choose|q2: int| 0 <= q2 < keyed0.len() && keyed0[q2] == keyed[j - a];
                assert(keyed0[qi] == (c.rank_of(prev[a + qi]), prev[a + qi]));
                assert(keyed0[qj] == (c.rank_of(prev[a + qj]), prev[a + qj]));
                assert(docs[i] == keyed[i - a].1);
                assert(docs[j] == keyed[j - a].1);
                assert(qi == qj);
                assert(keyed[i - a] == keyed[j - a]);
            } else if a <= i < b {
                let i2 = choose|j2: int| a <= j2 < b && prev[j2] == docs[i];
                assert(prev[i2] == prev[j]);
            } else if a <= j < b {
                let j2 = choose|j2: int| a <= j2 < b && prev[j2] == docs[j];
                assert(prev[j2] == prev[i]);
            } else {
                assert(prev[i] == prev[j]);
            }
        }
    }
    assert forall|x: u64| docs.contains(x) implies prev.contains(x) by {
        let j = choose|j: int| 0 <= j < docs.len() && docs[j] == x;
        if a <= j < b {
            let j2 = choose|j2: int| a <= j2 < b && prev[j2] == docs[j];
            assert(prev[j2] == x);
        } else {
            assert(prev[j] == x);
        }
    }
    assert forall|x: u64| prev.contains(x) implies docs.contains(x) by {
        let j = choose|j: int| 0 <= j < prev.len() && prev[j] == x;
        if a <= j < b {
            let i = choose|i: int| a <= i < b && docs[i] == prev[j];
            assert(docs[i] == x);
        } else {
            assert(docs[j] == x);
        }
    }
}

/// Rewriting the documents after the buckets, within a segment, keeps the buckets ordered.
proof fn lemma_buckets_after_rewrite(
    cs: Seq<Criterion>,
    k: nat,
    prev: Seq<u64>,
    docs: Seq<u64>,
    nb: Seq<usize>,
    a: int,
    b: int,
)
    requires
        buckets_ordered(cs, k, prev, nb),
        covered(nb) == a,
        a <= b <= prev.len(),
        docs.len() == prev.len(),
        forall|j: int| 0 <= j < docs.len() && !(a <= j < b) ==> docs[j] == prev[j],
        forall|j: int| a <= j < b ==> occurs_in(prev, a, b, #[trigger] docs[j]),
    ensures
        buckets_ordered(cs, k, docs, nb),
{
    reveal(buckets_ordered);
    assert forall|t: int| 0 <= t < nb.len() implies #[trigger] nb[t] <= covered(nb) by {
        lemma_bounds_below_covered(nb, t);
    }
    assert forall|t: int, i: int, j: int|
        #![trigger nb[t], docs[i], docs[j]]
        0 <= t < nb.len() && gstart(nb, t) <= i < nb[t] <= j < docs.len() implies ranks_less(
            cs,
            k,
            docs[i],
            docs[j],
        ) by {
        assert(docs[i] == prev[i]);
        if a <= j < b {
            let j2 = choose|j2: int| a <= j2 < b && prev[j2] == docs[j];
            assert(ranks_less(cs, k, prev[i], prev[j2]));
        } else {
            assert(docs[j] == prev[j]);
        }
    }
    assert forall|t: int, i: int, j: int|
        #![trigger nb[t], docs[i], docs[j]]
        0 <= t < nb.len() && gstart(nb, t) <= i < nb[t] && gstart(nb, t) <= j < nb[t] implies ranks_equal(
            cs,
            k,
            docs[i],
            docs[j],
        ) && (i < j ==> docs[i] < docs[j]) by {
        assert(docs[i] == prev[i]);
        assert(docs[j] == prev[j]);
    }
}

proof fn lemma_bounds_below_covered(b: Seq<usize>, t: int)
    requires
        forall|t: int| 0 <= t < b.len() ==> gstart(b, t) < #[trigger] b[t],
        0 <= t < b.len(),
    ensures
        b[t] <= covered(b),
    decreases b.len() - t,
{
    if t < b.len() - 1 {
        assert(gstart(b, t + 1) < b[t + 1]);
        lemma_bounds_below_covered(b, t + 1);
    }
}

/// Appending a bucket whose documents are equal among themselves and come
/// before all later documents.
proof fn lemma_push_bucket(cs: Seq<Criterion>, k: nat, docs: Seq<u64>, nb: Seq<usize>, np: usize)
    requires
        buckets_ordered(cs, k, docs, nb),
        covered(nb) < np <= docs.len(),
        forall|i: int, j: int|
            #![trigger docs[i], docs[j]]
            covered(nb) <= i < np && covered(nb) <= j < np ==> ranks_equal(cs, k, docs[i], docs[j])
                && (i < j ==> docs[i] < docs[j]),
        forall|i: int, j: int|
            #![trigger docs[i], docs[j]]
            covered(nb) <= i < np <= j < docs.len() ==> ranks_less(cs, k, docs[i], docs[j]),
    ensures
        buckets_ordered(cs, k, docs, nb.push(np)),
        covered(nb.push(np)) == np,
{
    reveal(buckets_ordered);
    let nb2 = nb.push(np);
    assert(gstart(nb2, nb.len() as int) == covered(nb));
    assert forall|t: int| 0 <= t < nb2.len() implies gstart(nb2, t) < #[trigger] nb2[t] by {
        if t < nb.len() {
            assert(nb[t] == nb2[t]);
            assert(gstart(nb, t) < nb[t]);
            assert(gstart(nb2, t) == gstart(nb, t));
        }
    }
    assert forall|t: int| 0 <= t < nb2.len() implies #[trigger] nb2[t] <= docs.len() by {
        if t < nb.len() {
            assert(nb[t] == nb2[t]);
        }
    }
    assert forall|t: int, i: int, j: int|
        #![trigger nb2[t], docs[i], docs[j]]
        0 <= t < nb2.len() && gstart(nb2, t) <= i < nb2[t] && gstart(nb2, t) <= j < nb2[t] implies ranks_equal(
            cs,
            k,
            docs[i],
            docs[j],
        ) && (i < j ==> docs[i] < docs[j]) by {
        if t < nb.len() {
            assert(nb[t] == nb2[t]);
            assert(gstart(nb2, t) == gstart(nb, t));
        }
    }
    assert forall|t: int, i: int, j: int|
        #![trigger nb2[t], docs[i], docs[j]]
        0 <= t < nb2.len() && gstart(nb2, t) <= i < nb2[t] <= j < docs.len() implies ranks_less(
            cs,
            k,
            docs[i],
            docs[j],
        ) by {
        if t < nb.len() {
            assert(nb[t] == nb2[t]);
            assert(gstart(nb2, t) == gstart(nb, t));
        }
    }
}

pub(crate) proof fn lemma_run_start_mono(runs: Seq<usize>, u: int, v: int)
    requires
        forall|t: int| 0 <= t < runs.len() ==> runs[t] > 0,
        0 <= u <= v <= runs.len(),
    ensures
        run_start(runs, u) <= run_start(runs, v),
        u < v ==> run_start(runs, u) < run_start(runs, v),
    decreases v - u,
{
    if u < v {
        lemma_run_start_mono(runs, u, v - 1);
    }
}

/// The facts on one bucket of the previous rule, sorted by the next rule's
/// rank and cut into runs of equal ranks.
#[verifier::opaque]
pub open spec fn sorted_bucket(
    cs: Seq<Criterion>,
    k: nat,
    d0: Seq<u64>,
    b0: Seq<usize>,
    t: int,
    a: int,
    b: int,
    docs: Seq<u64>,
    keyed: Seq<(u64, u64)>,
    rs: Seq<u64>,
    runs: Seq<usize>,
) -> bool {
    &&& k < cs.len()
    &&& buckets_ordered(cs, k, d0, b0)
    &&& 0 <= t < b0.len()
    &&& a == gstart(b0, t)
    &&& b == b0[t]
    &&& b <= d0.len()
    &&& docs.len() == d0.len()
    &&& docs.no_duplicates()
    &&& rs.len() == b - a
    &&& keyed.len() == b - a
    &&& forall|x: int| 0 <= x < b - a ==> rs[x] == (#[trigger] keyed[x]).0
    &&& forall|x: int, y: int| 0 <= x < y < rs.len() ==> rs[x] <= rs[y]
    &&& forall|x: int, y: int| 0 <= x < y < keyed.len() ==> pair_le(#[trigger] keyed[x], #[trigger] keyed[y])
    &&& forall|qq: int| 0 <= qq < b - a ==> (#[trigger] keyed[qq]).0 == cs[k as int].rank_of(keyed[qq].1)
    &&& forall|j: int| a <= j < b ==> docs[j] == #[trigger] keyed[j - a].1
    &&& forall|j: int| a <= j < b ==> occurs_in(d0, a, b, #[trigger] docs[j])
    &&& forall|j: int| b <= j < docs.len() ==> docs[j] == d0[j]
    &&& forall|tt: int| 0 <= tt < runs.len() ==> runs[tt] > 0
    &&& run_start(runs, runs.len() as int) == rs.len()
    &&& forall|tt: int, x: int|
        #![trigger rs[x], runs[tt]]
        0 <= tt < runs.len() && run_start(runs, tt) <= x < run_start(runs, tt + 1) ==> rs[x] == rs[run_start(
            runs,
            tt,
        )]
    &&& forall|tt: int|
        0 < tt < runs.len() ==> rs[run_start(runs, tt) - 1] != #[trigger] rs[run_start(runs, tt)]
}

/// A run of equal ranks inside a sorted bucket holds documents equal under
/// one more rule, in identifier order.
proof fn lemma_run_equal(
    cs: Seq<Criterion>,
    k: nat,
    d0: Seq<u64>,
    b0: Seq<usize>,
    t: int,
    a: int,
    b: int,
    docs: Seq<u64>,
    keyed: Seq<(u64, u64)>,
    rs: Seq<u64>,
    runs: Seq<usize>,
    u: int,
)
    requires
        sorted_bucket(cs, k, d0, b0, t, a, b, docs, keyed, rs, runs),
        0 <= u < runs.len(),
    ensures
        forall|i: int, j: int|
            #![trigger docs[i], docs[j]]
            a + run_start(runs, u) <= i < a + run_start(runs, u + 1) && a + run_start(runs, u) <= j < a
                + run_start(runs, u + 1) ==> ranks_equal(cs, k + 1, docs[i], docs[j]) && (i < j
                ==> docs[i] < docs[j]),
{
    reveal(buckets_ordered);
    reveal(sorted_bucket);
    let pos = a + run_start(runs, u);
    let np = a + run_start(runs, u + 1);
    lemma_run_start_mono(runs, 0, u);
    lemma_run_start_mono(runs, u + 1, runs.len() as int);
    let r0 = rs[run_start(runs, u)];
    assert(runs[u] > 0);
    assert forall|i: int, j: int|
        #![trigger docs[i], docs[j]]
        pos <= i < np && pos <= j < np implies ranks_equal(cs, k + 1, docs[i], docs[j]) && (i < j
            ==> docs[i] < docs[j]) by {
        assert(occurs_in(d0, a, b, docs[i]));
        assert(occurs_in(d0, a, b, docs[j]));
        let i2 = choose|i2: int| a <= i2 < b && d0[i2] == docs[i];
        let j2 = choose|j2: int| a <= j2 < b && d0[j2] == docs[j];
        assert(b0[t] == b);
        assert(ranks_equal(cs, k, d0[i2], d0[j2]));
        assert(rs[i - a] == r0);
        assert(rs[j - a] == r0);
        assert(keyed[i - a].0 == cs[k as int].rank_of(keyed[i - a].1));
        assert(keyed[j - a].0 == cs[k as int].rank_of(keyed[j - a].1));
        assert(docs[i] == keyed[i - a].1);
        assert(docs[j] == keyed[j - a].1);
        if i < j {
            assert(pair_le(keyed[i - a], keyed[j - a]));
        }
    }
}

/// Two documents of one bucket are equal under the rules applied so far.
proof fn lemma_same_bucket_equal(
    cs: Seq<Criterion>,
    k: nat,
    d0: Seq<u64>,
    b0: Seq<usize>,
    t: int,
    x: u64,
    y: u64,
)
    requires
        buckets_ordered(cs, k, d0, b0),
        0 <= t < b0.len(),
        occurs_in(d0, gstart(b0, t), b0[t] as int, x),
        occurs_in(d0, gstart(b0, t), b0[t] as int, y),
    ensures
        ranks_equal(cs, k, x, y),
{
    reveal(buckets_ordered);
    let i2 = choose|i2: int| gstart(b0, t) <= i2 < b0[t] && d0[i2] == x;
    let j2 = choose|j2: int| gstart(b0, t) <= j2 < b0[t] && d0[j2] == y;
    assert(ranks_equal(cs, k, d0[i2], d0[j2]));
}

/// What a sorted bucket says of one position in it.
proof fn lemma_sorted_bucket_at(
    cs: Seq<Criterion>,
    k: nat,
    d0: Seq<u64>,
    b0: Seq<usize>,
    t: int,
    a: int,
    b: int,
    docs: Seq<u64>,
    keyed: Seq<(u64, u64)>,
    rs: Seq<u64>,
    runs: Seq<usize>,
    i: int,
)
    requires
        sorted_bucket(cs, k, d0, b0, t, a, b, docs, keyed, rs, runs),
        a <= i < b,
    ensures
        buckets_ordered(cs, k, d0, b0),
        0 <= t < b0.len(),
        a == gstart(b0, t),
        b == b0[t],
        b <= docs.len() == d0.len(),
        cs[k as int].rank_of(docs[i]) == rs[i - a],
        occurs_in(d0, gstart(b0, t), b0[t] as int, docs[i]),
        forall|y: int| i < y < b ==> rs[i - a] <= #[trigger] rs[y - a],
        forall|u: int|
            0 <= u < runs.len() && run_start(runs, u) <= i - a < run_start(runs, u + 1) ==> rs[i - a]
                == #[trigger] rs[run_start(runs, u)],
        forall|u: int|
            0 < u < runs.len() && i - a == run_start(runs, u) ==> rs[i - a - 1] != #[trigger] rs[run_start(runs, u)],
{
    reveal(sorted_bucket);
    assert(docs[i] == keyed[i - a].1);
    assert(keyed[i - a].0 == cs[k as int].rank_of(keyed[i - a].1));
    assert(rs[i - a] == keyed[i - a].0);
    assert(occurs_in(d0, a, b, docs[i]));
    assert forall|u: int|
        0 <= u < runs.len() && run_start(runs, u) <= i - a < run_start(runs, u + 1) implies rs[i - a]
            == #[trigger] rs[run_start(runs, u)] by {
        assert(runs[u] > 0);
    }
}

/// A run of equal ranks inside a sorted bucket comes before the later runs of that bucket.
proof fn lemma_run_before_later_runs(
    cs: Seq<Criterion>,
    k: nat,
    d0: Seq<u64>,
    b0: Seq<usize>,
    t: int,
    a: int,
    b: int,
    docs: Seq<u64>,
    keyed: Seq<(u64, u64)>,
    rs: Seq<u64>,
    runs: Seq<usize>,
    u: int,
)
    requires
        sorted_bucket(cs, k, d0, b0, t, a, b, docs, keyed, rs, runs),
        0 <= u < runs.len(),
        forall|tt: int| 0 <= tt < runs.len() ==> runs[tt] > 0,
        run_start(runs, runs.len() as int) == b - a,
        a <= b,
    ensures
        forall|i: int, j: int|
            #![trigger docs[i], docs[j]]
            a + run_start(runs, u) <= i < a + run_start(runs, u + 1) <= j < b ==> ranks_less(
                cs,
                k + 1,
                docs[i],
                docs[j],
            ),
{
    let pos = a + run_start(runs, u);
    let np = a + run_start(runs, u + 1);
    lemma_run_start_mono(runs, 0, u);
    lemma_run_start_mono(runs, u + 1, runs.len() as int);
    assert(runs[u] > 0);
    let r0 = rs[run_start(runs, u)];
    if np < b {
        assert(u + 1 < runs.len());
        lemma_sorted_bucket_at(cs, k, d0, b0, t, a, b, docs, keyed, rs, runs, np - 1);
        lemma_sorted_bucket_at(cs, k, d0, b0, t, a, b, docs, keyed, rs, runs, np);
        assert(rs[np - a - 1] == r0);
        assert(rs[np - 1 - a] <= rs[np - a]);
        assert(r0 < rs[np - a]);
    }
    assert forall|i: int, j: int|
        #![trigger docs[i], docs[j]]
        pos <= i < np <= j < b implies ranks_less(cs, k + 1, docs[i], docs[j]) by {
        lemma_sorted_bucket_at(cs, k, d0, b0, t, a, b, docs, keyed, rs, runs, i);
        lemma_sorted_bucket_at(cs, k, d0, b0, t, a, b, docs, keyed, rs, runs, j);
        lemma_sorted_bucket_at(cs, k, d0, b0, t, a, b, docs, keyed, rs, runs, np);
        lemma_same_bucket_equal(cs, k, d0, b0, t, docs[i], docs[j]);
        assert(rs[i - a] == r0);
        if np < j {
            assert(rs[np - a] <= rs[j - a]);
        }
    }
}

/// The documents of a bucket come before every document after the bucket.
proof fn lemma_bucket_before_rest(
    cs: Seq<Criterion>,
    k: nat,
    d0: Seq<u64>,
    b0: Seq<usize>,
    t: int,
    a: int,
    b: int,
    docs: Seq<u64>,
    keyed: Seq<(u64, u64)>,
    rs: Seq<u64>,
    runs: Seq<usize>,
)
    requires
        sorted_bucket(cs, k, d0, b0, t, a, b, docs, keyed, rs, runs),
    ensures
        forall|i: int, j: int|
            #![trigger docs[i], docs[j]]
            a <= i < b <= j < docs.len() ==> ranks_less(cs, k + 1, docs[i], docs[j]),
{
    reveal(sorted_bucket);
    reveal(buckets_ordered);
    assert forall|i: int, j: int|
        #![trigger docs[i], docs[j]]
        a <= i < b <= j < docs.len() implies ranks_less(cs, k + 1, docs[i], docs[j]) by {
        assert(occurs_in(d0, a, b, docs[i]));
        let i2 = choose|i2: int| a <= i2 < b && d0[i2] == docs[i];
        assert(b0[t] == b);
        assert(docs[j] == d0[j]);
        assert(ranks_less(cs, k, d0[i2], d0[j]));
    }
}

/// Sorts `docs[a..b]` by rank under `criterion`, then by identifier, and
/// returns the sorted (rank, identifier) pairs.
pub(crate) fn sort_segment(docs: &mut Vec<u64>, criterion: &Criterion, a: usize, b: usize) -> (keyed: Vec<(u64, u64)>)
    requires
        a <= b <= old(docs)@.len(),
        old(docs)@.no_duplicates(),
    ensures
        final(docs)@.len() == old(docs)@.len(),
        keyed@.len() == b - a,
        forall|j: int| 0 <= j < old(docs)@.len() && !(a <= j < b) ==> final(docs)@[j] == old(docs)@[j],
        forall|j: int| a <= j < b ==> final(docs)@[j] == #[trigger] keyed@[j - a].1,
        forall|x: int, y: int| 0 <= x < y < keyed@.len() ==> pair_le(#[trigger] keyed@[x], #[trigger] keyed@[y]),
        forall|q: int| 0 <= q < b - a ==> (#[trigger] keyed@[q]).0 == criterion.rank_of(keyed@[q].1),
        forall|j: int| a <= j < b ==> occurs_in(old(docs)@, a as int, b as int, #[trigger] final(docs)@[j]),
        final(docs)@.no_duplicates(),
        forall|x: u64| final(docs)@.contains(x) <==> old(docs)@.contains(x),
{
    let ghost prev = docs@;
    let n = docs.len();
    let mut keyed: Vec<(u64, u64)> = Vec::new();
    let mut i: usize = a;
    while i < b
        invariant
            a <= i <= b,
            b <= n,
            docs@ == prev,
            n == prev.len(),
            keyed@.len() == i - a,
            forall|q: int|
                0 <= q < i - a ==> #[trigger] keyed@[q] == (criterion.rank_of(prev[a + q]), prev[a + q]),
        decreases b - i,
    {
        let d = docs[i];
        let rk = criterion.rank(d);
        keyed.push((rk, d));
        i += 1;
    }
    let ghost keyed0 = keyed@;
    sort_pairs(&mut keyed);
    proof {
        lemma_perm_witness(keyed@, keyed0);
    }
    let mut q: usize = 0;
    while q < b - a
        invariant
            a <= b <= n,
            n == prev.len(),
            keyed@.len() == b - a,
            docs@.len() == n,
            q <= b - a,
            forall|j: int| 0 <= j < n && !(a <= j < a + q) ==> docs@[j] == prev[j],
            forall|j: int| a <= j < a + q ==> docs@[j] == #[trigger] keyed@[j - a].1,
        decreases b - a - q,
    {
        docs.set(a + q, keyed[q].1);
        q += 1;
    }
    proof {
        lemma_segment_rewrite(*criterion, prev, docs@, a as int, b as int, keyed0, keyed@);
    }
    keyed
}

/// Cuts a sorted bucket into runs of equal ranks and appends them as buckets
/// of the next rule, stopping once the buckets cover `end` documents.
fn split_bucket(
    nb: &mut Vec<usize>,
    rs: &Vec<u64>,
    end: usize,
    Ghost(cs): Ghost<Seq<Criterion>>,
    Ghost(k): Ghost<nat>,
    Ghost(d0): Ghost<Seq<u64>>,
    Ghost(b0): Ghost<Seq<usize>>,
    Ghost(t): Ghost<int>,
    a: usize,
    b: usize,
    Ghost(docs): Ghost<Seq<u64>>,
    Ghost(keyed): Ghost<Seq<(u64, u64)>>,
) -> (done: bool)
    requires
        buckets_ordered(cs, k + 1, docs, old(nb)@),
        covered(old(nb)@) == a,
        forall|x: int, y: int| 0 <= x < y < rs@.len() ==> rs@[x] <= rs@[y],
        k < cs.len(),
        buckets_ordered(cs, k, d0, b0),
        0 <= t < b0.len(),
        a == gstart(b0, t),
        b == b0[t],
        b <= d0.len(),
        docs.len() == d0.len(),
        docs.no_duplicates(),
        rs@.len() == b - a,
        keyed.len() == b - a,
        forall|x: int| 0 <= x < b - a ==> rs@[x] == (#[trigger] keyed[x]).0,
        forall|x: int, y: int| 0 <= x < y < keyed.len() ==> pair_le(#[trigger] keyed[x], #[trigger] keyed[y]),
        forall|qq: int| 0 <= qq < b - a ==> (#[trigger] keyed[qq]).0 == cs[k as int].rank_of(keyed[qq].1),
        forall|j: int| a <= j < b ==> docs[j] == #[trigger] keyed[j - a].1,
        forall|j: int| a <= j < b ==> occurs_in(d0, a as int, b as int, #[trigger] docs[j]),
        forall|j: int| b <= j < docs.len() ==> docs[j] == d0[j],
    ensures
        buckets_ordered(cs, k + 1, docs, final(nb)@),
        !done ==> covered(final(nb)@) == b,
        done ==> covered(final(nb)@) >= end,
{
    let runs = equal_runs(rs);
    proof {
        reveal(sorted_bucket);
        assert(sorted_bucket(cs, k, d0, b0, t, a as int, b as int, docs, keyed, rs@, runs@));
    }
    let ghost len = runs@.len() as int;
    let mut u: usize = 0;
    let mut pos: usize = a;
    let mut done = false;
    while u < runs.len() && !done
        invariant
            sorted_bucket(cs, k, d0, b0, t, a as int, b as int, docs, keyed, rs@, runs@),
            forall|tt: int| 0 <= tt < runs@.len() ==> runs@[tt] > 0,
            run_start(runs@, runs@.len() as int) == b - a,
            a <= b <= docs.len(),
            u <= runs@.len(),
            pos == a + run_start(runs@, u as int),
            buckets_ordered(cs, k + 1, docs, nb@),
            !done ==> covered(nb@) == pos,
            done ==> covered(nb@) >= end,
        decreases runs@.len() - u,
    {
        let l = runs[u];
        proof {
            lemma_run_start_mono(runs@, u as int + 1, runs@.len() as int);
        }
        let np = pos + l;
        proof {
            lemma_run_equal(cs, k, d0, b0, t, a as int, b as int, docs, keyed, rs@, runs@, u as int);
            lemma_run_before_later_runs(cs, k, d0, b0, t, a as int, b as int, docs, keyed, rs@, runs@, u as int);
            lemma_bucket_before_rest(cs, k, d0, b0, t, a as int, b as int, docs, keyed, rs@, runs@);
            lemma_run_start_mono(runs@, 0, u as int);
            assert forall|i: int, j: int|
                #![trigger docs[i], docs[j]]
                pos <= i < np <= j < docs.len() implies ranks_less(cs, k + 1, docs[i], docs[j]) by {
                if j < b {
                } else {
                }
            }
            lemma_push_bucket(cs, k + 1, docs, nb@, np);
        }
        nb.push(np);
        pos = np;
        if pos >= end {
            done = true;
        }
        u += 1;
    }
    done
}

proof fn lemma_no_buckets(cs: Seq<Criterion>, k: nat, docs: Seq<u64>)
    ensures
        buckets_ordered(cs, k, docs, Seq::<usize>::empty()),
{
    reveal(buckets_ordered);
}

proof fn lemma_bucket_bounds(cs: Seq<Criterion>, k: nat, docs: Seq<u64>, b: Seq<usize>, t: int)
    requires
        buckets_ordered(cs, k, docs, b),
        0 <= t < b.len(),
    ensures
        gstart(b, t) < b[t] <= docs.len(),
{
    reveal(buckets_ordered);
}

/// Before any rule, all candidates form one bucket in identifier order.
proof fn lemma_initial_buckets(cs: Seq<Criterion>, docs: Seq<u64>, b: Seq<usize>)
    requires
        strictly_sorted(docs),
        docs.len() > 0 ==> b.len() == 1 && b[0] == docs.len(),
        docs.len() == 0 ==> b.len() == 0,
    ensures
        buckets_ordered(cs, 0, docs, b),
{
    reveal(buckets_ordered);
    assert forall|t: int, i: int, j: int|
        #![trigger b[t], docs[i], docs[j]]
        0 <= t < b.len() && gstart(b, t) <= i < b[t] && gstart(b, t) <= j < b[t] implies ranks_equal(
            cs,
            0,
            docs[i],
            docs[j],
        ) && (i < j ==> docs[i] < docs[j]) by {}
}

/// Ranks the candidates `ids` by the rules in turn, bucket by bucket, and
/// returns the pagination window `[start, end)` of the ranking. A rule is
/// applied only to the buckets that can reach into the window: once the
/// sorted buckets cover `end` documents the next rule starts.
pub fn sort_window(ids: &Vec<u64>, criteria: &Vec<Criterion>, start: usize, end: usize) -> (r: Vec<u64>)
    requires
        strictly_sorted(ids@),
    ensures
        exists|order: Seq<u64>|
            is_arrangement(order, ids@) && prefix_ranked(
                criteria@,
                order,
                min_int(end as int, ids@.len() as int),
            ) && r@ == window(order, start as int, end as int),
{
    let n = ids.len();
    let mut docs: Vec<u64> = Vec::new();
    let mut i: usize = 0;
    while i < n
        invariant
            0 <= i <= n,
            n == ids@.len(),
            docs@ == ids@.subrange(0, i as int),
        decreases n - i,
    {
        docs.push(ids[i]);
        i += 1;
    }
    proof {
        assert(docs@ =~= ids@);
    }
    let mut bounds: Vec<usize> = Vec::new();
    if n > 0 {
        bounds.push(n);
    }
    proof {
        lemma_initial_buckets(criteria@, docs@, bounds@);
    }
    let mut k: usize = 0;
    while k < criteria.len()
        invariant
            n == ids@.len(),
            docs@.len() == n,
            is_arrangement(docs@, ids@),
            buckets_ordered(criteria@, k as nat, docs@, bounds@),
            covered(bounds@) >= min_int(end as int, n as int),
            k <= criteria.len(),
        decreases criteria.len() - k,
    {
        let ghost d0 = docs@;
        let ghost b0 = bounds@;
        let criterion = &criteria[k];
        let mut nb: Vec<usize> = Vec::new();
        proof {
            lemma_no_buckets(criteria@, (k + 1) as nat, docs@);
        }
        let mut a: usize = 0;
        let mut t: usize = 0;
        let mut done = false;
        while t < bounds.len() && !done
            invariant
                n == ids@.len(),
                docs@.len() == n,
                d0.len() == n,
                bounds@ == b0,
                k < criteria.len(),
                *criterion == criteria@[k as int],
                is_arrangement(docs@, ids@),
                buckets_ordered(criteria@, k as nat, d0, b0),
                covered(b0) >= min_int(end as int, n as int),
                0 <= t <= b0.len(),
                a == gstart(b0, t as int),
                a <= n,
                forall|j: int| a <= j < n ==> docs@[j] == d0[j],
                buckets_ordered(criteria@, (k + 1) as nat, docs@, nb@),
                !done ==> covered(nb@) == a,
                done ==> covered(nb@) >= end,
            decreases b0.len() - t,
        {
            let b = bounds[t];
            proof {
                lemma_bucket_bounds(criteria@, k as nat, d0, b0, t as int);
            }
            let ghost prev = docs@;
            let keyed = sort_segment(&mut docs, criterion, a, b);
            proof {
                lemma_buckets_after_rewrite(
                    criteria@,
                    (k + 1) as nat,
                    prev,
                    docs@,
                    nb@,
                    a as int,
                    b as int,
                );
                assert forall|j: int| a <= j < b implies occurs_in(d0, a as int, b as int, #[trigger] docs@[j]) by {
                    assert(occurs_in(prev, a as int, b as int, docs@[j]));
                    let j2 = choose|j2: int| a <= j2 < b && prev[j2] == docs@[j];
                    assert(d0[j2] == prev[j2]);
                }
                assert forall|x: u64| docs@.contains(x) <==> ids@.contains(x) by {
                    assert(docs@.contains(x) <==> prev.contains(x));
                }
            }
            let mut rs: Vec<u64> = Vec::new();
            let mut q: usize = 0;
            while q < b - a
                invariant
                    keyed@.len() == b - a,
                    q <= b - a,
                    rs@.len() == q,
                    forall|x: int| 0 <= x < q ==> rs@[x] == (#[trigger] keyed@[x]).0,
                decreases b - a - q,
            {
                rs.push(keyed[q].0);
                q += 1;
            }
            proof {
                assert forall|x: int, y: int| 0 <= x < y < rs@.len() implies rs@[x] <= rs@[y] by {
                    assert(pair_le(keyed@[x], keyed@[y]));
                }
            }
            done = split_bucket(
                &mut nb,
                &rs,
                end,
                Ghost(criteria@),
                Ghost(k as nat),
                Ghost(d0),
                Ghost(b0),
                Ghost(t as int),
                a,
                b,
                Ghost(docs@),
                Ghost(keyed@),
            );
            a = b;
            t += 1;
        }
        proof {
            if !done {
                assert(covered(nb@) == covered(b0));
            }
        }
        bounds = nb;
        k += 1;
    }
    let ne = if end < n {
        end
    } else {
        n
    };
    let ns = if start < ne {
        start
    } else {
        ne
    };
    proof {
        lemma_buckets_rank_prefix(criteria@, docs@, bounds@, ne as int);
    }
    let mut r: Vec<u64> = Vec::new();
    let mut q: usize = ns;
    while q < ne
        invariant
            ns <= q <= ne,
            ne <= docs@.len(),
            r@ == docs@.subrange(ns as int, q as int),
        decreases ne - q,
    {
        r.push(docs[q]);
        q += 1;
    }
    proof {
        assert(r@ =~= window(docs@, start as int, end as int));
    }
    r
}

pub(crate) proof fn lemma_prefix_agree(cs: Seq<Criterion>, ids: Seq<u64>, order: Seq<u64>, full: Seq<u64>, p: int, i: int)
    requires
        is_arrangement(order, ids),
        is_arrangement(full, ids),
        prefix_ranked(cs, order, p),
        prefix_ranked(cs, full, full.len() as int),
        0 <= i <= p <= ids.len(),
    ensures
        forall|m: int| 0 <= m < i ==> #[trigger] order[m] == full[m],
    decreases i,
{
    if i > 0 {
        lemma_prefix_agree(cs, ids, order, full, p, i - 1);
        let c = i - 1;
        let x = order[c];
        let y = full[c];
        assert(order.contains(x));
        assert(full.contains(x));
        let m = choose|m: int| 0 <= m < full.len() && full[m] == x;
        assert(full.contains(y));
        assert(order.contains(y));
        let j = choose|j: int| 0 <= j < order.len() && order[j] == y;
        if m < c {
            assert(order[m] == full[m]);
        }
        if j < c {
            assert(order[j] == full[j]);
        }
        if m != c && j != c {
            assert(ranked_before(cs, cs.len(), order[c], order[j]));
            assert(ranked_before(cs, cs.len(), full[c], full[m]));
            lemma_ranked_before_asym(cs, cs.len(), x, y);
        }
    }
}

/// The cascade's early exit loses nothing: any arrangement whose first `p`
/// documents are ranked agrees on those `p` documents with the fully sorted
/// candidate list, so a window ending at `p` is the full sort's window.
pub proof fn lemma_window_matches_full_sort(
    cs: Seq<Criterion>,
    ids: Seq<u64>,
    order: Seq<u64>,
    full: Seq<u64>,
    start: int,
    end: int,
)
    requires
        is_arrangement(order, ids),
        is_arrangement(full, ids),
        prefix_ranked(cs, order, min_int(end, ids.len() as int)),
        prefix_ranked(cs, full, ids.len() as int),
        0 <= start,
        0 <= end,
    ensures
        window(order, start, end) == window(full, start, end),
{
    let p = min_int(end, ids.len() as int);
    lemma_prefix_agree(cs, ids, order, full, p, p);
    assert(window(order, start, end) =~= window(full, start, end));
}

proof fn lemma_insert_point(cs: Seq<Criterion>, s: Seq<u64>, x: u64, i: int) -> (j: int)
    requires
        0 <= i <= s.len(),
        forall|t: int| 0 <= t < i ==> !ranked_before(cs, cs.len(), x, #[trigger] s[t]),
    ensures
        i <= j <= s.len(),
        forall|t: int| 0 <= t < j ==> !ranked_before(cs, cs.len(), x, #[trigger] s[t]),
        j < s.len() ==> ranked_before(cs, cs.len(), x, s[j]),
    decreases s.len() - i,
{
    if i == s.len() || ranked_before(cs, cs.len(), x, s[i]) {
        i
    } else {
        lemma_insert_point(cs, s, x, i + 1)
    }
}

/// The candidates can always be fully sorted: some arrangement of them is
/// ranked throughout.
pub proof fn lemma_full_ranking_exists(cs: Seq<Criterion>, ids: Seq<u64>) -> (full: Seq<u64>)
    requires
        ids.no_duplicates(),
    ensures
        is_arrangement(full, ids),
        prefix_ranked(cs, full, ids.len() as int),
    decreases ids.len(),
{
    if ids.len() == 0 {
        Seq::empty()
    } else {
        let rest = ids.drop_last();
        let x = ids.last();
        assert(rest.no_duplicates()) by {
            assert forall|a: int, b: int| 0 <= a < rest.len() && 0 <= b < rest.len() && a != b implies rest[a]
                != rest[b] by {
                assert(ids[a] != ids[b]);
            }
        }
        let s = lemma_full_ranking_exists(cs, rest);
        assert(!rest.contains(x)) by {
            if rest.contains(x) {
                let t = choose|t: int| 0 <= t < rest.len() && rest[t] == x;
                assert(ids[t] == ids[ids.len() - 1]);
            }
        }
        let j = lemma_insert_point(cs, s, x, 0);
        let full = s.subrange(0, j) + seq![x] + s.subrange(j, s.len() as int);
        assert forall|t: int| 0 <= t < full.len() implies #[trigger] full[t] == (if t < j {
            s[t]
        } else if t == j {
            x
        } else {
            s[t - 1]
        }) by {}
        assert forall|a: int, b: int| 0 <= a < b < full.len() && a < ids.len() implies #[trigger] ranked_before(
            cs,
            cs.len(),
            full[a],
            full[b],
        ) by {
            assert(full[a] == (if a < j { s[a] } else if a == j { x } else { s[a - 1] }));
            assert(full[b] == (if b < j { s[b] } else if b == j { x } else { s[b - 1] }));
            if b < j {
                assert(ranked_before(cs, cs.len(), s[a], s[b]));
            } else if b == j {
                assert(s.contains(s[a]));
                assert(s[a] != x);
                lemma_ranked_before_order(cs, cs.len(), x, s[a], x);
            } else if a < j {
                assert(ranked_before(cs, cs.len(), s[a], s[b - 1]));
            } else if a == j {
                if b - 1 > j {
                    assert(ranked_before(cs, cs.len(), s[j], s[b - 1]));
                    lemma_ranked_before_order(cs, cs.len(), x, s[j], s[b - 1]);
                }
            } else {
                assert(ranked_before(cs, cs.len(), s[a - 1], s[b - 1]));
            }
        }
        assert forall|a: int, b: int| 0 <= a < full.len() && 0 <= b < full.len() && a != b implies full[a]
            != full[b] by {
            assert(full[a] == (if a < j { s[a] } else if a == j { x } else { s[a - 1] }));
            assert(full[b] == (if b < j { s[b] } else if b == j { x } else { s[b - 1] }));
            if a != j && b != j {
                let a2 = if a < j { a } else { a - 1 };
                let b2 = if b < j { b } else { b - 1 };
                assert(s[a2] != s[b2]);
            } else if a == j {
                let b2 = if b < j { b } else { b - 1 };
                assert(s.contains(s[b2]));
            } else {
                let a2 = if a < j { a } else { a - 1 };
                assert(s.contains(s[a2]));
            }
        }
        assert forall|y: u64| full.contains(y) <==> ids.contains(y) by {
            if full.contains(y) {
                let t = choose|t: int| 0 <= t < full.len() && full[t] == y;
                if t != j {
                    let t2 = if t < j { t } else { t - 1 };
                    assert(s.contains(s[t2]));
                    assert(rest.contains(y));
                    let u = choose|u: int| 0 <= u < rest.len() && rest[u] == y;
                    assert(ids[u] == y);
                } else {
                    assert(ids[ids.len() - 1] == y);
                }
            }
            if ids.contains(y) {
                let u = choose|u: int| 0 <= u < ids.len() && ids[u] == y;
                if u < ids.len() - 1 {
                    assert(rest[u] == y);
                    assert(s.contains(y));
                    let t = choose|t: int| 0 <= t < s.len() && s[t] == y;
                    let t2 = if t < j { t } else { t + 1 };
                    assert(full[t2] == y);
                } else {
                    assert(full[j] == y);
                }
            }
        }
        full
    }
}

/// Whatever the window, the page is the window of a fully sorted candidate list.
pub proof fn lemma_page_is_full_sort_window(cs: Seq<Criterion>, ids: Seq<u64>, order: Seq<u64>, start: int, end: int)
    requires
        ids.no_duplicates(),
        is_arrangement(order, ids),
        prefix_ranked(cs, order, min_int(end, ids.len() as int)),
        0 <= start,
        0 <= end,
    ensures
        exists|full: Seq<u64>|
            is_arrangement(full, ids) && prefix_ranked(cs, full, ids.len() as int) && window(order, start, end)
                == window(full, start, end),
{
    let full = lemma_full_ranking_exists(cs, ids);
    lemma_window_matches_full_sort(cs, ids, order, full, start, end);
}

} // verus!
