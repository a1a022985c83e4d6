use crate::docset::{set_contains, strictly_sorted};
use crate::posting::{doc_sorted, lemma_postings_sorted_grouped, postings_sorted, DocIndex, PostingsListView};
use crate::ranking::{lemma_perm_witness, lemma_run_start_mono, run_start};
use slice_group_by::GroupBy;
use std::cmp::Ordering;
use std::rc::Rc;
use vstd::prelude::*;

verus! {

broadcast use vstd::seq_lib::group_seq_properties;

/// Something that belongs to one document.
pub trait DocumentKeyed {
    spec fn spec_document(&self) -> u64;

    fn document(&self) -> (r: u64)
        ensures
            r == self.spec_document(),
    ;
}

impl DocumentKeyed for DocIndex {
    open spec fn spec_document(&self) -> u64 {
        self.document_id
    }

    fn document(&self) -> (r: u64) {
        self.document_id
    }
}

/// Relies on slice_group_by's `linear_group_by_key`: it yields the maximal
/// runs of consecutive elements with the same key, in order; at most `limit`
/// of them are taken, by their lengths.
#[verifier::external_body]
pub(crate) fn leading_runs<T: DocumentKeyed>(s: &[T], limit: usize) -> (runs: Vec<usize>)
    ensures
        runs@.len() <= limit,
        forall|t: int| 0 <= t < runs@.len() ==> runs@[t] > 0,
        run_start(runs@, runs@.len() as int) <= s@.len(),
        runs@.len() < limit ==> run_start(runs@, runs@.len() as int) == s@.len(),
        forall|t: int, i: int|
            #![trigger s@[i], runs@[t]]
            0 <= t < runs@.len() && run_start(runs@, t) <= i < run_start(runs@, t + 1) ==> s@[i].spec_document()
                == s@[run_start(runs@, t)].spec_document(),
        forall|t: int|
            0 < t <= runs@.len() && run_start(runs@, t) < s@.len() ==> s@[run_start(runs@, t)
                - 1].spec_document() != #[trigger] s@[run_start(runs@, t)].spec_document(),
{
    s.linear_group_by_key(|m| m.document()).take(limit).map(|g| g.len()).collect()
}

/// Positions before the first position of document `id` answer `Less`, the others `Greater`.
pub fn doc_order(m: &DocIndex, id: u64) -> (r: Ordering)
    ensures
        r == (if m.document_id < id {
            Ordering::Less
        } else {
            Ordering::Greater
        }),
{
    if m.document_id < id {
        Ordering::Less
    } else {
        Ordering::Greater
    }
}

/// Relies on sdset's `exponential_search_by`: on a slice ordered for the
/// comparator it returns where an element would be inserted; this comparator
/// never answers `Equal`, so that is the first position of a document not
/// below `id`.
#[verifier::external_body]
fn first_not_below(s: &[DocIndex], id: u64) -> (p: usize)
    requires
        doc_sorted(s@),
    ensures
        p <= s@.len(),
        forall|i: int| 0 <= i < p ==> (#[trigger] s@[i]).document_id < id,
        forall|i: int| p <= i < s@.len() ==> (#[trigger] s@[i]).document_id >= id,
{
    sdset::exponential_search_by(s, |m| doc_order(m, id)).unwrap_or_else(|x| x)
}

/// `l[off..off + len]` holds every position of document `d` in `l`.
pub open spec fn is_run(l: Seq<DocIndex>, d: u64, off: int, len: int) -> bool {
    &&& 0 <= off
    &&& 0 < len
    &&& off + len <= l.len()
    &&& forall|i: int| 0 <= i < off ==> (#[trigger] l[i]).document_id < d
    &&& forall|i: int| off <= i < off + len ==> (#[trigger] l[i]).document_id == d
    &&& forall|i: int| off + len <= i < l.len() ==> (#[trigger] l[i]).document_id > d
}

/// The runs of the candidate documents in a posting list, as (document, offset, length).
pub open spec fn term_matches(docids: Seq<u64>, l: Seq<DocIndex>) -> Set<(u64, usize, usize)> {
    Set::new(|x: (u64, usize, usize)| docids.contains(x.0) && is_run(l, x.0, x.1 as int, x.2 as int))
}

proof fn lemma_run_start_at_least(runs: Seq<usize>, n: int)
    requires
        0 <= n <= runs.len(),
        forall|t: int| 0 <= t < runs.len() ==> runs[t] > 0,
    ensures
        run_start(runs, n) >= n,
        forall|m: int| 0 <= m <= n ==> run_start(runs, m) <= run_start(runs, n),
    decreases n,
{
    if n > 0 {
        lemma_run_start_at_least(runs, n - 1);
    }
}

/// A run of `l` that starts and ends where the document changes is the run of its document.
proof fn lemma_group_is_run(l: Seq<DocIndex>, off: int, len: int)
    requires
        doc_sorted(l),
        0 <= off,
        0 < len,
        off + len <= l.len(),
        forall|i: int| off <= i < off + len ==> (#[trigger] l[i]).document_id == l[off].document_id,
        off > 0 ==> l[off - 1].document_id != l[off].document_id,
        off + len < l.len() ==> l[off + len - 1].document_id != l[off + len].document_id,
    ensures
        is_run(l, l[off].document_id, off, len),
{
    let d = l[off].document_id;
    assert forall|i: int| 0 <= i < off implies (#[trigger] l[i]).document_id < d by {
        assert(l[i].document_id <= l[off - 1].document_id);
        assert(l[off - 1].document_id <= l[off].document_id);
    }
    assert forall|i: int| off + len <= i < l.len() implies (#[trigger] l[i]).document_id > d by {
        assert(l[off + len - 1].document_id <= l[off + len].document_id);
        assert(l[off + len].document_id <= l[i].document_id);
    }
}

/// The run of a document is unique.
proof fn lemma_run_unique(l: Seq<DocIndex>, d: u64, off: int, len: int, d2: u64, off2: int, len2: int)
    requires
        is_run(l, d, off, len),
        is_run(l, d2, off2, len2),
        off <= off2 < off + len,
    ensures
        d == d2,
        off == off2,
        len == len2,
{
    assert(l[off2].document_id == d);
    if off < off2 {
        assert(l[off].document_id < d2);
    }
    if len < len2 {
        assert(l[off + len].document_id == d2);
    }
    if len2 < len {
        assert(l[off2 + len2].document_id == d);
    }
}

/// Dense case: walks the posting list document by document and keeps the
/// documents that are candidates.
pub fn matches_by_postings(docids: &Vec<u64>, l: &[DocIndex]) -> (r: Vec<(u64, usize, usize)>)
    requires
        strictly_sorted(docids@),
        doc_sorted(l@),
    ensures
        r@.to_set() == term_matches(docids@, l@),
        r@.no_duplicates(),
{
    let runs = leading_runs(l, l.len());
    proof {
        lemma_run_start_at_least(runs@, runs@.len() as int);
    }
    let mut r: Vec<(u64, usize, usize)> = Vec::new();
    let mut offset: usize = 0;
    let mut t: usize = 0;
    while t < runs.len()
        invariant
            doc_sorted(l@),
            strictly_sorted(docids@),
            t <= runs@.len(),
            offset == run_start(runs@, t as int),
            run_start(runs@, runs@.len() as int) == l@.len(),
            forall|m: int| 0 <= m <= runs@.len() ==> run_start(runs@, m) <= l@.len(),
            forall|tt: int| 0 <= tt < runs@.len() ==> runs@[tt] > 0,
            forall|tt: int, i: int|
                #![trigger l@[i], runs@[tt]]
                0 <= tt < runs@.len() && run_start(runs@, tt) <= i < run_start(runs@, tt + 1) ==> l@[i].spec_document()
                    == l@[run_start(runs@, tt)].spec_document(),
            forall|tt: int|
                0 < tt <= runs@.len() && run_start(runs@, tt) < l@.len() ==> l@[run_start(runs@, tt)
                    - 1].spec_document() != #[trigger] l@[run_start(runs@, tt)].spec_document(),
            forall|x: (u64, usize, usize)|
                r@.contains(x) <==> (docids@.contains(x.0) && is_run(l@, x.0, x.1 as int, x.2 as int)
                    && x.1 < offset),
            forall|i: int, j: int| 0 <= i < j < r@.len() ==> (#[trigger] r@[i]).1 < (#[trigger] r@[j]).1,
            forall|i: int| 0 <= i < r@.len() ==> (#[trigger] r@[i]).1 < offset,
        decreases runs@.len() - t,
    {
        let len = runs[t];
        proof {
            lemma_run_start_at_least(runs@, runs@.len() as int);
            assert(run_start(runs@, t as int + 1) <= l@.len());
            assert forall|i: int| offset <= i < offset + len implies (#[trigger] l@[i]).document_id
                == l@[offset as int].document_id by {
                assert(runs@[t as int] > 0);
            }
            if offset > 0 {
                assert(t > 0);
            }
            assert(run_start(runs@, t as int + 1) == offset + len);
            if offset + len < l@.len() {
                assert(l@[run_start(runs@, t as int + 1) - 1].spec_document() != l@[run_start(
                    runs@,
                    t as int + 1,
                )].spec_document());
            }
            lemma_group_is_run(l@, offset as int, len as int);
        }
        let d = l[offset].document_id;
        let keep = set_contains(docids, d);
        let ghost old_r = r@;
        if keep {
            r.push((d, offset, len));
        }
        proof {
            assert forall|i: int| 0 <= i < r@.len() implies (#[trigger] r@[i]).1 < offset + len by {
                if i < old_r.len() {
                    assert(r@[i] == old_r[i]);
                }
            }
            assert forall|i: int, j: int| 0 <= i < j < r@.len() implies (#[trigger] r@[i]).1 < (#[trigger] r@[j]).1 by {
                if j < old_r.len() {
                    assert(r@[i] == old_r[i] && r@[j] == old_r[j]);
                } else {
                    assert(r@[i] == old_r[i]);
                }
            }
        }
        proof {
            assert forall|x: (u64, usize, usize)|
                r@.contains(x) <==> (docids@.contains(x.0) && is_run(l@, x.0, x.1 as int, x.2 as int)
                    && x.1 < offset + len) by {
                if docids@.contains(x.0) && is_run(l@, x.0, x.1 as int, x.2 as int) && offset <= x.1 < offset
                    + len {
                    lemma_run_unique(l@, d, offset as int, len as int, x.0, x.1 as int, x.2 as int);
                    assert(keep);
                    assert(r@ == old_r.push((d, offset, len)));
                    assert(r@[r@.len() - 1] == x);
                }
                if docids@.contains(x.0) && is_run(l@, x.0, x.1 as int, x.2 as int) && x.1 < offset {
                    assert(old_r.contains(x));
                    let w = choose|w: int| 0 <= w < old_r.len() && old_r[w] == x;
                    assert(r@[w] == x);
                }
                if r@.contains(x) {
                    let w = choose|w: int| 0 <= w < r@.len() && r@[w] == x;
                    if w < old_r.len() {
                        assert(old_r[w] == x);
                        assert(old_r.contains(x));
                    } else {
                        assert(x == (d, offset, len));
                    }
                }
            }
        }
        offset = offset + len;
        t += 1;
    }
    proof {
        assert forall|x: (u64, usize, usize)| r@.to_set().contains(x) <==> term_matches(docids@, l@).contains(x) by {
            if is_run(l@, x.0, x.1 as int, x.2 as int) {
                assert(x.1 < l@.len());
            }
        }
        assert(r@.to_set() =~= term_matches(docids@, l@));
        assert forall|i: int, j: int| 0 <= i < r@.len() && 0 <= j < r@.len() && i != j implies r@[i] != r@[j] by {
            if i < j {
                assert(r@[i].1 < r@[j].1);
            } else {
                assert(r@[j].1 < r@[i].1);
            }
        }
    }
    r
}

/// Sparse case: for each candidate, searches the rest of the posting list
/// exponentially and takes the run of positions found there.
pub fn matches_by_docids(docids: &Vec<u64>, l: &[DocIndex]) -> (r: Vec<(u64, usize, usize)>)
    requires
        strictly_sorted(docids@),
        doc_sorted(l@),
    ensures
        r@.to_set() == term_matches(docids@, l@),
        r@.no_duplicates(),
{
    let mut r: Vec<(u64, usize, usize)> = Vec::new();
    let mut offset: usize = 0;
    let mut k: usize = 0;
    while k < docids.len()
        invariant
            doc_sorted(l@),
            strictly_sorted(docids@),
            k <= docids@.len(),
            offset <= l@.len(),
            k < docids@.len() ==> forall|i: int| 0 <= i < offset ==> (#[trigger] l@[i]).document_id < docids@[k as int],
            forall|x: (u64, usize, usize)|
                r@.contains(x) <==> (docids@.subrange(0, k as int).contains(x.0) && is_run(
                    l@,
                    x.0,
                    x.1 as int,
                    x.2 as int,
                )),
            forall|i: int, j: int| 0 <= i < j < r@.len() ==> (#[trigger] r@[i]).0 < (#[trigger] r@[j]).0,
            k < docids@.len() ==> forall|i: int| 0 <= i < r@.len() ==> (#[trigger] r@[i]).0 < docids@[k as int],
        decreases docids@.len() - k,
    {
        let id = docids[k];
        let tail = &l[offset..l.len()];
        proof {
            assert forall|i: int, j: int| 0 <= i <= j < tail@.len() implies #[trigger] tail@[i].document_id
                <= #[trigger] tail@[j].document_id by {
                assert(tail@[i] == l@[offset + i]);
                assert(tail@[j] == l@[offset + j]);
            }
        }
        let pos = first_not_below(tail, id);
        proof {
            assert forall|i: int| 0 <= i < offset + pos implies (#[trigger] l@[i]).document_id < id by {
                if i >= offset {
                    assert(l@[i] == tail@[i - offset]);
                }
            }
            assert forall|i: int| offset + pos <= i < l@.len() implies (#[trigger] l@[i]).document_id >= id by {
                assert(l@[i] == tail@[i - offset]);
            }
        }
        offset = offset + pos;
        let rest = &l[offset..l.len()];
        let runs = leading_runs(rest, 1);
        let ghost old_r = r@;
        let mut found = false;
        if runs.len() == 1 {
            proof {
                assert(run_start(runs@, 0) == 0);
                assert(run_start(runs@, 1) == runs@[0]);
                assert(runs@[0] > 0);
            }
            if l[offset].document_id == id {
                found = true;
                let len = runs[0];
                proof {
                    assert(run_start(runs@, 0) == 0);
                    assert(run_start(runs@, 1) == len);
                    assert forall|i: int| offset <= i < offset + len implies (#[trigger] l@[i]).document_id
                        == id by {
                        assert(l@[i] == rest@[i - offset]);
                        assert(rest@[i - offset].spec_document() == rest@[run_start(runs@, 0)].spec_document());
                    }
                    if offset + len < l@.len() {
                        assert(rest@[run_start(runs@, 1) - 1].spec_document() != rest@[run_start(runs@, 1)].spec_document());
                        assert(l@[offset + len] == rest@[len as int]);
                        assert(l@[offset + len - 1] == rest@[len - 1]);
                    }
                    lemma_group_is_run(l@, offset as int, len as int);
                }
                r.push((id, offset, len));
            }
        }
        proof {
            assert forall|i: int, j: int| 0 <= i < j < r@.len() implies (#[trigger] r@[i]).0 < (#[trigger] r@[j]).0 by {
                if j < old_r.len() {
                    assert(r@[i] == old_r[i] && r@[j] == old_r[j]);
                } else {
                    assert(r@[i] == old_r[i]);
                    assert(r@[j].0 == id);
                }
            }
            if k + 1 < docids@.len() {
                assert(docids@[k as int] < docids@[k + 1]);
                assert forall|i: int| 0 <= i < r@.len() implies (#[trigger] r@[i]).0 < docids@[k + 1] by {
                    if i < old_r.len() {
                        assert(r@[i] == old_r[i]);
                    }
                }
            }
            let pre = docids@.subrange(0, k as int);
            let post = docids@.subrange(0, k as int + 1);
            assert(post == pre.push(id));
            assert forall|x: (u64, usize, usize)|
                r@.contains(x) <==> (post.contains(x.0) && is_run(l@, x.0, x.1 as int, x.2 as int)) by {
                if post.contains(x.0) && is_run(l@, x.0, x.1 as int, x.2 as int) {
                    if x.0 == id {
                        assert(l@[x.1 as int].document_id == id);
                        assert(x.1 >= offset);
                        if x.1 > offset {
                            assert(l@[offset as int].document_id < id);
                            assert(l@[offset as int].document_id >= id);
                        }
                        assert(offset < l@.len());
                        assert(rest@.len() > 0);
                        assert(runs@.len() == 1);
                        assert(l@[offset as int] == rest@[0]);
                        assert(found);
                        lemma_run_unique(l@, id, offset as int, runs@[0] as int, x.0, x.1 as int, x.2 as int);
                        assert(r@[r@.len() - 1] == x);
                    } else {
                        assert(pre.contains(x.0));
                        assert(old_r.contains(x));
                        let w = choose|w: int| 0 <= w < old_r.len() && old_r[w] == x;
                        assert(r@[w] == x);
                    }
                }
                if r@.contains(x) {
                    let w = choose|w: int| 0 <= w < r@.len() && r@[w] == x;
                    if w < old_r.len() {
                        assert(old_r[w] == x);
                        assert(old_r.contains(x));
                        assert(pre.contains(x.0));
                        let v = choose|v: int| 0 <= v < pre.len() && pre[v] == x.0;
                        assert(post[v] == x.0);
                    } else {
                        assert(x.0 == id);
                        assert(post[k as int] == id);
                    }
                }
            }
            if k + 1 < docids@.len() {
                assert(docids@[k as int] < docids@[k + 1]);
                assert forall|i: int| 0 <= i < offset implies (#[trigger] l@[i]).document_id < docids@[k + 1] by {
                    if found {
                        assert(l@[i].document_id < id);
                    }
                }
            }
        }
        k += 1;
    }
    proof {
        assert(docids@.subrange(0, k as int) == docids@);
        assert(r@.to_set() =~= term_matches(docids@, l@));
        assert forall|i: int, j: int| 0 <= i < r@.len() && 0 <= j < r@.len() && i != j implies r@[i] != r@[j] by {
            if i < j {
                assert(r@[i].0 < r@[j].0);
            } else {
                assert(r@[j].0 < r@[i].0);
            }
        }
    }
    r
}

/// Both ways of reading a posting list against the candidates find the same
/// matches: every candidate that occurs in the list, with its whole run.
pub proof fn lemma_density_branches_agree(
    docids: Seq<u64>,
    l: Seq<DocIndex>,
    dense: Seq<(u64, usize, usize)>,
    sparse: Seq<(u64, usize, usize)>,
)
    requires
        doc_sorted(l),
        dense.to_set() == term_matches(docids, l),
        sparse.to_set() == term_matches(docids, l),
    ensures
        dense.to_set() == sparse.to_set(),
        forall|x: (u64, usize, usize), y: (u64, usize, usize)|
            dense.to_set().contains(x) && dense.to_set().contains(y) && x.0 == y.0 ==> x == y,
{
    assert forall|x: (u64, usize, usize), y: (u64, usize, usize)|
        dense.to_set().contains(x) && dense.to_set().contains(y) && x.0 == y.0 implies x == y by {
        assert(term_matches(docids, l).contains(x));
        assert(term_matches(docids, l).contains(y));
        if x.1 <= y.1 {
            assert(l[y.1 as int].document_id == y.0);
            if y.1 >= x.1 + x.2 {
                assert(l[y.1 as int].document_id > x.0);
            }
            lemma_run_unique(l, x.0, x.1 as int, x.2 as int, y.0, y.1 as int, y.2 as int);
        } else {
            assert(l[x.1 as int].document_id == x.0);
            if x.1 >= y.1 + y.2 {
                assert(l[x.1 as int].document_id > y.0);
            }
            lemma_run_unique(l, y.0, y.1 as int, y.2 as int, x.0, x.1 as int, x.2 as int);
        }
    }
}

/// What a query word resolved to: the word, its query id, its typo distance
/// and whether it matched exactly.
pub struct PostingsKey {
    pub query: usize,
    pub input: Vec<u8>,
    pub distance: u8,
    pub is_exact: bool,
}

/// A query word found in a document, with the posting-list view of its positions there.
#[derive(Clone, Copy, Debug, PartialEq, Eq)]
pub struct BareMatch {
    pub document_id: u64,
    pub query_index: usize,
    pub distance: u8,
    pub is_exact: bool,
    pub postings_list: usize,
}

impl DocumentKeyed for BareMatch {
    open spec fn spec_document(&self) -> u64 {
        self.document_id
    }

    fn document(&self) -> (r: u64) {
        self.document_id
    }
}

/// One decoded position of a match.
#[derive(Debug, Clone, Copy, PartialEq, Eq, PartialOrd, Ord)]
pub struct SimpleMatch {
    pub query_index: usize,
    pub distance: u8,
    pub attribute: u16,
    pub word_index: u16,
    pub is_exact: bool,
}

/// Per-search storage of posting-list views, addressed by index.
pub struct Arena {
    views: Vec<PostingsListView>,
}

impl View for Arena {
    type V = Seq<PostingsListView>;

    closed spec fn view(&self) -> Seq<PostingsListView> {
        self.views@
    }
}

impl Arena {
    pub fn new() -> (r: Arena)
        ensures
            r@.len() == 0,
    {
        Arena { views: Vec::new() }
    }

    pub fn add(&mut self, view: PostingsListView) -> (r: usize)
        ensures
            final(self)@ == old(self)@.push(view),
            r == old(self)@.len(),
    {
        let r = self.views.len();
        self.views.push(view);
        r
    }

    pub fn get(&self, index: usize) -> (r: &PostingsListView)
        requires
            index < self@.len(),
        ensures
            *r == self@[index as int],
    {
        &self.views[index]
    }

    pub fn len(&self) -> (r: usize)
        ensures
            r == self@.len(),
    {
        self.views.len()
    }
}

/// `m` is a match of the query word `key` (posting list `l`) in a candidate,
/// and its arena entry is the window of `l` over that document's positions.
pub open spec fn describes(
    arena: Seq<PostingsListView>,
    docids: Seq<u64>,
    key: PostingsKey,
    l: Seq<DocIndex>,
    m: BareMatch,
) -> bool {
    &&& m.query_index == key.query
    &&& m.distance == key.distance
    &&& m.is_exact == key.is_exact
    &&& docids.contains(m.document_id)
    &&& m.postings_list < arena.len()
    &&& arena[m.postings_list as int] is Original
    &&& arena[m.postings_list as int].wf()
    &&& arena[m.postings_list as int].input_bytes() == key.input@
    &&& exists|off: int, len: int|
        #[trigger] is_run(l, m.document_id, off, len) && arena[m.postings_list as int]@ == l.subrange(
            off,
            off + len,
        )
}

/// `m` is a match of one of the query words `qs`.
pub open spec fn described_by_some(
    arena: Seq<PostingsListView>,
    docids: Seq<u64>,
    qs: Seq<(PostingsKey, Vec<DocIndex>)>,
    m: BareMatch,
) -> bool {
    exists|q: int| 0 <= q < qs.len() && describes(arena, docids, qs[q].0, qs[q].1@, m)
}

/// Relies on `<[T]>::sort_unstable_by_key`: the same elements, ordered by document.
#[verifier::external_body]
fn sort_by_document(v: &mut Vec<BareMatch>)
    ensures
        final(v)@.to_multiset() == old(v)@.to_multiset(),
        forall|i: int, j: int|
            0 <= i <= j < final(v)@.len() ==> (#[trigger] final(v)@[i]).document_id <= (
            #[trigger] final(v)@[j]).document_id,
{
    v.sort_unstable_by_key(|m| m.document_id)
}

/// The run `l[off..off + len]` of document `d` found among the bare matches.
pub open spec fn has_match(
    arena: Seq<PostingsListView>,
    r: Seq<BareMatch>,
    key: PostingsKey,
    l: Seq<DocIndex>,
    d: u64,
    off: int,
    len: int,
) -> bool {
    exists|i: int| 0 <= i < r.len() && #[trigger] match_at(arena, r[i], key, l, d, off, len)
}

/// `m` is the match of the run `l[off..off + len]` of document `d` for the query word `key`.
pub open spec fn match_at(
    arena: Seq<PostingsListView>,
    m: BareMatch,
    key: PostingsKey,
    l: Seq<DocIndex>,
    d: u64,
    off: int,
    len: int,
) -> bool {
    &&& m.document_id == d
    &&& m.query_index == key.query
    &&& m.distance == key.distance
    &&& m.is_exact == key.is_exact
    &&& m.postings_list < arena.len()
    &&& arena[m.postings_list as int]@ == l.subrange(off, off + len)
    &&& arena[m.postings_list as int].input_bytes() == key.input@
}

proof fn lemma_describes_push(
    arena: Seq<PostingsListView>,
    v: PostingsListView,
    docids: Seq<u64>,
    key: PostingsKey,
    l: Seq<DocIndex>,
    m: BareMatch,
)
    requires
        describes(arena, docids, key, l, m),
    ensures
        describes(arena.push(v), docids, key, l, m),
{
    let a2 = arena.push(v);
    assert(a2[m.postings_list as int] == arena[m.postings_list as int]);
    let (off, len) = choose|off: int, len: int|
        #[trigger] is_run(l, m.document_id, off, len) && arena[m.postings_list as int]@ == l.subrange(off, off + len);
    assert(is_run(l, m.document_id, off, len) && a2[m.postings_list as int]@ == l.subrange(off, off + len));
}

proof fn lemma_has_match_push(
    arena: Seq<PostingsListView>,
    v: PostingsListView,
    r: Seq<BareMatch>,
    m: BareMatch,
    key: PostingsKey,
    l: Seq<DocIndex>,
    d: u64,
    off: int,
    len: int,
)
    requires
        has_match(arena, r, key, l, d, off, len),
    ensures
        has_match(arena.push(v), r.push(m), key, l, d, off, len),
{
    let i = choose|i: int| 0 <= i < r.len() && #[trigger] match_at(arena, r[i], key, l, d, off, len);
    assert(r.push(m)[i] == r[i]);
    assert(arena.push(v)[r[i].postings_list as int] == arena[r[i].postings_list as int]);
    assert(match_at(arena.push(v), r.push(m)[i], key, l, d, off, len));
}

proof fn lemma_sort_keeps_matches(
    unsorted: Seq<BareMatch>,
    sorted: Seq<BareMatch>,
    arena: Seq<PostingsListView>,
    docids: Seq<u64>,
    qs: Seq<(PostingsKey, Vec<DocIndex>)>,
    base: int,
)
    requires
        sorted.to_multiset() == unsorted.to_multiset(),
        forall|i: int| 0 <= i < unsorted.len() ==> (#[trigger] unsorted[i]).postings_list == base + i,
        forall|i: int|
            #![trigger unsorted[i]]
            0 <= i < unsorted.len() ==> described_by_some(arena, docids, qs, unsorted[i]),
        forall|q: int, d: u64, off: int, len: int|
            0 <= q < qs.len() && docids.contains(d) && #[trigger] is_run(qs[q].1@, d, off, len) ==> has_match(
                arena,
                unsorted,
                qs[q].0,
                qs[q].1@,
                d,
                off,
                len,
            ),
    ensures
        sorted.len() == unsorted.len(),
        forall|i: int|
            #![trigger sorted[i]]
            0 <= i < sorted.len() ==> described_by_some(arena, docids, qs, sorted[i]),
        forall|i: int| 0 <= i < sorted.len() ==> base <= (#[trigger] sorted[i]).postings_list,
        forall|i: int, j: int|
            0 <= i < sorted.len() && 0 <= j < sorted.len() && i != j ==> (#[trigger] sorted[i]).postings_list
                != (#[trigger] sorted[j]).postings_list,
        forall|q: int, d: u64, off: int, len: int|
            0 <= q < qs.len() && docids.contains(d) && #[trigger] is_run(qs[q].1@, d, off, len) ==> has_match(
                arena,
                sorted,
                qs[q].0,
                qs[q].1@,
                d,
                off,
                len,
            ),
{
    assert(unsorted.no_duplicates()) by {
        assert forall|i: int, j: int| 0 <= i < unsorted.len() && 0 <= j < unsorted.len() && i != j implies unsorted[i]
            != unsorted[j] by {
            assert(unsorted[i].postings_list == base + i);
            assert(unsorted[j].postings_list == base + j);
        }
    }
    lemma_perm_witness(sorted, unsorted);
    assert forall|i: int| #![trigger sorted[i]] 0 <= i < sorted.len() implies described_by_some(arena, docids, qs, sorted[i]) by {
        assert(unsorted.contains(sorted[i]));
        let j = choose|j: int| 0 <= j < unsorted.len() && unsorted[j] == sorted[i];
        assert(described_by_some(arena, docids, qs, unsorted[j]));
    }
    assert forall|i: int| 0 <= i < sorted.len() implies base <= (#[trigger] sorted[i]).postings_list by {
        assert(unsorted.contains(sorted[i]));
        let j = choose|j: int| 0 <= j < unsorted.len() && unsorted[j] == sorted[i];
        assert(unsorted[j].postings_list == base + j);
    }
    assert forall|i: int, j: int|
        0 <= i < sorted.len() && 0 <= j < sorted.len() && i != j implies (#[trigger] sorted[i]).postings_list
            != (#[trigger] sorted[j]).postings_list by {
        assert(unsorted.contains(sorted[i]));
        assert(unsorted.contains(sorted[j]));
        let i2 = choose|i2: int| 0 <= i2 < unsorted.len() && unsorted[i2] == sorted[i];
        let j2 = choose|j2: int| 0 <= j2 < unsorted.len() && unsorted[j2] == sorted[j];
        assert(unsorted[i2].postings_list == base + i2);
        assert(unsorted[j2].postings_list == base + j2);
    }
    assert forall|q: int, d: u64, off: int, len: int|
        0 <= q < qs.len() && docids.contains(d) && #[trigger] is_run(qs[q].1@, d, off, len) implies has_match(
            arena,
            sorted,
            qs[q].0,
            qs[q].1@,
            d,
            off,
            len,
        ) by {
        assert(has_match(arena, unsorted, qs[q].0, qs[q].1@, d, off, len));
        let i = choose|i: int| 0 <= i < unsorted.len() && #[trigger] match_at(arena, unsorted[i], qs[q].0, qs[q].1@, d, off, len);
        assert(sorted.contains(unsorted[i]));
        let j = choose|j: int| 0 <= j < sorted.len() && sorted[j] == unsorted[i];
        assert(match_at(arena, sorted[j], qs[q].0, qs[q].1@, d, off, len));
    }
}

/// How many runs of candidates the posting lists hold together.
pub open spec fn total_matches(docids: Seq<u64>, qs: Seq<(PostingsKey, Vec<DocIndex>)>) -> nat
    decreases qs.len(),
{
    if qs.len() == 0 {
        0
    } else {
        total_matches(docids, qs.drop_last()) + term_matches(docids, qs.last().1@).len()
    }
}

/// Turns the posting lists of the query words into bare matches of the
/// candidate documents, sorted by document. Each match gets its own arena
/// entry: the window of its posting list over that document's positions.
/// A posting list is read by walking it when the candidates are at least
/// four fifths of its length, by searching it for each candidate otherwise.
pub fn cleanup_bare_matches(
    arena: &mut Arena,
    docids: &Vec<u64>,
    queries: Vec<(PostingsKey, Vec<DocIndex>)>,
) -> (r: Vec<BareMatch>)
    requires
        strictly_sorted(docids@),
        forall|q: int| 0 <= q < queries@.len() ==> postings_sorted((#[trigger] queries@[q]).1@),
    ensures
        r@.len() == total_matches(docids@, queries@),
        final(arena)@.len() == old(arena)@.len() + r@.len(),
        forall|i: int| 0 <= i < old(arena)@.len() ==> #[trigger] final(arena)@[i] == old(arena)@[i],
        forall|i: int|
            #![trigger r@[i]]
            0 <= i < r@.len() ==> described_by_some(final(arena)@, docids@, queries@, r@[i]),
        forall|i: int| 0 <= i < r@.len() ==> old(arena)@.len() <= (#[trigger] r@[i]).postings_list,
        forall|i: int, j: int|
            0 <= i < r@.len() && 0 <= j < r@.len() && i != j ==> (#[trigger] r@[i]).postings_list
                != (#[trigger] r@[j]).postings_list,
        forall|i: int, j: int|
            0 <= i <= j < r@.len() ==> (#[trigger] r@[i]).document_id <= (#[trigger] r@[j]).document_id,
        forall|q: int, d: u64, off: int, len: int|
            0 <= q < queries@.len() && docids@.contains(d) && #[trigger] is_run(queries@[q].1@, d, off, len)
                ==> has_match(final(arena)@, r@, queries@[q].0, queries@[q].1@, d, off, len),
{
    let ghost qs = queries@;
    let ghost a0 = arena@;
    let mut queries = queries;
    let mut out: Vec<BareMatch> = Vec::new();
    while queries.len() > 0
        invariant
            strictly_sorted(docids@),
            forall|q: int| 0 <= q < qs.len() ==> postings_sorted((#[trigger] qs[q]).1@),
            queries@.len() <= qs.len(),
            queries@ == qs.subrange(0, queries@.len() as int),
            out@.len() + total_matches(docids@, queries@) == total_matches(docids@, qs),
            arena@.len() == a0.len() + out@.len(),
            forall|i: int| 0 <= i < a0.len() ==> #[trigger] arena@[i] == a0[i],
            forall|i: int| 0 <= i < out@.len() ==> (#[trigger] out@[i]).postings_list == a0.len() + i,
            forall|i: int|
                #![trigger out@[i]]
                0 <= i < out@.len() ==> described_by_some(arena@, docids@, qs, out@[i]),
            forall|q: int, d: u64, off: int, len: int|
                queries@.len() <= q < qs.len() && docids@.contains(d) && #[trigger] is_run(qs[q].1@, d, off, len)
                    ==> has_match(arena@, out@, qs[q].0, qs[q].1@, d, off, len),
        decreases queries@.len(),
    {
        let ghost qi = queries@.len() - 1;
        let ghost qb = queries@;
        let (key, list) = match queries.pop() {
            Some(entry) => entry,
            None => {
                proof {
                    assert(false);
                }
                return out;
            },
        };
        let ghost key_g = qs[qi].0;
        let ghost l_g = qs[qi].1@;
        let query = key.query;
        let distance = key.distance;
        let is_exact = key.is_exact;
        let view = PostingsListView::original(Rc::new(key.input), Rc::new(list));
        let l = view.as_slice();
        proof {
            lemma_postings_sorted_grouped(l@);
        }
        let dense = 5 * (docids.len() as u128) >= 4 * (l.len() as u128);
        let trips = if dense {
            matches_by_postings(docids, l)
        } else {
            matches_by_docids(docids, l)
        };
        let ghost out0 = out@;
        let ghost arena0 = arena@;
        let mut w: usize = 0;
        while w < trips.len()
            invariant
                trips@.to_set() == term_matches(docids@, l_g),
                view@ == l_g,
                view is Original,
                view.wf(),
                view.input_bytes() == key_g.input@,
                query == key_g.query,
                distance == key_g.distance,
                is_exact == key_g.is_exact,
                0 <= qi < qs.len(),
                key_g == qs[qi].0,
                l_g == qs[qi].1@,
                w <= trips@.len(),
                trips@.no_duplicates(),
                arena0.len() == a0.len() + out0.len(),
                out@.len() == out0.len() + w,
                arena@.len() == a0.len() + out@.len(),
                forall|i: int| 0 <= i < out0.len() ==> #[trigger] out@[i] == out0[i],
                forall|i: int| 0 <= i < arena0.len() ==> #[trigger] arena@[i] == arena0[i],
                forall|i: int| 0 <= i < a0.len() ==> #[trigger] arena@[i] == a0[i],
                forall|i: int| 0 <= i < out@.len() ==> (#[trigger] out@[i]).postings_list == a0.len() + i,
                forall|i: int|
                    #![trigger out@[i]]
                    0 <= i < out@.len() ==> described_by_some(arena@, docids@, qs, out@[i]),
                forall|q: int, d: u64, off: int, len: int|
                    qi < q < qs.len() && docids@.contains(d) && #[trigger] is_run(qs[q].1@, d, off, len)
                        ==> has_match(arena@, out@, qs[q].0, qs[q].1@, d, off, len),
                forall|v: int|
                    0 <= v < w ==> has_match(arena@, out@, key_g, l_g, (#[trigger] trips@[v]).0, trips@[v].1 as int, trips@[v].2 as int),
            decreases trips@.len() - w,
        {
            let (d, off, len) = trips[w];
            proof {
                assert(trips@.to_set().contains(trips@[w as int]));
                assert(term_matches(docids@, l_g).contains((d, off, len)));
            }
            let sub = view.range(off, len);
            let ghost arena_before = arena@;
            let ghost out_before = out@;
            let idx = arena.add(sub);
            let m = BareMatch { document_id: d, query_index: query, distance, is_exact, postings_list: idx };
            out.push(m);
            proof {
                assert forall|i: int| 0 <= i < arena_before.len() implies #[trigger] arena@[i] == arena_before[i] by {}
                assert(arena@[idx as int] == sub);
                assert(sub@ == l_g.subrange(off as int, off + len));
                assert(docids@.contains(d));
                assert(m.query_index == key_g.query);
                assert(sub.input_bytes() == key_g.input@);
                assert(is_run(l_g, d, off as int, len as int) && arena@[m.postings_list as int]@ == l_g.subrange(
                    off as int,
                    off + len,
                ));
                assert(m.postings_list < arena@.len());
                assert(arena@[m.postings_list as int] is Original);
                assert(arena@[m.postings_list as int].wf());
                assert(m.distance == qs[qi].0.distance);
                assert(m.is_exact == qs[qi].0.is_exact);
                assert(m.query_index == qs[qi].0.query);
                assert(arena@[m.postings_list as int].input_bytes() == qs[qi].0.input@);
                assert(is_run(qs[qi].1@, m.document_id, off as int, len as int));
                assert(arena@[m.postings_list as int]@ == qs[qi].1@.subrange(off as int, off as int + len as int));
                assert(docids@.contains(m.document_id));
                assert(describes(arena@, docids@, qs[qi].0, qs[qi].1@, m));
                assert forall|i: int| #![trigger out@[i]] 0 <= i < out@.len() implies described_by_some(arena@, docids@, qs, out@[i]) by {
                    if i < out_before.len() {
                        assert(out@[i] == out_before[i]);
                        assert(described_by_some(arena_before, docids@, qs, out_before[i]));
                        let q = choose|q: int|
                            0 <= q < qs.len() && describes(arena_before, docids@, qs[q].0, qs[q].1@, out_before[i]);
                        lemma_describes_push(arena_before, sub, docids@, qs[q].0, qs[q].1@, out_before[i]);
                    } else {
                        assert(out@[i] == m);
                        assert(describes(arena@, docids@, qs[qi].0, qs[qi].1@, out@[i]));
                        assert(described_by_some(arena@, docids@, qs, out@[i]));
                    }
                }
                assert forall|q: int, d: u64, off: int, len: int|
                    qi < q < qs.len() && docids@.contains(d) && #[trigger] is_run(qs[q].1@, d, off, len)
                        implies has_match(arena@, out@, qs[q].0, qs[q].1@, d, off, len) by {
                    lemma_has_match_push(arena_before, sub, out_before, m, qs[q].0, qs[q].1@, d, off, len);
                }
                assert forall|v: int| 0 <= v < w + 1 implies has_match(arena@, out@, key_g, l_g, (#[trigger] trips@[v]).0, trips@[v].1 as int, trips@[v].2 as int) by {
                    if v < w {
                        lemma_has_match_push(arena_before, sub, out_before, m, key_g, l_g, trips@[v].0, trips@[v].1 as int, trips@[v].2 as int);
                    } else {
                        assert(out@[out@.len() - 1] == m);
                        assert(arena@[idx as int] == sub);
                        assert(match_at(arena@, out@[out@.len() - 1], key_g, l_g, d, off as int, len as int));
                    }
                }
            }
            w += 1;
        }
        proof {
            trips@.unique_seq_to_set();
            assert(queries@ == qb.drop_last());
            assert(qb.last() == qs[qi]);
            assert(total_matches(docids@, qb) == total_matches(docids@, queries@) + term_matches(docids@, l_g).len());
            assert forall|q: int, d: u64, off: int, len: int|
                queries@.len() <= q < qs.len() && docids@.contains(d) && #[trigger] is_run(qs[q].1@, d, off, len)
                    implies has_match(arena@, out@, qs[q].0, qs[q].1@, d, off, len) by {
                if q == qi {
                    let x = (d, off as usize, len as usize);
                    assert(l_g.len() <= usize::MAX);
                    assert(term_matches(docids@, l_g).contains(x));
                    assert(trips@.to_set().contains(x));
                    let v = choose|v: int| 0 <= v < trips@.len() && trips@[v] == x;
                    assert(has_match(arena@, out@, key_g, l_g, trips@[v].0, trips@[v].1 as int, trips@[v].2 as int));
                }
            }
            assert(queries@ =~= qs.subrange(0, queries@.len() as int));
        }
    }
    let ghost unsorted = out@;
    let ghost arena_f = arena@;
    sort_by_document(&mut out);
    proof {
        assert(queries@.len() == 0);
        lemma_sort_keeps_matches(unsorted, out@, arena@, docids@, qs, a0.len() as int);
    }
    out
}

/// A candidate document: its identifier and the block of the sorted bare
/// matches that belong to it.
#[derive(Clone, Copy, Debug, PartialEq, Eq)]
pub struct RawDocument {
    pub id: u64,
    pub start: usize,
    pub len: usize,
}

/// `docs` cuts the document-sorted `bm` into one block per document, in order.
pub open spec fn groups_matches(bm: Seq<BareMatch>, docs: Seq<RawDocument>) -> bool {
    &&& forall|i: int| 0 <= i < docs.len() ==> (#[trigger] docs[i]).len > 0
    &&& forall|i: int| 0 <= i < docs.len() ==> (#[trigger] docs[i]).start + docs[i].len <= bm.len()
    &&& docs.len() > 0 ==> docs[0].start == 0
    &&& docs.len() > 0 ==> docs[docs.len() - 1].start + docs[docs.len() - 1].len == bm.len()
    &&& docs.len() == 0 ==> bm.len() == 0
    &&& forall|i: int| 0 <= i < docs.len() - 1 ==> (#[trigger] docs[i]).start + docs[i].len == docs[i + 1].start
    &&& forall|i: int, j: int|
        0 <= i < docs.len() && docs[i].start <= j < docs[i].start + docs[i].len ==> (#[trigger] bm[j]).document_id
            == (#[trigger] docs[i]).id
    &&& forall|i: int, j: int| 0 <= i < j < docs.len() ==> (#[trigger] docs[i]).id < (#[trigger] docs[j]).id
}

#[verifier::rlimit(80)]
proof fn lemma_runs_group(bm: Seq<BareMatch>, runs: Seq<usize>, rs: Seq<RawDocument>)
    requires
        forall|i: int, j: int|
            0 <= i <= j < bm.len() ==> (#[trigger] bm[i]).document_id <= (#[trigger] bm[j]).document_id,
        rs.len() == runs.len(),
        run_start(runs, runs.len() as int) == bm.len(),
        forall|tt: int| 0 <= tt < runs.len() ==> runs[tt] > 0,
        forall|tt: int, i: int|
            #![trigger bm[i], runs[tt]]
            0 <= tt < runs.len() && run_start(runs, tt) <= i < run_start(runs, tt + 1) ==> bm[i].spec_document()
                == bm[run_start(runs, tt)].spec_document(),
        forall|tt: int|
            0 < tt <= runs.len() && run_start(runs, tt) < bm.len() ==> bm[run_start(runs, tt)
                - 1].spec_document() != #[trigger] bm[run_start(runs, tt)].spec_document(),
        forall|i: int| 0 <= i < rs.len() ==> (#[trigger] rs[i]).start == run_start(runs, i) && rs[i].len == runs[i]
            && rs[i].id == bm[run_start(runs, i)].document_id,
        forall|i: int, j: int| 0 <= i < j < rs.len() ==> (#[trigger] rs[i]).id < (#[trigger] rs[j]).id,
    ensures
        groups_matches(bm, rs),
{
    assert forall|i: int, j: int|
        0 <= i < rs.len() && rs[i].start <= j < rs[i].start + rs[i].len implies (#[trigger] bm[j]).document_id
            == (#[trigger] rs[i]).id by {
        assert(rs[i].start == run_start(runs, i));
        assert(run_start(runs, i + 1) == rs[i].start + rs[i].len);
        assert(bm[j].spec_document() == bm[run_start(runs, i)].spec_document());
    }
    assert forall|i: int| 0 <= i < rs.len() implies (#[trigger] rs[i]).start + rs[i].len <= bm.len() by {
        lemma_run_start_mono(runs, i + 1, runs.len() as int);
        assert(run_start(runs, i + 1) == rs[i].start + rs[i].len);
    }
    assert forall|i: int| 0 <= i < rs.len() - 1 implies (#[trigger] rs[i]).start + rs[i].len == rs[i + 1].start by {
        assert(rs[i + 1].start == run_start(runs, i + 1));
    }
    if rs.len() == 0 {
        assert(run_start(runs, 0) == 0);
    } else {
        assert(rs[rs.len() - 1].start + rs[rs.len() - 1].len == run_start(runs, rs.len() as int));
        assert(rs[0].start == run_start(runs, 0));
    }
}

/// Groups the bare matches, sorted by document, into one raw document per document.
pub fn raw_documents(bare_matches: &Vec<BareMatch>) -> (r: Vec<RawDocument>)
    requires
        forall|i: int, j: int|
            0 <= i <= j < bare_matches@.len() ==> (#[trigger] bare_matches@[i]).document_id <= (
            #[trigger] bare_matches@[j]).document_id,
    ensures
        groups_matches(bare_matches@, r@),
{
    let bm = bare_matches.as_slice();
    let runs = leading_runs(bm, bm.len());
    proof {
        lemma_run_start_at_least(runs@, runs@.len() as int);
    }
    let mut r: Vec<RawDocument> = Vec::new();
    let mut offset: usize = 0;
    let mut t: usize = 0;
    while t < runs.len()
        invariant
            bm@ == bare_matches@,
            forall|i: int, j: int|
                0 <= i <= j < bm@.len() ==> (#[trigger] bm@[i]).document_id <= (#[trigger] bm@[j]).document_id,
            t <= runs@.len(),
            r@.len() == t,
            offset == run_start(runs@, t as int),
            run_start(runs@, runs@.len() as int) == bm@.len(),
            forall|m: int| 0 <= m <= runs@.len() ==> run_start(runs@, m) <= bm@.len(),
            forall|tt: int| 0 <= tt < runs@.len() ==> runs@[tt] > 0,
            forall|tt: int, i: int|
                #![trigger bm@[i], runs@[tt]]
                0 <= tt < runs@.len() && run_start(runs@, tt) <= i < run_start(runs@, tt + 1) ==> bm@[i].spec_document()
                    == bm@[run_start(runs@, tt)].spec_document(),
            forall|tt: int|
                0 < tt <= runs@.len() && run_start(runs@, tt) < bm@.len() ==> bm@[run_start(runs@, tt)
                    - 1].spec_document() != #[trigger] bm@[run_start(runs@, tt)].spec_document(),
            forall|i: int| 0 <= i < t ==> (#[trigger] r@[i]).start == run_start(runs@, i) && r@[i].len == runs@[i]
                && r@[i].id == bm@[run_start(runs@, i)].document_id,
            forall|i: int, j: int| 0 <= i < j < t ==> (#[trigger] r@[i]).id < (#[trigger] r@[j]).id,
            t > 0 ==> r@[t - 1].id == bm@[offset - 1].document_id,
        decreases runs@.len() - t,
    {
        let len = runs[t];
        proof {
            assert(run_start(runs@, t as int + 1) == offset + len);
            assert(runs@[t as int] > 0);
            if t > 0 {
                assert(bm@[run_start(runs@, t as int) - 1].spec_document() != bm@[run_start(runs@, t as int)].spec_document());
                assert(bm@[offset - 1].document_id <= bm@[offset as int].document_id);
            }
            assert(bm@[offset + len - 1].spec_document() == bm@[run_start(runs@, t as int)].spec_document());
        }
        let d = bm[offset].document_id;
        r.push(RawDocument { id: d, start: offset, len });
        offset = offset + len;
        t += 1;
    }
    proof {
        lemma_runs_group(bm@, runs@, r@);
    }
    r
}

} // verus!
