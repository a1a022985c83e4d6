use std::cmp::Ordering;
use std::collections::HashMap;
use vstd::prelude::*;

verus! {

broadcast use vstd::std_specs::hash::group_hash_axioms;

/// A ranking rule: each document gets a rank, lower ranks come first.
/// Documents the rule knows nothing about rank last.
pub struct Criterion {
    pub ranks: HashMap<u64, u64>,
}

impl Criterion {
    pub open spec fn rank_of(&self, d: u64) -> u64 {
        if self.ranks@.contains_key(d) {
            self.ranks@[d]
        } else {
            u64::MAX
        }
    }

    pub open spec fn spec_evaluate(&self, a: u64, b: u64) -> Ordering {
        if self.rank_of(a) < self.rank_of(b) {
            Ordering::Less
        } else if self.rank_of(a) == self.rank_of(b) {
            Ordering::Equal
        } else {
            Ordering::Greater
        }
    }

    pub open spec fn spec_eq(&self, a: u64, b: u64) -> bool {
        self.rank_of(a) == self.rank_of(b)
    }

    pub fn new(ranks: HashMap<u64, u64>) -> (r: Criterion)
        ensures
            r.ranks@ == ranks@,
    {
        Criterion { ranks }
    }

    pub fn rank(&self, d: u64) -> (r: u64)
        ensures
            r == self.rank_of(d),
    {
        match self.ranks.get(&d) {
            Some(r) => *r,
            None => u64::MAX,
        }
    }

    /// Orders two documents by this rule.
    pub fn evaluate(&self, a: u64, b: u64) -> (r: Ordering)
        ensures
            r == self.spec_evaluate(a, b),
    {
        let ra = self.rank(a);
        let rb = self.rank(b);
        if ra < rb {
            Ordering::Less
        } else if ra == rb {
            Ordering::Equal
        } else {
            Ordering::Greater
        }
    }

    /// Whether this rule puts two documents in the same bucket.
    pub fn eq(&self, a: u64, b: u64) -> (r: bool)
        ensures
            r == self.spec_eq(a, b),
    {
        self.rank(a) == self.rank(b)
    }
}

/// Two documents a rule puts in one bucket are equal under its order.
pub proof fn lemma_eq_refines_evaluate(c: Criterion, a: u64, b: u64)
    ensures
        c.spec_eq(a, b) ==> c.spec_evaluate(a, b) == Ordering::Equal,
        c.spec_evaluate(a, b) == Ordering::Equal ==> c.spec_eq(a, b),
{
}

/// `a` and `b` have equal ranks under the first `k` rules.
pub open spec fn ranks_equal(cs: Seq<Criterion>, k: nat, a: u64, b: u64) -> bool
    decreases k,
{
    if k == 0 {
        true
    } else {
        ranks_equal(cs, (k - 1) as nat, a, b) && cs[k - 1].rank_of(a) == cs[k - 1].rank_of(b)
    }
}

/// `a` comes strictly before `b` in the lexicographic order of the first `k` rules.
pub open spec fn ranks_less(cs: Seq<Criterion>, k: nat, a: u64, b: u64) -> bool
    decreases k,
{
    if k == 0 {
        false
    } else {
        ranks_less(cs, (k - 1) as nat, a, b) || (ranks_equal(cs, (k - 1) as nat, a, b)
            && cs[k - 1].rank_of(a) < cs[k - 1].rank_of(b))
    }
}

/// The order of the ranking: the rules in turn, then the document identifier.
pub open spec fn ranked_before(cs: Seq<Criterion>, k: nat, a: u64, b: u64) -> bool {
    ranks_less(cs, k, a, b) || (ranks_equal(cs, k, a, b) && a < b)
}

pub proof fn lemma_ranks_less_asym(cs: Seq<Criterion>, k: nat, a: u64, b: u64)
    ensures
        ranks_less(cs, k, a, b) ==> !ranks_less(cs, k, b, a),
        ranks_less(cs, k, a, b) ==> !ranks_equal(cs, k, a, b),
        ranks_equal(cs, k, a, b) == ranks_equal(cs, k, b, a),
    decreases k,
{
    if k > 0 {
        lemma_ranks_less_asym(cs, (k - 1) as nat, a, b);
        lemma_ranks_less_asym(cs, (k - 1) as nat, b, a);
    }
}

pub proof fn lemma_ranked_before_asym(cs: Seq<Criterion>, k: nat, a: u64, b: u64)
    ensures
        ranked_before(cs, k, a, b) ==> !ranked_before(cs, k, b, a),
        !ranked_before(cs, k, a, a),
{
    lemma_ranks_less_asym(cs, k, a, b);
    lemma_ranks_less_asym(cs, k, b, a);
    lemma_ranks_less_asym(cs, k, a, a);
}

/// The order of the first `k` rules is total and transitive.
pub proof fn lemma_ranks_order(cs: Seq<Criterion>, k: nat, a: u64, b: u64, c: u64)
    ensures
        ranks_less(cs, k, a, b) || ranks_less(cs, k, b, a) || ranks_equal(cs, k, a, b),
        ranks_less(cs, k, a, b) && ranks_less(cs, k, b, c) ==> ranks_less(cs, k, a, c),
        ranks_less(cs, k, a, b) && ranks_equal(cs, k, b, c) ==> ranks_less(cs, k, a, c),
        ranks_equal(cs, k, a, b) && ranks_less(cs, k, b, c) ==> ranks_less(cs, k, a, c),
        ranks_equal(cs, k, a, b) && ranks_equal(cs, k, b, c) ==> ranks_equal(cs, k, a, c),
    decreases k,
{
    if k > 0 {
        lemma_ranks_order(cs, (k - 1) as nat, a, b, c);
        lemma_ranks_less_asym(cs, (k - 1) as nat, a, b);
    }
}

/// The ranking order is a strict total order on documents.
pub proof fn lemma_ranked_before_order(cs: Seq<Criterion>, k: nat, a: u64, b: u64, c: u64)
    ensures
        a != b ==> ranked_before(cs, k, a, b) || ranked_before(cs, k, b, a),
        ranked_before(cs, k, a, b) && ranked_before(cs, k, b, c) ==> ranked_before(cs, k, a, c),
{
    lemma_ranks_order(cs, k, a, b, c);
    lemma_ranks_order(cs, k, b, a, c);
    lemma_ranks_less_asym(cs, k, a, b);
}

} // verus!
