use sdset::duo::OpBuilder;
use sdset::{Counter, SetOperation};
use vstd::prelude::*;

verus! {

/// A set of document identifiers stored as a strictly increasing sequence.
pub open spec fn strictly_sorted(s: Seq<u64>) -> bool {
    forall|i: int, j: int| 0 <= i < j < s.len() ==> #[trigger] s[i] < #[trigger] s[j]
}

/// How many elements of `a` are also in `b`.
pub open spec fn common_count(a: Seq<u64>, b: Seq<u64>) -> nat {
    a.filter(|x: u64| b.contains(x)).len()
}

/// Relies on sdset's duo intersection: on two sorted, deduplicated sets it
/// yields the sorted, deduplicated set of the elements they share.
#[verifier::external_body]
pub(crate) fn intersect(a: &Vec<u64>, b: &Vec<u64>) -> (r: Vec<u64>)
    requires
        strictly_sorted(a@),
        strictly_sorted(b@),
    ensures
        strictly_sorted(r@),
        r@.to_set() == a@.to_set().intersect(b@.to_set()),
{
    let a = sdset::Set::new_unchecked(a.as_slice());
    let b = sdset::Set::new_unchecked(b.as_slice());
    OpBuilder::new(a, b).intersection().into_set_buf().into_vec()
}

/// Relies on sdset's duo intersection fed into its `Counter`: the number of
/// elements two sorted, deduplicated sets share, counted without building it.
#[verifier::external_body]
pub(crate) fn count_common(a: &Vec<u64>, b: &Vec<u64>) -> (r: usize)
    requires
        strictly_sorted(a@),
        strictly_sorted(b@),
    ensures
        r == common_count(a@, b@),
{
    let mut counter = Counter::new();
    let op = OpBuilder::new(sdset::Set::new_unchecked(a.as_slice()), sdset::Set::new_unchecked(b.as_slice())).intersection();
    SetOperation::<u64>::extend_collection(op, &mut counter);
    counter.0
}

/// Relies on sdset's `Set::contains`: an exponential search in a sorted set.
#[verifier::external_body]
pub(crate) fn set_contains(s: &Vec<u64>, x: u64) -> (r: bool)
    requires
        strictly_sorted(s@),
    ensures
        r == s@.contains(x),
{
    sdset::Set::new_unchecked(s.as_slice()).contains(&x)
}

} // verus!
