//! Sorting, done by std and rayon.
use crate::model::pairs_sorted;
use rayon::slice::ParallelSliceMut;
use vstd::prelude::*;

verus! {

/// Relies on `slice::sort`: afterwards the slice holds the same elements,
/// in ascending order of `Ord` on `(u64, u64)`, which is lexicographic.
#[verifier::external_body]
pub(crate) fn sort_pairs(v: &mut Vec<(u64, u64)>)
    ensures
        final(v)@.to_multiset() == old(v)@.to_multiset(),
        pairs_sorted(final(v)@),
{
    v.sort();
}

/// Strict lexicographic order on texts, by character code, a proper prefix
/// being smaller.
pub open spec fn text_lt(a: Seq<char>, b: Seq<char>) -> bool
    decreases a.len(),
{
    if a.len() == 0 {
        b.len() > 0
    } else if b.len() == 0 {
        false
    } else if a[0] != b[0] {
        (a[0] as u32) < (b[0] as u32)
    } else {
        text_lt(a.drop_first(), b.drop_first())
    }
}

/// (text, count) pairs in ascending order of text, then count.
pub open spec fn text_first_le(a: (String, u64), b: (String, u64)) -> bool {
    text_lt(a.0@, b.0@) || (a.0@ == b.0@ && a.1 <= b.1)
}

/// (count, text) pairs in ascending order of count, then text.
pub open spec fn count_first_le(a: (u64, String), b: (u64, String)) -> bool {
    a.0 < b.0 || (a.0 == b.0 && (text_lt(a.1@, b.1@) || a.1@ == b.1@))
}

/// Relies on rayon's `par_sort`: afterwards the slice holds the same
/// elements, in ascending order of `Ord` on `(String, u64)`, which is
/// lexicographic, a `String` ordering by its bytes and so by its characters.
#[verifier::external_body]
pub(crate) fn par_sort_text_first(v: &mut Vec<(String, u64)>)
    ensures
        final(v)@.to_multiset() == old(v)@.to_multiset(),
        forall|i: int, j: int|
            0 <= i < j < final(v)@.len() ==> text_first_le(#[trigger] final(v)@[i], #[trigger] final(v)@[j]),
{
    v.par_sort();
}

/// Relies on rayon's `par_sort`: afterwards the slice holds the same
/// elements, in ascending order of `Ord` on `(u64, String)`, which is
/// lexicographic, a `String` ordering by its bytes and so by its characters.
#[verifier::external_body]
pub(crate) fn par_sort_count_first(v: &mut Vec<(u64, String)>)
    ensures
        final(v)@.to_multiset() == old(v)@.to_multiset(),
        forall|i: int, j: int|
            0 <= i < j < final(v)@.len() ==> count_first_le(#[trigger] final(v)@[i], #[trigger] final(v)@[j]),
{
    v.par_sort();
}

} // verus!
