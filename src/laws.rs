//! Laws that relate the operations of a count table to one another.
use crate::model::{
    as_nats, bumped, count_of, counted_above, counted_below, dot, jaccard_of, lemma_total_remove,
    lemma_with_hashes_count, lemma_with_hashes_push, lemma_with_no_hashes, merged, new_keys,
    nonzero, occurrences, sum_of, total, with_hashes, TableModel,
};
use vstd::prelude::*;

verus! {

broadcast use vstd::set::group_set_axioms, vstd::set_lib::group_set_lib_default;

/// `m` after hash `h` was counted `n` more times, one at a time.
pub open spec fn bumped_times(m: Map<u64, u64>, h: u64, n: nat) -> Map<u64, u64>
    decreases n,
{
    if n == 0 {
        m
    } else {
        bumped(bumped_times(m, h, (n - 1) as nat), h)
    }
}

/// A fresh table counts every hash 0 times; counting a hash `n` times in a
/// fresh table gives it the count `n`, and no other hash a count.
pub proof fn lemma_count_hash_n_times(h: u64, n: nat)
    requires
        n <= u64::MAX,
    ensures
        count_of(Map::empty(), h) == 0,
        count_of(bumped_times(Map::empty(), h, n), h) == n,
        forall|g: u64| g != h ==> count_of(#[trigger] bumped_times(Map::empty(), h, n), g) == 0,
    decreases n,
{
    if n > 0 {
        lemma_count_hash_n_times(h, (n - 1) as nat);
        let prev = bumped_times(Map::empty(), h, (n - 1) as nat);
        assert forall|g: u64| g != h implies count_of(
            #[trigger] bumped_times(Map::empty(), h, n),
            g,
        ) == 0 by {
            assert(count_of(prev, g) == 0);
        }
    }
}

/// Cutting below a bound a second time forgets nothing more.
pub proof fn lemma_mincut_idempotent(m: Map<u64, u64>, t: u64)
    ensures
        counted_below(m.remove_keys(counted_below(m, t)), t) == Set::<u64>::empty(),
        counted_below(m.remove_keys(counted_below(m, t)), t).len() == 0,
{
    assert(counted_below(m.remove_keys(counted_below(m, t)), t) =~= Set::<u64>::empty());
}

/// Cutting above a bound a second time forgets nothing more.
pub proof fn lemma_maxcut_idempotent(m: Map<u64, u64>, t: u64)
    ensures
        counted_above(m.remove_keys(counted_above(m, t)), t) == Set::<u64>::empty(),
        counted_above(m.remove_keys(counted_above(m, t)), t).len() == 0,
{
    assert(counted_above(m.remove_keys(counted_above(m, t)), t) =~= Set::<u64>::empty());
}

/// Against an empty table, a table that counts something shares no hash, so
/// its Jaccard fraction is 0 over its own size; two empty tables are alike.
pub proof fn lemma_jaccard_with_empty(a: Map<u64, u64>, e: Map<u64, u64>)
    requires
        a.dom().finite(),
        a.dom().len() > 0,
        e == Map::<u64, u64>::empty(),
    ensures
        jaccard_of(a, e) == (0u64, a.dom().len() as u64),
        jaccard_of(e, e) == (1u64, 1u64),
{
    assert(a.dom().union(e.dom()) =~= a.dom());
    assert(a.dom().intersect(e.dom()) =~= Set::<u64>::empty());
    assert(e.dom().union(e.dom()) =~= Set::<u64>::empty());
}

/// The squares of the counts of `m`.
pub open spec fn squares(m: Map<u64, u64>) -> Map<u64, nat> {
    m.map_values(|v: u64| (v as nat) * (v as nat))
}

/// The dot product of a table with itself is the square of its norm: the
/// sum of its squared counts.
pub proof fn lemma_self_dot(m: Map<u64, u64>)
    ensures
        dot(m, m) == total(squares(m)),
{
    assert(crate::model::products(m, m) =~= squares(m));
}

/// Adding one table to another twice adds each of its counts twice, and the
/// second time makes no hash new.
pub proof fn lemma_add_twice(a: TableModel, b: TableModel)
    requires
        a.valid(),
        b.valid(),
        forall|h: u64| #[trigger] a.count(h) + 2 * b.count(h) <= u64::MAX,
    ensures
        forall|h: u64| #[trigger]
            merged(merged(a, b), b).count(h) == a.count(h) + 2 * b.count(h),
        new_keys(merged(a, b), b) == Set::<u64>::empty(),
        merged(merged(a, b), b).consumed == (((a.consumed + b.consumed) as u64) + b.consumed) as u64,
{
    assert(new_keys(merged(a, b), b) =~= Set::<u64>::empty());
    assert forall|h: u64| #[trigger]
        merged(merged(a, b), b).count(h) == a.count(h) + 2 * b.count(h) by {
        assert(a.count(h) + 2 * b.count(h) <= u64::MAX);
        assert(merged(a, b).count(h) == a.count(h) + b.count(h));
    }
}

/// Counting a hash once more adds one to the sum of the counts.
pub proof fn lemma_sum_after_bump(m: Map<u64, u64>, h: u64)
    requires
        m.dom().finite(),
        count_of(m, h) < u64::MAX,
    ensures
        bumped(m, h).dom().finite(),
        sum_of(bumped(m, h)) == sum_of(m) + 1,
{
    let b = bumped(m, h);
    assert(b.dom() =~= m.dom().insert(h));
    assert(as_nats(b).dom() =~= b.dom());
    assert(as_nats(m).dom() =~= m.dom());
    lemma_total_remove(as_nats(b), h);
    if m.contains_key(h) {
        lemma_total_remove(as_nats(m), h);
        assert(as_nats(b).remove(h) =~= as_nats(m).remove(h));
    } else {
        assert(as_nats(b).remove(h) =~= as_nats(m));
    }
}

/// Consuming a sequence adds to the sum of the counts exactly the number of
/// windows it counts: those whose hash is not the sentinel.
pub proof fn lemma_consume_sum(m: Map<u64, u64>, hs: Seq<u64>)
    requires
        m.dom().finite(),
        forall|h: u64| #[trigger] count_of(m, h) + occurrences(hs, h) <= u64::MAX,
    ensures
        with_hashes(m, hs).dom().finite(),
        sum_of(with_hashes(m, hs)) == sum_of(m) + nonzero(hs),
    decreases hs.len(),
{
    if hs.len() == 0 {
        lemma_with_no_hashes(m);
        assert(hs =~= Seq::<u64>::empty());
    } else {
        let pre = hs.drop_last();
        let h = hs.last();
        assert(hs =~= pre.push(h));
        assert forall|g: u64| #[trigger] count_of(m, g) + occurrences(pre, g) <= u64::MAX by {
            assert(count_of(m, g) + occurrences(hs, g) <= u64::MAX);
        }
        lemma_consume_sum(m, pre);
        assert(count_of(m, h) + occurrences(hs, h) <= u64::MAX);
        lemma_with_hashes_push(m, pre, h);
        if h != 0 {
            lemma_with_hashes_count(m, pre, h);
            lemma_sum_after_bump(with_hashes(m, pre), h);
        }
        assert(with_hashes(m, hs) == with_hashes(m, pre.push(h)));
    }
}

} // verus!
