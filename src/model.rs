//! The mathematical model of a count table and the facts about it that the
//! operations rely on.
use vstd::prelude::*;

verus! {

broadcast use vstd::set::group_set_axioms, vstd::set_lib::group_set_lib_default;

/// What a count table holds, as mathematical values.
pub struct TableModel {
    /// Occurrences of each hash seen; a hash that is absent was seen 0 times.
    pub counts: Map<u64, u64>,
    /// The k-mer length.
    pub ksize: u8,
    /// The version tag written at construction.
    pub version: Seq<char>,
    /// Bases consumed so far.
    pub consumed: u64,
    /// Whether the canonical text of each k-mer is kept.
    pub store_kmers: bool,
    /// The canonical k-mer text kept for each hash; empty unless `store_kmers`.
    ///
    /// Text is recorded whenever a k-mer with a non-zero hash is counted and
    /// is never taken away: forgetting a count (a drop, a cut, a count set to
    /// 0) leaves its text, and merging brings in the text of every hash the
    /// other table keeps text for, counted or not. So every counted hash of a
    /// table that keeps text from the start has text, while a hash with text
    /// need not be counted.
    pub kmers: Map<u64, Seq<char>>,
}

/// How often hash `h` was seen according to `m`.
pub open spec fn count_of(m: Map<u64, u64>, h: u64) -> nat {
    if m.contains_key(h) {
        m[h] as nat
    } else {
        0
    }
}

impl TableModel {
    /// Counts are stored only while positive, and k-mer text only when kept.
    pub open spec fn valid(self) -> bool {
        &&& self.counts.dom().finite()
        &&& forall|h: u64| #[trigger] self.counts.contains_key(h) ==> self.counts[h] > 0
        &&& !self.store_kmers ==> self.kmers == Map::<u64, Seq<char>>::empty()
    }

    /// How often hash `h` was seen.
    pub open spec fn count(self, h: u64) -> nat {
        count_of(self.counts, h)
    }
}

/// `m` with hash `h` seen once more.
pub open spec fn bumped(m: Map<u64, u64>, h: u64) -> Map<u64, u64> {
    m.insert(h, (count_of(m, h) + 1) as u64)
}

/// How often `h` occurs in `hs`, the sentinel 0 never counting.
pub open spec fn occurrences(hs: Seq<u64>, h: u64) -> nat
    decreases hs.len(),
{
    if hs.len() == 0 || h == 0 {
        0
    } else {
        occurrences(hs.drop_last(), h) + if hs.last() == h {
            1nat
        } else {
            0nat
        }
    }
}

/// How many entries of `hs` are not the sentinel 0.
pub open spec fn nonzero(hs: Seq<u64>) -> nat
    decreases hs.len(),
{
    if hs.len() == 0 {
        0
    } else {
        nonzero(hs.drop_last()) + if hs.last() != 0 {
            1nat
        } else {
            0nat
        }
    }
}

/// `m` after every non-zero hash of `hs` was seen once more.
pub open spec fn with_hashes(m: Map<u64, u64>, hs: Seq<u64>) -> Map<u64, u64> {
    Map::new(
        |h: u64| m.contains_key(h) || occurrences(hs, h) > 0,
        |h: u64| (count_of(m, h) + occurrences(hs, h)) as u64,
    )
}

/// `m` after recording the text of each item under its hash, in order, a
/// later item overriding an earlier one; items with the sentinel hash 0 are
/// not recorded.
pub open spec fn recorded(m: Map<u64, Seq<char>>, items: Seq<(Seq<char>, u64)>) -> Map<
    u64,
    Seq<char>,
>
    decreases items.len(),
{
    if items.len() == 0 {
        m
    } else if items.last().1 == 0 {
        recorded(m, items.drop_last())
    } else {
        recorded(m, items.drop_last()).insert(items.last().1, items.last().0)
    }
}

/// Seeing one more hash: the sentinel changes nothing, any other hash is
/// bumped.
pub proof fn lemma_with_hashes_push(m: Map<u64, u64>, hs: Seq<u64>, h: u64)
    requires
        h != 0 ==> count_of(m, h) + occurrences(hs, h) < u64::MAX,
    ensures
        with_hashes(m, hs.push(h)) == if h == 0 {
            with_hashes(m, hs)
        } else {
            bumped(with_hashes(m, hs), h)
        },
{
    assert(hs.push(h).drop_last() =~= hs);
    if h == 0 {
        assert(with_hashes(m, hs.push(h)) =~= with_hashes(m, hs));
    } else {
        assert(with_hashes(m, hs.push(h)) =~= bumped(with_hashes(m, hs), h));
    }
}

/// A hash occurs in a prefix of a sequence at most as often as in the whole.
pub proof fn lemma_occurrences_prefix(hs: Seq<u64>, n: int, h: u64)
    requires
        0 <= n <= hs.len(),
    ensures
        occurrences(hs.take(n), h) <= occurrences(hs, h),
    decreases hs.len() - n,
{
    if n < hs.len() {
        lemma_occurrences_prefix(hs, n + 1, h);
        assert(hs.take(n + 1).drop_last() =~= hs.take(n));
    } else {
        assert(hs.take(n) =~= hs);
    }
}

/// While it fits in `u64`, the count of `h` after seeing `hs` is its count
/// before plus its occurrences.
pub proof fn lemma_with_hashes_count(m: Map<u64, u64>, hs: Seq<u64>, h: u64)
    requires
        count_of(m, h) + occurrences(hs, h) <= u64::MAX,
    ensures
        count_of(with_hashes(m, hs), h) == count_of(m, h) + occurrences(hs, h),
{
}

/// No hash seen leaves a map as it is.
pub proof fn lemma_with_no_hashes(m: Map<u64, u64>)
    ensures
        with_hashes(m, Seq::empty()) == m,
{
    assert(with_hashes(m, Seq::empty()) =~= m);
}

/// The sum of the values of a finite map.
pub open spec fn total(m: Map<u64, nat>) -> nat
    decreases m.dom().len(),
    when m.dom().finite()
{
    if m.dom().len() == 0 {
        0
    } else {
        let h = m.dom().choose();
        m[h] + total(m.remove(h))
    }
}

/// The counts of `m` as natural numbers.
pub open spec fn as_nats(m: Map<u64, u64>) -> Map<u64, nat> {
    m.map_values(|v: u64| v as nat)
}

/// The sum of all counts of `m`.
pub open spec fn sum_of(m: Map<u64, u64>) -> nat {
    total(as_nats(m))
}

/// The products of the counts of the hashes that `a` and `b` share.
pub open spec fn products(a: Map<u64, u64>, b: Map<u64, u64>) -> Map<u64, nat> {
    Map::new(
        |h: u64| a.contains_key(h) && b.contains_key(h),
        |h: u64| (a[h] as nat) * (b[h] as nat),
    )
}

/// The dot product of two count maps seen as sparse vectors.
pub open spec fn dot(a: Map<u64, u64>, b: Map<u64, u64>) -> nat {
    total(products(a, b))
}

/// `s` lists every entry of `m` once, in some order.
pub open spec fn lists<V>(s: Seq<(u64, V)>, m: Map<u64, V>) -> bool {
    &&& s.len() == m.dom().len()
    &&& forall|i: int| 0 <= i < s.len() ==> m.contains_key(#[trigger] s[i].0) && m[s[i].0] == s[i].1
    &&& forall|h: u64| #[trigger] m.contains_key(h) ==> exists|i: int| 0 <= i < s.len() && s[i].0 == h
    &&& forall|i: int, j: int|
        0 <= i < s.len() && 0 <= j < s.len() && i != j ==> #[trigger] s[i].0 != #[trigger] s[j].0
}

/// Pairs in ascending order of their first, then their second component.
pub open spec fn pair_le(a: (u64, u64), b: (u64, u64)) -> bool {
    a.0 < b.0 || (a.0 == b.0 && a.1 <= b.1)
}

/// Each pair of `s` is [`pair_le`] each later one.
pub open spec fn pairs_sorted(s: Seq<(u64, u64)>) -> bool {
    forall|i: int, j: int| 0 <= i < j < s.len() ==> pair_le(#[trigger] s[i], #[trigger] s[j])
}

/// The pairs of `s` with their components exchanged.
pub open spec fn swapped(s: Seq<(u64, u64)>) -> Seq<(u64, u64)> {
    s.map_values(|e: (u64, u64)| (e.1, e.0))
}

/// A listing with the same elements as another, none twice, lists the same map.
pub proof fn lemma_same_elements_lists<V>(a: Seq<(u64, V)>, b: Seq<(u64, V)>, m: Map<u64, V>)
    requires
        lists(a, m),
        b.len() == a.len(),
        forall|i: int| 0 <= i < b.len() ==> a.contains(#[trigger] b[i]),
        forall|i: int| 0 <= i < a.len() ==> b.contains(#[trigger] a[i]),
        b.no_duplicates(),
    ensures
        lists(b, m),
{
    assert forall|i: int| 0 <= i < b.len() implies m.contains_key(#[trigger] b[i].0) && m[b[i].0]
        == b[i].1 by {
        assert(a.contains(b[i]));
    }
    assert forall|h: u64| #[trigger] m.contains_key(h) implies exists|i: int|
        0 <= i < b.len() && b[i].0 == h by {
        let i = choose|i: int| 0 <= i < a.len() && a[i].0 == h;
        assert(b.contains(a[i]));
    }
    assert forall|i: int, j: int| 0 <= i < b.len() && 0 <= j < b.len() && i != j implies b[i].0
        != b[j].0 by {
        assert(a.contains(b[i]));
        assert(a.contains(b[j]));
    }
}

/// Two sequences with one multiset of elements have one length, the same
/// elements, and repeat none if one of them repeats none.
pub proof fn lemma_permutation<A>(a: Seq<A>, b: Seq<A>)
    requires
        a.to_multiset() == b.to_multiset(),
    ensures
        a.len() == b.len(),
        forall|x: A| a.contains(x) <==> b.contains(x),
        a.no_duplicates() ==> b.no_duplicates(),
{
    broadcast use vstd::seq_lib::group_to_multiset_ensures;

    assert(a.to_multiset().len() == a.len());
    assert(b.to_multiset().len() == b.len());
    assert forall|x: A| a.contains(x) <==> b.contains(x) by {
        assert(a.contains(x) <==> a.to_multiset().count(x) > 0);
        assert(b.contains(x) <==> b.to_multiset().count(x) > 0);
    }
    if a.no_duplicates() {
        a.lemma_multiset_has_no_duplicates();
        b.lemma_multiset_has_no_duplicates_conv();
    }
}

/// Applying one function to two sequences with one multiset of elements
/// gives two sequences with one multiset of elements.
pub proof fn lemma_map_multiset<A, B>(a: Seq<A>, b: Seq<A>, f: spec_fn(A) -> B)
    requires
        a.to_multiset() == b.to_multiset(),
    ensures
        a.map_values(f).to_multiset() == b.map_values(f).to_multiset(),
    decreases a.len(),
{
    broadcast use vstd::seq_lib::group_to_multiset_ensures;
    broadcast use vstd::multiset::group_multiset_axioms;

    if a.len() == 0 {
        assert(b.to_multiset().len() == 0);
        assert(b.len() == 0);
        assert(a.map_values(f) =~= b.map_values(f));
    } else {
        let x = a.last();
        let rest = a.drop_last();
        assert(a =~= rest.push(x));
        assert(a.to_multiset().count(x) > 0);
        assert(b.contains(x));
        let i = choose|i: int| 0 <= i < b.len() && b[i] == x;
        let others = b.remove(i);
        assert(others.to_multiset() =~= b.to_multiset().remove(x));
        assert(rest.to_multiset() =~= a.to_multiset().remove(x));
        lemma_map_multiset(rest, others, f);
        assert(a.map_values(f) =~= rest.map_values(f).push(f(x)));
        assert(b.map_values(f).remove(i) =~= others.map_values(f));
        assert(b.map_values(f).remove(i).to_multiset() =~= b.map_values(f).to_multiset().remove(f(x)));
        assert(b.map_values(f).to_multiset().count(f(x)) > 0) by {
            assert(b.map_values(f)[i] == f(x));
            assert(b.map_values(f).contains(f(x)));
        }
        assert(b.map_values(f).to_multiset() =~= b.map_values(f).to_multiset().remove(f(x)).insert(
            f(x),
        ));
    }
}

/// A listing of a map has no pair twice.
pub proof fn lemma_lists_no_duplicates<V>(a: Seq<(u64, V)>, m: Map<u64, V>)
    requires
        lists(a, m),
    ensures
        a.no_duplicates(),
{
    assert forall|i: int, j: int| 0 <= i < a.len() && 0 <= j < a.len() && i != j implies a[i]
        != a[j] by {
        assert(a[i].0 != a[j].0);
    }
}

/// The map that the pairs of `s` spell, a later pair overriding an earlier
/// one of the same hash.
pub open spec fn listed<V>(s: Seq<(u64, V)>) -> Map<u64, V>
    decreases s.len(),
{
    if s.len() == 0 {
        Map::empty()
    } else {
        listed(s.drop_last()).insert(s.last().0, s.last().1)
    }
}

/// Every hash of the map that `s` spells is the hash of a pair of `s`.
pub proof fn lemma_listed_keys<V>(s: Seq<(u64, V)>, h: u64)
    requires
        listed(s).contains_key(h),
    ensures
        exists|j: int| 0 <= j < s.len() && s[j].0 == h,
    decreases s.len(),
{
    if s.last().0 != h {
        lemma_listed_keys(s.drop_last(), h);
        let j = choose|j: int| 0 <= j < s.drop_last().len() && s.drop_last()[j].0 == h;
        assert(s[j].0 == h);
    }
}

/// A listing of a finite map spells that map.
pub proof fn lemma_listed<V>(s: Seq<(u64, V)>, m: Map<u64, V>)
    requires
        lists(s, m),
        m.dom().finite(),
    ensures
        listed(s) == m,
    decreases s.len(),
{
    if s.len() == 0 {
        m.dom().lemma_len0_is_empty();
        assert(m =~= Map::empty());
    } else {
        lemma_lists_drop_last(s, m);
        lemma_listed(s.drop_last(), m.remove(s.last().0));
        assert(m.remove(s.last().0).insert(s.last().0, s.last().1) =~= m);
    }
}

/// The pointwise sum of two count maps.
pub open spec fn sum_maps(a: Map<u64, u64>, b: Map<u64, u64>) -> Map<u64, u64> {
    Map::new(
        |h: u64| a.contains_key(h) || b.contains_key(h),
        |h: u64| (count_of(a, h) + count_of(b, h)) as u64,
    )
}

/// Table `a` after the counts and k-mer text of table `b` were added to it;
/// the text `a` keeps wins over that of `b`.
pub open spec fn merged(a: TableModel, b: TableModel) -> TableModel {
    TableModel {
        counts: sum_maps(a.counts, b.counts),
        consumed: (a.consumed + b.consumed) as u64,
        kmers: if a.store_kmers && b.store_kmers {
            b.kmers.union_prefer_right(a.kmers)
        } else {
            a.kmers
        },
        ..a
    }
}

/// Merging keeps a table valid while no count leaves `u64`.
pub proof fn lemma_merged_valid(a: TableModel, b: TableModel)
    requires
        a.valid(),
        b.valid(),
        forall|h: u64| #[trigger] a.count(h) + b.count(h) <= u64::MAX,
    ensures
        merged(a, b).valid(),
{
    let m = sum_maps(a.counts, b.counts);
    assert(m.dom() =~= a.counts.dom().union(b.counts.dom()));
    assert forall|h: u64| #[trigger] m.contains_key(h) implies m[h] > 0 by {
        assert(a.count(h) + b.count(h) <= u64::MAX);
    }
}

/// The hashes that `b` counts and `a` does not.
pub open spec fn new_keys(a: TableModel, b: TableModel) -> Set<u64> {
    b.counts.dom().difference(a.counts.dom())
}

/// The Jaccard similarity of two hash sets as a fraction: the number of
/// hashes they share over the number in either, `(1, 1)` when both are empty.
pub open spec fn jaccard_of(a: Map<u64, u64>, b: Map<u64, u64>) -> (u64, u64) {
    let either = a.dom().union(b.dom());
    if either.len() == 0 {
        (1, 1)
    } else {
        (a.dom().intersect(b.dom()).len() as u64, either.len() as u64)
    }
}

/// The sum of the second components of `s`.
pub open spec fn value_sum(s: Seq<(u64, u64)>) -> nat
    decreases s.len(),
{
    if s.len() == 0 {
        0
    } else {
        value_sum(s.drop_last()) + (s.last().1 as nat)
    }
}

/// For each pair of `s` whose hash `m` also counts, the product of the two
/// counts, summed.
pub open spec fn product_sum(s: Seq<(u64, u64)>, m: Map<u64, u64>) -> nat
    decreases s.len(),
{
    if s.len() == 0 {
        0
    } else {
        product_sum(s.drop_last(), m) + if m.contains_key(s.last().0) {
            (s.last().1 as nat) * (m[s.last().0] as nat)
        } else {
            0
        }
    }
}

/// The hashes whose count is below `t`.
pub open spec fn counted_below(m: Map<u64, u64>, t: u64) -> Set<u64> {
    m.dom().filter(|h: u64| m[h] < t)
}

/// The hashes whose count is above `t`.
pub open spec fn counted_above(m: Map<u64, u64>, t: u64) -> Set<u64> {
    m.dom().filter(|h: u64| m[h] > t)
}

proof fn lemma_lists_drop_last<V>(s: Seq<(u64, V)>, m: Map<u64, V>)
    requires
        lists(s, m),
        m.dom().finite(),
        s.len() > 0,
    ensures
        lists(s.drop_last(), m.remove(s.last().0)),
        m.remove(s.last().0).dom().finite(),
{
    let k = s.last().0;
    let t = s.drop_last();
    let n = m.remove(k);
    assert(m.contains_key(k));
    assert(n.dom() =~= m.dom().remove(k));
    assert forall|h: u64| #[trigger] n.contains_key(h) implies exists|i: int|
        0 <= i < t.len() && t[i].0 == h by {
        let i = choose|i: int| 0 <= i < s.len() && s[i].0 == h;
        assert(i != s.len() - 1);
        assert(t[i].0 == h);
    }
    assert forall|i: int| 0 <= i < t.len() implies n.contains_key(#[trigger] t[i].0) && n[t[i].0]
        == t[i].1 by {
        assert(s[i] == t[i]);
        assert(s[i].0 != s[s.len() - 1].0);
    }
}

/// The sum of the counts of a finite map is that of any listing of it.
pub proof fn lemma_sum_of_listing(s: Seq<(u64, u64)>, m: Map<u64, u64>)
    requires
        lists(s, m),
        m.dom().finite(),
    ensures
        sum_of(m) == value_sum(s),
    decreases s.len(),
{
    if s.len() == 0 {
        assert(as_nats(m).dom() =~= m.dom());
    } else {
        let k = s.last().0;
        lemma_lists_drop_last(s, m);
        lemma_sum_of_listing(s.drop_last(), m.remove(k));
        assert(as_nats(m).dom() =~= m.dom());
        lemma_total_remove(as_nats(m), k);
        assert(as_nats(m).remove(k) =~= as_nats(m.remove(k)));
    }
}

/// The dot product of a finite map with another is the product sum of any
/// listing of it.
pub proof fn lemma_dot_of_listing(s: Seq<(u64, u64)>, a: Map<u64, u64>, b: Map<u64, u64>)
    requires
        lists(s, a),
        a.dom().finite(),
    ensures
        dot(a, b) == product_sum(s, b),
    decreases s.len(),
{
    assert(products(a, b).dom().subset_of(a.dom()));
    vstd::set_lib::lemma_len_subset(products(a, b).dom(), a.dom());
    if s.len() == 0 {
        assert(products(a, b).dom() =~= Set::<u64>::empty());
    } else {
        let k = s.last().0;
        lemma_lists_drop_last(s, a);
        lemma_dot_of_listing(s.drop_last(), a.remove(k), b);
        if b.contains_key(k) {
            lemma_total_remove(products(a, b), k);
            assert(products(a, b).remove(k) =~= products(a.remove(k), b));
        } else {
            assert(products(a, b) =~= products(a.remove(k), b));
        }
    }
}

/// `v` is a count of `m` that no count of `m` exceeds.
pub open spec fn is_largest(m: Map<u64, u64>, v: u64) -> bool {
    &&& exists|h: u64| #[trigger] m.contains_key(h) && m[h] == v
    &&& forall|h: u64| #[trigger] m.contains_key(h) ==> m[h] <= v
}

/// `v` is a count of `m` that no count of `m` undercuts.
pub open spec fn is_smallest(m: Map<u64, u64>, v: u64) -> bool {
    &&& exists|h: u64| #[trigger] m.contains_key(h) && m[h] == v
    &&& forall|h: u64| #[trigger] m.contains_key(h) ==> v <= m[h]
}

/// The largest count of `m`, 0 when it has none.
pub open spec fn largest(m: Map<u64, u64>) -> u64 {
    if exists|v: u64| is_largest(m, v) {
        choose|v: u64| is_largest(m, v)
    } else {
        0
    }
}

/// The smallest count of `m`, 0 when it has none.
pub open spec fn smallest(m: Map<u64, u64>) -> u64 {
    if exists|v: u64| is_smallest(m, v) {
        choose|v: u64| is_smallest(m, v)
    } else {
        0
    }
}

/// The largest count is the one that no other exceeds.
pub proof fn lemma_largest(m: Map<u64, u64>, v: u64)
    requires
        is_largest(m, v),
    ensures
        largest(m) == v,
{
    let w = largest(m);
    assert(is_largest(m, w));
    let h = choose|h: u64| #[trigger] m.contains_key(h) && m[h] == v;
    let g = choose|h: u64| #[trigger] m.contains_key(h) && m[h] == w;
}

/// The smallest count is the one that no other undercuts.
pub proof fn lemma_smallest(m: Map<u64, u64>, v: u64)
    requires
        is_smallest(m, v),
    ensures
        smallest(m) == v,
{
    let w = smallest(m);
    assert(is_smallest(m, w));
    let h = choose|h: u64| #[trigger] m.contains_key(h) && m[h] == v;
    let g = choose|h: u64| #[trigger] m.contains_key(h) && m[h] == w;
}

/// How many hashes of `m` were counted exactly `v` times.
pub open spec fn tally(m: Map<u64, u64>, v: u64) -> nat {
    counted_exactly(m, v).len()
}

/// The hashes of `m` counted exactly `v` times.
pub open spec fn counted_exactly(m: Map<u64, u64>, v: u64) -> Set<u64> {
    m.dom().filter(|h: u64| m[h] == v)
}

/// The histogram of `m`: each count that occurs, with how many hashes have it.
pub open spec fn histogram(m: Map<u64, u64>) -> Map<u64, u64> {
    Map::new(|v: u64| tally(m, v) > 0, |v: u64| tally(m, v) as u64)
}

/// How many pairs of `s` have `v` as their second component.
pub open spec fn value_count(s: Seq<(u64, u64)>, v: u64) -> nat
    decreases s.len(),
{
    if s.len() == 0 {
        0
    } else {
        value_count(s.drop_last(), v) + if s.last().1 == v {
            1nat
        } else {
            0nat
        }
    }
}

/// Counting a value along a listing of a finite map tallies it.
pub proof fn lemma_tally_of_listing(s: Seq<(u64, u64)>, m: Map<u64, u64>, v: u64)
    requires
        lists(s, m),
        m.dom().finite(),
    ensures
        tally(m, v) == value_count(s, v),
    decreases s.len(),
{
    m.dom().lemma_len_filter(|h: u64| m[h] == v);
    if s.len() == 0 {
        m.dom().lemma_len0_is_empty();
        assert(counted_exactly(m, v) =~= Set::<u64>::empty());
    } else {
        let k = s.last().0;
        let n = m.remove(k);
        lemma_lists_drop_last(s, m);
        lemma_tally_of_listing(s.drop_last(), n, v);
        let f = counted_exactly(m, v);
        let g = counted_exactly(n, v);
        assert(s.drop_last().len() < s.len());
        assert(value_count(s, v) == value_count(s.drop_last(), v) + if s.last().1 == v {
            1nat
        } else {
            0nat
        });
        assert(m[k] == s.last().1);
        if m[k] == v {
            assert(g =~= f.remove(k));
            assert(f.contains(k));
            assert(g.len() == f.len() - 1);
        } else {
            assert(g =~= f);
        }
    }
}

/// A value counted along a prefix of a sequence is counted at most as often
/// as the prefix is long.
pub proof fn lemma_value_count_bound(s: Seq<(u64, u64)>, v: u64)
    ensures
        value_count(s, v) <= s.len(),
    decreases s.len(),
{
    if s.len() > 0 {
        lemma_value_count_bound(s.drop_last(), v);
    }
}

/// Taking one key out of a finite map takes its value out of the sum.
pub proof fn lemma_total_remove(m: Map<u64, nat>, h: u64)
    requires
        m.dom().finite(),
        m.contains_key(h),
    ensures
        total(m) == m[h] + total(m.remove(h)),
    decreases m.dom().len(),
{
    let c = m.dom().choose();
    if c != h {
        lemma_total_remove(m.remove(c), h);
        lemma_total_remove(m.remove(h), c);
        assert(m.remove(c).remove(h) =~= m.remove(h).remove(c));
    }
}

} // verus!
