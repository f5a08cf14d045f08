//! The count table: a map from k-mer hash to the number of times it was seen.
use crate::dna::{
    all_bases, all_bases_in, ascii_chars, ascii_string, canonical, canonical_kmer, canonical_of,
    is_base, is_dna, revcomp, to_upper, upper,
};
use crate::error::TableError;
use crate::hashing::{hash_windows, kmer_hash, n_windows, window, window_hashes};
use crate::kmer_iter::{
    items_from, lemma_items_step, window_items, KmerCursor, KmersAndHashesIter,
};
use crate::model::{
    bumped, count_of, counted_above, counted_below, dot, histogram, jaccard_of, largest,
    lemma_dot_of_listing, lemma_largest, lemma_listed, lemma_listed_keys,
    lemma_lists_no_duplicates, lemma_map_multiset, lemma_merged_valid, lemma_occurrences_prefix,
    lemma_permutation, lemma_same_elements_lists, lemma_smallest, lemma_sum_of_listing,
    lemma_tally_of_listing, lemma_value_count_bound, lemma_with_hashes_count,
    lemma_with_hashes_push, lemma_with_no_hashes, listed, lists, merged, new_keys, nonzero,
    occurrences, pair_le, pairs_sorted, product_sum, recorded, smallest, sum_maps, sum_of, swapped,
    tally, value_count, value_sum, with_hashes, TableModel,
};
use crate::sorting::{
    count_first_le, par_sort_count_first, par_sort_text_first, sort_pairs, text_first_le,
};
use std::collections::{HashMap, HashSet};
use vstd::prelude::*;
use vstd::std_specs::hash::spec_hash_map_iter;
use vstd::std_specs::iter::IteratorSpec;
use vstd::utf8::encode_utf8;

verus! {

broadcast use vstd::std_specs::hash::group_hash_axioms;

/// The version tag that new tables carry.
pub const VERSION: &'static str = "0.1.0";

/// The hash of a k-mer text for a table of k `ksize`, or why it has none.
pub open spec fn hash_of_kmer(ksize: u8, b: Seq<u8>) -> Result<u64, TableError> {
    if b.len() != ksize as nat {
        Err(TableError::WrongLength)
    } else if !is_dna(upper(b)) {
        Err(TableError::InvalidCharacter)
    } else {
        Ok(kmer_hash(upper(b)))
    }
}

/// The canonical text of a k-mer for a table of k `ksize`, or why it has none.
pub open spec fn canon_of(ksize: u8, b: Seq<u8>) -> Result<Seq<char>, TableError> {
    if b.len() != ksize as nat {
        Err(TableError::WrongLength)
    } else {
        match canonical_of(b) {
            Some(c) => Ok(ascii_chars(c)),
            None => Err(TableError::InvalidCharacter),
        }
    }
}

/// Every window of width `k` of the text is DNA.
pub open spec fn all_windows_dna(b: Seq<u8>, k: nat) -> bool {
    forall|j: int| 0 <= j < n_windows(b.len(), k) ==> is_dna(#[trigger] window(b, k, j))
}

/// Window `p` is the first window of width `k` of the text that is not DNA.
pub open spec fn first_bad_window(b: Seq<u8>, k: nat, p: int) -> bool {
    &&& 0 <= p < n_windows(b.len(), k)
    &&& !is_dna(window(b, k, p))
    &&& forall|j: int| 0 <= j < p ==> is_dna(#[trigger] window(b, k, j))
}

/// The (text, hash) items of a sequence's windows as text values.
pub open spec fn item_texts(v: Seq<(String, u64)>) -> Seq<(Seq<char>, u64)> {
    v.map_values(|p: (String, u64)| (p.0@, p.1))
}

/// A listing of kept texts, with each text as its characters.
pub open spec fn text_listing(l: Seq<(u64, String)>) -> Seq<(u64, Seq<char>)> {
    l.map_values(|p: (u64, String)| (p.0, p.1@))
}

/// The (text, count) pair of each hash of the listing `l` that `m` counts,
/// in the order of `l`.
pub open spec fn joined(l: Seq<(u64, Seq<char>)>, m: Map<u64, u64>) -> Seq<(Seq<char>, u64)>
    decreases l.len(),
{
    if l.len() == 0 {
        Seq::empty()
    } else if m.contains_key(l.last().0) {
        joined(l.drop_last(), m).push((l.last().1, m[l.last().0]))
    } else {
        joined(l.drop_last(), m)
    }
}

/// The state of a table spelled out field by field, as it is saved and
/// loaded.
pub struct TableParts {
    /// Occurrences of each hash.
    pub counts: HashMap<u64, u64>,
    /// The k-mer length.
    pub ksize: u8,
    /// The version tag.
    pub version: String,
    /// Bases consumed.
    pub consumed: u64,
    /// Whether k-mer text is kept.
    pub store_kmers: bool,
    /// The kept k-mer text, present exactly when it is kept.
    pub hash_to_kmer: Option<HashMap<u64, String>>,
}

impl TableParts {
    /// Whether these parts spell out the table `t`.
    pub open spec fn describes(&self, t: TableModel) -> bool {
        &&& self.counts@ == t.counts
        &&& self.ksize == t.ksize
        &&& self.version@ == t.version
        &&& self.consumed == t.consumed
        &&& self.store_kmers == t.store_kmers
        &&& match self.hash_to_kmer {
            Some(m) => t.store_kmers && texts(m@) == t.kmers,
            None => !t.store_kmers,
        }
    }

    /// The table that these parts make: counts of 0 are dropped, and k-mer
    /// text is kept only when it is to be kept.
    pub open spec fn restored(&self) -> TableModel {
        TableModel {
            counts: self.counts@.restrict(self.counts@.dom().filter(|h: u64| self.counts@[h] > 0)),
            ksize: self.ksize,
            version: self.version@,
            consumed: self.consumed,
            store_kmers: self.store_kmers,
            kmers: match self.hash_to_kmer {
                Some(m) => if self.store_kmers {
                    texts(m@)
                } else {
                    Map::empty()
                },
                None => Map::empty(),
            },
        }
    }
}

/// Saving a table into its parts and making a table of them gives the
/// table back.
pub proof fn lemma_parts_round_trip(t: TableModel, p: TableParts)
    requires
        t.valid(),
        p.describes(t),
    ensures
        p.restored() == t,
{
    assert(p.counts@.restrict(p.counts@.dom().filter(|h: u64| p.counts@[h] > 0)) =~= t.counts);
}

/// Walks the (hash, count) entries of a table.
pub struct KmerCountTableIterator {
    entries: Vec<(u64, u64)>,
    pos: usize,
}

impl View for KmerCountTableIterator {
    type V = Seq<(u64, u64)>;

    /// The entries still to come.
    closed spec fn view(&self) -> Seq<(u64, u64)> {
        self.entries@.subrange(self.pos as int, self.entries@.len() as int)
    }
}

impl KmerCountTableIterator {
    /// The position is within the entries.
    pub closed spec fn wf(&self) -> bool {
        self.pos <= self.entries@.len()
    }

    /// The next entry, or `None` when all were given.
    pub fn next(&mut self) -> (r: Option<(u64, u64)>)
        requires
            old(self).wf(),
        ensures
            final(self).wf(),
            old(self)@.len() == 0 ==> r is None && final(self)@ == old(self)@,
            old(self)@.len() > 0 ==> r == Some(old(self)@[0]) && final(self)@ == old(self)@.drop_first(),
    {
        if self.pos < self.entries.len() {
            let e = self.entries[self.pos];
            self.pos = self.pos + 1;
            assert(self@ =~= old(self)@.drop_first());
            Some(e)
        } else {
            None
        }
    }
}

/// Counts of k-mer hashes, with the k-mer length, the number of bases
/// consumed, a version tag and, optionally, the canonical text of each
/// k-mer counted.
pub struct KmerCountTable {
    counts: HashMap<u64, u64>,
    ksize: u8,
    version: String,
    consumed: u64,
    store_kmers: bool,
    hash_to_kmer: HashMap<u64, String>,
}

/// The texts of a map from hash to `String`.
pub open spec fn texts(m: Map<u64, String>) -> Map<u64, Seq<char>> {
    m.map_values(|s: String| s@)
}

impl View for KmerCountTable {
    type V = TableModel;

    closed spec fn view(&self) -> TableModel {
        TableModel {
            counts: self.counts@,
            ksize: self.ksize,
            version: self.version@,
            consumed: self.consumed,
            store_kmers: self.store_kmers,
            kmers: texts(self.hash_to_kmer@),
        }
    }
}

impl KmerCountTable {
    /// An empty table for k-mers of length `ksize`, keeping k-mer text when
    /// `store_kmers` is set.
    pub fn new(ksize: u8, store_kmers: bool) -> (r: Self)
        ensures
            r@ == (TableModel {
                counts: Map::empty(),
                ksize,
                version: VERSION@,
                consumed: 0,
                store_kmers,
                kmers: Map::empty(),
            }),
            r@.valid(),
    {
        let r = KmerCountTable {
            counts: HashMap::new(),
            ksize,
            version: VERSION.to_owned(),
            consumed: 0,
            store_kmers,
            hash_to_kmer: HashMap::new(),
        };
        assert(r@.kmers =~= Map::empty());
        r
    }

    /// The k-mer length.
    pub fn ksize(&self) -> (r: u8)
        ensures
            r == self@.ksize,
    {
        self.ksize
    }

    /// The version tag recorded at construction.
    pub fn version(&self) -> (r: &str)
        ensures
            r@ == self@.version,
    {
        self.version.as_str()
    }

    /// The number of bases consumed by counting.
    pub fn consumed(&self) -> (r: u64)
        ensures
            r == self@.consumed,
    {
        self.consumed
    }

    /// Whether canonical k-mer text is kept.
    pub fn store_kmers(&self) -> (r: bool)
        ensures
            r == self@.store_kmers,
    {
        self.store_kmers
    }

    /// The number of distinct hashes counted.
    pub fn len(&self) -> (r: usize)
        ensures
            r == self@.counts.len(),
    {
        self.counts.len()
    }

    /// The hash of a k-mer: that of its canonical form, upper-cased.
    pub fn hash_kmer(&self, kmer: String) -> (r: Result<u64, TableError>)
        ensures
            r == hash_of_kmer(self@.ksize, encode_utf8(kmer@)),
    {
        let bytes = kmer.as_str().as_bytes();
        if bytes.len() != self.ksize as usize {
            return Err(TableError::WrongLength);
        }
        let up = to_upper(bytes);
        if !all_bases(up.as_slice()) {
            return Err(TableError::InvalidCharacter);
        }
        let hs = hash_windows(bytes, self.ksize as usize);
        assert(window(bytes@, self.ksize as nat, 0) =~= upper(bytes@));
        Ok(hs[0])
    }

    /// The canonical text kept for `hash`.
    pub fn unhash(&self, hash: u64) -> (r: Result<String, TableError>)
        ensures
            !self@.store_kmers ==> r == Err::<String, TableError>(TableError::UnsupportedOperation),
            self@.store_kmers && !self@.kmers.contains_key(hash) ==> r == Err::<String, TableError>(
                TableError::NotFound,
            ),
            self@.store_kmers && self@.kmers.contains_key(hash) ==> (r matches Ok(s) && s@
                == self@.kmers[hash]),
    {
        if !self.store_kmers {
            return Err(TableError::UnsupportedOperation);
        }
        match self.hash_to_kmer.get(&hash) {
            Some(s) => Ok(s.clone()),
            None => Err(TableError::NotFound),
        }
    }

    /// Counts `hashval` once more and returns its new count.
    pub fn count_hash(&mut self, hashval: u64) -> (r: u64)
        requires
            old(self)@.valid(),
            old(self)@.count(hashval) < u64::MAX,
        ensures
            final(self)@.valid(),
            r == old(self)@.count(hashval) + 1,
            final(self)@ == (TableModel { counts: bumped(old(self)@.counts, hashval), ..old(self)@ }),
    {
        let c: u64 = match self.counts.get(&hashval) {
            Some(c) => *c,
            None => 0,
        };
        self.counts.insert(hashval, c + 1);
        c + 1
    }

    /// The canonical text of a k-mer: the smaller of it and its reverse
    /// complement, upper-cased.
    pub fn canon(&self, kmer: &str) -> (r: Result<String, TableError>)
        ensures
            match canon_of(self@.ksize, encode_utf8(kmer@)) {
                Ok(c) => (r matches Ok(s) && s@ == c),
                Err(e) => r == Err::<String, TableError>(e),
            },
    {
        let bytes = kmer.as_bytes();
        if bytes.len() != self.ksize as usize {
            return Err(TableError::WrongLength);
        }
        match canonical_kmer(bytes) {
            Some(c) => {
                proof {
                    lemma_canonical_ascii(bytes@);
                }
                Ok(ascii_string(c))
            },
            None => Err(TableError::InvalidCharacter),
        }
    }

    /// Counts a k-mer once more and returns the new count of its hash.
    pub fn count(&mut self, kmer: String) -> (r: Result<u64, TableError>)
        requires
            old(self)@.valid(),
            hash_of_kmer(old(self)@.ksize, encode_utf8(kmer@)) matches Ok(h) ==> old(self)@.count(h)
                < u64::MAX && old(self)@.consumed + encode_utf8(kmer@).len() <= u64::MAX,
        ensures
            final(self)@.valid(),
            match hash_of_kmer(old(self)@.ksize, encode_utf8(kmer@)) {
                Ok(h) => {
                    &&& r == Ok::<u64, TableError>((old(self)@.count(h) + 1) as u64)
                    &&& final(self)@ == (TableModel {
                        counts: bumped(old(self)@.counts, h),
                        consumed: (old(self)@.consumed + encode_utf8(kmer@).len()) as u64,
                        kmers: if old(self)@.store_kmers {
                            old(self)@.kmers.insert(
                                h,
                                ascii_chars(canonical(upper(encode_utf8(kmer@)))),
                            )
                        } else {
                            old(self)@.kmers
                        },
                        ..old(self)@
                    })
                },
                Err(e) => r == Err::<u64, TableError>(e) && final(self)@ == old(self)@,
            },
    {
        let len = kmer.as_str().as_bytes().len();
        let hashval = match self.hash_kmer(kmer.clone()) {
            Ok(h) => h,
            Err(e) => return Err(e),
        };
        let c = self.count_hash(hashval);
        self.consumed = self.consumed + len as u64;
        if self.store_kmers {
            let canonical_kmer = match self.canon(kmer.as_str()) {
                Ok(c) => c,
                Err(e) => return Err(e),
            };
            let ghost before = self.hash_to_kmer@;
            self.hash_to_kmer.insert(hashval, canonical_kmer);
            assert(texts(self.hash_to_kmer@) =~= texts(before).insert(hashval, canonical_kmer@));
        }
        Ok(c)
    }

    /// The count of a k-mer: that of its hash.
    pub fn get(&self, kmer: String) -> (r: Result<u64, TableError>)
        ensures
            match hash_of_kmer(self@.ksize, encode_utf8(kmer@)) {
                Ok(h) => r == Ok::<u64, TableError>(self@.count(h) as u64),
                Err(e) => r == Err::<u64, TableError>(e),
            },
    {
        let hashval = match self.hash_kmer(kmer) {
            Ok(h) => h,
            Err(e) => return Err(e),
        };
        Ok(self.get_hash(hashval))
    }

    /// The count of a hash, 0 when it was never counted.
    pub fn get_hash(&self, hashval: u64) -> (r: u64)
        ensures
            r == self@.count(hashval),
    {
        match self.counts.get(&hashval) {
            Some(c) => *c,
            None => 0,
        }
    }

    /// The count of each hash of `hash_keys`, in order.
    pub fn get_hash_array(&self, hash_keys: Vec<u64>) -> (r: Vec<u64>)
        ensures
            r@.len() == hash_keys@.len(),
            forall|i: int| 0 <= i < r@.len() ==> r@[i] == self@.count(#[trigger] hash_keys@[i]),
    {
        let mut r: Vec<u64> = Vec::with_capacity(hash_keys.len());
        for i in 0..hash_keys.len()
            invariant
                r@.len() == i,
                forall|j: int| 0 <= j < i ==> r@[j] == self@.count(#[trigger] hash_keys@[j]),
        {
            r.push(self.get_hash(hash_keys[i]));
        }
        r
    }

    /// Forgets the count of a k-mer; a k-mer never counted is no error.
    pub fn drop(&mut self, kmer: String) -> (r: Result<(), TableError>)
        requires
            old(self)@.valid(),
        ensures
            final(self)@.valid(),
            match hash_of_kmer(old(self)@.ksize, encode_utf8(kmer@)) {
                Ok(h) => r is Ok && final(self)@ == (TableModel {
                    counts: old(self)@.counts.remove(h),
                    ..old(self)@
                }),
                Err(e) => r == Err::<(), TableError>(e) && final(self)@ == old(self)@,
            },
    {
        let hashval = match self.hash_kmer(kmer) {
            Ok(h) => h,
            Err(e) => return Err(e),
        };
        self.drop_hash(hashval);
        Ok(())
    }

    /// Forgets the count of a hash; a hash never counted is no error.
    pub fn drop_hash(&mut self, hashval: u64)
        requires
            old(self)@.valid(),
        ensures
            final(self)@.valid(),
            final(self)@ == (TableModel { counts: old(self)@.counts.remove(hashval), ..old(self)@ }),
    {
        self.counts.remove(&hashval);
    }

    /// Sets the count of a k-mer; a count of 0 forgets it.
    pub fn set(&mut self, kmer: String, count: u64) -> (r: Result<(), TableError>)
        requires
            old(self)@.valid(),
        ensures
            final(self)@.valid(),
            match hash_of_kmer(old(self)@.ksize, encode_utf8(kmer@)) {
                Ok(h) => r is Ok && final(self)@ == (TableModel {
                    counts: if count == 0 {
                        old(self)@.counts.remove(h)
                    } else {
                        old(self)@.counts.insert(h, count)
                    },
                    ..old(self)@
                }),
                Err(e) => r == Err::<(), TableError>(e) && final(self)@ == old(self)@,
            },
    {
        let hashval = match self.hash_kmer(kmer) {
            Ok(h) => h,
            Err(e) => return Err(e),
        };
        if count == 0 {
            self.counts.remove(&hashval);
        } else {
            self.counts.insert(hashval, count);
        }
        Ok(())
    }

    /// Every (hash, count) entry, each once, in no particular order.
    fn entries(&self) -> (r: Vec<(u64, u64)>)
        ensures
            lists(r@, self@.counts),
    {
        map_entries(&self.counts)
    }

    /// The (hash, count) entries, each once: in no particular order, or
    /// ascending by hash (`sortkeys`), or ascending by count and then hash
    /// (`sortcounts`); asking for both orders is refused.
    pub fn dump(&self, sortcounts: bool, sortkeys: bool) -> (r: Result<Vec<(u64, u64)>, TableError>)
        ensures
            sortcounts && sortkeys ==> r == Err::<Vec<(u64, u64)>, TableError>(
                TableError::UnsupportedOperation,
            ),
            !(sortcounts && sortkeys) ==> r is Ok,
            r matches Ok(v) ==> {
                &&& lists(v@, self@.counts)
                &&& sortkeys ==> forall|i: int, j: int|
                    0 <= i < j < v@.len() ==> #[trigger] v@[i].0 < #[trigger] v@[j].0
                &&& sortcounts ==> pairs_sorted(swapped(v@))
            },
    {
        if sortcounts && sortkeys {
            return Err(TableError::UnsupportedOperation);
        }
        let mut pairs = self.entries();
        let ghost m = self@.counts;
        let ghost unsorted = pairs@;
        proof {
            lemma_lists_no_duplicates(unsorted, m);
        }
        if sortkeys {
            sort_pairs(&mut pairs);
            proof {
                lemma_permutation(unsorted, pairs@);
                lemma_same_elements_lists(unsorted, pairs@, m);
                assert forall|i: int, j: int| 0 <= i < j < pairs@.len() implies #[trigger] pairs@[i].0
                    < #[trigger] pairs@[j].0 by {
                    assert(pair_le(pairs@[i], pairs@[j]));
                }
            }
        } else if sortcounts {
            let mut flipped = swap_pairs(&pairs);
            let ghost before = flipped@;
            sort_pairs(&mut flipped);
            proof {
                assert(before.no_duplicates());
                lemma_permutation(before, flipped@);
            }
            pairs = swap_pairs(&flipped);
            proof {
                let s = flipped@;
                assert forall|i: int| 0 <= i < pairs@.len() implies unsorted.contains(
                    #[trigger] pairs@[i],
                ) by {
                    assert(before.contains(s[i]));
                    let j = choose|j: int| 0 <= j < before.len() && before[j] == s[i];
                    assert(unsorted[j] == pairs@[i]);
                }
                assert forall|i: int| 0 <= i < unsorted.len() implies pairs@.contains(
                    #[trigger] unsorted[i],
                ) by {
                    assert(s.contains(before[i]));
                    let j = choose|j: int| 0 <= j < s.len() && s[j] == before[i];
                    assert(pairs@[j] == unsorted[i]);
                }
                assert(pairs@.no_duplicates());
                lemma_same_elements_lists(unsorted, pairs@, m);
                assert(swapped(pairs@) =~= s);
            }
        }
        Ok(pairs)
    }

    /// Every hash counted, each once, in no particular order.
    pub fn hashes(&self) -> (r: Vec<u64>)
        ensures
            r@.len() == self@.counts.dom().len(),
            r@.no_duplicates(),
            r@.to_set() == self@.counts.dom(),
    {
        let pairs = self.entries();
        let mut r: Vec<u64> = Vec::with_capacity(pairs.len());
        for i in 0..pairs.len()
            invariant
                r@ == pairs@.take(i as int).map_values(|e: (u64, u64)| e.0),
        {
            r.push(pairs[i].0);
            assert(pairs@.take(i + 1) =~= pairs@.take(i as int).push(pairs@[i as int]));
            assert(r@ =~= pairs@.take(i + 1).map_values(|e: (u64, u64)| e.0));
        }
        assert(pairs@.take(pairs@.len() as int) =~= pairs@);
        proof {
            let m = self@.counts;
            assert forall|h: u64| r@.to_set().contains(h) <==> m.contains_key(h) by {
                if m.contains_key(h) {
                    let i = choose|i: int| 0 <= i < pairs@.len() && pairs@[i].0 == h;
                    assert(r@[i] == h);
                }
                if r@.to_set().contains(h) {
                    let i = choose|i: int| 0 <= i < r@.len() && r@[i] == h;
                    assert(m.contains_key(pairs@[i].0));
                }
            }
            assert(r@.to_set() =~= m.dom());
        }
        r
    }

    /// The smallest count, 0 for an empty table.
    pub fn min(&self) -> (r: u64)
        ensures
            r == smallest(self@.counts),
    {
        let pairs = self.entries();
        if pairs.len() == 0 {
            proof {
                lemma_no_smallest(self@.counts);
            }
            return 0;
        }
        let mut best: u64 = pairs[0].1;
        let mut at: usize = 0;
        for i in 1..pairs.len()
            invariant
                at < pairs@.len(),
                best == pairs@[at as int].1,
                forall|j: int| 0 <= j < i ==> best <= #[trigger] pairs@[j].1,
        {
            if pairs[i].1 < best {
                best = pairs[i].1;
                at = i;
            }
        }
        proof {
            let m = self@.counts;
            assert(m.contains_key(pairs@[at as int].0));
            assert forall|h: u64| #[trigger] m.contains_key(h) implies best <= m[h] by {
                let i = choose|i: int| 0 <= i < pairs@.len() && pairs@[i].0 == h;
                assert(best <= pairs@[i].1);
            }
            lemma_smallest(m, best);
        }
        best
    }

    /// The largest count, 0 for an empty table.
    pub fn max(&self) -> (r: u64)
        ensures
            r == largest(self@.counts),
    {
        let pairs = self.entries();
        if pairs.len() == 0 {
            proof {
                lemma_no_largest(self@.counts);
            }
            return 0;
        }
        let mut best: u64 = pairs[0].1;
        let mut at: usize = 0;
        for i in 1..pairs.len()
            invariant
                at < pairs@.len(),
                best == pairs@[at as int].1,
                forall|j: int| 0 <= j < i ==> #[trigger] pairs@[j].1 <= best,
        {
            if pairs[i].1 > best {
                best = pairs[i].1;
                at = i;
            }
        }
        proof {
            let m = self@.counts;
            assert(m.contains_key(pairs@[at as int].0));
            assert forall|h: u64| #[trigger] m.contains_key(h) implies m[h] <= best by {
                let i = choose|i: int| 0 <= i < pairs@.len() && pairs@[i].0 == h;
                assert(pairs@[i].1 <= best);
            }
            lemma_largest(m, best);
        }
        best
    }

    /// How many hashes have each count: with `zero`, one entry for every
    /// count from 0 to the largest, in order; without, one for every count
    /// that occurs, ascending.
    pub fn histo(&self, zero: bool) -> (r: Vec<(u64, u64)>)
        ensures
            zero ==> {
                &&& r@.len() == largest(self@.counts) + 1
                &&& forall|i: int|
                    0 <= i < r@.len() ==> #[trigger] r@[i] == (
                        i as u64,
                        tally(self@.counts, i as u64) as u64,
                    )
            },
            !zero ==> lists(r@, histogram(self@.counts)) && pairs_sorted(r@),
    {
        let pairs = self.entries();
        let ghost m = self@.counts;
        let mut freq: HashMap<u64, u64> = HashMap::new();
        for i in 0..pairs.len()
            invariant
                forall|v: u64| #[trigger] count_of(freq@, v) == value_count(pairs@.take(i as int), v),
                forall|v: u64| #[trigger] freq@.contains_key(v) ==> freq@[v] > 0,
        {
            let v = pairs[i].1;
            let c: u64 = match freq.get(&v) {
                Some(c) => *c,
                None => 0,
            };
            proof {
                assert(c == count_of(freq@, v));
                lemma_value_count_bound(pairs@.take(i as int), v);
            }
            let ghost old_freq = freq@;
            freq.insert(v, c + 1);
            proof {
                assert(pairs@.take(i + 1).drop_last() =~= pairs@.take(i as int));
                assert(pairs@.take(i + 1).last() == pairs@[i as int]);
                assert forall|w: u64| #[trigger] count_of(freq@, w) == value_count(pairs@.take(i + 1), w) by {
                    assert(count_of(old_freq, w) == value_count(pairs@.take(i as int), w));
                }
            }
        }
        assert(pairs@.take(pairs@.len() as int) =~= pairs@);
        proof {
            assert forall|v: u64| #[trigger] count_of(freq@, v) == tally(m, v) by {
                lemma_tally_of_listing(pairs@, m, v);
            }
        }
        if zero {
            let top = self.max();
            let mut r: Vec<(u64, u64)> = Vec::new();
            let mut v: u64 = 0;
            loop
                invariant
                    zero,
                    m == self@.counts,
                    top == largest(m),
                    v <= top,
                    r@.len() == v,
                    forall|i: int| 0 <= i < r@.len() ==> #[trigger] r@[i] == (i as u64, tally(m, i as u64) as u64),
                    forall|v: u64| #[trigger] count_of(freq@, v) == tally(m, v),
                decreases top - v,
            {
                let c: u64 = match freq.get(&v) {
                    Some(c) => *c,
                    None => 0,
                };
                proof {
                    assert(c == count_of(freq@, v));
                    assert(c == tally(m, v));
                }
                r.push((v, c));
                if v == top {
                    return r;
                }
                v = v + 1;
            }
        } else {
            let mut r = map_entries(&freq);
            let ghost unsorted = r@;
            sort_pairs(&mut r);
            proof {
                assert forall|v: u64| freq@.contains_key(v) <==> tally(m, v) > 0 by {
                    assert(count_of(freq@, v) == tally(m, v));
                }
                assert forall|v: u64| freq@.contains_key(v) implies freq@[v] == tally(m, v) as u64 by {
                    assert(count_of(freq@, v) == tally(m, v));
                }
                assert(freq@ =~= histogram(m));
                lemma_lists_no_duplicates(unsorted, freq@);
                lemma_permutation(unsorted, r@);
                lemma_same_elements_lists(unsorted, r@, freq@);
            }
            r
        }
    }

    /// Refuses two tables of different k.
    fn check_compatible(&self, other: &KmerCountTable) -> (r: Result<(), TableError>)
        ensures
            self@.ksize == other@.ksize ==> r is Ok,
            self@.ksize != other@.ksize ==> r == Err::<(), TableError>(TableError::IncompatibleTables),
    {
        if self.ksize != other.ksize {
            Err(TableError::IncompatibleTables)
        } else {
            Ok(())
        }
    }

    /// The hashes that either table counts.
    pub fn union(&self, other: &KmerCountTable) -> (r: Result<HashSet<u64>, TableError>)
        ensures
            self@.ksize != other@.ksize ==> r == Err::<HashSet<u64>, TableError>(
                TableError::IncompatibleTables,
            ),
            self@.ksize == other@.ksize ==> (r matches Ok(s) && s@ == self@.counts.dom().union(
                other@.counts.dom(),
            )),
    {
        match self.check_compatible(other) {
            Ok(()) => {},
            Err(e) => return Err(e),
        }
        let a = self.hashes();
        let b = other.hashes();
        let mut s: HashSet<u64> = HashSet::new();
        add_keys(&mut s, &a, &other.counts, true, true);
        add_keys(&mut s, &b, &self.counts, true, true);
        assert(s@ =~= self@.counts.dom().union(other@.counts.dom()));
        Ok(s)
    }

    /// The hashes that both tables count.
    pub fn intersection(&self, other: &KmerCountTable) -> (r: Result<HashSet<u64>, TableError>)
        ensures
            self@.ksize != other@.ksize ==> r == Err::<HashSet<u64>, TableError>(
                TableError::IncompatibleTables,
            ),
            self@.ksize == other@.ksize ==> (r matches Ok(s) && s@ == self@.counts.dom().intersect(
                other@.counts.dom(),
            )),
    {
        match self.check_compatible(other) {
            Ok(()) => {},
            Err(e) => return Err(e),
        }
        let a = self.hashes();
        let mut s: HashSet<u64> = HashSet::new();
        add_keys(&mut s, &a, &other.counts, false, true);
        assert(s@ =~= self@.counts.dom().intersect(other@.counts.dom()));
        Ok(s)
    }

    /// The hashes that this table counts and `other` does not.
    pub fn difference(&self, other: &KmerCountTable) -> (r: Result<HashSet<u64>, TableError>)
        ensures
            self@.ksize != other@.ksize ==> r == Err::<HashSet<u64>, TableError>(
                TableError::IncompatibleTables,
            ),
            self@.ksize == other@.ksize ==> (r matches Ok(s) && s@ == self@.counts.dom().difference(
                other@.counts.dom(),
            )),
    {
        match self.check_compatible(other) {
            Ok(()) => {},
            Err(e) => return Err(e),
        }
        let a = self.hashes();
        let mut s: HashSet<u64> = HashSet::new();
        add_keys(&mut s, &a, &other.counts, false, false);
        assert(s@ =~= self@.counts.dom().difference(other@.counts.dom()));
        Ok(s)
    }

    /// The hashes that exactly one of the tables counts.
    pub fn symmetric_difference(&self, other: &KmerCountTable) -> (r: Result<
        HashSet<u64>,
        TableError,
    >)
        ensures
            self@.ksize != other@.ksize ==> r == Err::<HashSet<u64>, TableError>(
                TableError::IncompatibleTables,
            ),
            self@.ksize == other@.ksize ==> (r matches Ok(s) && s@ == self@.counts.dom().difference(
                other@.counts.dom(),
            ).union(other@.counts.dom().difference(self@.counts.dom()))),
    {
        match self.check_compatible(other) {
            Ok(()) => {},
            Err(e) => return Err(e),
        }
        let a = self.hashes();
        let b = other.hashes();
        let mut s: HashSet<u64> = HashSet::new();
        add_keys(&mut s, &a, &other.counts, false, false);
        add_keys(&mut s, &b, &self.counts, false, false);
        assert(s@ =~= self@.counts.dom().difference(other@.counts.dom()).union(
            other@.counts.dom().difference(self@.counts.dom()),
        ));
        Ok(s)
    }

    /// The Jaccard similarity of the two tables' hash sets as a fraction
    /// (shared, either); two empty tables are alike, `(1, 1)`.
    pub fn jaccard_ratio(&self, other: &KmerCountTable) -> (r: Result<(u64, u64), TableError>)
        ensures
            self@.ksize != other@.ksize ==> r == Err::<(u64, u64), TableError>(
                TableError::IncompatibleTables,
            ),
            self@.ksize == other@.ksize ==> r == Ok::<(u64, u64), TableError>(
                jaccard_of(self@.counts, other@.counts),
            ),
    {
        let inter = match self.intersection(other) {
            Ok(s) => s,
            Err(e) => return Err(e),
        };
        let uni = match self.union(other) {
            Ok(s) => s,
            Err(e) => return Err(e),
        };
        if uni.len() == 0 {
            Ok((1, 1))
        } else {
            Ok((inter.len() as u64, uni.len() as u64))
        }
    }

    /// The dot product of the two tables' counts over the hashes they share,
    /// `None` when it does not fit in `u64`.
    pub fn dot_product(&self, other: &KmerCountTable) -> (r: Result<Option<u64>, TableError>)
        ensures
            self@.ksize != other@.ksize ==> r == Err::<Option<u64>, TableError>(
                TableError::IncompatibleTables,
            ),
            self@.ksize == other@.ksize ==> r == Ok::<Option<u64>, TableError>(
                if dot(self@.counts, other@.counts) <= u64::MAX {
                    Some(dot(self@.counts, other@.counts) as u64)
                } else {
                    None
                },
            ),
    {
        match self.check_compatible(other) {
            Ok(()) => {},
            Err(e) => return Err(e),
        }
        let pairs = self.entries();
        proof {
            lemma_dot_of_listing(pairs@, self@.counts, other@.counts);
        }
        let mut acc: u64 = 0;
        for i in 0..pairs.len()
            invariant
                self@.ksize == other@.ksize,
                lists(pairs@, self@.counts),
                dot(self@.counts, other@.counts) == product_sum(pairs@, other@.counts),
                acc == product_sum(pairs@.take(i as int), other@.counts),
        {
            let (h, c) = pairs[i];
            let d = other.get_hash(h);
            proof {
                assert(pairs@.take(i + 1).drop_last() =~= pairs@.take(i as int));
                assert(pairs@.take(i + 1).last() == pairs@[i as int]);
                lemma_product_sum_prefix(pairs@, i + 1, other@.counts);
                if !other@.counts.contains_key(h) {
                    assert((c as nat) * (d as nat) == 0) by (nonlinear_arith)
                        requires
                            d == 0,
                    ;
                }
                assert(product_sum(pairs@.take(i + 1), other@.counts) == acc + (c as nat) * (d as nat));
            }
            let p = match c.checked_mul(d) {
                Some(p) => p,
                None => {
                    return Ok(None);
                },
            };
            acc = match acc.checked_add(p) {
                Some(x) => x,
                None => {
                    return Ok(None);
                },
            };
        }
        assert(pairs@.take(pairs@.len() as int) =~= pairs@);
        Ok(Some(acc))
    }

    /// Adds the counts of `other` to this table, and the consumed bases;
    /// when both tables keep k-mer text, the text of each hash this table
    /// lacks is taken from `other`. Returns the total count added and how
    /// many hashes are new here.
    pub fn add(&mut self, other: &KmerCountTable) -> (r: Result<(u64, u64), TableError>)
        requires
            old(self)@.valid(),
            other@.valid(),
            old(self)@.ksize == other@.ksize ==> {
                &&& old(self)@.consumed + other@.consumed <= u64::MAX
                &&& forall|h: u64| #[trigger] old(self)@.count(h) + other@.count(h) <= u64::MAX
                &&& sum_of(other@.counts) <= u64::MAX
            },
        ensures
            final(self)@.valid(),
            old(self)@.ksize != other@.ksize ==> r == Err::<(u64, u64), TableError>(
                TableError::IncompatibleTables,
            ) && final(self)@ == old(self)@,
            old(self)@.ksize == other@.ksize ==> {
                &&& final(self)@ == merged(old(self)@, other@)
                &&& r == Ok::<(u64, u64), TableError>(
                    (sum_of(other@.counts) as u64, new_keys(old(self)@, other@).len() as u64),
                )
            },
    {
        match self.check_compatible(other) {
            Ok(()) => {},
            Err(e) => return Err(e),
        }
        let ghost a = self@;
        let pairs = other.entries();
        proof {
            lemma_sum_of_listing(pairs@, other@.counts);
            lemma_listed(pairs@, other@.counts);
        }
        let mut total_added: u64 = 0;
        let mut new_added: u64 = 0;
        proof {
            assert(pairs@.take(0) =~= Seq::<(u64, u64)>::empty());
            assert(sum_maps(a.counts, Map::empty()) =~= a.counts);
            assert(Map::<u64, u64>::empty().dom().difference(a.counts.dom()) =~= Set::empty());
        }
        for i in 0..pairs.len()
            invariant
                a.valid(),
                other@.valid(),
                lists(pairs@, other@.counts),
                listed(pairs@) == other@.counts,
                value_sum(pairs@) == sum_of(other@.counts),
                sum_of(other@.counts) <= u64::MAX,
                forall|h: u64| #[trigger] a.count(h) + other@.count(h) <= u64::MAX,
                self@ == (TableModel { counts: sum_maps(a.counts, listed(pairs@.take(i as int))), ..a }),
                total_added == value_sum(pairs@.take(i as int)),
                new_added <= i,
                new_added == listed(pairs@.take(i as int)).dom().difference(a.counts.dom()).len(),
                listed(pairs@.take(i as int)).dom().finite(),
        {
            let (h, c) = pairs[i];
            let ghost done = listed(pairs@.take(i as int));
            proof {
                assert(pairs@.take(i + 1).drop_last() =~= pairs@.take(i as int));
                assert(pairs@.take(i + 1).last() == pairs@[i as int]);
                assert(!done.contains_key(h)) by {
                    if done.contains_key(h) {
                        lemma_listed_keys(pairs@.take(i as int), h);
                        let j = choose|j: int| 0 <= j < i && pairs@.take(i as int)[j].0 == h;
                        assert(pairs@[j].0 != pairs@[i as int].0);
                    }
                }
                lemma_value_sum_prefix(pairs@, i + 1);
                assert(other@.counts.contains_key(h) && other@.counts[h] == c);
                assert(a.count(h) + c <= u64::MAX);
            }
            let current = self.get_hash(h);
            if current == 0 {
                new_added = new_added + 1;
            }
            self.counts.insert(h, current + c);
            total_added = total_added + c;
            proof {
                let next = listed(pairs@.take(i + 1));
                assert(next == done.insert(h, c));
                assert(sum_maps(a.counts, next) =~= sum_maps(a.counts, done).insert(h, (current + c) as u64));
                let before = done.dom().difference(a.counts.dom());
                let after = next.dom().difference(a.counts.dom());
                if current == 0 {
                    assert(!a.counts.contains_key(h));
                    assert(after =~= before.insert(h));
                } else {
                    assert(after =~= before);
                }
            }
        }
        proof {
            assert(pairs@.take(pairs@.len() as int) =~= pairs@);
            assert(new_keys(a, other@) =~= other@.counts.dom().difference(a.counts.dom()));
        }
        self.consumed = self.consumed + other.consumed;
        if self.store_kmers && other.store_kmers {
            let texts_of_other = text_entries(&other.hash_to_kmer);
            let ghost mine = self.hash_to_kmer@;
            let ghost mid = self@;
            proof {
                lemma_listed(texts_of_other@, other.hash_to_kmer@);
                assert(texts_of_other@.take(0) =~= Seq::<(u64, String)>::empty());
                assert(Map::<u64, String>::empty().union_prefer_right(mine) =~= mine);
            }
            for i in 0..texts_of_other.len()
                invariant
                    self@ == (TableModel { kmers: texts(self.hash_to_kmer@), ..mid }),
                    lists(texts_of_other@, other.hash_to_kmer@),
                    listed(texts_of_other@) == other.hash_to_kmer@,
                    self.hash_to_kmer@ == listed(texts_of_other@.take(i as int)).union_prefer_right(mine),
            {
                let h = texts_of_other[i].0;
                let ghost done = listed(texts_of_other@.take(i as int));
                proof {
                    assert(texts_of_other@.take(i + 1).drop_last() =~= texts_of_other@.take(i as int));
                    assert(texts_of_other@.take(i + 1).last() == texts_of_other@[i as int]);
                    assert(!done.contains_key(h)) by {
                        if done.contains_key(h) {
                            lemma_listed_keys(texts_of_other@.take(i as int), h);
                            let j = choose|j: int| 0 <= j < i && texts_of_other@.take(i as int)[j].0 == h;
                            assert(texts_of_other@[j].0 != texts_of_other@[i as int].0);
                        }
                    }
                }
                if !self.hash_to_kmer.contains_key(&h) {
                    self.hash_to_kmer.insert(h, texts_of_other[i].1.clone());
                }
                proof {
                    let next = listed(texts_of_other@.take(i + 1));
                    assert(next == done.insert(h, texts_of_other@[i as int].1));
                    assert(self.hash_to_kmer@ =~= next.union_prefer_right(mine));
                }
            }
            proof {
                assert(texts_of_other@.take(texts_of_other@.len() as int) =~= texts_of_other@);
                assert(texts(self.hash_to_kmer@) =~= texts(other.hash_to_kmer@).union_prefer_right(
                    texts(mine),
                ));
            }
        }
        proof {
            lemma_merged_valid(a, other@);
        }
        Ok((total_added, new_added))
    }

    /// The canonical text and hash of each window of `seq`, in order; a
    /// window whose hash is the sentinel is passed over when `skip_bad_kmers`
    /// is set and yields the empty text with hash 0 otherwise.
    pub fn kmers_and_hashes(&self, seq: &str, skip_bad_kmers: bool) -> (r: Result<
        Vec<(String, u64)>,
        TableError,
    >)
        ensures
            r matches Ok(v) && item_texts(v@) == items_from(
                encode_utf8(seq@),
                self@.ksize as nat,
                skip_bad_kmers,
                0,
            ),
    {
        let mut iter = KmersAndHashesIter::new(seq, self.ksize as usize, skip_bad_kmers);
        let ghost b = encode_utf8(seq@);
        let ghost k = self@.ksize as nat;
        let ghost all = items_from(b, k, skip_bad_kmers, 0);
        let mut v: Vec<(String, u64)> = Vec::new();
        loop
            invariant
                iter.wf(),
                iter@ == (KmerCursor { text: b, ksize: k, pos: iter@.pos, skip: skip_bad_kmers }),
                iter@.pos <= n_windows(b.len(), k),
                item_texts(v@) + items_from(b, k, skip_bad_kmers, iter@.pos as int) == all,
            ensures
                item_texts(v@) == all,
            decreases n_windows(b.len(), k) - iter@.pos,
        {
            proof {
                lemma_items_step(b, k, skip_bad_kmers, iter@.pos as int);
            }
            match iter.next() {
                None => {
                    assert(item_texts(v@) =~= all);
                    break;
                },
                Some(Ok(p)) => {
                    let ghost before = v@;
                    v.push(p);
                    proof {
                        assert(item_texts(v@) =~= item_texts(before).push((p.0@, p.1)));
                        assert(item_texts(v@) + items_from(b, k, skip_bad_kmers, iter@.pos as int)
                            =~= item_texts(before) + (seq![(p.0@, p.1)] + items_from(
                            b,
                            k,
                            skip_bad_kmers,
                            iter@.pos as int,
                        )));
                    }
                },
                Some(Err(e)) => {
                    return Err(e);
                },
            }
        }
        Ok(v)
    }

    /// Counts every window of width k of `seq` whose hash is not the
    /// sentinel, adds the length of `seq` to the bases consumed, and returns
    /// how many windows were counted; keeping k-mer text, it also records the
    /// canonical text of each window counted. Unless `skip_bad_kmers` is
    /// set, the first window that is not DNA stops the walk with its
    /// position: the windows before it stay counted (and their text
    /// recorded), and the bases consumed stay as they were.
    pub fn consume(&mut self, seq: &str, skip_bad_kmers: bool) -> (r: Result<u64, TableError>)
        requires
            old(self)@.valid(),
            forall|h: u64|
                #[trigger] old(self)@.count(h) + occurrences(
                    window_hashes(encode_utf8(seq@), old(self)@.ksize as nat),
                    h,
                ) <= u64::MAX,
            skip_bad_kmers || all_windows_dna(encode_utf8(seq@), old(self)@.ksize as nat)
                ==> old(self)@.consumed + encode_utf8(seq@).len() <= u64::MAX,
        ensures
            final(self)@.valid(),
            skip_bad_kmers || all_windows_dna(encode_utf8(seq@), old(self)@.ksize as nat) ==> {
                let hs = window_hashes(encode_utf8(seq@), old(self)@.ksize as nat);
                let items = window_items(encode_utf8(seq@), old(self)@.ksize as nat);
                &&& r == Ok::<u64, TableError>(nonzero(hs) as u64)
                &&& final(self)@ == (TableModel {
                    counts: with_hashes(old(self)@.counts, hs),
                    consumed: (old(self)@.consumed + encode_utf8(seq@).len()) as u64,
                    kmers: if old(self)@.store_kmers {
                        recorded(old(self)@.kmers, items)
                    } else {
                        old(self)@.kmers
                    },
                    ..old(self)@
                })
            },
            !skip_bad_kmers && !all_windows_dna(encode_utf8(seq@), old(self)@.ksize as nat) ==> (
            r matches Err(TableError::BadKmer(p)) && first_bad_window(
                encode_utf8(seq@),
                old(self)@.ksize as nat,
                p as int,
            ) && final(self)@ == (TableModel {
                counts: with_hashes(
                    old(self)@.counts,
                    window_hashes(encode_utf8(seq@), old(self)@.ksize as nat).take(p as int),
                ),
                kmers: if old(self)@.store_kmers {
                    recorded(
                        old(self)@.kmers,
                        window_items(encode_utf8(seq@), old(self)@.ksize as nat).take(p as int),
                    )
                } else {
                    old(self)@.kmers
                },
                ..old(self)@
            })),
    {
        let ghost a = self@;
        let bytes = seq.as_bytes();
        let ghost b = bytes@;
        let ghost k = self@.ksize as nat;
        let ghost hs = window_hashes(b, k);
        let ghost items = window_items(b, k);
        let k_exec = self.ksize as usize;
        let up = to_upper(bytes);
        let ulen = up.len();
        let mut counted: u64 = 0;
        proof {
            lemma_with_no_hashes(a.counts);
            assert(hs.take(0) =~= Seq::<u64>::empty());
            assert(items.take(0) =~= Seq::<(Seq<char>, u64)>::empty());
        }
        if self.store_kmers {
            let mut iter = KmersAndHashesIter::new(seq, k_exec, false);
            let windows = iter.windows();
            let mut i: usize = 0;
            while i < windows
                invariant
                    b == encode_utf8(seq@),
                    a == old(self)@,
                    k == a.ksize as nat,
                    k == k_exec,
                    hs == window_hashes(b, k),
                    items == window_items(b, k),
                    up@ == upper(b),
                    ulen == up@.len(),
                    windows == n_windows(b.len(), k),
                    a.valid(),
                    a.store_kmers,
                    forall|h: u64| #[trigger] a.count(h) + occurrences(hs, h) <= u64::MAX,
                    i <= windows,
                    iter.wf(),
                    iter@ == (KmerCursor { text: b, ksize: k, pos: i as nat, skip: false }),
                    self@.valid(),
                    self@ == (TableModel {
                        counts: with_hashes(a.counts, hs.take(i as int)),
                        kmers: recorded(a.kmers, items.take(i as int)),
                        ..a
                    }),
                    counted == nonzero(hs.take(i as int)),
                    counted <= i,
                    !skip_bad_kmers ==> forall|j: int| 0 <= j < i ==> is_dna(#[trigger] window(b, k, j)),
                ensures
                    i == windows,
                decreases windows - i,
            {
                if !skip_bad_kmers && !all_bases_in(up.as_slice(), i, i + k_exec) {
                    proof {
                        assert(up@.subrange(i as int, i + k_exec) == window(b, k, i as int));
                        assert(first_bad_window(b, k, i as int));
                    }
                    return Err(TableError::BadKmer(i as u64));
                }
                proof {
                    if !skip_bad_kmers {
                        assert(up@.subrange(i as int, i + k_exec) == window(b, k, i as int));
                    }
                    assert(iter@.next_window() == i);
                }
                let (text, h) = match iter.next() {
                    Some(Ok(item)) => item,
                    _ => {
                        proof {
                            assert(false);
                        }
                        break;
                    },
                };
                proof {
                    assert(h == hs[i as int]);
                    assert(items[i as int] == (text@, h));
                    assert(hs.take(i + 1) =~= hs.take(i as int).push(h));
                    assert(hs.take(i + 1).drop_last() =~= hs.take(i as int));
                    assert(items.take(i + 1).drop_last() =~= items.take(i as int));
                    assert(items.take(i + 1).last() == (text@, h));
                    lemma_occurrences_prefix(hs, i + 1, h);
                    assert(a.count(h) + occurrences(hs, h) <= u64::MAX);
                    assert(occurrences(hs.take(i + 1), h) == occurrences(hs.take(i as int), h) + if h
                        != 0 {
                        1nat
                    } else {
                        0nat
                    });
                    lemma_with_hashes_count(a.counts, hs.take(i as int), h);
                    lemma_with_hashes_push(a.counts, hs.take(i as int), h);
                }
                if h != 0 {
                    let ghost before = self.hash_to_kmer@;
                    self.hash_to_kmer.insert(h, text);
                    proof {
                        assert(texts(self.hash_to_kmer@) =~= texts(before).insert(h, text@));
                    }
                    self.count_hash(h);
                    counted = counted + 1;
                }
                i = i + 1;
            }
            proof {
                assert(i == windows);
                assert(hs.take(i as int) =~= hs);
                assert(items.take(i as int) =~= items);
                assert(!skip_bad_kmers ==> all_windows_dna(b, k));
            }
        } else {
            let hs_exec = hash_windows(bytes, k_exec);
            for i in 0..hs_exec.len()
                invariant
                    b == encode_utf8(seq@),
                    a == old(self)@,
                    k == a.ksize as nat,
                    k == k_exec,
                    hs == window_hashes(b, k),
                    hs_exec@ == hs,
                    up@ == upper(b),
                    ulen == up@.len(),
                    a.valid(),
                    !a.store_kmers,
                    forall|h: u64| #[trigger] a.count(h) + occurrences(hs, h) <= u64::MAX,
                    self@.valid(),
                    self@ == (TableModel { counts: with_hashes(a.counts, hs.take(i as int)), ..a }),
                    counted == nonzero(hs.take(i as int)),
                    counted <= i,
                    !skip_bad_kmers ==> forall|j: int| 0 <= j < i ==> is_dna(#[trigger] window(b, k, j)),
            {
                if !skip_bad_kmers && !all_bases_in(up.as_slice(), i, i + k_exec) {
                    proof {
                        assert(up@.subrange(i as int, i + k_exec) == window(b, k, i as int));
                        assert(first_bad_window(b, k, i as int));
                    }
                    return Err(TableError::BadKmer(i as u64));
                }
                proof {
                    if !skip_bad_kmers {
                        assert(up@.subrange(i as int, i + k_exec) == window(b, k, i as int));
                    }
                }
                let h = hs_exec[i];
                proof {
                    assert(hs.take(i + 1) =~= hs.take(i as int).push(h));
                    assert(hs.take(i + 1).drop_last() =~= hs.take(i as int));
                    lemma_occurrences_prefix(hs, i + 1, h);
                    assert(a.count(h) + occurrences(hs, h) <= u64::MAX);
                    assert(occurrences(hs.take(i + 1), h) == occurrences(hs.take(i as int), h) + if h
                        != 0 {
                        1nat
                    } else {
                        0nat
                    });
                    lemma_with_hashes_count(a.counts, hs.take(i as int), h);
                    lemma_with_hashes_push(a.counts, hs.take(i as int), h);
                }
                if h != 0 {
                    self.count_hash(h);
                    counted = counted + 1;
                }
            }
            proof {
                assert(hs.take(hs.len() as int) =~= hs);
                assert(!skip_bad_kmers ==> all_windows_dna(b, k));
            }
        }
        proof {
            assert(hs.take(hs.len() as int) =~= hs);
            assert(items.take(items.len() as int) =~= items);
            if !skip_bad_kmers {
                assert(all_windows_dna(b, k));
            }
        }
        self.consumed = self.consumed + bytes.len() as u64;
        Ok(counted)
    }

    /// The (canonical text, count) pair of every counted hash whose text is
    /// kept: in no particular order, or ascending by text (`sortkeys`), or
    /// ascending by count and then text (`sortcounts`). Refused when no text
    /// is kept, or when both orders are asked for.
    pub fn dump_kmers(&self, sortcounts: bool, sortkeys: bool) -> (r: Result<
        Vec<(String, u64)>,
        TableError,
    >)
        ensures
            !self@.store_kmers || (sortcounts && sortkeys) ==> r == Err::<
                Vec<(String, u64)>,
                TableError,
            >(TableError::UnsupportedOperation),
            self@.store_kmers && !(sortcounts && sortkeys) ==> (r matches Ok(v) && exists|
                l: Seq<(u64, Seq<char>)>,
            |
                #[trigger] lists(l, self@.kmers) && item_texts(v@).to_multiset() == joined(
                    l,
                    self@.counts,
                ).to_multiset()),
            r matches Ok(v) ==> {
                &&& sortkeys ==> forall|i: int, j: int|
                    0 <= i < j < v@.len() ==> text_first_le(#[trigger] v@[i], #[trigger] v@[j])
                &&& sortcounts ==> forall|i: int, j: int|
                    0 <= i < j < v@.len() ==> count_first_le(
                        (#[trigger] v@[i].1, v@[i].0),
                        (#[trigger] v@[j].1, v@[j].0),
                    )
            },
    {
        if !self.store_kmers {
            return Err(TableError::UnsupportedOperation);
        }
        if sortcounts && sortkeys {
            return Err(TableError::UnsupportedOperation);
        }
        let listing = text_entries(&self.hash_to_kmer);
        let ghost l = text_listing(listing@);
        proof {
            lemma_text_listing(listing@, self.hash_to_kmer@);
        }
        let mut pairs: Vec<(String, u64)> = Vec::new();
        for i in 0..listing.len()
            invariant
                l == text_listing(listing@),
                item_texts(pairs@) == joined(l.take(i as int), self@.counts),
        {
            let h = listing[i].0;
            proof {
                assert(l.take(i + 1).drop_last() =~= l.take(i as int));
                assert(l.take(i + 1).last() == l[i as int]);
            }
            match self.counts.get(&h) {
                Some(c) => {
                    let ghost before = pairs@;
                    pairs.push((listing[i].1.clone(), *c));
                    assert(item_texts(pairs@) =~= item_texts(before).push((listing@[i as int].1@, *c)));
                },
                None => {},
            }
        }
        assert(l.take(l.len() as int) =~= l);
        let ghost unsorted = pairs@;
        if sortkeys {
            par_sort_text_first(&mut pairs);
            proof {
                lemma_map_multiset(unsorted, pairs@, |p: (String, u64)| (p.0@, p.1));
            }
        } else if sortcounts {
            let mut flipped: Vec<(u64, String)> = Vec::with_capacity(pairs.len());
            for i in 0..pairs.len()
                invariant
                    flipped@ == pairs@.take(i as int).map_values(|p: (String, u64)| (p.1, p.0)),
            {
                flipped.push((pairs[i].1, pairs[i].0.clone()));
                assert(pairs@.take(i + 1) =~= pairs@.take(i as int).push(pairs@[i as int]));
                assert(flipped@ =~= pairs@.take(i + 1).map_values(|p: (String, u64)| (p.1, p.0)));
            }
            assert(pairs@.take(pairs@.len() as int) =~= pairs@);
            let ghost before = flipped@;
            par_sort_count_first(&mut flipped);
            let mut back: Vec<(String, u64)> = Vec::with_capacity(flipped.len());
            for i in 0..flipped.len()
                invariant
                    back@ == flipped@.take(i as int).map_values(|p: (u64, String)| (p.1, p.0)),
            {
                back.push((flipped[i].1.clone(), flipped[i].0));
                assert(flipped@.take(i + 1) =~= flipped@.take(i as int).push(flipped@[i as int]));
                assert(back@ =~= flipped@.take(i + 1).map_values(|p: (u64, String)| (p.1, p.0)));
            }
            assert(flipped@.take(flipped@.len() as int) =~= flipped@);
            proof {
                lemma_map_multiset(flipped@, before, |p: (u64, String)| (p.1, p.0));
                assert(before.map_values(|p: (u64, String)| (p.1, p.0)) =~= unsorted);
                lemma_map_multiset(back@, unsorted, |p: (String, u64)| (p.0@, p.1));
                assert forall|i: int, j: int| 0 <= i < j < back@.len() implies count_first_le(
                    (#[trigger] back@[i].1, back@[i].0),
                    (#[trigger] back@[j].1, back@[j].0),
                ) by {
                    assert(count_first_le(flipped@[i], flipped@[j]));
                }
            }
            pairs = back;
        }
        proof {
            assert(lists(l, self@.kmers));
        }
        Ok(pairs)
    }

    /// A walk over the (hash, count) entries, each once, in no particular
    /// order.
    pub fn iter(&self) -> (r: KmerCountTableIterator)
        ensures
            r.wf(),
            lists(r@, self@.counts),
    {
        let entries = self.entries();
        let r = KmerCountTableIterator { entries, pos: 0 };
        assert(r@ =~= r.entries@);
        r
    }

    /// The state of the table spelled out field by field.
    pub fn to_parts(&self) -> (r: TableParts)
        ensures
            r.describes(self@),
    {
        TableParts {
            counts: self.counts.clone(),
            ksize: self.ksize,
            version: self.version.clone(),
            consumed: self.consumed,
            store_kmers: self.store_kmers,
            hash_to_kmer: if self.store_kmers {
                Some(self.hash_to_kmer.clone())
            } else {
                None
            },
        }
    }

    /// The table that `parts` spell out; counts of 0 are dropped, and k-mer
    /// text is kept only when `store_kmers` says so.
    pub fn from_parts(parts: TableParts) -> (r: Self)
        ensures
            r@ == parts.restored(),
            r@.valid(),
    {
        let pairs = map_entries(&parts.counts);
        let ghost m = parts.counts@;
        let ghost kept = m.dom().filter(|h: u64| m[h] > 0);
        let mut counts: HashMap<u64, u64> = HashMap::new();
        for i in 0..pairs.len()
            invariant
                lists(pairs@, m),
                m == parts.counts@,
                kept == m.dom().filter(|h: u64| m[h] > 0),
                forall|h: u64| #[trigger]
                    counts@.contains_key(h) <==> (exists|j: int| 0 <= j < i && pairs@[j].0 == h)
                        && kept.contains(h),
                forall|h: u64| #[trigger] counts@.contains_key(h) ==> counts@[h] == m[h],
        {
            let (h, c) = pairs[i];
            if c > 0 {
                counts.insert(h, c);
            }
            proof {
                assert(m.contains_key(h) && m[h] == c);
                assert forall|x: u64| #[trigger]
                    counts@.contains_key(x) <==> (exists|j: int| 0 <= j < i + 1 && pairs@[j].0 == x)
                        && kept.contains(x) by {
                    if x == h {
                        assert(pairs@[i as int].0 == x);
                    }
                }
            }
        }
        proof {
            assert forall|h: u64| #[trigger] counts@.contains_key(h) <==> kept.contains(h) by {
                if kept.contains(h) {
                    let j = choose|j: int| 0 <= j < pairs@.len() && pairs@[j].0 == h;
                }
            }
            assert(counts@ =~= m.restrict(kept));
        }
        let hash_to_kmer = match parts.hash_to_kmer {
            Some(t) => if parts.store_kmers {
                t
            } else {
                HashMap::new()
            },
            None => HashMap::new(),
        };
        let r = KmerCountTable {
            counts,
            ksize: parts.ksize,
            version: parts.version,
            consumed: parts.consumed,
            store_kmers: parts.store_kmers,
            hash_to_kmer,
        };
        assert(r@.kmers =~= parts.restored().kmers);
        r
    }

    /// The sum of all counts.
    pub fn sum_counts(&self) -> (r: u64)
        requires
            sum_of(self@.counts) <= u64::MAX,
        ensures
            r == sum_of(self@.counts),
    {
        let pairs = self.entries();
        proof {
            lemma_sum_of_listing(pairs@, self@.counts);
        }
        let mut sum: u64 = 0;
        for i in 0..pairs.len()
            invariant
                sum == value_sum(pairs@.take(i as int)),
                value_sum(pairs@) <= u64::MAX,
        {
            proof {
                assert(pairs@.take(i + 1).drop_last() =~= pairs@.take(i as int));
                lemma_value_sum_prefix(pairs@, i + 1);
            }
            sum = sum + pairs[i].1;
        }
        assert(pairs@.take(pairs@.len() as int) =~= pairs@);
        sum
    }

    /// Forgets every hash whose count is below `bound` (`below`) or above it
    /// (`!below`); returns how many were forgotten.
    fn cut(&mut self, bound: u64, below: bool) -> (r: u64)
        requires
            old(self)@.valid(),
        ensures
            final(self)@.valid(),
            ({
                let gone = if below {
                    counted_below(old(self)@.counts, bound)
                } else {
                    counted_above(old(self)@.counts, bound)
                };
                &&& final(self)@ == (TableModel {
                    counts: old(self)@.counts.remove_keys(gone),
                    ..old(self)@
                })
                &&& r == gone.len()
            }),
    {
        let ghost m = self@.counts;
        let ghost gone = if below {
            counted_below(m, bound)
        } else {
            counted_above(m, bound)
        };
        let pairs = self.entries();
        let mut to_remove: Vec<u64> = Vec::new();
        for i in 0..pairs.len()
            invariant
                self@.counts == m,
                lists(pairs@, m),
                gone == if below {
                    counted_below(m, bound)
                } else {
                    counted_above(m, bound)
                },
                to_remove@.no_duplicates(),
                forall|h: u64|
                    to_remove@.contains(h) <==> exists|j: int|
                        0 <= j < i && #[trigger] pairs@[j].0 == h && gone.contains(h),
        {
            let (h, c) = pairs[i];
            let ghost prev = to_remove@;
            if (below && c < bound) || (!below && c > bound) {
                proof {
                    assert forall|j: int| 0 <= j < i implies #[trigger] pairs@[j].0 != h by {}
                    assert(!to_remove@.contains(h));
                }
                to_remove.push(h);
            }
            proof {
                broadcast use vstd::seq_lib::group_seq_properties;

                assert(m.contains_key(h) && m[h] == c);
                assert(gone.contains(h) <==> ((below && c < bound) || (!below && c > bound)));
                assert forall|x: u64|
                    to_remove@.contains(x) <==> exists|j: int|
                        0 <= j < i + 1 && #[trigger] pairs@[j].0 == x && gone.contains(x) by {
                    assert(to_remove@.contains(x) <==> prev.contains(x) || (x == h && gone.contains(
                        x,
                    )));
                    if x == h && gone.contains(x) {
                        assert(pairs@[i as int].0 == x);
                    }
                }
            }
        }
        proof {
            assert forall|h: u64| to_remove@.to_set().contains(h) <==> gone.contains(h) by {
                if gone.contains(h) {
                    let i = choose|i: int| 0 <= i < pairs@.len() && pairs@[i].0 == h;
                }
            }
            assert(to_remove@.to_set() =~= gone);
            to_remove@.unique_seq_to_set();
            assert(to_remove@.take(0).to_set() =~= Set::<u64>::empty());
            assert(m.remove_keys(Set::<u64>::empty()) =~= m);
        }
        for i in 0..to_remove.len()
            invariant
                self@ == (TableModel {
                    counts: m.remove_keys(to_remove@.take(i as int).to_set()),
                    ..old(self)@
                }),
        {
            self.counts.remove(&to_remove[i]);
            proof {
                assert(to_remove@.take(i + 1) =~= to_remove@.take(i as int).push(to_remove@[i as int]));
                to_remove@.take(i as int).lemma_push_to_set_commute(to_remove@[i as int]);
                assert(m.remove_keys(to_remove@.take(i + 1).to_set()) =~= m.remove_keys(
                    to_remove@.take(i as int).to_set(),
                ).remove(to_remove@[i as int]));
            }
        }
        assert(to_remove@.take(to_remove@.len() as int) =~= to_remove@);
        to_remove.len() as u64
    }

    /// Forgets every hash counted fewer than `min_count` times; returns how
    /// many were forgotten.
    pub fn mincut(&mut self, min_count: u64) -> (r: u64)
        requires
            old(self)@.valid(),
        ensures
            final(self)@.valid(),
            final(self)@ == (TableModel {
                counts: old(self)@.counts.remove_keys(counted_below(old(self)@.counts, min_count)),
                ..old(self)@
            }),
            r == counted_below(old(self)@.counts, min_count).len(),
    {
        self.cut(min_count, true)
    }

    /// Forgets every hash counted more than `max_count` times; returns how
    /// many were forgotten.
    pub fn maxcut(&mut self, max_count: u64) -> (r: u64)
        requires
            old(self)@.valid(),
        ensures
            final(self)@.valid(),
            final(self)@ == (TableModel {
                counts: old(self)@.counts.remove_keys(counted_above(old(self)@.counts, max_count)),
                ..old(self)@
            }),
            r == counted_above(old(self)@.counts, max_count).len(),
    {
        self.cut(max_count, false)
    }
}

/// Every entry of `m`, each once, in no particular order.
fn map_entries(m: &HashMap<u64, u64>) -> (r: Vec<(u64, u64)>)
    ensures
        lists(r@, m@),
{
    let mut r: Vec<(u64, u64)> = Vec::new();
    let ghost seq = spec_hash_map_iter(&m).remaining();
    for e in it: m.iter()
        invariant
            it.seq() == seq,
            r@ == it.seq().take(it.index()).map_values(|p: (&u64, &u64)| (*p.0, *p.1)),
    {
        let (k, v) = e;
        r.push((*k, *v));
        assert(it.seq().take(it.index() + 1) =~= it.seq().take(it.index()).push(e));
        assert(r@ =~= it.seq().take(it.index() + 1).map_values(
            |p: (&u64, &u64)| (*p.0, *p.1),
        ));
    }
    assert(seq.take(seq.len() as int) =~= seq);
    proof {
        let m = m@;
        assert forall|h: u64| #[trigger] m.contains_key(h) implies exists|i: int|
            0 <= i < r@.len() && r@[i].0 == h by {
            assert(seq.contains((&h, &m[h])));
            let i = choose|i: int| 0 <= i < seq.len() && seq[i] == (&h, &m[h]);
            assert(r@[i].0 == h);
        }
        assert forall|i: int, j: int|
            0 <= i < r@.len() && 0 <= j < r@.len() && i != j implies r@[i].0 != r@[j].0 by {
            assert(m.contains_key(*seq[i].0));
            assert(m.contains_key(*seq[j].0));
        }
    }
    r
}

/// Every entry of `m`, each once, in no particular order.
fn text_entries(m: &HashMap<u64, String>) -> (r: Vec<(u64, String)>)
    ensures
        lists(r@, m@),
{
    let mut r: Vec<(u64, String)> = Vec::new();
    let ghost seq = spec_hash_map_iter(&m).remaining();
    for e in it: m.iter()
        invariant
            it.seq() == seq,
            r@ == it.seq().take(it.index()).map_values(|p: (&u64, &String)| (*p.0, *p.1)),
    {
        let (k, v) = e;
        r.push((*k, v.clone()));
        assert(it.seq().take(it.index() + 1) =~= it.seq().take(it.index()).push(e));
        assert(r@ =~= it.seq().take(it.index() + 1).map_values(
            |p: (&u64, &String)| (*p.0, *p.1),
        ));
    }
    assert(seq.take(seq.len() as int) =~= seq);
    proof {
        let m = m@;
        assert forall|h: u64| #[trigger] m.contains_key(h) implies exists|i: int|
            0 <= i < r@.len() && r@[i].0 == h by {
            assert(seq.contains((&h, &m[h])));
            let i = choose|i: int| 0 <= i < seq.len() && seq[i] == (&h, &m[h]);
            assert(r@[i].0 == h);
        }
        assert forall|i: int, j: int|
            0 <= i < r@.len() && 0 <= j < r@.len() && i != j implies r@[i].0 != r@[j].0 by {
            assert(m.contains_key(*seq[i].0));
            assert(m.contains_key(*seq[j].0));
        }
    }
    r
}

/// Inserts into `s` each hash of `keys` that `m` counts (`present`) or does
/// not count (`!present`), or each hash of `keys` when `all`.
fn add_keys(s: &mut HashSet<u64>, keys: &Vec<u64>, m: &HashMap<u64, u64>, all: bool, present: bool)
    ensures
        forall|h: u64|
            #[trigger] final(s)@.contains(h) <==> old(s)@.contains(h) || (keys@.contains(h) && (all
                || m@.contains_key(h) == present)),
{
    for i in 0..keys.len()
        invariant
            forall|h: u64|
                #[trigger] s@.contains(h) <==> old(s)@.contains(h) || (keys@.take(i as int).contains(h)
                    && (all || m@.contains_key(h) == present)),
    {
        let h = keys[i];
        if all || m.contains_key(&h) == present {
            s.insert(h);
        }
        proof {
            broadcast use vstd::seq_lib::group_seq_properties;

            assert(keys@.take(i + 1) =~= keys@.take(i as int).push(h));
        }
    }
    assert(keys@.take(keys@.len() as int) =~= keys@);
}

/// The pairs of `v` with their components exchanged.
fn swap_pairs(v: &Vec<(u64, u64)>) -> (r: Vec<(u64, u64)>)
    ensures
        r@ == swapped(v@),
{
    let mut r: Vec<(u64, u64)> = Vec::with_capacity(v.len());
    for i in 0..v.len()
        invariant
            r@ == swapped(v@.take(i as int)),
    {
        r.push((v[i].1, v[i].0));
        assert(v@.take(i + 1) =~= v@.take(i as int).push(v@[i as int]));
        assert(r@ =~= swapped(v@.take(i + 1)));
    }
    assert(v@.take(v@.len() as int) =~= v@);
    r
}

proof fn lemma_no_largest(m: Map<u64, u64>)
    requires
        m.dom().len() == 0,
        m.dom().finite(),
    ensures
        largest(m) == 0,
{
    if exists|v: u64| crate::model::is_largest(m, v) {
        let v = choose|v: u64| crate::model::is_largest(m, v);
        let h = choose|h: u64| #[trigger] m.contains_key(h) && m[h] == v;
        assert(m.dom().contains(h));
    }
}

proof fn lemma_no_smallest(m: Map<u64, u64>)
    requires
        m.dom().len() == 0,
        m.dom().finite(),
    ensures
        smallest(m) == 0,
{
    if exists|v: u64| crate::model::is_smallest(m, v) {
        let v = choose|v: u64| crate::model::is_smallest(m, v);
        let h = choose|h: u64| #[trigger] m.contains_key(h) && m[h] == v;
        assert(m.dom().contains(h));
    }
}

proof fn lemma_product_sum_prefix(s: Seq<(u64, u64)>, n: int, m: Map<u64, u64>)
    requires
        0 <= n <= s.len(),
    ensures
        product_sum(s.take(n), m) <= product_sum(s, m),
    decreases s.len() - n,
{
    if n < s.len() {
        lemma_product_sum_prefix(s, n + 1, m);
        assert(s.take(n + 1).drop_last() =~= s.take(n));
    } else {
        assert(s.take(n) =~= s);
    }
}

proof fn lemma_text_listing(l: Seq<(u64, String)>, m: Map<u64, String>)
    requires
        lists(l, m),
    ensures
        lists(text_listing(l), texts(m)),
{
    let t = text_listing(l);
    assert forall|h: u64| #[trigger] texts(m).contains_key(h) implies exists|i: int|
        0 <= i < t.len() && t[i].0 == h by {
        let i = choose|i: int| 0 <= i < l.len() && l[i].0 == h;
        assert(t[i].0 == h);
    }
    assert forall|i: int, j: int| 0 <= i < t.len() && 0 <= j < t.len() && i != j implies #[trigger] t[i].0
        != #[trigger] t[j].0 by {
        assert(l[i].0 != l[j].0);
    }
    assert(texts(m).dom() =~= m.dom());
}

proof fn lemma_value_sum_prefix(s: Seq<(u64, u64)>, n: int)
    requires
        0 <= n <= s.len(),
    ensures
        value_sum(s.take(n)) <= value_sum(s),
    decreases s.len() - n,
{
    if n < s.len() {
        lemma_value_sum_prefix(s, n + 1);
        assert(s.take(n + 1).drop_last() =~= s.take(n));
    } else {
        assert(s.take(n) =~= s);
    }
}

proof fn lemma_canonical_ascii(b: Seq<u8>)
    requires
        canonical_of(b) is Some,
    ensures
        forall|i: int|
            0 <= i < canonical_of(b)->0.len() ==> canonical_of(b)->0[i] < 128,
{
    let u = upper(b);
    assert forall|i: int| 0 <= i < u.len() implies u[i] < 128 && revcomp(u)[i] < 128 by {
        assert(is_base(u[i]));
        assert(is_base(u[u.len() - 1 - i]));
    }
}

} // verus!
