//! Walking a sequence window by window, pairing each k-mer's canonical text
//! with its hash.
use crate::dna::{
    ascii_chars, ascii_string, canonical, is_base, is_dna, lex_less, revcomp,
    to_upper, upper,
};
use crate::error::TableError;
use crate::hashing::{
    hash_windows, mirror, mirrored, n_windows, window, window_hash, window_hashes,
};
use vstd::prelude::*;
use vstd::utf8::encode_utf8;

verus! {

/// The text and hash that window `i` yields: its canonical text and hash, or
/// the empty text and 0 when its hash is the sentinel.
pub open spec fn window_item(s: Seq<u8>, k: nat, i: int) -> (Seq<char>, u64) {
    if window_hash(s, k, i) != 0 {
        (ascii_chars(canonical(window(s, k, i))), window_hash(s, k, i))
    } else {
        (Seq::empty(), 0)
    }
}

/// The item of every window, in order.
pub open spec fn window_items(s: Seq<u8>, k: nat) -> Seq<(Seq<char>, u64)> {
    Seq::new(n_windows(s.len(), k), |i: int| window_item(s, k, i))
}

/// Whether window `i` yields an item: always, unless the sentinel is skipped.
pub open spec fn emits(s: Seq<u8>, k: nat, skip: bool, i: int) -> bool {
    !skip || window_hash(s, k, i) != 0
}

/// The first window at or after `from` that yields an item, or the number of
/// windows if none does.
pub open spec fn next_emitting(s: Seq<u8>, k: nat, skip: bool, from: int) -> int
    decreases n_windows(s.len(), k) - from,
{
    if from >= n_windows(s.len(), k) {
        n_windows(s.len(), k) as int
    } else if emits(s, k, skip, from) {
        from
    } else {
        next_emitting(s, k, skip, from + 1)
    }
}

/// The items that the windows from `from` on yield, in order.
pub open spec fn items_from(s: Seq<u8>, k: nat, skip: bool, from: int) -> Seq<(Seq<char>, u64)>
    decreases n_windows(s.len(), k) - from,
{
    if from >= n_windows(s.len(), k) {
        Seq::empty()
    } else if emits(s, k, skip, from) {
        seq![window_item(s, k, from)] + items_from(s, k, skip, from + 1)
    } else {
        items_from(s, k, skip, from + 1)
    }
}

/// The first window that yields an item at or after `from` comes no earlier;
/// the items from `from` on are its item and those after it.
pub proof fn lemma_items_step(s: Seq<u8>, k: nat, skip: bool, from: int)
    requires
        0 <= from <= n_windows(s.len(), k),
    ensures
        from <= next_emitting(s, k, skip, from) <= n_windows(s.len(), k),
        next_emitting(s, k, skip, from) < n_windows(s.len(), k) ==> items_from(s, k, skip, from)
            == seq![window_item(s, k, next_emitting(s, k, skip, from))] + items_from(
            s,
            k,
            skip,
            next_emitting(s, k, skip, from) + 1,
        ),
        next_emitting(s, k, skip, from) < n_windows(s.len(), k) ==> emits(
            s,
            k,
            skip,
            next_emitting(s, k, skip, from),
        ),
        next_emitting(s, k, skip, from) >= n_windows(s.len(), k) ==> items_from(s, k, skip, from)
            == Seq::<(Seq<char>, u64)>::empty(),
    decreases n_windows(s.len(), k) - from,
{
    if from < n_windows(s.len(), k) && !emits(s, k, skip, from) {
        lemma_items_step(s, k, skip, from + 1);
    }
}

/// The position of a walk over the windows of a text.
pub struct KmerCursor {
    /// The text walked over, as bytes.
    pub text: Seq<u8>,
    /// The window width.
    pub ksize: nat,
    /// The next window to look at.
    pub pos: nat,
    /// Whether windows with the sentinel hash are passed over.
    pub skip: bool,
}

impl KmerCursor {
    /// How many windows the text has.
    pub open spec fn windows(self) -> nat {
        n_windows(self.text.len(), self.ksize)
    }

    /// The window whose item comes next, or [`Self::windows`] if none.
    pub open spec fn next_window(self) -> int {
        next_emitting(self.text, self.ksize, self.skip, self.pos as int)
    }

    /// The position after the next item was taken.
    pub open spec fn advanced(self) -> KmerCursor {
        KmerCursor {
            pos: if self.next_window() < self.windows() {
                (self.next_window() + 1) as nat
            } else {
                self.next_window() as nat
            },
            ..self
        }
    }
}

/// Walks the windows of a sequence, yielding for each the canonical k-mer
/// text and its hash.
pub struct KmersAndHashesIter {
    seq: Vec<u8>,
    seq_rc: Vec<u8>,
    ksize: usize,
    pos: usize,
    end: usize,
    hashes: Vec<u64>,
    skip_bad_kmers: bool,
    text: Ghost<Seq<u8>>,
}

impl View for KmersAndHashesIter {
    type V = KmerCursor;

    closed spec fn view(&self) -> KmerCursor {
        KmerCursor {
            text: self.text@,
            ksize: self.ksize as nat,
            pos: self.pos as nat,
            skip: self.skip_bad_kmers,
        }
    }
}

/// A copy of `v` from `from` up to `to`.
fn copy_range(v: &Vec<u8>, from: usize, to: usize) -> (r: Vec<u8>)
    requires
        from <= to <= v@.len(),
    ensures
        r@ == v@.subrange(from as int, to as int),
{
    let mut r: Vec<u8> = Vec::with_capacity(to - from);
    for i in from..to
        invariant
            from <= to <= v@.len(),
            r@ == v@.subrange(from as int, i as int),
    {
        r.push(v[i]);
        assert(v@.subrange(from as int, i + 1) =~= v@.subrange(from as int, i as int).push(v@[i as int]));
    }
    r
}

/// Where a window is DNA, the mirrored text holds its reverse complement at
/// the symmetric place.
proof fn lemma_revcomp_window(u: Seq<u8>, k: int, i: int)
    requires
        0 <= i,
        i + k <= u.len(),
        0 <= k,
        is_dna(u.subrange(i, i + k)),
    ensures
        mirrored(u).subrange(u.len() - k - i, u.len() - i) == revcomp(u.subrange(i, i + k)),
{
    let w = u.subrange(i, i + k);
    assert forall|j: int| 0 <= j < k implies mirrored(u).subrange(u.len() - k - i, u.len() - i)[j]
        == revcomp(w)[j] by {
        assert(is_base(w[k - 1 - j]));
    }
    assert(mirrored(u).subrange(u.len() - k - i, u.len() - i) =~= revcomp(w));
}

impl KmersAndHashesIter {
    /// The iterator is consistent with the text it walks.
    pub closed spec fn wf(&self) -> bool {
        &&& self.seq@ == upper(self.text@)
        &&& self.seq_rc@ == mirrored(self.seq@)
        &&& self.end == n_windows(self.text@.len(), self.ksize as nat)
        &&& self.hashes@ == window_hashes(self.text@, self.ksize as nat)
        &&& self.pos <= self.end
    }

    /// A walk over the windows of width `ksize` of `seq`, passing over windows
    /// whose hash is the sentinel when `skip_bad_kmers` is set.
    pub fn new(seq: &str, ksize: usize, skip_bad_kmers: bool) -> (r: Self)
        ensures
            r.wf(),
            r@ == (KmerCursor {
                text: encode_utf8(seq@),
                ksize: ksize as nat,
                pos: 0,
                skip: skip_bad_kmers,
            }),
    {
        let bytes = seq.as_bytes();
        let up = to_upper(bytes);
        let seq_rc = mirror(up.as_slice());
        let hashes = hash_windows(bytes, ksize);
        let end = hashes.len();
        KmersAndHashesIter {
            seq: up,
            seq_rc,
            ksize,
            pos: 0,
            end,
            hashes,
            skip_bad_kmers,
            text: Ghost(bytes@),
        }
    }

    /// How many windows the text has.
    pub fn windows(&self) -> (r: usize)
        requires
            self.wf(),
        ensures
            r == self@.windows(),
    {
        self.end
    }

    /// The next item: the canonical text and hash of the next window that
    /// yields one, or `None` when no window is left.
    pub fn next(&mut self) -> (r: Option<Result<(String, u64), TableError>>)
        requires
            old(self).wf(),
        ensures
            final(self).wf(),
            final(self)@ == old(self)@.advanced(),
            old(self)@.next_window() >= old(self)@.windows() ==> r is None,
            old(self)@.next_window() < old(self)@.windows() ==> (r matches Some(Ok((s, h))) && (
            s@,
            h,
            ) == window_item(old(self)@.text, old(self)@.ksize, old(self)@.next_window())),
    {
        let ghost c = self@;
        while self.pos < self.end
            invariant
                self.wf(),
                c == old(self)@,
                self@ == (KmerCursor { pos: self@.pos, ..c }),
                c.pos <= self.pos,
                next_emitting(c.text, c.ksize, c.skip, c.pos as int) == next_emitting(
                    c.text,
                    c.ksize,
                    c.skip,
                    self.pos as int,
                ),
            decreases self.end - self.pos,
        {
            let start = self.pos;
            let hashval = self.hashes[start];
            self.pos = self.pos + 1;
            proof {
                assert(hashval == window_hash(c.text, c.ksize, start as int));
                if hashval > 0 || !c.skip {
                    assert(next_emitting(c.text, c.ksize, c.skip, start as int) == start as int);
                }
            }
            if hashval > 0 {
                let k = self.ksize;
                let n = self.seq.len();
                let ghost u = self.seq@;
                proof {
                    assert(self.seq@.len() == self.text@.len());
                    assert(start + k <= n);
                    assert(u.subrange(start as int, start + k) == window(c.text, c.ksize, start as int));
                    assert(is_dna(window(c.text, c.ksize, start as int)));
                    lemma_revcomp_window(u, k as int, start as int);
                }
                let fwd = copy_range(&self.seq, start, start + k);
                let rc = copy_range(&self.seq_rc, n - k - start, n - start);
                let chosen = if lex_less(fwd.as_slice(), rc.as_slice()) {
                    fwd
                } else {
                    rc
                };
                proof {
                    let w = window(c.text, c.ksize, start as int);
                    assert(w == fwd@);
                    assert(crate::dna::is_dna(w));
                    crate::dna::lemma_lex_min_symmetric(w, revcomp(w));
                    assert(chosen@ == canonical(w));
                    assert forall|i: int| 0 <= i < chosen@.len() implies chosen@[i] < 128 by {
                        assert(is_base(w[i]));
                        assert(is_base(w[w.len() - 1 - i]));
                    }
                }
                let text = ascii_string(chosen);
                proof {
                    let j = next_emitting(c.text, c.ksize, c.skip, c.pos as int);
                    assert(j == start);
                    assert(j < n_windows(c.text.len(), c.ksize));
                    assert(self@ == (KmerCursor { pos: (j + 1) as nat, ..c }));
                }
                return Some(Ok((text, hashval)));
            } else if !self.skip_bad_kmers {
                let empty = String::new();
                proof {
                    let j = next_emitting(c.text, c.ksize, c.skip, c.pos as int);
                    assert(j == start);
                    assert(j < n_windows(c.text.len(), c.ksize));
                    assert(self@ == (KmerCursor { pos: (j + 1) as nat, ..c }));
                    assert((empty@, 0u64) == window_item(c.text, c.ksize, j));
                }
                return Some(Ok((empty, 0)));
            }
        }
        None
    }
}

} // verus!
