//! Hashing of DNA k-mers: every window of a sequence is hashed through its
//! canonical form, the value 0 standing for a window that is not DNA.
use crate::dna::{canonical, is_dna, upper};
use sourmash::encodings::{revcomp, HashFunctions};
use sourmash::signature::SeqToHashes;
use vstd::prelude::*;

verus! {

/// The seed under which every k-mer is hashed.
pub const HASH_SEED: u64 = 42;

/// The 64-bit murmur hash (the first half of murmurhash3 x64/128) of a byte
/// string under a seed.
pub uninterp spec fn murmur64(bytes: Seq<u8>, seed: u64) -> u64;

/// How many windows of width `k` a text of `len` bytes has.
pub open spec fn n_windows(len: nat, k: nat) -> nat {
    if len >= k {
        (len - k + 1) as nat
    } else {
        0
    }
}

/// The `i`-th window of width `k` of the upper-cased text.
pub open spec fn window(s: Seq<u8>, k: nat, i: int) -> Seq<u8> {
    upper(s).subrange(i, i + k)
}

/// The hash of an upper-case DNA k-mer: that of its canonical form.
pub open spec fn kmer_hash(w: Seq<u8>) -> u64 {
    murmur64(canonical(w), HASH_SEED)
}

/// The hash of the `i`-th window, or 0 when the window is not DNA.
pub open spec fn window_hash(s: Seq<u8>, k: nat, i: int) -> u64 {
    if is_dna(window(s, k, i)) {
        kmer_hash(window(s, k, i))
    } else {
        0
    }
}

/// The hashes of all windows of width `k` of a text, in order.
pub open spec fn window_hashes(s: Seq<u8>, k: nat) -> Seq<u64> {
    Seq::new(n_windows(s.len(), k), |i: int| window_hash(s, k, i))
}

/// Relies on sourmash's `SeqToHashes` over DNA in its tolerant mode: it
/// upper-cases the text and yields, for each window of width `ksize` in
/// order, 0 when the window holds a byte other than `A`, `C`, `G`, `T`, and
/// otherwise `_hash_murmur` under `seed` of the smaller of the window and its
/// reverse complement.
#[verifier::external_body]
pub(crate) fn sequence_hashes(seq: &[u8], ksize: usize, seed: u64) -> (r: Vec<u64>)
    ensures
        r@.len() == n_windows(seq@.len(), ksize as nat),
        forall|i: int|
            0 <= i < r@.len() ==> r@[i] == if is_dna(window(seq@, ksize as nat, i)) {
                murmur64(canonical(window(seq@, ksize as nat, i)), seed)
            } else {
                0
            },
{
    match SeqToHashes::new(seq, ksize, true, false, HashFunctions::Murmur64Dna, seed) {
        Ok(hashes) => hashes.map_while(|h| h.ok()).collect(),
        Err(_) => Vec::new(),
    }
}

/// The complement table of sourmash's `revcomp`: `A`-`T`, `C`-`G`, `N` to
/// itself, and every other byte to 0.
pub open spec fn table_complement(b: u8) -> u8 {
    if b == 65 {
        84u8
    } else if b == 84 {
        65u8
    } else if b == 67 {
        71u8
    } else if b == 71 {
        67u8
    } else if b == 78 {
        78u8
    } else {
        0u8
    }
}

/// The text reversed, each byte replaced through [`table_complement`].
pub open spec fn mirrored(s: Seq<u8>) -> Seq<u8> {
    Seq::new(s.len(), |i: int| table_complement(s[s.len() - 1 - i]))
}

/// Relies on sourmash's `encodings::revcomp`: the bytes in reverse order,
/// each looked up in its complement table.
#[verifier::external_body]
pub(crate) fn mirror(seq: &[u8]) -> (r: Vec<u8>)
    ensures
        r@ == mirrored(seq@),
{
    revcomp(seq)
}

/// The hashes of every window of width `ksize` of `seq`.
pub fn hash_windows(seq: &[u8], ksize: usize) -> (r: Vec<u64>)
    ensures
        r@ == window_hashes(seq@, ksize as nat),
{
    let r = sequence_hashes(seq, ksize, HASH_SEED);
    assert(r@ =~= window_hashes(seq@, ksize as nat));
    r
}

} // verus!
