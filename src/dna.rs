//! DNA letters: case folding, reverse complement and canonical k-mers.
use vstd::prelude::*;

verus! {

/// ASCII upper-casing of one byte; every other byte is left as it is.
pub open spec fn upper_byte(b: u8) -> u8 {
    if 97 <= b && b <= 122 {
        (b - 32) as u8
    } else {
        b
    }
}

/// ASCII upper-casing of a byte string.
pub open spec fn upper(s: Seq<u8>) -> Seq<u8> {
    s.map_values(|b: u8| upper_byte(b))
}

/// One of the four upper-case bases `A`, `C`, `G`, `T`.
pub open spec fn is_base(b: u8) -> bool {
    b == 65 || b == 67 || b == 71 || b == 84
}

/// Every byte is an upper-case base.
pub open spec fn is_dna(s: Seq<u8>) -> bool {
    forall|i: int| 0 <= i < s.len() ==> #[trigger] is_base(s[i])
}

/// The pairing base (`A`-`T`, `C`-`G`, of either case, answered in upper
/// case); any other byte is its own complement.
pub open spec fn complement(b: u8) -> u8 {
    if b == 65 || b == 97 {
        84u8
    } else if b == 84 || b == 116 {
        65u8
    } else if b == 67 || b == 99 {
        71u8
    } else if b == 71 || b == 103 {
        67u8
    } else {
        b
    }
}

/// The reverse complement: reversed, each byte replaced by its complement.
pub open spec fn revcomp(s: Seq<u8>) -> Seq<u8> {
    Seq::new(s.len(), |i: int| complement(s[s.len() - 1 - i]))
}

/// Strict lexicographic order on byte strings, a proper prefix being smaller.
pub open spec fn lex_lt(a: Seq<u8>, b: Seq<u8>) -> bool
    decreases a.len(),
{
    if a.len() == 0 {
        b.len() > 0
    } else if b.len() == 0 {
        false
    } else if a[0] != b[0] {
        a[0] < b[0]
    } else {
        lex_lt(a.drop_first(), b.drop_first())
    }
}

/// The smaller of two byte strings, the first one when they are equal.
pub open spec fn lex_min(a: Seq<u8>, b: Seq<u8>) -> Seq<u8> {
    if lex_lt(b, a) {
        b
    } else {
        a
    }
}

/// The canonical form of an upper-case k-mer: the smaller of the k-mer and
/// its reverse complement.
pub open spec fn canonical(s: Seq<u8>) -> Seq<u8> {
    lex_min(s, revcomp(s))
}

/// The canonical form of any k-mer text, if it is DNA once upper-cased.
pub open spec fn canonical_of(s: Seq<u8>) -> Option<Seq<u8>> {
    if is_dna(upper(s)) {
        Some(canonical(upper(s)))
    } else {
        None
    }
}

/// The characters that an ASCII byte string spells.
pub open spec fn ascii_chars(s: Seq<u8>) -> Seq<char> {
    s.map_values(|b: u8| b as char)
}

proof fn lemma_lex_lt_irreflexive(a: Seq<u8>)
    ensures
        !lex_lt(a, a),
    decreases a.len(),
{
    if a.len() > 0 {
        lemma_lex_lt_irreflexive(a.drop_first());
    }
}

proof fn lemma_lex_lt_total(a: Seq<u8>, b: Seq<u8>)
    ensures
        a != b ==> (lex_lt(a, b) <==> !lex_lt(b, a)),
    decreases a.len(),
{
    if a.len() > 0 && b.len() > 0 && a[0] == b[0] {
        lemma_lex_lt_total(a.drop_first(), b.drop_first());
        if a.drop_first() == b.drop_first() {
            assert(a =~= seq![a[0]] + a.drop_first());
            assert(b =~= seq![b[0]] + b.drop_first());
        }
    } else if a.len() == 0 && b.len() == 0 {
        assert(a =~= b);
    }
}

/// Which of two byte strings is the smaller does not depend on the order in
/// which they are offered.
pub proof fn lemma_lex_min_symmetric(a: Seq<u8>, b: Seq<u8>)
    ensures
        lex_min(a, b) == lex_min(b, a),
{
    lemma_lex_lt_total(a, b);
    lemma_lex_lt_irreflexive(a);
}

proof fn lemma_revcomp_involutive(s: Seq<u8>)
    requires
        is_dna(s),
    ensures
        revcomp(revcomp(s)) == s,
{
    assert forall|i: int| 0 <= i < s.len() implies revcomp(revcomp(s))[i] == s[i] by {
        assert(is_base(s[i]));
    }
    assert(revcomp(revcomp(s)) =~= s);
}

/// A k-mer and its reverse complement have one canonical form: either both
/// are DNA and share it, or neither is.
pub proof fn lemma_canonical_of_revcomp(x: Seq<u8>)
    ensures
        canonical_of(x) == canonical_of(revcomp(x)),
{
    let u = upper(x);
    let r = upper(revcomp(x));
    assert(r =~= revcomp(u));
    if is_dna(u) {
        assert(is_dna(r)) by {
            assert forall|i: int| 0 <= i < r.len() implies #[trigger] is_base(r[i]) by {
                assert(is_base(u[u.len() - 1 - i]));
            }
        }
        lemma_revcomp_involutive(u);
        lemma_lex_min_symmetric(u, revcomp(u));
    } else {
        let j = choose|j: int| 0 <= j < u.len() && !is_base(u[j]);
        assert(!is_base(r[u.len() - 1 - j]));
    }
}

/// Upper-cases the ASCII letters of `s`.
pub fn to_upper(s: &[u8]) -> (r: Vec<u8>)
    ensures
        r@ == upper(s@),
{
    let mut r: Vec<u8> = Vec::with_capacity(s.len());
    for i in 0..s.len()
        invariant
            r@ == upper(s@.subrange(0, i as int)),
    {
        let b = s[i];
        let u = if 97 <= b && b <= 122 {
            b - 32
        } else {
            b
        };
        r.push(u);
        assert(upper(s@.subrange(0, i + 1)) =~= upper(s@.subrange(0, i as int)).push(u));
    }
    assert(s@.subrange(0, s@.len() as int) =~= s@);
    r
}

/// Whether every byte of `s` is one of `A`, `C`, `G`, `T`.
pub fn all_bases(s: &[u8]) -> (r: bool)
    ensures
        r == is_dna(s@),
{
    for i in 0..s.len()
        invariant
            forall|j: int| 0 <= j < i ==> #[trigger] is_base(s@[j]),
    {
        let b = s[i];
        if !(b == 65 || b == 67 || b == 71 || b == 84) {
            assert(!is_base(s@[i as int]));
            return false;
        }
    }
    true
}

/// Whether every byte of `s` from `from` up to `to` is one of `A`, `C`,
/// `G`, `T`.
pub fn all_bases_in(s: &[u8], from: usize, to: usize) -> (r: bool)
    requires
        from <= to <= s@.len(),
    ensures
        r == is_dna(s@.subrange(from as int, to as int)),
{
    for i in from..to
        invariant
            from <= to <= s@.len(),
            forall|j: int| from <= j < i ==> #[trigger] is_base(s@[j]),
    {
        let b = s[i];
        if !(b == 65 || b == 67 || b == 71 || b == 84) {
            assert(!is_base(s@.subrange(from as int, to as int)[i - from]));
            return false;
        }
    }
    assert forall|j: int| 0 <= j < to - from implies #[trigger] is_base(
        s@.subrange(from as int, to as int)[j],
    ) by {
        assert(is_base(s@[from + j]));
    }
    true
}

/// The reverse complement of `s`.
pub fn reverse_complement(s: &[u8]) -> (r: Vec<u8>)
    ensures
        r@ == revcomp(s@),
{
    let n = s.len();
    let mut r: Vec<u8> = Vec::with_capacity(n);
    for i in 0..n
        invariant
            n == s.len(),
            r@ == revcomp(s@).subrange(0, i as int),
    {
        let b = s[n - 1 - i];
        let c = if b == 65 || b == 97 {
            84u8
        } else if b == 84 || b == 116 {
            65u8
        } else if b == 67 || b == 99 {
            71u8
        } else if b == 71 || b == 103 {
            67u8
        } else {
            b
        };
        r.push(c);
        assert(revcomp(s@).subrange(0, i + 1) =~= revcomp(s@).subrange(0, i as int).push(c));
    }
    assert(revcomp(s@).subrange(0, n as int) =~= revcomp(s@));
    r
}

/// Whether `a` comes strictly before `b` in lexicographic order.
pub fn lex_less(a: &[u8], b: &[u8]) -> (r: bool)
    ensures
        r == lex_lt(a@, b@),
{
    let mut i: usize = 0;
    assert(a@.subrange(0, a.len() as int) =~= a@);
    assert(b@.subrange(0, b.len() as int) =~= b@);
    while i < a.len() && i < b.len()
        invariant
            i <= a.len(),
            i <= b.len(),
            lex_lt(a@, b@) == lex_lt(
                a@.subrange(i as int, a.len() as int),
                b@.subrange(i as int, b.len() as int),
            ),
        decreases a.len() - i,
    {
        let sa = Ghost(a@.subrange(i as int, a.len() as int));
        let sb = Ghost(b@.subrange(i as int, b.len() as int));
        if a[i] != b[i] {
            return a[i] < b[i];
        }
        assert(sa@.drop_first() =~= a@.subrange(i + 1, a.len() as int));
        assert(sb@.drop_first() =~= b@.subrange(i + 1, b.len() as int));
        i = i + 1;
    }
    i < b.len()
}

/// The canonical form of `kmer`: upper-cased, then the smaller of it and its
/// reverse complement; `None` when it holds a letter other than a base.
pub fn canonical_kmer(kmer: &[u8]) -> (r: Option<Vec<u8>>)
    ensures
        r matches Some(c) ==> canonical_of(kmer@) == Some(c@),
        r is None ==> canonical_of(kmer@) is None,
{
    let up = to_upper(kmer);
    if !all_bases(up.as_slice()) {
        return None;
    }
    let rc = reverse_complement(up.as_slice());
    if lex_less(rc.as_slice(), up.as_slice()) {
        Some(rc)
    } else {
        Some(up)
    }
}

/// Relies on `String::from_utf8`: ASCII bytes are valid UTF-8, each byte
/// spelling the character of the same code.
#[verifier::external_body]
pub(crate) fn ascii_string(bytes: Vec<u8>) -> (r: String)
    requires
        forall|i: int| 0 <= i < bytes.len() ==> bytes@[i] < 128,
    ensures
        r@ == ascii_chars(bytes@),
{
    match String::from_utf8(bytes) {
        Ok(s) => s,
        Err(_) => String::new(),
    }
}

} // verus!
