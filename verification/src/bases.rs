//! The nucleotide model: 2-bit bases, complement and reverse complement.
use vstd::prelude::*;

verus! {

/// A nucleotide is a 2-bit value: A = 0, C = 1, G = 2, T = 3.
pub open spec fn is_base(b: u8) -> bool {
    b < 4
}

/// Every element of the sequence is a 2-bit base.
pub open spec fn valid_bases(s: Seq<u8>) -> bool {
    forall|i: int| 0 <= i < s.len() ==> is_base(#[trigger] s[i])
}

/// The Watson-Crick complement; the encoding is chosen so that
/// complement(b) == b XOR 3 (A <-> T, C <-> G).
pub open spec fn base_comp(b: u8) -> u8 {
    (b ^ 3) as u8
}

/// The reverse complement of a sequence of bases.
pub open spec fn revcomp_seq(s: Seq<u8>) -> Seq<u8> {
    Seq::new(s.len(), |i: int| base_comp(s[s.len() - 1 - i]))
}

/// The number of k-mers (length-k substrings) of a sequence of n bases.
pub open spec fn n_kmers(n: int, k: int) -> int {
    if n >= k {
        n - k + 1
    } else {
        0
    }
}

pub proof fn lemma_comp_involution(b: u8)
    ensures
        base_comp(base_comp(b)) == b,
        is_base(b) ==> is_base(base_comp(b)),
{
    assert(((b ^ 3) as u8 ^ 3) as u8 == b) by (bit_vector);
    assert((b < 4) ==> (((b ^ 3) as u8) < 4)) by (bit_vector);
}

/// Taking the reverse complement twice gives the sequence back.
pub proof fn lemma_revcomp_involution(s: Seq<u8>)
    ensures
        revcomp_seq(revcomp_seq(s)) == s,
{
    assert forall|i: int| 0 <= i < s.len() implies revcomp_seq(revcomp_seq(s))[i] == s[i] by {
        lemma_comp_involution(s[i]);
    }
    assert(revcomp_seq(revcomp_seq(s)) =~= s);
}

pub proof fn lemma_revcomp_valid(s: Seq<u8>)
    requires
        valid_bases(s),
    ensures
        valid_bases(revcomp_seq(s)),
{
    assert forall|i: int| 0 <= i < revcomp_seq(s).len() implies is_base(
        #[trigger] revcomp_seq(s)[i],
    ) by {
        lemma_comp_involution(s[s.len() - 1 - i]);
    }
}

/// The complement of a single base.
pub fn comp_base(b: u8) -> (r: u8)
    requires
        is_base(b),
    ensures
        r == base_comp(b),
        is_base(r),
{
    proof {
        lemma_comp_involution(b);
    }
    b ^ 3
}

/// The reverse complement of a sequence of bases.
pub fn revcomp(s: &[u8]) -> (r: Vec<u8>)
    requires
        valid_bases(s@),
    ensures
        r@ == revcomp_seq(s@),
        valid_bases(r@),
{
    let n = s.len();
    let mut r: Vec<u8> = Vec::new();
    let mut i: usize = 0;
    while i < n
        invariant
            n == s@.len(),
            0 <= i <= n,
            valid_bases(s@),
            r@.len() == i,
            forall|j: int| 0 <= j < i ==> r@[j] == revcomp_seq(s@)[j],
        decreases n - i,
    {
        let b = comp_base(s[n - 1 - i]);
        r.push(b);
        i += 1;
    }
    proof {
        assert(r@ =~= revcomp_seq(s@));
        lemma_revcomp_valid(s@);
    }
    r
}

} // verus!
