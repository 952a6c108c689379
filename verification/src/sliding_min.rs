//! Sliding-window minima over hash streams.
//!
//! Only the low 16 bits of a hash take part in the comparison: the pipelines
//! pack `(hash << 16) | position` into one 32-bit word before taking minima,
//! so the comparison key of a hash is its low half.  Both tie-breaking rules
//! are provided: leftmost (earliest position wins) and rightmost.
use vstd::prelude::*;

verus! {

/// The 16-bit comparison key of a hash.
pub open spec fn eff(h: u32) -> u32 {
    h & 0xffffu32
}

/// The leftmost position of the minimal key in `hs[lo .. hi)`.
pub open spec fn amin_left(hs: Seq<u32>, lo: int, hi: int) -> int
    decreases hi - lo,
{
    if hi - lo <= 1 {
        lo
    } else {
        let rest = amin_left(hs, lo + 1, hi);
        if eff(hs[lo]) <= eff(hs[rest]) {
            lo
        } else {
            rest
        }
    }
}

/// The rightmost position of the minimal key in `hs[lo .. hi)`.
pub open spec fn amin_right(hs: Seq<u32>, lo: int, hi: int) -> int
    decreases hi - lo,
{
    if hi - lo <= 1 {
        lo
    } else {
        let rest = amin_right(hs, lo, hi - 1);
        if eff(hs[hi - 1]) <= eff(hs[rest]) {
            hi - 1
        } else {
            rest
        }
    }
}

pub proof fn lemma_amin_left_props(hs: Seq<u32>, lo: int, hi: int)
    requires
        lo < hi,
    ensures
        lo <= amin_left(hs, lo, hi) < hi,
        forall|j: int| lo <= j < hi ==> eff(hs[amin_left(hs, lo, hi)]) <= eff(#[trigger] hs[j]),
        forall|j: int| lo <= j < amin_left(hs, lo, hi) ==> eff(#[trigger] hs[j]) > eff(
            hs[amin_left(hs, lo, hi)],
        ),
    decreases hi - lo,
{
    if hi - lo > 1 {
        lemma_amin_left_props(hs, lo + 1, hi);
    }
}

pub proof fn lemma_amin_right_props(hs: Seq<u32>, lo: int, hi: int)
    requires
        lo < hi,
    ensures
        lo <= amin_right(hs, lo, hi) < hi,
        forall|j: int| lo <= j < hi ==> eff(hs[amin_right(hs, lo, hi)]) <= eff(#[trigger] hs[j]),
        forall|j: int| amin_right(hs, lo, hi) < j < hi ==> eff(#[trigger] hs[j]) > eff(
            hs[amin_right(hs, lo, hi)],
        ),
    decreases hi - lo,
{
    if hi - lo > 1 {
        lemma_amin_right_props(hs, lo, hi - 1);
    }
}

/// A position that is minimal and strictly below everything to its left
/// is the leftmost argmin.
pub proof fn lemma_amin_left_unique(hs: Seq<u32>, lo: int, hi: int, p: int)
    requires
        lo <= p < hi,
        forall|j: int| lo <= j < hi ==> eff(hs[p]) <= eff(#[trigger] hs[j]),
        forall|j: int| lo <= j < p ==> eff(#[trigger] hs[j]) > eff(hs[p]),
    ensures
        p == amin_left(hs, lo, hi),
{
    lemma_amin_left_props(hs, lo, hi);
    let a = amin_left(hs, lo, hi);
    if p < a {
        assert(eff(hs[p]) > eff(hs[a]));
    } else if a < p {
        assert(eff(hs[a]) > eff(hs[p]));
    }
}

/// A position that is minimal and strictly below everything to its right
/// is the rightmost argmin.
pub proof fn lemma_amin_right_unique(hs: Seq<u32>, lo: int, hi: int, p: int)
    requires
        lo <= p < hi,
        forall|j: int| lo <= j < hi ==> eff(hs[p]) <= eff(#[trigger] hs[j]),
        forall|j: int| p < j < hi ==> eff(#[trigger] hs[j]) > eff(hs[p]),
    ensures
        p == amin_right(hs, lo, hi),
{
    lemma_amin_right_props(hs, lo, hi);
    let a = amin_right(hs, lo, hi);
    if p < a {
        assert(eff(hs[a]) > eff(hs[p]));
    } else if a < p {
        assert(eff(hs[p]) > eff(hs[a]));
    }
}

/// Extending the range on the right moves the leftmost argmin only if the
/// new key is strictly smaller.
pub proof fn lemma_amin_left_extend(hs: Seq<u32>, lo: int, hi: int)
    requires
        lo < hi,
    ensures
        amin_left(hs, lo, hi + 1) == if eff(hs[amin_left(hs, lo, hi)]) <= eff(hs[hi]) {
            amin_left(hs, lo, hi)
        } else {
            hi
        },
{
    lemma_amin_left_props(hs, lo, hi);
    let a = amin_left(hs, lo, hi);
    if eff(hs[a]) <= eff(hs[hi]) {
        lemma_amin_left_unique(hs, lo, hi + 1, a);
    } else {
        lemma_amin_left_unique(hs, lo, hi + 1, hi);
    }
}

/// Extending the range on the right moves the rightmost argmin whenever the
/// new key is at most the old minimum.
pub proof fn lemma_amin_right_extend(hs: Seq<u32>, lo: int, hi: int)
    requires
        lo < hi,
    ensures
        amin_right(hs, lo, hi + 1) == if eff(hs[hi]) <= eff(hs[amin_right(hs, lo, hi)]) {
            hi
        } else {
            amin_right(hs, lo, hi)
        },
{
    lemma_amin_right_props(hs, lo, hi);
    let a = amin_right(hs, lo, hi);
    if eff(hs[hi]) <= eff(hs[a]) {
        lemma_amin_right_unique(hs, lo, hi + 1, hi);
    } else {
        lemma_amin_right_unique(hs, lo, hi + 1, a);
    }
}

/// The rightmost argmin peels at the left end with a strict comparison.
pub proof fn lemma_amin_right_peel_left(hs: Seq<u32>, lo: int, hi: int)
    requires
        lo + 1 < hi,
    ensures
        amin_right(hs, lo, hi) == if eff(hs[lo]) < eff(hs[amin_right(hs, lo + 1, hi)]) {
            lo
        } else {
            amin_right(hs, lo + 1, hi)
        },
{
    lemma_amin_right_props(hs, lo + 1, hi);
    let r = amin_right(hs, lo + 1, hi);
    if eff(hs[lo]) < eff(hs[r]) {
        lemma_amin_right_unique(hs, lo, hi, lo);
    } else {
        lemma_amin_right_unique(hs, lo, hi, r);
    }
}

/// The leftmost argmin of a split range is the left part's argmin unless the
/// right part's is strictly smaller.
pub proof fn lemma_amin_left_split(hs: Seq<u32>, lo: int, mid: int, hi: int)
    requires
        lo < mid < hi,
    ensures
        amin_left(hs, lo, hi) == if eff(hs[amin_left(hs, lo, mid)]) <= eff(
            hs[amin_left(hs, mid, hi)],
        ) {
            amin_left(hs, lo, mid)
        } else {
            amin_left(hs, mid, hi)
        },
{
    lemma_amin_left_props(hs, lo, mid);
    lemma_amin_left_props(hs, mid, hi);
    let a = amin_left(hs, lo, mid);
    let b = amin_left(hs, mid, hi);
    if eff(hs[a]) <= eff(hs[b]) {
        lemma_amin_left_unique(hs, lo, hi, a);
    } else {
        lemma_amin_left_unique(hs, lo, hi, b);
    }
}

/// The rightmost analogue of the split lemma.
pub proof fn lemma_amin_right_split(hs: Seq<u32>, lo: int, mid: int, hi: int)
    requires
        lo < mid < hi,
    ensures
        amin_right(hs, lo, hi) == if eff(hs[amin_right(hs, mid, hi)]) <= eff(
            hs[amin_right(hs, lo, mid)],
        ) {
            amin_right(hs, mid, hi)
        } else {
            amin_right(hs, lo, mid)
        },
{
    lemma_amin_right_props(hs, lo, mid);
    lemma_amin_right_props(hs, mid, hi);
    let a = amin_right(hs, lo, mid);
    let b = amin_right(hs, mid, hi);
    if eff(hs[b]) <= eff(hs[a]) {
        lemma_amin_right_unique(hs, lo, hi, b);
    } else {
        lemma_amin_right_unique(hs, lo, hi, a);
    }
}

/// Argmins depend only on the keys in the range: shifting a window of equal
/// keys shifts the argmin.
pub proof fn lemma_amin_left_offset(hs1: Seq<u32>, hs2: Seq<u32>, d: int, lo: int, hi: int)
    requires
        lo < hi,
        forall|j: int| lo <= j < hi ==> #[trigger] hs2[j] == hs1[j + d],
    ensures
        amin_left(hs2, lo, hi) == amin_left(hs1, lo + d, hi + d) - d,
    decreases hi - lo,
{
    if hi - lo > 1 {
        lemma_amin_left_offset(hs1, hs2, d, lo + 1, hi);
        lemma_amin_left_props(hs2, lo + 1, hi);
        let rest = amin_left(hs2, lo + 1, hi);
        assert(hs2[rest] == hs1[rest + d]);
        assert(hs2[lo] == hs1[lo + d]);
    }
}

pub proof fn lemma_amin_right_offset(hs1: Seq<u32>, hs2: Seq<u32>, d: int, lo: int, hi: int)
    requires
        lo < hi,
        forall|j: int| lo <= j < hi ==> #[trigger] hs2[j] == hs1[j + d],
    ensures
        amin_right(hs2, lo, hi) == amin_right(hs1, lo + d, hi + d) - d,
    decreases hi - lo,
{
    if hi - lo > 1 {
        lemma_amin_right_offset(hs1, hs2, d, lo, hi - 1);
        lemma_amin_right_props(hs2, lo, hi - 1);
        let rest = amin_right(hs2, lo, hi - 1);
        assert(hs2[rest] == hs1[rest + d]);
        assert(hs2[hi - 1] == hs1[hi - 1 + d]);
    }
}

/// Argmins of a mirrored stream mirror, with the tie-break flipped: the
/// leftmost argmin of keys read backwards is the mirror of the rightmost
/// argmin read forwards, and vice versa.
pub proof fn lemma_amin_mirror(hs1: Seq<u32>, hs2: Seq<u32>, d: int, lo: int, hi: int)
    requires
        lo < hi,
        forall|q: int| lo <= q < hi ==> #[trigger] hs2[q] == hs1[d - q],
    ensures
        amin_left(hs2, lo, hi) == d - amin_right(hs1, d - hi + 1, d - lo + 1),
        amin_right(hs2, lo, hi) == d - amin_left(hs1, d - hi + 1, d - lo + 1),
{
    lemma_amin_left_props(hs2, lo, hi);
    lemma_amin_right_props(hs2, lo, hi);
    let a2 = amin_left(hs2, lo, hi);
    let p = d - a2;
    assert(hs2[a2] == hs1[p]);
    assert forall|q: int| d - hi + 1 <= q < d - lo + 1 implies eff(hs1[p]) <= eff(
        #[trigger] hs1[q],
    ) by {
        assert(hs2[d - q] == hs1[q]);
        assert(eff(hs2[a2]) <= eff(hs2[d - q]));
    }
    assert forall|q: int| p < q < d - lo + 1 implies eff(#[trigger] hs1[q]) > eff(hs1[p]) by {
        assert(hs2[d - q] == hs1[q]);
        assert(lo <= d - q < a2);
    }
    lemma_amin_right_unique(hs1, d - hi + 1, d - lo + 1, p);
    let a2r = amin_right(hs2, lo, hi);
    let pr = d - a2r;
    assert(hs2[a2r] == hs1[pr]);
    assert forall|q: int| d - hi + 1 <= q < d - lo + 1 implies eff(hs1[pr]) <= eff(
        #[trigger] hs1[q],
    ) by {
        assert(hs2[d - q] == hs1[q]);
        assert(eff(hs2[a2r]) <= eff(hs2[d - q]));
    }
    assert forall|q: int| d - hi + 1 <= q < pr implies eff(#[trigger] hs1[q]) > eff(hs1[pr]) by {
        assert(hs2[d - q] == hs1[q]);
        assert(a2r < d - q < hi);
    }
    lemma_amin_left_unique(hs1, d - hi + 1, d - lo + 1, pr);
}

/// Scan `hs[lo .. hi)` for the leftmost position of the minimal key.
pub fn argmin_range_left(hs: &Vec<u32>, lo: usize, hi: usize) -> (r: usize)
    requires
        lo < hi <= hs@.len(),
    ensures
        r == amin_left(hs@, lo as int, hi as int),
{
    let mut best: usize = lo;
    let mut j: usize = lo + 1;
    while j < hi
        invariant
            lo <= best < j <= hi <= hs@.len(),
            best == amin_left(hs@, lo as int, j as int),
        decreases hi - j,
    {
        proof {
            lemma_amin_left_extend(hs@, lo as int, j as int);
        }
        if (hs[j] & 0xffffu32) < (hs[best] & 0xffffu32) {
            best = j;
        }
        j += 1;
    }
    best
}

/// Scan `hs[lo .. hi)` for the rightmost position of the minimal key.
pub fn argmin_range_right(hs: &Vec<u32>, lo: usize, hi: usize) -> (r: usize)
    requires
        lo < hi <= hs@.len(),
    ensures
        r == amin_right(hs@, lo as int, hi as int),
{
    let mut best: usize = lo;
    let mut j: usize = lo + 1;
    while j < hi
        invariant
            lo <= best < j <= hi <= hs@.len(),
            best == amin_right(hs@, lo as int, j as int),
        decreases hi - j,
    {
        proof {
            lemma_amin_right_extend(hs@, lo as int, j as int);
        }
        if (hs[j] & 0xffffu32) <= (hs[best] & 0xffffu32) {
            best = j;
        }
        j += 1;
    }
    best
}

/// The positions of the leftmost (or rightmost) window minima over a whole
/// hash stream: entry `i` is the argmin of `hs[i .. i+w)`.
pub fn sliding_min_scalar<const LEFTMOST: bool>(hs: &Vec<u32>, w: usize) -> (r: Vec<u32>)
    requires
        w >= 1,
        hs@.len() <= 0xffff_ffffusize,
    ensures
        r@.len() == if hs@.len() >= w {
            hs@.len() - w + 1
        } else {
            0
        },
        forall|i: int|
            0 <= i < r@.len() ==> r@[i] == if LEFTMOST {
                amin_left(hs@, i, i + w as int) as u32
            } else {
                amin_right(hs@, i, i + w as int) as u32
            },
{
    let n = hs.len();
    let mut out: Vec<u32> = Vec::new();
    if n < w {
        return out;
    }
    let t = n - w + 1;
    let mut i: usize = 0;
    while i < t
        invariant
            0 <= i <= t,
            t == n - w + 1,
            w >= 1,
            n == hs@.len() <= 0xffff_ffffusize,
            out@.len() == i,
            forall|q: int|
                0 <= q < i ==> out@[q] == if LEFTMOST {
                    amin_left(hs@, q, q + w as int) as u32
                } else {
                    amin_right(hs@, q, q + w as int) as u32
                },
        decreases t - i,
    {
        let p = if LEFTMOST {
            argmin_range_left(hs, i, i + w)
        } else {
            argmin_range_right(hs, i, i + w)
        };
        proof {
            if LEFTMOST {
                lemma_amin_left_props(hs@, i as int, i + w as int);
            } else {
                lemma_amin_right_props(hs@, i as int, i + w as int);
            }
        }
        out.push(p as u32);
        i += 1;
    }
    out
}

} // verus!
