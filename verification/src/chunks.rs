//! The 8-way chunked view of a sequence (the packed-sequence iterator shape).
//!
//! For a context of `l` bases per window, the sequence is split into eight
//! contiguous chunks that overlap by `l - 1` bases: chunk `j` starts at
//! `j * W` where `W` is the number of windows each lane owns, so lane `j`
//! produces exactly the windows `[j*W, (j+1)*W)` of the full sequence.  The
//! bases that no full 8-way stride covers form the scalar tail.
use vstd::prelude::*;

use crate::bases::{n_kmers, valid_bases};
use crate::simd::{from_array, lanes};

verus! {

/// The number of windows each lane owns.
pub open spec fn lane_windows(n: int, l: int) -> int {
    if n >= l {
        (n - l + 1) / 8
    } else {
        0
    }
}

/// The number of bases each lane consumes.
pub open spec fn lane_len(n: int, l: int) -> int {
    if lane_windows(n, l) > 0 {
        lane_windows(n, l) + l - 1
    } else {
        0
    }
}

/// The per-lane base stream: lane `j` of each step, as a sequence of bases.
pub open spec fn lane_seq(av: Seq<wide::u32x8>, j: int) -> Seq<u8> {
    Seq::new(av.len(), |t: int| lanes(av[t])[j] as u8)
}

pub proof fn lemma_lane_windows_bound(n: int, l: int)
    requires
        l >= 1,
    ensures
        0 <= lane_windows(n, l),
        8 * lane_windows(n, l) <= n_kmers(n, l),
        n >= l ==> 8 * lane_windows(n, l) + l - 1 <= n,
{
    if n >= l {
        vstd::arithmetic::div_mod::lemma_fundamental_div_mod(n - l + 1, 8);
        vstd::arithmetic::div_mod::lemma_mod_bound(n - l + 1, 8);
    }
}

/// The eight per-lane base streams, one 8-lane vector per step: lane `j` of
/// step `t` is base `j*W + t` of the sequence.
pub fn par_base_vecs(s: &[u8], l: usize) -> (av: Vec<wide::u32x8>)
    requires
        l >= 1,
        valid_bases(s@),
    ensures
        av@.len() == lane_len(s@.len() as int, l as int),
        forall|t: int| 0 <= t < av@.len() ==> lanes(#[trigger] av@[t]).len() == 8,
        forall|t: int, j: int|
            0 <= t < av@.len() && 0 <= j < 8 ==> #[trigger] lanes(av@[t])[j] == s@[j * lane_windows(
                s@.len() as int,
                l as int,
            ) + t] as u32,
{
    let n = s.len();
    let w8: usize = if n >= l {
        (n - l + 1) / 8
    } else {
        0
    };
    proof {
        lemma_lane_windows_bound(n as int, l as int);
    }
    let mut av: Vec<wide::u32x8> = Vec::new();
    if w8 == 0 {
        return av;
    }
    let c = w8 + l - 1;
    let mut t: usize = 0;
    while t < c
        invariant
            0 <= t <= c,
            w8 == lane_windows(n as int, l as int),
            c == lane_len(n as int, l as int),
            8 * w8 + l - 1 <= n == s@.len(),
            w8 >= 1,
            l >= 1,
            valid_bases(s@),
            av@.len() == t,
            forall|q: int| 0 <= q < t ==> lanes(#[trigger] av@[q]).len() == 8,
            forall|q: int, j: int|
                0 <= q < t && 0 <= j < 8 ==> #[trigger] lanes(av@[q])[j] == s@[j * (w8 as int) + q]
                    as u32,
        decreases c - t,
    {
        let x: [u32; 8] = [
            s[t] as u32,
            s[w8 + t] as u32,
            s[2 * w8 + t] as u32,
            s[3 * w8 + t] as u32,
            s[4 * w8 + t] as u32,
            s[5 * w8 + t] as u32,
            s[6 * w8 + t] as u32,
            s[7 * w8 + t] as u32,
        ];
        let v = from_array(x);
        proof {
            let ww = w8 as int;
            let tt = t as int;
            assert forall|j: int| 0 <= j < 8 implies lanes(v)[j] == s@[j * ww + tt] as u32 by {
                assert(lanes(v)[j] == x@[j]);
                if j == 0 {
                    assert(x@[0] == s@[tt] as u32);
                    assert(0 * ww + tt == tt);
                } else if j == 1 {
                    assert(x@[1] == s@[ww + tt] as u32);
                    assert(1 * ww + tt == ww + tt);
                } else if j == 2 {
                    assert(x@[2] == s@[2 * ww + tt] as u32);
                } else if j == 3 {
                    assert(x@[3] == s@[3 * ww + tt] as u32);
                } else if j == 4 {
                    assert(x@[4] == s@[4 * ww + tt] as u32);
                } else if j == 5 {
                    assert(x@[5] == s@[5 * ww + tt] as u32);
                } else if j == 6 {
                    assert(x@[6] == s@[6 * ww + tt] as u32);
                } else {
                    assert(j == 7);
                    assert(x@[7] == s@[7 * ww + tt] as u32);
                }
            }
        }
        av.push(v);
        t += 1;
    }
    av
}

/// The absolute base offset of each lane's chunk: lane `j` starts at `j*W`.
pub fn lane_offsets(w8: usize) -> (off: [u32; 8])
    requires
        8 * w8 <= 0xffff_ffffusize,
    ensures
        forall|j: int| 0 <= j < 8 ==> off@[j] == j * w8,
{
    let off = [
        0u32,
        w8 as u32,
        (2 * w8) as u32,
        (3 * w8) as u32,
        (4 * w8) as u32,
        (5 * w8) as u32,
        (6 * w8) as u32,
        (7 * w8) as u32,
    ];
    proof {
        assert forall|j: int| 0 <= j < 8 implies off@[j] == j * w8 by {
            if j == 0 {
                assert(off@[0] == 0 * w8);
            } else if j == 1 {
                assert(off@[1] == 1 * w8);
            } else if j == 2 {
            } else if j == 3 {
            } else if j == 4 {
            } else if j == 5 {
            } else if j == 6 {
            } else {
                assert(j == 7);
            }
        }
    }
    off
}

/// The scalar tail: the bases from `8*W` on, whose windows the SIMD lanes
/// do not cover.
pub fn tail_of(s: &[u8], l: usize) -> (r: Vec<u8>)
    requires
        l >= 1,
        valid_bases(s@),
    ensures
        r@ == s@.subrange(8 * lane_windows(s@.len() as int, l as int), s@.len() as int),
        valid_bases(r@),
{
    let n = s.len();
    let w8: usize = if n >= l {
        (n - l + 1) / 8
    } else {
        0
    };
    proof {
        lemma_lane_windows_bound(n as int, l as int);
    }
    let start = 8 * w8;
    let mut r: Vec<u8> = Vec::new();
    let mut i: usize = start;
    while i < n
        invariant
            start <= i <= n == s@.len(),
            valid_bases(s@),
            r@.len() == i - start,
            forall|q: int| 0 <= q < r@.len() ==> r@[q] == s@[start + q],
        decreases n - i,
    {
        r.push(s[i]);
        i += 1;
    }
    proof {
        assert(r@ =~= s@.subrange(8 * lane_windows(s@.len() as int, l as int), s@.len() as int));
    }
    r
}

} // verus!
