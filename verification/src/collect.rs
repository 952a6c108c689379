//! Collect SIMD-iterator values into one flat `Vec<u32>`.
//!
//! The head stream is interleaved (one 8-lane vector per step); the output
//! order is sequential per lane — all of lane 0, then lane 1, and so on —
//! because each lane covers a contiguous chunk of the input.  The scalar
//! tail is appended at the end.
use vstd::prelude::*;

use crate::chunks::{lane_windows, lemma_lane_windows_bound};
use crate::minimizers::{mins_canon, mins_fw, n_windows};
use crate::simd::{lanes, to_array};

verus! {

/// The linearised order of an 8-lane head stream followed by a tail.
pub open spec fn linearize(hd: Seq<wide::u32x8>, tl: Seq<u32>) -> Seq<u32> {
    Seq::new(
        (8 * hd.len() + tl.len()) as nat,
        |i: int|
            if i < 8 * hd.len() {
                lanes(hd[i % (hd.len() as int)])[i / (hd.len() as int)]
            } else {
                tl[i - 8 * hd.len()]
            },
    )
}

/// Linearising any 8-lane head and tail that carry a stream `m` lane-wise
/// — lane `j` of step `t` holding `m[j*W + t]`, the tail the rest — gives
/// back exactly `m`.  Applied to the SIMD minimizer pipelines, whose
/// contracts have this shape, it states that collecting the SIMD output
/// equals the scalar output.
pub proof fn lemma_linearize_lanes(m: Seq<u32>, hd: Seq<wide::u32x8>, tl: Seq<u32>, w8: int)
    requires
        w8 >= 0,
        hd.len() == w8,
        8 * w8 <= m.len(),
        tl.len() == m.len() - 8 * w8,
        forall|t: int| 0 <= t < hd.len() ==> lanes(#[trigger] hd[t]).len() == 8,
        forall|t: int, j: int|
            0 <= t < hd.len() && 0 <= j < 8 ==> #[trigger] lanes(hd[t])[j] == m[j * w8 + t],
        forall|q: int| 0 <= q < tl.len() ==> #[trigger] tl[q] == m[8 * w8 + q],
    ensures
        linearize(hd, tl) == m,
{
    let lin = linearize(hd, tl);
    assert(lin.len() == m.len());
    assert forall|i: int| 0 <= i < lin.len() implies lin[i] == m[i] by {
        if i < 8 * w8 {
            let j = i / w8;
            let t = i % w8;
            vstd::arithmetic::div_mod::lemma_fundamental_div_mod(i, w8);
            vstd::arithmetic::div_mod::lemma_mod_bound(i, w8);
            assert(0 <= j < 8) by (nonlinear_arith)
                requires
                    i == j * w8 + t,
                    0 <= t < w8,
                    0 <= i < 8 * w8,
            ;
            assert(lin[i] == lanes(hd[t])[j]);
            assert(lanes(hd[t])[j] == m[j * w8 + t]);
        }
    }
    assert(lin =~= m);
}

/// Scalar-SIMD equivalence, forward path: a head and tail of exactly the
/// shape the SIMD minimizer pipeline guarantees linearise to the scalar
/// minimizer stream.
pub proof fn lemma_simd_scalar_equivalence(
    s: Seq<u8>,
    k: int,
    w: int,
    hd: Seq<wide::u32x8>,
    tl: Seq<u32>,
)
    requires
        k >= 1,
        w >= 1,
        hd.len() == lane_windows(s.len() as int, k + w - 1),
        forall|t: int| 0 <= t < hd.len() ==> lanes(#[trigger] hd[t]).len() == 8,
        forall|t: int, j: int|
            0 <= t < hd.len() && 0 <= j < 8 ==> #[trigger] lanes(hd[t])[j] == mins_fw(s, k, w)[j
                * lane_windows(s.len() as int, k + w - 1) + t],
        tl.len() == n_windows(s.len() as int, k, w) - 8 * lane_windows(s.len() as int, k + w - 1),
        forall|m: int|
            0 <= m < tl.len() ==> #[trigger] tl[m] == mins_fw(s, k, w)[8 * lane_windows(
                s.len() as int,
                k + w - 1,
            ) + m],
    ensures
        linearize(hd, tl) == mins_fw(s, k, w),
{
    lemma_lane_windows_bound(s.len() as int, k + w - 1);
    lemma_linearize_lanes(mins_fw(s, k, w), hd, tl, lane_windows(s.len() as int, k + w - 1));
}

/// Scalar-SIMD equivalence, canonical path.
pub proof fn lemma_simd_scalar_equivalence_canonical(
    s: Seq<u8>,
    k: int,
    w: int,
    hd: Seq<wide::u32x8>,
    tl: Seq<u32>,
)
    requires
        k >= 1,
        w >= 1,
        hd.len() == lane_windows(s.len() as int, k + w - 1),
        forall|t: int| 0 <= t < hd.len() ==> lanes(#[trigger] hd[t]).len() == 8,
        forall|t: int, j: int|
            0 <= t < hd.len() && 0 <= j < 8 ==> #[trigger] lanes(hd[t])[j] == mins_canon(s, k, w)[j
                * lane_windows(s.len() as int, k + w - 1) + t],
        tl.len() == n_windows(s.len() as int, k, w) - 8 * lane_windows(s.len() as int, k + w - 1),
        forall|m: int|
            0 <= m < tl.len() ==> #[trigger] tl[m] == mins_canon(s, k, w)[8 * lane_windows(
                s.len() as int,
                k + w - 1,
            ) + m],
    ensures
        linearize(hd, tl) == mins_canon(s, k, w),
{
    lemma_lane_windows_bound(s.len() as int, k + w - 1);
    lemma_linearize_lanes(mins_canon(s, k, w), hd, tl, lane_windows(s.len() as int, k + w - 1));
}

/// Collect an 8-lane head stream and a scalar tail into one vector,
/// replacing the previous contents of `out_vec`.
pub fn collect_into(head: &Vec<wide::u32x8>, tail: &Vec<u32>, out_vec: &mut Vec<u32>)
    requires
        8 * head@.len() + tail@.len() <= usize::MAX,
    ensures
        final(out_vec)@ == linearize(head@, tail@),
{
    let n = head.len();
    let mut out: Vec<u32> = Vec::new();
    let mut j: usize = 0;
    while j < 8
        invariant
            0 <= j <= 8,
            n == head@.len(),
            8 * n + tail@.len() <= usize::MAX,
            out@.len() == j * n,
            forall|i: int| 0 <= i < out@.len() ==> out@[i] == linearize(head@, tail@)[i],
        decreases 8 - j,
    {
        let mut t: usize = 0;
        while t < n
            invariant
                0 <= t <= n,
                0 <= j < 8,
                n == head@.len(),
                8 * n + tail@.len() <= usize::MAX,
                out@.len() == j * n + t,
                forall|i: int| 0 <= i < out@.len() ==> out@[i] == linearize(head@, tail@)[i],
            decreases n - t,
        {
            proof {
                assert(j * n + t < 8 * n) by (nonlinear_arith)
                    requires
                        0 <= j < 8,
                        0 <= t < n,
                ;
            }
            let x = to_array(head[t]);
            out.push(x[j]);
            proof {
                let i = j * n + t;
                vstd::arithmetic::div_mod::lemma_fundamental_div_mod_converse(
                    i as int,
                    n as int,
                    j as int,
                    t as int,
                );
                assert(out@[i as int] == lanes(head@[t as int])[j as int]);
            }
            t += 1;
        }
        proof {
            assert((j + 1) * n == j * n + n) by (nonlinear_arith);
        }
        j += 1;
    }
    let tn = tail.len();
    let mut m: usize = 0;
    while m < tn
        invariant
            0 <= m <= tn == tail@.len(),
            n == head@.len(),
            8 * n + tn <= usize::MAX,
            out@.len() == 8 * n + m,
            forall|i: int| 0 <= i < out@.len() ==> out@[i] == linearize(head@, tail@)[i],
        decreases tn - m,
    {
        out.push(tail[m]);
        m += 1;
    }
    proof {
        assert(out@ =~= linearize(head@, tail@));
    }
    *out_vec = out;
}

/// Convenience wrapper around `collect_into`.
pub fn collect(input: (Vec<wide::u32x8>, Vec<u32>)) -> (r: Vec<u32>)
    requires
        8 * input.0@.len() + input.1@.len() <= usize::MAX,
    ensures
        r@ == linearize(input.0@, input.1@),
{
    let (head, tail) = input;
    let mut v: Vec<u32> = Vec::new();
    collect_into(&head, &tail, &mut v);
    v
}

} // verus!
