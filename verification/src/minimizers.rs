//! Minimizer positions: the scalar reference pipeline.
//!
//! For each window of `l = k + w - 1` bases the minimizer is the k-mer with
//! the smallest hash key among the `w` k-mers of the window; its absolute
//! starting position is emitted.  The forward variant breaks ties leftmost;
//! the canonical variant hashes strand-invariantly and picks the leftmost
//! minimum in canonical windows and the rightmost in the others.
use vstd::prelude::*;

use crate::bases::{n_kmers, revcomp_seq, valid_bases};
use crate::canonical::{canonical_windows_seq_scalar, canonical_windows_simd, lemma_cnt_ac_shift,
    window_canonical};
use crate::chunks::{lane_len, lane_offsets, lane_seq, lane_windows, lemma_lane_windows_bound,
    par_base_vecs, tail_of};
use crate::hash_simd::{lanes_are_bases, nthash_simd};
use crate::min_simd::{lane_row, sliding_min_simd};
use crate::nthash::{hash_seq_scalar, lemma_nthash_shift, nthash};
use crate::simd::{lanes, select_lanes};
use crate::sliding_min::{amin_left, amin_right, lemma_amin_left_offset, lemma_amin_left_props,
    lemma_amin_right_offset, lemma_amin_right_props};
use crate::sliding_min::{argmin_range_left, sliding_min_scalar};

verus! {

/// The hashes of all k-mers of `s`, as one stream.
pub open spec fn hash_row(s: Seq<u8>, k: int, canonical: bool) -> Seq<u32> {
    Seq::new(n_kmers(s.len() as int, k) as nat, |q: int| nthash(s, q, k, canonical))
}

/// The number of windows of a sequence of `n` bases.
pub open spec fn n_windows(n: int, k: int, w: int) -> int {
    n_kmers(n, k + w - 1)
}

/// The minimizer position of window `i` under forward hashing.
pub open spec fn win_min_fw(s: Seq<u8>, k: int, w: int, i: int) -> int {
    amin_left(hash_row(s, k, false), i, i + w)
}

/// All forward minimizer positions, one per window.
pub open spec fn mins_fw(s: Seq<u8>, k: int, w: int) -> Seq<u32> {
    Seq::new(n_windows(s.len() as int, k, w) as nat, |i: int| win_min_fw(s, k, w, i) as u32)
}

/// The minimizer position of window `i` under canonical hashing: leftmost
/// minimum when the window is canonical, rightmost otherwise.
pub open spec fn win_min_canon(s: Seq<u8>, k: int, w: int, i: int) -> int {
    if window_canonical(s, i, k + w - 1) {
        amin_left(hash_row(s, k, true), i, i + w)
    } else {
        amin_right(hash_row(s, k, true), i, i + w)
    }
}

/// All canonical minimizer positions, one per window.
pub open spec fn mins_canon(s: Seq<u8>, k: int, w: int) -> Seq<u32> {
    Seq::new(n_windows(s.len() as int, k, w) as nat, |i: int| win_min_canon(s, k, w, i) as u32)
}

/// The position of the leftmost minimal-key k-mer of the whole sequence,
/// found by a naive linear scan.
pub fn minimizer(s: &[u8], k: usize) -> (r: usize)
    requires
        1 <= k <= s@.len(),
        valid_bases(s@),
    ensures
        r == amin_left(hash_row(s@, k as int, false), 0, n_kmers(s@.len() as int, k as int)),
{
    let hs = hash_seq_scalar::<false>(s, k);
    proof {
        assert(hs@ =~= hash_row(s@, k as int, false));
    }
    argmin_range_left(&hs, 0, hs.len())
}

/// The absolute minimizer position of every window, scalar path.
pub fn minimizers_seq_scalar(s: &[u8], k: usize, w: usize) -> (r: Vec<u32>)
    requires
        k >= 1,
        w >= 1,
        k + w - 1 <= usize::MAX,
        s@.len() <= 0xffff_ffffusize,
        valid_bases(s@),
    ensures
        r@ == mins_fw(s@, k as int, w as int),
        r@.len() == n_windows(s@.len() as int, k as int, w as int),
{
    let hs = hash_seq_scalar::<false>(s, k);
    proof {
        assert(hs@ =~= hash_row(s@, k as int, false));
    }
    let r = sliding_min_scalar::<true>(&hs, w);
    proof {
        assert(r@ =~= mins_fw(s@, k as int, w as int));
    }
    r
}

/// The absolute canonical minimizer position of every window, scalar path.
/// The window length `l = k + w - 1` must be odd, so that every window has
/// an unambiguous orientation.
pub fn canonical_minimizers_seq_scalar(s: &[u8], k: usize, w: usize) -> (r: Vec<u32>)
    requires
        k >= 1,
        w >= 1,
        k + w - 1 <= usize::MAX,
        (k + w - 1) % 2 == 1,
        s@.len() <= 0xffff_ffffusize,
        valid_bases(s@),
    ensures
        r@ == mins_canon(s@, k as int, w as int),
        r@.len() == n_windows(s@.len() as int, k as int, w as int),
{
    let hs = hash_seq_scalar::<true>(s, k);
    proof {
        assert(hs@ =~= hash_row(s@, k as int, true));
    }
    let left = sliding_min_scalar::<true>(&hs, w);
    let right = sliding_min_scalar::<false>(&hs, w);
    let flags = canonical_windows_seq_scalar(s, k, w);
    let t = left.len();
    proof {
        assert(flags@.len() == t);
        assert(right@.len() == t);
    }
    let mut out: Vec<u32> = Vec::new();
    let mut i: usize = 0;
    while i < t
        invariant
            0 <= i <= t,
            t == left@.len(),
            t == right@.len(),
            t == flags@.len(),
            t == n_windows(s@.len() as int, k as int, w as int),
            out@.len() == i,
            forall|q: int| 0 <= q < t ==> flags@[q] == window_canonical(s@, q, (k + w - 1) as int),
            forall|q: int|
                0 <= q < t ==> left@[q] == amin_left(
                    hash_row(s@, k as int, true),
                    q,
                    q + w as int,
                ) as u32,
            forall|q: int|
                0 <= q < t ==> right@[q] == amin_right(
                    hash_row(s@, k as int, true),
                    q,
                    q + w as int,
                ) as u32,
            forall|q: int| 0 <= q < i ==> out@[q] == win_min_canon(s@, k as int, w as int, q) as u32,
        decreases t - i,
    {
        out.push(if flags[i] {
            left[i]
        } else {
            right[i]
        });
        i += 1;
    }
    proof {
        assert(out@ =~= mins_canon(s@, k as int, w as int));
    }
    out
}

/// Canonical symmetry: for every window, the canonical minimizer of the
/// reverse complement mirrors the canonical minimizer of the sequence —
/// the positions of window `i` of `revcomp(s)` and of window `T-1-i` of
/// `s` sum to `|s| - k`.  This needs odd `l`, which makes every window's
/// orientation unambiguous.
pub proof fn lemma_canonical_symmetry(s: Seq<u8>, k: int, w: int, i: int)
    requires
        valid_bases(s),
        k >= 1,
        w >= 1,
        (k + w - 1) % 2 == 1,
        s.len() <= 0xffff_ffff,
        0 <= i < n_windows(s.len() as int, k, w),
    ensures
        mins_canon(revcomp_seq(s), k, w)[i] + mins_canon(s, k, w)[n_windows(s.len() as int, k, w)
            - 1 - i] == s.len() - k,
{
    let n = s.len() as int;
    let l = k + w - 1;
    let t = n_windows(n, k, w);
    let rc = revcomp_seq(s);
    let i2 = t - 1 - i;
    let d = n - k;
    // Orientation flips: the reverse complement's window holds the
    // complement count, and odd length rules out a tie.
    crate::canonical::lemma_cnt_ac_revcomp(s, i, l);
    crate::canonical::lemma_cnt_ac_bounds(s, i2, i2 + l);
    assert(crate::canonical::cnt_ac(rc, i, i + l) == l - crate::canonical::cnt_ac(
        s,
        i2,
        i2 + l,
    ));
    let cs = crate::canonical::cnt_ac(s, i2, i2 + l);
    assert(2 * cs != l);
    assert(window_canonical(rc, i, l) == !window_canonical(s, i2, l));
    // The canonical hash rows mirror.
    let hrc = hash_row(rc, k, true);
    let hs = hash_row(s, k, true);
    assert forall|q: int| i <= q < i + w implies #[trigger] hrc[q] == hs[d - q] by {
        crate::nthash::lemma_nt_canon_revcomp(s, q, k);
    }
    crate::sliding_min::lemma_amin_mirror(hs, hrc, d, i, i + w);
    assert(d - (i + w) + 1 == i2);
    assert(d - i + 1 == i2 + w);
    lemma_amin_left_props(hs, i2, i2 + w);
    lemma_amin_right_props(hs, i2, i2 + w);
    lemma_amin_left_props(hrc, i, i + w);
    lemma_amin_right_props(hrc, i, i + w);
    assert(mins_canon(rc, k, w)[i] == win_min_canon(rc, k, w, i) as u32);
    assert(mins_canon(s, k, w)[i2] == win_min_canon(s, k, w, i2) as u32);
    if window_canonical(rc, i, l) {
        assert(win_min_canon(rc, k, w, i) == amin_left(hrc, i, i + w));
        assert(win_min_canon(s, k, w, i2) == amin_right(hs, i2, i2 + w));
        assert(amin_left(hrc, i, i + w) == d - amin_right(hs, i2, i2 + w));
    } else {
        assert(win_min_canon(rc, k, w, i) == amin_right(hrc, i, i + w));
        assert(win_min_canon(s, k, w, i2) == amin_left(hs, i2, i2 + w));
        assert(amin_right(hrc, i, i + w) == d - amin_left(hs, i2, i2 + w));
    }
}

/// Lane `j`'s hash stream is the global hash stream shifted by the lane's
/// chunk offset.
proof fn lemma_lane_rows(
    s: Seq<u8>,
    av: Seq<wide::u32x8>,
    hv: Seq<wide::u32x8>,
    k: int,
    l: int,
    canonical: bool,
    j: int,
)
    requires
        0 <= j < 8,
        1 <= k <= l,
        av.len() == lane_len(s.len() as int, l),
        forall|t: int, jj: int|
            0 <= t < av.len() && 0 <= jj < 8 ==> #[trigger] lanes(av[t])[jj] == s[jj * lane_windows(
                s.len() as int,
                l,
            ) + t] as u32,
        hv.len() == if av.len() >= k {
            av.len() - k + 1
        } else {
            0
        },
        forall|q: int, jj: int|
            0 <= q < hv.len() && 0 <= jj < 8 ==> #[trigger] lanes(hv[q])[jj] == nthash(
                lane_seq(av, jj),
                q,
                k,
                canonical,
            ),
    ensures
        forall|t: int|
            0 <= t < av.len() ==> #[trigger] lane_seq(av, j)[t] == s[j * lane_windows(
                s.len() as int,
                l,
            ) + t],
        forall|q: int|
            0 <= q < hv.len() ==> #[trigger] lane_row(hv, j)[q] == hash_row(s, k, canonical)[j
                * lane_windows(s.len() as int, l) + q],
{
    let n = s.len() as int;
    let ww = lane_windows(n, l);
    lemma_lane_windows_bound(n, l);
    assert forall|t: int| 0 <= t < av.len() implies #[trigger] lane_seq(av, j)[t] == s[j * ww
        + t] by {
        assert(lanes(av[t])[j] == s[j * ww + t] as u32);
    }
    assert forall|q: int| 0 <= q < hv.len() implies #[trigger] lane_row(hv, j)[q] == hash_row(
        s,
        k,
        canonical,
    )[j * ww + q] by {
        let ls = lane_seq(av, j);
        assert(lane_row(hv, j)[q] == lanes(hv[q])[j]);
        assert(lanes(hv[q])[j] == nthash(ls, q, k, canonical));
        assert forall|tt: int| 0 <= tt < k implies #[trigger] ls[q + tt] == s[(j * ww + q)
            + tt] by {
            assert(lane_seq(av, j)[q + tt] == s[j * ww + (q + tt)]);
        }
        lemma_nthash_shift(s, ls, j * ww + q, q, k, canonical);
        // The global k-mer index stays in range.
        assert(j * ww <= 7 * ww) by (nonlinear_arith)
            requires
                j <= 7,
                ww >= 0,
        ;
        assert(j * ww + q >= 0) by (nonlinear_arith)
            requires
                j >= 0,
                ww >= 0,
                q >= 0,
        ;
    }
}

/// The tail's hash stream is the global hash stream shifted by `8*W`.
proof fn lemma_tail_rows(s: Seq<u8>, tl: Seq<u8>, k: int, l: int, canonical: bool)
    requires
        1 <= k <= l,
        tl == s.subrange(8 * lane_windows(s.len() as int, l), s.len() as int),
    ensures
        forall|q: int|
            0 <= q < n_kmers(tl.len() as int, k) ==> #[trigger] hash_row(tl, k, canonical)[q]
                == hash_row(s, k, canonical)[8 * lane_windows(s.len() as int, l) + q],
        forall|i: int, m: int|
            0 <= i && 0 <= m && i + m <= tl.len() ==> #[trigger] crate::canonical::cnt_ac(
                tl,
                i,
                i + m,
            ) == crate::canonical::cnt_ac(s, 8 * lane_windows(s.len() as int, l) + i, 8
                * lane_windows(s.len() as int, l) + i + m),
{
    let n = s.len() as int;
    let d = 8 * lane_windows(n, l);
    lemma_lane_windows_bound(n, l);
    assert forall|q: int| 0 <= q < n_kmers(tl.len() as int, k) implies #[trigger] hash_row(
        tl,
        k,
        canonical,
    )[q] == hash_row(s, k, canonical)[d + q] by {
        assert forall|tt: int| 0 <= tt < k implies #[trigger] tl[q + tt] == s[(d + q) + tt] by {}
        lemma_nthash_shift(s, tl, d + q, q, k, canonical);
    }
    assert forall|i: int, m: int|
        0 <= i && 0 <= m && i + m <= tl.len() implies #[trigger] crate::canonical::cnt_ac(
        tl,
        i,
        i + m,
    ) == crate::canonical::cnt_ac(s, d + i, d + i + m) by {
        assert forall|tt: int| 0 <= tt < m implies #[trigger] tl[i + tt] == s[(d + i) + tt] by {}
        lemma_cnt_ac_shift(s, tl, d + i, i, m);
    }
}

/// The SIMD minimizer pipeline: the eight lanes' window minima as one
/// vector per window step, and the scalar tail.  Lane `j` of entry `t`
/// holds the minimizer position of window `j*W + t`; the tail carries the
/// windows from `8*W` on.
#[verifier::rlimit(100)]
pub fn minimizers_seq_simd(s: &[u8], k: usize, w: usize) -> (r: (Vec<wide::u32x8>, Vec<u32>))
    requires
        k >= 1,
        w >= 1,
        w <= 0x10000,
        k + w - 1 < 0xffff_ffffusize,
        s@.len() <= 0xffff_ffffusize,
        valid_bases(s@),
    ensures
        r.0@.len() == lane_windows(s@.len() as int, (k + w - 1) as int),
        forall|t: int| 0 <= t < r.0@.len() ==> lanes(#[trigger] r.0@[t]).len() == 8,
        forall|t: int, j: int|
            0 <= t < r.0@.len() && 0 <= j < 8 ==> #[trigger] lanes(r.0@[t])[j] == mins_fw(
                s@,
                k as int,
                w as int,
            )[j * lane_windows(s@.len() as int, (k + w - 1) as int) + t],
        r.1@.len() == n_windows(s@.len() as int, k as int, w as int) - 8 * lane_windows(
            s@.len() as int,
            (k + w - 1) as int,
        ),
        forall|m: int|
            0 <= m < r.1@.len() ==> #[trigger] r.1@[m] == mins_fw(s@, k as int, w as int)[8
                * lane_windows(s@.len() as int, (k + w - 1) as int) + m],
{
    let n = s.len();
    let l = k - 1 + w;
    proof {
        lemma_lane_windows_bound(n as int, l as int);
    }
    let av = par_base_vecs(s, l);
    proof {
        let nn = s@.len() as int;
        let ww = lane_windows(nn, l as int);
        assert forall|t2: int| 0 <= t2 < av@.len() implies lanes_are_bases(#[trigger] av@[t2]) by {
            assert forall|j: int| 0 <= j < 8 implies lanes(av@[t2])[j] < 4 by {
                assert(0 <= j * ww <= 7 * ww) by (nonlinear_arith)
                    requires
                        0 <= j <= 7,
                        ww >= 0,
                ;
                assert(lanes(av@[t2])[j] == s@[j * ww + t2] as u32);
            }
        }
    }
    let hv = nthash_simd::<false>(&av, k);
    let w8: usize = if n >= l {
        (n - l + 1) / 8
    } else {
        0
    };
    let off = lane_offsets(w8);
    proof {
        assert forall|j: int| 0 <= j < 8 implies off@[j] + hv@.len() <= 0x1_0000_0000 by {
            assert(j * w8 <= 7 * w8) by (nonlinear_arith)
                requires
                    0 <= j <= 7,
                    w8 >= 0,
            ;
        }
    }
    let head = sliding_min_simd::<true>(&hv, w, &off);
    let tailseq = tail_of(s, l);
    let tail0 = minimizers_seq_scalar(tailseq.as_slice(), k, w);
    let base = 8 * w8;
    let tn = tail0.len();
    let mut tail: Vec<u32> = Vec::new();
    let mut m: usize = 0;
    proof {
        lemma_tail_rows(s@, tailseq@, k as int, l as int, false);
        assert forall|i: int| 0 <= i < tn implies 0 <= #[trigger] tail0@[i] + base
            < 0x1_0000_0000 by {
            lemma_amin_left_props(hash_row(tailseq@, k as int, false), i, i + w as int);
        }
        assert forall|i: int| 0 <= i < tn implies #[trigger] tail0@[i] + base == mins_fw(
            s@,
            k as int,
            w as int,
        )[base + i] by {
            let trow = hash_row(tailseq@, k as int, false);
            let srow = hash_row(s@, k as int, false);
            lemma_amin_left_offset(srow, trow, base as int, i, i + w as int);
            lemma_amin_left_props(srow, base + i, base + i + w as int);
        }
    }
    while m < tn
        invariant
            0 <= m <= tn == tail0@.len(),
            base + tn <= 0xffff_ffffusize + 1,
            forall|i: int| 0 <= i < tn ==> 0 <= #[trigger] tail0@[i] + base < 0x1_0000_0000,
            tail@.len() == m,
            forall|i: int| 0 <= i < m ==> #[trigger] tail@[i] == tail0@[i] + base as u32,
        decreases tn - m,
    {
        tail.push(tail0[m] + base as u32);
        m += 1;
    }
    proof {
        let nn = s@.len() as int;
        let ll = (k + w - 1) as int;
        let ww8 = lane_windows(nn, ll);
        assert forall|t: int, j: int| 0 <= t < head@.len() && 0 <= j < 8 implies #[trigger] lanes(
            head@[t],
        )[j] == mins_fw(s@, k as int, w as int)[j * ww8 + t] by {
            lemma_lane_rows(s@, av@, hv@, k as int, ll, false, j);
            let row = lane_row(hv@, j);
            let srow = hash_row(s@, k as int, false);
            assert(j * ww8 >= 0 && j * ww8 <= 7 * ww8) by (nonlinear_arith)
                requires
                    0 <= j <= 7,
                    ww8 >= 0,
            ;
            lemma_amin_left_offset(srow, row, j * ww8, t, t + w as int);
            lemma_amin_left_props(srow, j * ww8 + t, j * ww8 + t + w as int);
        }
    }
    (head, tail)
}

/// The SIMD canonical minimizer pipeline: canonical hashing, both
/// tie-break rules, and a per-window orientation mask that selects between
/// them.  The window length `l = k + w - 1` must be odd.
#[verifier::rlimit(100)]
pub fn canonical_minimizers_seq_simd(s: &[u8], k: usize, w: usize) -> (r: (
    Vec<wide::u32x8>,
    Vec<u32>,
))
    requires
        k >= 1,
        w >= 1,
        w <= 0x10000,
        k + w - 1 < 0xffff_ffffusize,
        (k + w - 1) % 2 == 1,
        s@.len() <= 0xffff_ffffusize,
        valid_bases(s@),
    ensures
        r.0@.len() == lane_windows(s@.len() as int, (k + w - 1) as int),
        forall|t: int| 0 <= t < r.0@.len() ==> lanes(#[trigger] r.0@[t]).len() == 8,
        forall|t: int, j: int|
            0 <= t < r.0@.len() && 0 <= j < 8 ==> #[trigger] lanes(r.0@[t])[j] == mins_canon(
                s@,
                k as int,
                w as int,
            )[j * lane_windows(s@.len() as int, (k + w - 1) as int) + t],
        r.1@.len() == n_windows(s@.len() as int, k as int, w as int) - 8 * lane_windows(
            s@.len() as int,
            (k + w - 1) as int,
        ),
        forall|m: int|
            0 <= m < r.1@.len() ==> #[trigger] r.1@[m] == mins_canon(s@, k as int, w as int)[8
                * lane_windows(s@.len() as int, (k + w - 1) as int) + m],
{
    let n = s.len();
    let l = k - 1 + w;
    proof {
        lemma_lane_windows_bound(n as int, l as int);
    }
    let av = par_base_vecs(s, l);
    proof {
        let nn = s@.len() as int;
        let ww = lane_windows(nn, l as int);
        assert forall|t2: int| 0 <= t2 < av@.len() implies lanes_are_bases(#[trigger] av@[t2]) by {
            assert forall|j: int| 0 <= j < 8 implies lanes(av@[t2])[j] < 4 by {
                assert(0 <= j * ww <= 7 * ww) by (nonlinear_arith)
                    requires
                        0 <= j <= 7,
                        ww >= 0,
                ;
                assert(lanes(av@[t2])[j] == s@[j * ww + t2] as u32);
            }
        }
    }
    let hv = nthash_simd::<true>(&av, k);
    let masks = canonical_windows_simd(&av, k, w);
    let w8: usize = if n >= l {
        (n - l + 1) / 8
    } else {
        0
    };
    let off = lane_offsets(w8);
    proof {
        assert forall|j: int| 0 <= j < 8 implies off@[j] + hv@.len() <= 0x1_0000_0000 by {
            assert(j * w8 <= 7 * w8) by (nonlinear_arith)
                requires
                    0 <= j <= 7,
                    w8 >= 0,
            ;
        }
    }
    let left = sliding_min_simd::<true>(&hv, w, &off);
    let right = sliding_min_simd::<false>(&hv, w, &off);
    let hn = left.len();
    let mut head: Vec<wide::u32x8> = Vec::new();
    let mut t: usize = 0;
    proof {
        assert(masks@.len() == hn);
        assert(right@.len() == hn);
    }
    while t < hn
        invariant
            0 <= t <= hn,
            hn == left@.len(),
            hn == right@.len(),
            hn == masks@.len(),
            forall|i: int| 0 <= i < hn ==> lanes(#[trigger] left@[i]).len() == 8,
            forall|i: int| 0 <= i < hn ==> lanes(#[trigger] right@[i]).len() == 8,
            forall|i: int| 0 <= i < hn ==> lanes(#[trigger] masks@[i]).len() == 8,
            forall|i: int, j: int|
                0 <= i < hn && 0 <= j < 8 ==> #[trigger] lanes(masks@[i])[j] == 0 || lanes(
                    masks@[i],
                )[j] == 0xffff_ffffu32,
            head@.len() == t,
            forall|i: int| 0 <= i < t ==> lanes(#[trigger] head@[i]).len() == 8,
            forall|i: int, j: int|
                0 <= i < t && 0 <= j < 8 ==> #[trigger] lanes(head@[i])[j] == if lanes(
                    masks@[i],
                )[j] != 0 {
                    lanes(right@[i])[j]
                } else {
                    lanes(left@[i])[j]
                },
        decreases hn - t,
    {
        let v = select_lanes(masks[t], right[t], left[t]);
        head.push(v);
        t += 1;
    }
    let tailseq = tail_of(s, l);
    let tail0 = canonical_minimizers_seq_scalar(tailseq.as_slice(), k, w);
    let base = 8 * w8;
    let tn = tail0.len();
    let mut tail: Vec<u32> = Vec::new();
    let mut m: usize = 0;
    proof {
        lemma_tail_rows(s@, tailseq@, k as int, l as int, true);
        assert forall|i: int| 0 <= i < tn implies 0 <= #[trigger] tail0@[i] + base < 0x1_0000_0000
            && tail0@[i] + base == mins_canon(s@, k as int, w as int)[base + i] by {
            let trow = hash_row(tailseq@, k as int, true);
            let srow = hash_row(s@, k as int, true);
            lemma_amin_left_props(trow, i, i + w as int);
            lemma_amin_right_props(trow, i, i + w as int);
            lemma_amin_left_offset(srow, trow, base as int, i, i + w as int);
            lemma_amin_right_offset(srow, trow, base as int, i, i + w as int);
            lemma_amin_left_props(srow, base + i, base + i + w as int);
            lemma_amin_right_props(srow, base + i, base + i + w as int);
            assert(window_canonical(tailseq@, i, l as int) == window_canonical(
                s@,
                base + i,
                l as int,
            ));
        }
    }
    while m < tn
        invariant
            0 <= m <= tn == tail0@.len(),
            forall|i: int| 0 <= i < tn ==> 0 <= #[trigger] tail0@[i] + base < 0x1_0000_0000,
            tail@.len() == m,
            forall|i: int| 0 <= i < m ==> #[trigger] tail@[i] == tail0@[i] + base as u32,
        decreases tn - m,
    {
        tail.push(tail0[m] + base as u32);
        m += 1;
    }
    proof {
        let nn = s@.len() as int;
        let ll = (k + w - 1) as int;
        let ww8 = lane_windows(nn, ll);
        assert forall|t2: int, j: int| 0 <= t2 < head@.len() && 0 <= j < 8 implies #[trigger] lanes(
            head@[t2],
        )[j] == mins_canon(s@, k as int, w as int)[j * ww8 + t2] by {
            lemma_lane_rows(s@, av@, hv@, k as int, ll, true, j);
            let ls = lane_seq(av@, j);
            let row = lane_row(hv@, j);
            let srow = hash_row(s@, k as int, true);
            assert(j * ww8 >= 0 && j * ww8 <= 7 * ww8) by (nonlinear_arith)
                requires
                    0 <= j <= 7,
                    ww8 >= 0,
            ;
            lemma_amin_left_offset(srow, row, j * ww8, t2, t2 + w as int);
            lemma_amin_right_offset(srow, row, j * ww8, t2, t2 + w as int);
            lemma_amin_left_props(srow, j * ww8 + t2, j * ww8 + t2 + w as int);
            lemma_amin_right_props(srow, j * ww8 + t2, j * ww8 + t2 + w as int);
            // The lane-local orientation equals the global one.
            assert forall|tt: int| 0 <= tt < l implies #[trigger] ls[t2 + tt] == s@[(j * ww8 + t2)
                + tt] by {
                assert(lane_seq(av@, j)[t2 + tt] == s@[j * ww8 + (t2 + tt)]);
            }
            lemma_cnt_ac_shift(s@, ls, j * ww8 + t2, t2, l as int);
            assert(window_canonical(ls, t2, l as int) == window_canonical(
                s@,
                j * ww8 + t2,
                l as int,
            ));
        }
    }
    (head, tail)
}

} // verus!
