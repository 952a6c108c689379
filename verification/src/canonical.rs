//! The canonical-window detector.
//!
//! A window is canonical when at least half of its bases are A or C; its
//! reverse complement then has the complementary count, so for windows of
//! odd length exactly one orientation of every window is canonical.  The
//! count rolls: one base enters and one leaves per window shift.
use vstd::prelude::*;

use crate::bases::{base_comp, n_kmers, revcomp_seq, valid_bases};
use crate::chunks::lane_seq;
use crate::hash_simd::lanes_are_bases;
use crate::simd::{add_wrap, lanes, lt_mask, splat, sub_wrap, bit_and};

verus! {

/// 1 when the base is A or C, else 0.
pub open spec fn ac1(b: u8) -> int {
    if b < 2 {
        1
    } else {
        0
    }
}

/// The number of A/C bases in `s[i .. j)`.
pub open spec fn cnt_ac(s: Seq<u8>, i: int, j: int) -> int
    decreases j - i,
{
    if j <= i {
        0
    } else {
        cnt_ac(s, i, j - 1) + ac1(s[j - 1])
    }
}

/// Whether the window `s[i .. i+l)` is in canonical orientation.
pub open spec fn window_canonical(s: Seq<u8>, i: int, l: int) -> bool {
    2 * cnt_ac(s, i, i + l) >= l
}

pub proof fn lemma_cnt_ac_bounds(s: Seq<u8>, i: int, j: int)
    ensures
        0 <= cnt_ac(s, i, j),
        cnt_ac(s, i, j) <= if j >= i {
            j - i
        } else {
            0
        },
    decreases j - i,
{
    if j > i {
        lemma_cnt_ac_bounds(s, i, j - 1);
    }
}

/// The count can also be peeled at the left end.
pub proof fn lemma_cnt_ac_peel_left(s: Seq<u8>, i: int, j: int)
    requires
        i < j,
    ensures
        cnt_ac(s, i, j) == ac1(s[i]) + cnt_ac(s, i + 1, j),
    decreases j - i,
{
    if i + 1 == j {
        assert(cnt_ac(s, i, i) == 0);
        assert(cnt_ac(s, i + 1, i + 1) == 0);
    } else {
        lemma_cnt_ac_peel_left(s, i, j - 1);
        assert(cnt_ac(s, i, j) == cnt_ac(s, i, j - 1) + ac1(s[j - 1]));
        assert(cnt_ac(s, i + 1, j) == cnt_ac(s, i + 1, j - 1) + ac1(s[j - 1]));
    }
}

/// Per-window canonicality flags: entry `i` says whether the window
/// `s[i .. i+l)` with `l = k + w - 1` is canonical.
pub fn canonical_windows_seq_scalar(s: &[u8], k: usize, w: usize) -> (r: Vec<bool>)
    requires
        k >= 1,
        w >= 1,
        k + w - 1 <= usize::MAX,
        valid_bases(s@),
    ensures
        r@.len() == n_kmers(s@.len() as int, (k + w - 1) as int),
        forall|i: int| 0 <= i < r@.len() ==> r@[i] == window_canonical(s@, i, (k + w - 1) as int),
{
    let n = s.len();
    let l = k - 1 + w;
    let mut out: Vec<bool> = Vec::new();
    if n < l {
        return out;
    }
    // Count of A/C bases in the current window.
    let mut cnt: u64 = 0;
    let mut t: usize = 0;
    while t < l
        invariant
            0 <= t <= l <= n == s@.len(),
            cnt == cnt_ac(s@, 0, t as int),
            cnt <= t as u64,
        decreases l - t,
    {
        proof {
            lemma_cnt_ac_bounds(s@, 0, t as int);
        }
        if s[t] < 2 {
            cnt += 1;
        }
        t += 1;
    }
    let windows = n - l + 1;
    let mut i: usize = 0;
    while i < windows
        invariant
            0 <= i < windows + 1,
            windows == n - l + 1,
            1 <= l <= n == s@.len(),
            i < windows ==> cnt == cnt_ac(s@, i as int, i + l as int),
            cnt <= l as u64,
            out@.len() == i,
            forall|q: int| 0 <= q < i ==> out@[q] == window_canonical(s@, q, l as int),
        decreases windows - i,
    {
        proof {
            lemma_cnt_ac_bounds(s@, i as int, i + l as int);
        }
        // 2*cnt >= l, written without overflow.
        out.push(cnt >= l as u64 - cnt);
        if i + 1 < windows {
            let ghost c0 = cnt as int;
            if s[i + l] < 2 {
                cnt += 1;
            }
            proof {
                assert(cnt == cnt_ac(s@, i as int, i + l as int) + ac1(s@[i + l as int]));
                assert(cnt_ac(s@, i as int, i + l + 1 as int) == cnt_ac(s@, i as int, i + l as int)
                    + ac1(s@[i + l as int]));
                lemma_cnt_ac_peel_left(s@, i as int, i + l + 1 as int);
                lemma_cnt_ac_bounds(s@, i + 1 as int, i + l + 1 as int);
            }
            if s[i] < 2 {
                cnt -= 1;
            }
        }
        i += 1;
    }
    out
}

/// Complementing and reversing a range flips every A/C to a G/T, so the
/// count mirrors: the reverse complement's window holds the complement
/// count of the mirrored window.
pub proof fn lemma_cnt_ac_revcomp(s: Seq<u8>, i: int, m: int)
    requires
        0 <= i,
        m >= 0,
        i + m <= s.len(),
        valid_bases(s),
    ensures
        cnt_ac(revcomp_seq(s), i, i + m) == m - cnt_ac(s, s.len() - i - m, s.len() - i),
    decreases m,
{
    if m > 0 {
        lemma_cnt_ac_revcomp(s, i, m - 1);
        let n = s.len() as int;
        let rc = revcomp_seq(s);
        assert(rc[i + m - 1] == base_comp(s[n - 1 - (i + m - 1)]));
        assert(n - 1 - (i + m - 1) == n - i - m);
        let b = s[n - i - m];
        assert((((b ^ 3) as u8) < 2) == !(b < 2)) by (bit_vector)
            requires
                b < 4,
        ;
        lemma_cnt_ac_peel_left(s, n - i - m, n - i);
    }
}

/// Two windows with the same bases have the same A/C count.
pub proof fn lemma_cnt_ac_shift(s: Seq<u8>, u: Seq<u8>, i: int, j: int, m: int)
    requires
        forall|t: int| 0 <= t < m ==> #[trigger] u[j + t] == s[i + t],
    ensures
        cnt_ac(u, j, j + m) == cnt_ac(s, i, i + m),
    decreases m,
{
    if m > 0 {
        lemma_cnt_ac_shift(s, u, i, j, m - 1);
        assert(u[j + (m - 1)] == s[i + (m - 1)]);
    }
}

/// The SIMD canonical-window detector: entry `i` carries, in lane `j`, zero
/// when window `i` of lane `j`'s base stream is canonical and all ones when
/// it is not, so the result can directly select between tie-break rules.
#[verifier::rlimit(50)]
pub fn canonical_windows_simd(av: &Vec<wide::u32x8>, k: usize, w: usize) -> (out: Vec<
    wide::u32x8,
>)
    requires
        k >= 1,
        w >= 1,
        k + w - 1 < 0xffff_ffffusize,
        forall|t: int| 0 <= t < av@.len() ==> lanes_are_bases(#[trigger] av@[t]),
    ensures
        out@.len() == if av@.len() >= k + w - 1 {
            av@.len() - (k + w - 1) + 1
        } else {
            0
        },
        forall|i: int| 0 <= i < out@.len() ==> lanes(#[trigger] out@[i]).len() == 8,
        forall|i: int, j: int|
            0 <= i < out@.len() && 0 <= j < 8 ==> #[trigger] lanes(out@[i])[j] == if
                window_canonical(lane_seq(av@, j), i, (k + w - 1) as int) {
                0u32
            } else {
                0xffff_ffffu32
            },
{
    let c = av.len();
    let l = k - 1 + w;
    let mut out: Vec<wide::u32x8> = Vec::new();
    if c < l {
        return out;
    }
    let mut cnt = splat(0);
    let mut t: usize = 0;
    while t < c
        invariant
            0 <= t <= c == av@.len(),
            1 <= l <= c,
            l < 0xffff_ffffusize,
            forall|q: int| 0 <= q < c ==> lanes_are_bases(#[trigger] av@[q]),
            lanes(cnt).len() == 8,
            forall|j: int|
                0 <= j < 8 ==> lanes(cnt)[j] == cnt_ac(
                    lane_seq(av@, j),
                    if t < l {
                        0
                    } else {
                        t - l
                    },
                    t as int,
                ),
            out@.len() == if t >= l {
                t - l + 1
            } else {
                0
            },
            forall|i: int| 0 <= i < out@.len() ==> lanes(#[trigger] out@[i]).len() == 8,
            forall|i: int, j: int|
                0 <= i < out@.len() && 0 <= j < 8 ==> #[trigger] lanes(out@[i])[j] == if
                    window_canonical(lane_seq(av@, j), i, l as int) {
                    0u32
                } else {
                    0xffff_ffffu32
                },
        decreases c - t,
    {
        let a = av[t];
        let in01 = bit_and(lt_mask(a, splat(2)), splat(1));
        proof {
            assert forall|j: int| 0 <= j < 8 implies lanes(in01)[j] == ac1(
                lane_seq(av@, j)[t as int],
            ) as u32 by {
                assert(lane_seq(av@, j)[t as int] == lanes(a)[j] as u8);
                if lanes(a)[j] < 2 {
                    assert(0xffff_ffffu32 & 1u32 == 1u32) by (bit_vector);
                } else {
                    assert(0u32 & 1u32 == 0u32) by (bit_vector);
                }
            }
        }
        let c1 = add_wrap(cnt, in01);
        proof {
            assert forall|j: int| 0 <= j < 8 implies lanes(c1)[j] == cnt_ac(
                lane_seq(av@, j),
                if t < l {
                    0
                } else {
                    t - l
                },
                t + 1,
            ) by {
                let ls = lane_seq(av@, j);
                let lo: int = if t < l {
                    0
                } else {
                    t - l
                };
                lemma_cnt_ac_bounds(ls, lo, t as int);
                assert(cnt_ac(ls, lo, t + 1) == cnt_ac(ls, lo, t as int) + ac1(ls[t as int]));
            }
        }
        cnt = if t >= l {
            let r = av[t - l];
            let out01 = bit_and(lt_mask(r, splat(2)), splat(1));
            let c2 = sub_wrap(c1, out01);
            proof {
                assert forall|j: int| 0 <= j < 8 implies lanes(c2)[j] == cnt_ac(
                    lane_seq(av@, j),
                    t - l + 1,
                    t + 1,
                ) by {
                    let ls = lane_seq(av@, j);
                    assert(ls[t - l] == lanes(r)[j] as u8);
                    if lanes(r)[j] < 2 {
                        assert(0xffff_ffffu32 & 1u32 == 1u32) by (bit_vector);
                    } else {
                        assert(0u32 & 1u32 == 0u32) by (bit_vector);
                    }
                    lemma_cnt_ac_peel_left(ls, t - l, t + 1);
                    lemma_cnt_ac_bounds(ls, t - l + 1, t + 1);
                    lemma_cnt_ac_bounds(ls, t - l, t + 1);
                }
            }
            c2
        } else {
            c1
        };
        if t + 1 >= l {
            let rhs = sub_wrap(splat(l as u32), cnt);
            let m = lt_mask(cnt, rhs);
            proof {
                assert forall|j: int| 0 <= j < 8 implies lanes(m)[j] == (if window_canonical(
                    lane_seq(av@, j),
                    t + 1 - l,
                    l as int,
                ) {
                    0u32
                } else {
                    0xffff_ffffu32
                }) by {
                    let ls = lane_seq(av@, j);
                    lemma_cnt_ac_bounds(ls, t + 1 - l, t + 1);
                }
            }
            out.push(m);
        }
        t += 1;
    }
    out
}

} // verus!
