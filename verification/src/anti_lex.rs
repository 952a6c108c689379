//! The anti-lexicographic k-mer hash.
//!
//! A k-mer's hash is the 2-bit concatenation of its bases (first base most
//! significant) with the first base inverted; when `k > 16` only the last
//! 16 bases take part.
use vstd::prelude::*;

use crate::bases::{n_kmers, valid_bases};
use crate::chunks::{lane_len, lane_seq, lane_windows, lemma_lane_windows_bound, par_base_vecs,
    tail_of};
use crate::hash_simd::lanes_are_bases;
use crate::simd::{bit_and, lanes, shl, splat, xor};

verus! {

/// The raw 2-bit concatenation of `s[i .. i+k)`, truncated to 32 bits.
pub open spec fn alex_raw(s: Seq<u8>, i: int, k: int) -> u32
    decreases k,
{
    if k <= 0 {
        0
    } else {
        (alex_raw(s, i, k - 1) << 2u32) ^ (s[i + k - 1] as u32)
    }
}

/// The constant that inverts the leading base of the hash.
pub open spec fn alex_anti(k: int) -> u32 {
    if k <= 16 {
        3u32 << ((2 * k - 2) as u32)
    } else {
        3u32 << 30u32
    }
}

/// The anti-lexicographic hash of the k-mer `s[i .. i+k)`.
pub open spec fn alex(s: Seq<u8>, i: int, k: int) -> u32 {
    alex_raw(s, i, k) ^ alex_anti(k)
}

/// The mask keeping the low `2*m` bits (all 32 bits when `m >= 16`).
pub open spec fn low2(m: int) -> u32 {
    if m >= 16 {
        0xffff_ffffu32
    } else {
        ((1u32 << ((2 * m) as u32)) - 1) as u32
    }
}

/// The low `2*m` bits of the raw hash come from the last `m` bases alone.
pub proof fn lemma_alex_raw_tail(s: Seq<u8>, i: int, k: int, m: int)
    requires
        0 <= m <= k,
        m <= 15,
    ensures
        alex_raw(s, i, k) & low2(m) == alex_raw(s, i + k - m, m) & low2(m),
    decreases k,
{
    if m == 0 {
        let x = alex_raw(s, i, k);
        let y = alex_raw(s, i + k, 0);
        assert((((1u32 << 0u32) - 1) as u32) == 0u32) by (bit_vector);
        assert(x & 0u32 == y & 0u32) by (bit_vector);
    } else if k == m {
    } else {
        lemma_alex_raw_tail(s, i, k - 1, m - 1);
        let x = alex_raw(s, i, k - 1);
        let y = alex_raw(s, i + k - m, m - 1);
        let c = s[i + k - 1] as u32;
        let e = (2 * m) as u32;
        assert(alex_raw(s, i, k) == ((x << 2u32) ^ c));
        assert(alex_raw(s, i + k - m, m) == ((y << 2u32) ^ c));
        if m == 1 {
            assert(((x << 2u32) ^ c) & (((1u32 << 2u32) - 1) as u32) == ((y << 2u32) ^ c) & (((1u32
                << 2u32) - 1) as u32)) by (bit_vector);
        } else {
            assert(((x << 2u32) ^ c) & (((1u32 << e) - 1) as u32) == ((y << 2u32) ^ c) & (((1u32 << e)
                - 1) as u32)) by (bit_vector)
                requires
                    4 <= e <= 30,
                    x & (((1u32 << ((e - 2) as u32)) - 1) as u32) == y & (((1u32 << ((e - 2) as u32))
                        - 1) as u32),
            ;
        }
    }
}

/// For `k >= 16` the raw hash equals that of the last 16 bases.
pub proof fn lemma_alex_raw_16(s: Seq<u8>, i: int, k: int)
    requires
        k >= 16,
    ensures
        alex_raw(s, i, k) == alex_raw(s, i + k - 16, 16),
{
    if k == 16 {
    } else {
        lemma_alex_raw_tail(s, i, k - 1, 15);
        let x = alex_raw(s, i, k - 1);
        let y = alex_raw(s, i + k - 16, 15);
        let c = s[i + k - 1] as u32;
        assert(((x << 2u32) ^ c) == ((y << 2u32) ^ c)) by (bit_vector)
            requires
                x & (((1u32 << 30u32) - 1) as u32) == y & (((1u32 << 30u32) - 1) as u32),
        ;
    }
}

/// The raw hash of `m <= 15` valid bases fits in `2*m` bits.
pub proof fn lemma_alex_raw_bound(s: Seq<u8>, i: int, k: int)
    requires
        0 <= k <= 15,
        forall|j: int| i <= j < i + k ==> s[j] < 4,
    ensures
        alex_raw(s, i, k) & low2(k) == alex_raw(s, i, k),
        alex_raw(s, i, k) < (1u32 << ((2 * k) as u32)),
    decreases k,
{
    if k == 0 {
        assert(0u32 & low2(0) == 0u32 && 0u32 < (1u32 << 0u32)) by (bit_vector);
    } else {
        lemma_alex_raw_bound(s, i, k - 1);
        let x = alex_raw(s, i, k - 1);
        let c = s[i + k - 1] as u32;
        let e = (2 * k) as u32;
        assert((((x << 2u32) ^ c) & (((1u32 << e) - 1) as u32) == ((x << 2u32) ^ c)) && (((x << 2u32) ^ c)
            < (1u32 << e))) by (bit_vector)
            requires
                2 <= e <= 30,
                c < 4,
                x < (1u32 << ((e - 2) as u32)),
        ;
    }
}

/// Two windows with the same bases have the same raw hash.
pub proof fn lemma_alex_raw_shift(s: Seq<u8>, u: Seq<u8>, i: int, j: int, k: int)
    requires
        forall|t: int| 0 <= t < k ==> #[trigger] u[j + t] == s[i + t],
    ensures
        alex_raw(u, j, k) == alex_raw(s, i, k),
    decreases k,
{
    if k > 0 {
        lemma_alex_raw_shift(s, u, i, j, k - 1);
    }
}

/// The anti-lex hash of a window, read on the window itself, agrees with the
/// rolling hash read on the whole sequence at the window's start.
pub proof fn lemma_alex_window(s: Seq<u8>, i: int, k: int)
    requires
        0 <= i,
        k >= 1,
        i + k <= s.len(),
    ensures
        alex(s.subrange(i, i + k), 0, k) == alex(s, i, k),
{
    lemma_alex_raw_shift(s, s.subrange(i, i + k), i, 0, k);
}

/// The anti-lex hash of one whole k-mer, computed naively.
pub fn anti_lex_kmer(s: &[u8]) -> (r: u32)
    requires
        s@.len() >= 1,
        valid_bases(s@),
    ensures
        r == alex(s@, 0, s@.len() as int),
{
    let k = s.len();
    let anti: u32 = if k <= 16 {
        3u32 << (2 * (k as u32) - 2)
    } else {
        3u32 << 30u32
    };
    let mut hfw: u32 = 0;
    let mut t: usize = 0;
    while t < k
        invariant
            0 <= t <= k == s@.len(),
            valid_bases(s@),
            hfw == alex_raw(s@, 0, t as int),
        decreases k - t,
    {
        hfw = (hfw << 2u32) ^ (s[t] as u32);
        t += 1;
    }
    hfw ^ anti
}

/// The anti-lex hashes of all k-mers of `s`, in order: entry `q` is the
/// hash of the k-mer starting at `q`.
pub fn anti_lex_seq_scalar(s: &[u8], k: usize) -> (r: Vec<u32>)
    requires
        k >= 1,
        valid_bases(s@),
    ensures
        r@.len() == n_kmers(s@.len() as int, k as int),
        forall|q: int| 0 <= q < r@.len() ==> r@[q] == alex(s@, q, k as int),
{
    let n = s.len();
    let mut out: Vec<u32> = Vec::new();
    if n < k {
        return out;
    }
    let mask: u32 = if k < 16 {
        let ee: u32 = 2 * (k as u32);
        proof {
            assert((1u32 << ee) >= 1u32) by (bit_vector)
                requires
                    ee <= 30,
            ;
        }
        (1u32 << ee) - 1
    } else {
        0xffff_ffffu32
    };
    let anti: u32 = if k <= 16 {
        3u32 << (2 * (k as u32) - 2)
    } else {
        3u32 << 30u32
    };
    let mut hfw: u32 = 0;
    let mut t: usize = 0;
    while t < n
        invariant
            0 <= t <= n == s@.len(),
            1 <= k <= n,
            valid_bases(s@),
            mask == if k < 16 {
                low2(k as int)
            } else {
                0xffff_ffffu32
            },
            anti == alex_anti(k as int),
            t < k ==> hfw == alex_raw(s@, 0, t as int),
            t >= k ==> hfw == alex_raw(s@, 0, t as int) & mask,
            out@.len() == if t >= k {
                t - k + 1
            } else {
                0
            },
            forall|q: int| 0 <= q < out@.len() ==> out@[q] == alex(s@, q, k as int),
        decreases n - t,
    {
        let ghost oldh = hfw;
        if t + 1 < k {
            hfw = (hfw << 2u32) ^ (s[t] as u32);
        } else {
            hfw = ((hfw << 2u32) ^ (s[t] as u32)) & mask;
            proof {
                let tt = t as int;
                let c = s@[tt] as u32;
                if t + 1 == k {
                    if k >= 16 {
                        assert(((oldh << 2u32) ^ c) & 0xffff_ffffu32 == ((oldh << 2u32) ^ c))
                            by (bit_vector);
                    }
                } else {
                    // hfw had already been masked; masking commutes with the step.
                    let x = alex_raw(s@, 0, tt);
                    if k < 16 {
                        let e = (2 * k) as u32;
                        assert((((x & (((1u32 << e) - 1) as u32)) << 2u32) ^ c) & (((1u32 << e) - 1) as u32) == ((x
                            << 2u32) ^ c) & (((1u32 << e) - 1) as u32)) by (bit_vector)
                            requires
                                2 <= e <= 30,
                        ;
                    } else {
                        assert(((x & 0xffff_ffffu32) << 2u32) ^ c == ((x << 2u32) ^ c))
                            by (bit_vector);
                        assert(((x << 2u32) ^ c) & 0xffff_ffffu32 == ((x << 2u32) ^ c))
                            by (bit_vector);
                    }
                }
                // The masked state is the hash of the k-mer ending here.
                let q = tt + 1 - k;
                let full = alex_raw(s@, 0, tt + 1);
                if k < 16 {
                    lemma_alex_raw_tail(s@, 0, tt + 1, k as int);
                    lemma_alex_raw_bound(s@, q, k as int);
                } else if k == 16 {
                    if tt + 1 > 16 {
                        lemma_alex_raw_16(s@, 0, tt + 1);
                    }
                    assert(full & 0xffff_ffffu32 == full) by (bit_vector);
                } else {
                    lemma_alex_raw_16(s@, 0, tt + 1);
                    lemma_alex_raw_16(s@, q, k as int);
                    assert(full & 0xffff_ffffu32 == full) by (bit_vector);
                }
            }
            out.push(hfw ^ anti);
        }
        t += 1;
    }
    out
}

/// The rolling mask of the hasher: the low `2*min(k,16)` bits.
pub open spec fn alex_mask(k: int) -> u32 {
    if k < 16 {
        low2(k)
    } else {
        0xffff_ffffu32
    }
}

/// Masking commutes with one rolling step.
pub proof fn lemma_alex_mask_step(x: u32, c: u32, k: int)
    requires
        k >= 1,
    ensures
        (((x & alex_mask(k)) << 2u32) ^ c) & alex_mask(k) == ((x << 2u32) ^ c) & alex_mask(k),
{
    if k < 16 {
        let e = (2 * k) as u32;
        assert((((x & (((1u32 << e) - 1) as u32)) << 2u32) ^ c) & (((1u32 << e) - 1) as u32) == ((x
            << 2u32) ^ c) & (((1u32 << e) - 1) as u32)) by (bit_vector)
            requires
                2 <= e <= 30,
        ;
    } else {
        assert((((x & 0xffff_ffffu32) << 2u32) ^ c) & 0xffff_ffffu32 == ((x << 2u32) ^ c)
            & 0xffff_ffffu32) by (bit_vector);
    }
}

/// The masked rolling state over the first `t` bases is the raw hash of
/// the last `k` of them.
pub proof fn lemma_alex_state_hash(s: Seq<u8>, t1: int, k: int)
    requires
        k >= 1,
        t1 >= k,
        forall|j: int| 0 <= j < t1 ==> s[j] < 4,
    ensures
        alex_raw(s, 0, t1) & alex_mask(k) == alex_raw(s, t1 - k, k),
{
    let q = t1 - k;
    let full = alex_raw(s, 0, t1);
    if k < 16 {
        lemma_alex_raw_tail(s, 0, t1, k);
        lemma_alex_raw_bound(s, q, k);
    } else if k == 16 {
        if t1 > 16 {
            lemma_alex_raw_16(s, 0, t1);
        }
        assert(full & 0xffff_ffffu32 == full) by (bit_vector);
    } else {
        lemma_alex_raw_16(s, 0, t1);
        lemma_alex_raw_16(s, q, k);
        assert(full & 0xffff_ffffu32 == full) by (bit_vector);
    }
}

/// The rolling anti-lex hasher over eight lanes: one register of rolling
/// state; each step shifts in one base per lane, masks, and inverts the
/// top base for the emitted hash.
pub struct AntiLexMapper {
    h: wide::u32x8,
    mask: u32,
    anti: u32,
    k: Ghost<int>,
}

impl AntiLexMapper {
    /// The rolling state, lane by lane.
    pub closed spec fn state(self) -> Seq<u32> {
        lanes(self.h)
    }

    pub closed spec fn k(self) -> int {
        self.k@
    }

    pub closed spec fn wf(self) -> bool {
        lanes(self.h).len() == 8 && self.k@ >= 1 && self.mask == alex_mask(self.k@) && self.anti
            == alex_anti(self.k@)
    }

    /// One step: shift in the eight added bases and emit the eight hashes.
    pub fn step(&mut self, a: wide::u32x8) -> (r: wide::u32x8)
        requires
            old(self).wf(),
        ensures
            final(self).wf(),
            final(self).k() == old(self).k(),
            forall|j: int|
                0 <= j < 8 ==> final(self).state()[j] == ((old(self).state()[j] << 2u32) ^ lanes(
                    a,
                )[j]) & alex_mask(old(self).k()),
            lanes(r).len() == 8,
            forall|j: int|
                0 <= j < 8 ==> lanes(r)[j] == final(self).state()[j] ^ alex_anti(old(self).k()),
    {
        self.h = bit_and(xor(shl(self.h, 2), a), splat(self.mask));
        xor(self.h, splat(self.anti))
    }
}

/// A fresh anti-lex mapper for k-mers of length `k`.
pub fn anti_lex_mapper(k: usize, w: usize) -> (m: AntiLexMapper)
    requires
        k >= 1,
        w >= 1,
    ensures
        m.wf(),
        m.k() == k as int,
        forall|j: int| 0 <= j < 8 ==> m.state()[j] == 0,
{
    let mask: u32 = if k < 16 {
        let ee: u32 = 2 * (k as u32);
        proof {
            assert((1u32 << ee) >= 1u32) by (bit_vector)
                requires
                    ee <= 30,
            ;
        }
        (1u32 << ee) - 1
    } else {
        0xffff_ffffu32
    };
    let anti: u32 = if k <= 16 {
        3u32 << (2 * (k as u32) - 2)
    } else {
        3u32 << 30u32
    };
    AntiLexMapper { h: splat(0), mask, anti, k: Ghost(k as int) }
}

/// The anti-lex hashes of the eight lane chunks, one vector per k-mer
/// step, and the scalar tail's hashes: lane `j` of entry `t` is the hash
/// of the k-mer at `j*W + t`, and the tail entry `q` the hash of the
/// k-mer at `8*W + q`.  Lane streams overlap by `w - 1` hashes.
#[verifier::rlimit(50)]
pub fn anti_lex_seq_simd(s: &[u8], k: usize, w: usize) -> (r: (Vec<wide::u32x8>, Vec<u32>))
    requires
        k >= 1,
        w >= 1,
        k + w - 1 <= usize::MAX,
        valid_bases(s@),
    ensures
        ({
            let n = s@.len() as int;
            let ww = lane_windows(n, (k + w - 1) as int);
            let c = lane_len(n, (k + w - 1) as int);
            &&& r.0@.len() == if c >= k {
                c - k + 1
            } else {
                0
            }
            &&& forall|t: int| 0 <= t < r.0@.len() ==> lanes(#[trigger] r.0@[t]).len() == 8
            &&& forall|t: int, j: int|
                0 <= t < r.0@.len() && 0 <= j < 8 ==> #[trigger] lanes(r.0@[t])[j] == alex(
                    s@,
                    j * ww + t,
                    k as int,
                )
            &&& r.1@.len() == n_kmers(n - 8 * ww, k as int)
            &&& forall|q: int|
                0 <= q < r.1@.len() ==> #[trigger] r.1@[q] == alex(s@, 8 * ww + q, k as int)
        }),
{
    let n = s.len();
    let l = k - 1 + w;
    proof {
        lemma_lane_windows_bound(n as int, l as int);
    }
    let av = par_base_vecs(s, l);
    proof {
        let nn = s@.len() as int;
        let ww = lane_windows(nn, l as int);
        assert forall|t2: int| 0 <= t2 < av@.len() implies lanes_are_bases(#[trigger] av@[t2]) by {
            assert forall|j: int| 0 <= j < 8 implies lanes(av@[t2])[j] < 4 by {
                assert(0 <= j * ww <= 7 * ww) by (nonlinear_arith)
                    requires
                        0 <= j <= 7,
                        ww >= 0,
                ;
                assert(lanes(av@[t2])[j] == s@[j * ww + t2] as u32);
            }
        }
    }
    let c = av.len();
    let mut m = anti_lex_mapper(k, w);
    proof {
        let mv = alex_mask(k as int);
        assert(0u32 & mv == 0u32) by (bit_vector);
    }
    let mut head: Vec<wide::u32x8> = Vec::new();
    let mut t: usize = 0;
    while t < c
        invariant
            0 <= t <= c == av@.len(),
            k >= 1,
            m.wf(),
            m.k() == k as int,
            forall|p: int| 0 <= p < c ==> lanes_are_bases(#[trigger] av@[p]),
            forall|j: int|
                0 <= j < 8 ==> m.state()[j] == alex_raw(lane_seq(av@, j), 0, t as int) & alex_mask(
                    k as int,
                ),
            head@.len() == if t >= k {
                t - k + 1
            } else {
                0
            },
            forall|p: int| 0 <= p < head@.len() ==> lanes(#[trigger] head@[p]).len() == 8,
            forall|p: int, j: int|
                0 <= p < head@.len() && 0 <= j < 8 ==> #[trigger] lanes(head@[p])[j] == alex(
                    lane_seq(av@, j),
                    p,
                    k as int,
                ),
        decreases c - t,
    {
        let a = av[t];
        let ghost olds = m.state();
        let r = m.step(a);
        proof {
            assert forall|j: int| 0 <= j < 8 implies m.state()[j] == alex_raw(
                lane_seq(av@, j),
                0,
                t + 1,
            ) & alex_mask(k as int) by {
                let ls = lane_seq(av@, j);
                assert(ls[t as int] == lanes(a)[j] as u8);
                let x = alex_raw(ls, 0, t as int);
                let cc = ls[t as int] as u32;
                lemma_alex_mask_step(x, cc, k as int);
                assert(alex_raw(ls, 0, t + 1) == ((x << 2u32) ^ cc));
            }
        }
        if t + 1 >= k {
            proof {
                assert forall|j: int| 0 <= j < 8 implies lanes(r)[j] == alex(
                    lane_seq(av@, j),
                    t + 1 - k,
                    k as int,
                ) by {
                    let ls = lane_seq(av@, j);
                    assert forall|p: int| 0 <= p < t + 1 implies ls[p] < 4 by {
                        assert(lanes(av@[p])[j] < 4);
                    }
                    lemma_alex_state_hash(ls, t + 1, k as int);
                }
            }
            head.push(r);
        }
        t += 1;
    }
    let tailseq = tail_of(s, l);
    let tail = anti_lex_seq_scalar(tailseq.as_slice(), k);
    proof {
        let nn = s@.len() as int;
        let ww = lane_windows(nn, l as int);
        let d = 8 * ww;
        assert forall|q: int| 0 <= q < tail@.len() implies #[trigger] tail@[q] == alex(
            s@,
            d + q,
            k as int,
        ) by {
            assert forall|tt: int| 0 <= tt < k implies #[trigger] tailseq@[q + tt] == s@[(d + q)
                + tt] by {}
            lemma_alex_raw_shift(s@, tailseq@, d + q, q, k as int);
        }
        assert forall|p: int, j: int|
            0 <= p < head@.len() && 0 <= j < 8 implies #[trigger] lanes(head@[p])[j] == alex(
            s@,
            j * ww + p,
            k as int,
        ) by {
            let ls = lane_seq(av@, j);
            assert(0 <= j * ww <= 7 * ww) by (nonlinear_arith)
                requires
                    0 <= j <= 7,
                    ww >= 0,
            ;
            assert forall|tt: int| 0 <= tt < k implies #[trigger] ls[p + tt] == s@[(j * ww + p)
                + tt] by {
                assert(lanes(av@[p + tt])[j] == s@[j * ww + (p + tt)] as u32);
            }
            lemma_alex_raw_shift(s@, ls, j * ww + p, p, k as int);
        }
    }
    (head, tail)
}

} // verus!
