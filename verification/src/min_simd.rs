//! The 8-lane two-level sliding-window minimum.
//!
//! The hash stream of each lane is cut into blocks of `w` entries.  Each
//! entry is packed as `(hash16 << 16) | local_position` (position inverted
//! for the rightmost variant), so one unsigned `min` compares by hash first
//! and breaks ties on position.  A running prefix minimum over the current
//! block and the suffix minima of the previous block together give every
//! window minimum; absolute positions are recovered from the block bases
//! and per-lane offsets.
use vstd::prelude::*;

use crate::simd::{add_wrap, bit_and, bit_or, from_array, lanes, lt_mask, min_lanes, select_lanes,
    shl, shr, splat, sub_wrap};
use crate::sliding_min::{amin_left, amin_right, eff, lemma_amin_left_props,
    lemma_amin_left_split, lemma_amin_right_peel_left, lemma_amin_right_props,
    lemma_amin_right_split};

verus! {

/// Lane `j`'s stream of 32-bit values.
pub open spec fn lane_row(hv: Seq<wide::u32x8>, j: int) -> Seq<u32> {
    Seq::new(hv.len(), |q: int| lanes(hv[q])[j])
}

/// The packed comparison key of hash `h` at block-local position `loc`.
pub open spec fn pack_key(h: u32, loc: int, w: int, leftmost: bool) -> u32 {
    ((h & 0xffffu32) << 16u32) | (if leftmost {
        loc
    } else {
        w - 1 - loc
    }) as u32
}

/// The minimum value of `ks[lo .. hi)`.
pub open spec fn umin(ks: Seq<u32>, lo: int, hi: int) -> u32
    decreases hi - lo,
{
    if hi - lo <= 1 {
        ks[lo]
    } else {
        let r = umin(ks, lo + 1, hi);
        if ks[lo] <= r {
            ks[lo]
        } else {
            r
        }
    }
}

proof fn lemma_umin_extend(ks: Seq<u32>, lo: int, hi: int)
    requires
        lo < hi,
    ensures
        umin(ks, lo, hi + 1) == if umin(ks, lo, hi) <= ks[hi] {
            umin(ks, lo, hi)
        } else {
            ks[hi]
        },
    decreases hi - lo,
{
    if hi - lo > 1 {
        lemma_umin_extend(ks, lo + 1, hi);
        assert(umin(ks, lo, hi + 1) == if ks[lo] <= umin(ks, lo + 1, hi + 1) {
            ks[lo]
        } else {
            umin(ks, lo + 1, hi + 1)
        });
        assert(umin(ks, lo, hi) == if ks[lo] <= umin(ks, lo + 1, hi) {
            ks[lo]
        } else {
            umin(ks, lo + 1, hi)
        });
    } else {
        assert(umin(ks, lo, hi) == ks[lo]);
        assert(umin(ks, lo + 1, hi + 1) == ks[hi]);
        assert(umin(ks, lo, hi + 1) == if ks[lo] <= umin(ks, lo + 1, hi + 1) {
            ks[lo]
        } else {
            umin(ks, lo + 1, hi + 1)
        });
    }
}

proof fn lemma_umin_congruence(ks1: Seq<u32>, ks2: Seq<u32>, lo: int, hi: int)
    requires
        lo < hi,
        forall|p: int| lo <= p < hi ==> #[trigger] ks1[p] == ks2[p],
    ensures
        umin(ks1, lo, hi) == umin(ks2, lo, hi),
    decreases hi - lo,
{
    if hi - lo > 1 {
        lemma_umin_congruence(ks1, ks2, lo + 1, hi);
    }
}

proof fn lemma_eff_bound(h: u32)
    ensures
        eff(h) < 0x10000,
{
    assert(h & 0xffffu32 < 0x10000u32) by (bit_vector);
}

proof fn lemma_pack_parts(e: u32, p: u32)
    requires
        e < 0x10000,
        p < 0x10000,
    ensures
        ((e << 16u32) | p) >> 16u32 == e,
        ((e << 16u32) | p) & 0xffffu32 == p,
{
    assert((((e << 16u32) | p) >> 16u32 == e) && (((e << 16u32) | p) & 0xffffu32 == p))
        by (bit_vector)
        requires
            e < 0x10000u32,
            p < 0x10000u32,
    ;
}

proof fn lemma_pack_le(e1: u32, p1: u32, e2: u32, p2: u32)
    requires
        e1 < 0x10000,
        p1 < 0x10000,
        e2 < 0x10000,
        p2 < 0x10000,
    ensures
        (((e1 << 16u32) | p1) <= ((e2 << 16u32) | p2)) <==> (e1 < e2 || (e1 == e2 && p1 <= p2)),
{
    assert((((e1 << 16u32) | p1) <= ((e2 << 16u32) | p2)) == (e1 < e2 || (e1 == e2 && p1 <= p2)))
        by (bit_vector)
        requires
            e1 < 0x10000u32,
            p1 < 0x10000u32,
            e2 < 0x10000u32,
            p2 < 0x10000u32,
    ;
}

/// The minimum of packed keys is the packed key of the tie-broken argmin.
proof fn lemma_umin_pack(hs: Seq<u32>, ks: Seq<u32>, base: int, w: int, lo: int, hi: int,
    leftmost: bool)
    requires
        0 <= lo < hi <= w,
        1 <= w <= 0x10000,
        forall|p: int| lo <= p < hi ==> #[trigger] ks[p] == pack_key(hs[base + p], p, w, leftmost),
    ensures
        ({
            let a = if leftmost {
                amin_left(hs, base + lo, base + hi)
            } else {
                amin_right(hs, base + lo, base + hi)
            };
            base + lo <= a < base + hi && umin(ks, lo, hi) == pack_key(hs[a], a - base, w, leftmost)
        }),
    decreases hi - lo,
{
    if leftmost {
        lemma_amin_left_props(hs, base + lo, base + hi);
    } else {
        lemma_amin_right_props(hs, base + lo, base + hi);
    }
    if hi - lo == 1 {
    } else {
        lemma_umin_pack(hs, ks, base, w, lo + 1, hi, leftmost);
        let ar = if leftmost {
            amin_left(hs, base + lo + 1, base + hi)
        } else {
            amin_right(hs, base + lo + 1, base + hi)
        };
        if leftmost {
            lemma_amin_left_props(hs, base + lo + 1, base + hi);
        } else {
            lemma_amin_right_props(hs, base + lo + 1, base + hi);
            lemma_amin_right_peel_left(hs, base + lo, base + hi);
        }
        let e1 = eff(hs[base + lo]);
        let e2 = eff(hs[ar]);
        lemma_eff_bound(hs[base + lo]);
        lemma_eff_bound(hs[ar]);
        let p1: u32 = if leftmost {
            lo as u32
        } else {
            (w - 1 - lo) as u32
        };
        let p2: u32 = if leftmost {
            (ar - base) as u32
        } else {
            (w - 1 - (ar - base)) as u32
        };
        lemma_pack_le(e1, p1, e2, p2);
        assert(ks[lo] == ((e1 << 16u32) | p1));
        assert(umin(ks, lo + 1, hi) == ((e2 << 16u32) | p2));
    }
}

/// The running suffix minima of a block, youngest suffix first: entry `i`
/// is the minimum of the last `i + 1` keys.
fn suffix_mins(cur: &Vec<wide::u32x8>) -> (sufrev: Vec<wide::u32x8>)
    requires
        cur@.len() >= 1,
        forall|p: int| 0 <= p < cur@.len() ==> lanes(#[trigger] cur@[p]).len() == 8,
    ensures
        sufrev@.len() == cur@.len(),
        forall|i: int| 0 <= i < sufrev@.len() ==> lanes(#[trigger] sufrev@[i]).len() == 8,
        forall|i: int, j: int|
            0 <= i < sufrev@.len() && 0 <= j < 8 ==> #[trigger] lanes(sufrev@[i])[j] == umin(
                lane_row(cur@, j),
                cur@.len() - 1 - i,
                cur@.len() as int,
            ),
{
    let n = cur.len();
    let mut sufrev: Vec<wide::u32x8> = Vec::new();
    let mut running = cur[n - 1];
    sufrev.push(running);
    let mut i: usize = 1;
    while i < n
        invariant
            1 <= i <= n == cur@.len(),
            forall|p: int| 0 <= p < n ==> lanes(#[trigger] cur@[p]).len() == 8,
            sufrev@.len() == i,
            lanes(running).len() == 8,
            forall|j: int|
                0 <= j < 8 ==> lanes(running)[j] == umin(lane_row(cur@, j), n - i, n as int),
            forall|q: int| 0 <= q < i ==> lanes(#[trigger] sufrev@[q]).len() == 8,
            forall|q: int, j: int|
                0 <= q < i && 0 <= j < 8 ==> #[trigger] lanes(sufrev@[q])[j] == umin(
                    lane_row(cur@, j),
                    n - 1 - q,
                    n as int,
                ),
        decreases n - i,
    {
        let nr = min_lanes(cur[n - 1 - i], running);
        proof {
            assert forall|j: int| 0 <= j < 8 implies lanes(nr)[j] == umin(
                lane_row(cur@, j),
                n - 1 - i,
                n as int,
            ) by {
                let ck = lane_row(cur@, j);
                assert(ck[n - 1 - i] == lanes(cur@[n - 1 - i])[j]);
            }
        }
        running = nr;
        sufrev.push(running);
        i += 1;
    }
    sufrev
}

/// The window minimum when the window is exactly the current block:
/// unpack the prefix minimum into an absolute stream position.
#[verifier::rlimit(100)]
#[verifier::spinoff_prover]
fn emit_block_min<const LEFTMOST: bool>(
    pre: wide::u32x8,
    bstart: usize,
    w: usize,
    Ghost(hv): Ghost<Seq<wide::u32x8>>,
    Ghost(cur): Ghost<Seq<wide::u32x8>>,
) -> (sel: wide::u32x8)
    requires
        1 <= w <= 0x10000,
        bstart + w <= hv.len(),
        hv.len() <= 0xffff_ffffusize,
        cur.len() == w,
        forall|p: int, j: int|
            0 <= p < w && 0 <= j < 8 ==> #[trigger] lanes(cur[p])[j] == pack_key(
                lane_row(hv, j)[bstart + p],
                p,
                w as int,
                LEFTMOST,
            ),
        lanes(pre).len() == 8,
        forall|j: int| 0 <= j < 8 ==> lanes(pre)[j] == umin(lane_row(cur, j), 0, w as int),
    ensures
        lanes(sel).len() == 8,
        forall|j: int|
            0 <= j < 8 ==> lanes(sel)[j] == if LEFTMOST {
                amin_left(lane_row(hv, j), bstart as int, bstart + w as int)
            } else {
                amin_right(lane_row(hv, j), bstart as int, bstart + w as int)
            },
{
    let lv = bit_and(pre, splat(0xffffu32));
    let loc = if LEFTMOST {
        lv
    } else {
        sub_wrap(splat((w - 1) as u32), lv)
    };
    let sel = add_wrap(splat(bstart as u32), loc);
    proof {
        assert forall|j: int| 0 <= j < 8 implies lanes(sel)[j] == (if LEFTMOST {
            amin_left(lane_row(hv, j), bstart as int, bstart + w as int)
        } else {
            amin_right(lane_row(hv, j), bstart as int, bstart + w as int)
        }) by {
            let row = lane_row(hv, j);
            let ck = lane_row(cur, j);
            assert forall|p: int| 0 <= p < w implies #[trigger] ck[p] == pack_key(
                row[bstart + p],
                p,
                w as int,
                LEFTMOST,
            ) by {
                assert(ck[p] == lanes(cur[p])[j]);
            }
            lemma_umin_pack(row, ck, bstart as int, w as int, 0, w as int, LEFTMOST);
            let a = if LEFTMOST {
                amin_left(row, bstart as int, bstart + w as int)
            } else {
                amin_right(row, bstart as int, bstart + w as int)
            };
            lemma_eff_bound(row[a]);
            if LEFTMOST {
                lemma_pack_parts(eff(row[a]), (a - bstart) as u32);
            } else {
                lemma_pack_parts(eff(row[a]), (w - 1 - (a - bstart)) as u32);
            }
        }
    }
    sel
}

/// The window minimum when the window spans the previous and the current
/// block: combine one suffix minimum with the prefix minimum.
#[verifier::rlimit(100)]
#[verifier::spinoff_prover]
fn emit_split_min<const LEFTMOST: bool>(
    pre: wide::u32x8,
    sk: wide::u32x8,
    bstart: usize,
    o: usize,
    w: usize,
    Ghost(hv): Ghost<Seq<wide::u32x8>>,
    Ghost(cur): Ghost<Seq<wide::u32x8>>,
    Ghost(prevcur): Ghost<Seq<wide::u32x8>>,
) -> (sel: wide::u32x8)
    requires
        1 <= w <= 0x10000,
        o < w - 1,
        w <= bstart,
        bstart + o < hv.len(),
        hv.len() <= 0xffff_ffffusize,
        cur.len() == o + 1,
        prevcur.len() == w,
        forall|p: int, j: int|
            0 <= p < o + 1 && 0 <= j < 8 ==> #[trigger] lanes(cur[p])[j] == pack_key(
                lane_row(hv, j)[bstart + p],
                p,
                w as int,
                LEFTMOST,
            ),
        forall|p: int, j: int|
            0 <= p < w && 0 <= j < 8 ==> #[trigger] lanes(prevcur[p])[j] == pack_key(
                lane_row(hv, j)[bstart - w + p],
                p,
                w as int,
                LEFTMOST,
            ),
        lanes(pre).len() == 8,
        lanes(sk).len() == 8,
        forall|j: int| 0 <= j < 8 ==> lanes(pre)[j] == umin(lane_row(cur, j), 0, o + 1),
        forall|j: int| 0 <= j < 8 ==> lanes(sk)[j] == umin(lane_row(prevcur, j), o + 1, w as int),
    ensures
        lanes(sel).len() == 8,
        forall|j: int|
            0 <= j < 8 ==> lanes(sel)[j] == if LEFTMOST {
                amin_left(lane_row(hv, j), bstart + o - w + 1, bstart + o + 1)
            } else {
                amin_right(lane_row(hv, j), bstart + o - w + 1, bstart + o + 1)
            },
{
    let es = shr(sk, 16);
    let ep = shr(pre, 16);
    let slv = bit_and(sk, splat(0xffffu32));
    let plv = bit_and(pre, splat(0xffffu32));
    let sloc = if LEFTMOST {
        slv
    } else {
        sub_wrap(splat((w - 1) as u32), slv)
    };
    let ploc = if LEFTMOST {
        plv
    } else {
        sub_wrap(splat((w - 1) as u32), plv)
    };
    let sabs = add_wrap(splat((bstart - w) as u32), sloc);
    let pabs = add_wrap(splat(bstart as u32), ploc);
    let m = if LEFTMOST {
        lt_mask(ep, es)
    } else {
        lt_mask(es, ep)
    };
    let sel = if LEFTMOST {
        select_lanes(m, pabs, sabs)
    } else {
        select_lanes(m, sabs, pabs)
    };
    proof {
        let q = bstart + o;
        assert forall|j: int| 0 <= j < 8 implies lanes(sel)[j] == (if LEFTMOST {
            amin_left(lane_row(hv, j), q - w + 1, q + 1)
        } else {
            amin_right(lane_row(hv, j), q - w + 1, q + 1)
        }) by {
            let row = lane_row(hv, j);
            let pk = lane_row(prevcur, j);
            let ck = lane_row(cur, j);
            assert forall|p: int| o + 1 <= p < w implies #[trigger] pk[p] == pack_key(
                row[(bstart - w) + p],
                p,
                w as int,
                LEFTMOST,
            ) by {
                assert(pk[p] == lanes(prevcur[p])[j]);
            }
            assert forall|p: int| 0 <= p < o + 1 implies #[trigger] ck[p] == pack_key(
                row[bstart + p],
                p,
                w as int,
                LEFTMOST,
            ) by {
                assert(ck[p] == lanes(cur[p])[j]);
            }
            lemma_umin_pack(row, pk, bstart - w as int, w as int, o + 1, w as int, LEFTMOST);
            lemma_umin_pack(row, ck, bstart as int, w as int, 0, o + 1, LEFTMOST);
            let a_s = if LEFTMOST {
                amin_left(row, q - w + 1, bstart as int)
            } else {
                amin_right(row, q - w + 1, bstart as int)
            };
            let a_p = if LEFTMOST {
                amin_left(row, bstart as int, q + 1)
            } else {
                amin_right(row, bstart as int, q + 1)
            };
            lemma_eff_bound(row[a_s]);
            lemma_eff_bound(row[a_p]);
            if LEFTMOST {
                lemma_pack_parts(eff(row[a_s]), (a_s - (bstart - w)) as u32);
                lemma_pack_parts(eff(row[a_p]), (a_p - bstart) as u32);
                lemma_amin_left_split(row, q - w + 1, bstart as int, q + 1);
            } else {
                lemma_pack_parts(eff(row[a_s]), (w - 1 - (a_s - (bstart - w))) as u32);
                lemma_pack_parts(eff(row[a_p]), (w - 1 - (a_p - bstart)) as u32);
                lemma_amin_right_split(row, q - w + 1, bstart as int, q + 1);
            }
        }
    }
    sel
}

/// The two-level sliding minimum over eight lanes at once: entry `i` of the
/// result carries, in lane `j`, `off[j]` plus the position of the minimal
/// key in `hs[i .. i+w)` of lane `j`'s stream, ties broken leftmost or
/// rightmost.
#[verifier::rlimit(100)]
pub fn sliding_min_simd<const LEFTMOST: bool>(hv: &Vec<wide::u32x8>, w: usize, off: &[u32; 8]) -> (
    out: Vec<wide::u32x8>)
    requires
        1 <= w <= 0x10000,
        hv@.len() + w <= 0xffff_ffffusize,
        forall|q: int| 0 <= q < hv@.len() ==> lanes(#[trigger] hv@[q]).len() == 8,
        forall|j: int| 0 <= j < 8 ==> off@[j] + hv@.len() <= 0x1_0000_0000,
    ensures
        out@.len() == if hv@.len() >= w {
            hv@.len() - w + 1
        } else {
            0
        },
        forall|i: int| 0 <= i < out@.len() ==> lanes(#[trigger] out@[i]).len() == 8,
        forall|i: int, j: int|
            0 <= i < out@.len() && 0 <= j < 8 ==> #[trigger] lanes(out@[i])[j] == off@[j] + (
            if LEFTMOST {
                amin_left(lane_row(hv@, j), i, i + w as int)
            } else {
                amin_right(lane_row(hv@, j), i, i + w as int)
            }),
{
    let nh = hv.len();
    let mut out: Vec<wide::u32x8> = Vec::new();
    if nh < w {
        return out;
    }
    let off_vec = from_array(*off);
    let mut pre = splat(0);
    let mut cur: Vec<wide::u32x8> = Vec::new();
    let mut sufrev: Vec<wide::u32x8> = Vec::new();
    let ghost mut prevcur: Seq<wide::u32x8> = Seq::empty();
    let mut bstart: usize = 0;
    let mut o: usize = 0;
    let mut q: usize = 0;
    let ghost mut bidx: int = 0;
    while q < nh
        invariant
            w >= 1,
            w <= 0x10000,
            nh == hv@.len(),
            nh + w <= 0xffff_ffffusize,
            forall|p: int| 0 <= p < nh ==> lanes(#[trigger] hv@[p]).len() == 8,
            forall|j: int| 0 <= j < 8 ==> off@[j] + nh <= 0x1_0000_0000,
            lanes(off_vec).len() == 8,
            forall|j: int| 0 <= j < 8 ==> lanes(off_vec)[j] == off@[j],
            q <= nh,
            q == bstart + o,
            0 <= o < w,
            bidx >= 0,
            bidx * w == bstart,
            cur@.len() == o,
            forall|p: int| 0 <= p < o ==> lanes(#[trigger] cur@[p]).len() == 8,
            forall|p: int, j: int|
                0 <= p < o && 0 <= j < 8 ==> #[trigger] lanes(cur@[p])[j] == pack_key(
                    lane_row(hv@, j)[bstart + p],
                    p,
                    w as int,
                    LEFTMOST,
                ),
            lanes(pre).len() == 8,
            o >= 1 ==> forall|j: int|
                0 <= j < 8 ==> lanes(pre)[j] == umin(lane_row(cur@, j), 0, o as int),
            bstart >= 1 ==> bstart >= w,
            bstart >= w ==> prevcur.len() == w,
            bstart >= w ==> forall|p: int, j: int|
                0 <= p < w && 0 <= j < 8 ==> #[trigger] lanes(prevcur[p])[j] == pack_key(
                    lane_row(hv@, j)[bstart - w + p],
                    p,
                    w as int,
                    LEFTMOST,
                ),
            bstart >= w ==> sufrev@.len() == w,
            bstart >= w ==> forall|i: int|
                0 <= i < w ==> lanes(#[trigger] sufrev@[i]).len() == 8,
            bstart >= w ==> forall|i: int, j: int|
                0 <= i < w && 0 <= j < 8 ==> #[trigger] lanes(sufrev@[i])[j] == umin(
                    lane_row(prevcur, j),
                    w - 1 - i,
                    w as int,
                ),
            out@.len() == if q >= w {
                q - w + 1
            } else {
                0
            },
            forall|i: int| 0 <= i < out@.len() ==> lanes(#[trigger] out@[i]).len() == 8,
            forall|i: int, j: int|
                0 <= i < out@.len() && 0 <= j < 8 ==> #[trigger] lanes(out@[i])[j] == off@[j] + (
                if LEFTMOST {
                    amin_left(lane_row(hv@, j), i, i + w as int)
                } else {
                    amin_right(lane_row(hv@, j), i, i + w as int)
                }),
        decreases nh - q,
    {
        let h = hv[q];
        let locval: u32 = if LEFTMOST {
            o as u32
        } else {
            (w - 1 - o) as u32
        };
        let kv = bit_or(shl(bit_and(h, splat(0xffffu32)), 16), splat(locval));
        proof {
            assert forall|j: int| 0 <= j < 8 implies lanes(kv)[j] == pack_key(
                lane_row(hv@, j)[q as int],
                o as int,
                w as int,
                LEFTMOST,
            ) by {
                assert(lane_row(hv@, j)[q as int] == lanes(h)[j]);
            }
        }
        let newpre = if o == 0 {
            kv
        } else {
            min_lanes(pre, kv)
        };
        let ghost oldcurk = cur@;
        cur.push(kv);
        proof {
            assert forall|j: int| 0 <= j < 8 implies lanes(newpre)[j] == umin(
                lane_row(cur@, j),
                0,
                o + 1,
            ) by {
                let ck = lane_row(cur@, j);
                assert(ck[o as int] == lanes(kv)[j]);
                if o >= 1 {
                    let ckold = lane_row(oldcurk, j);
                    assert forall|p: int| 0 <= p < o implies #[trigger] ckold[p] == ck[p] by {
                        assert(oldcurk[p] == cur@[p]);
                    }
                    lemma_umin_congruence(ckold, ck, 0, o as int);
                    lemma_umin_extend(ck, 0, o as int);
                }
            }
        }
        pre = newpre;
        if q + 1 >= w {
            let sel: wide::u32x8;
            if o == w - 1 {
                sel = emit_block_min::<LEFTMOST>(pre, bstart, w, Ghost(hv@), Ghost(cur@));
            } else {
                proof {
                    assert(bstart >= w) by {
                        if bstart == 0 {
                            assert(q == o);
                        }
                    }
                }
                let sk = sufrev[w - o - 2];
                sel = emit_split_min::<LEFTMOST>(
                    pre,
                    sk,
                    bstart,
                    o,
                    w,
                    Ghost(hv@),
                    Ghost(cur@),
                    Ghost(prevcur),
                );
            }
            let res = add_wrap(off_vec, sel);
            proof {
                assert forall|j: int| 0 <= j < 8 implies lanes(res)[j] == off@[j] + (if LEFTMOST {
                    amin_left(lane_row(hv@, j), q - w + 1, q + 1)
                } else {
                    amin_right(lane_row(hv@, j), q - w + 1, q + 1)
                }) by {
                    let row = lane_row(hv@, j);
                    if LEFTMOST {
                        lemma_amin_left_props(row, q - w + 1, q + 1);
                    } else {
                        lemma_amin_right_props(row, q - w + 1, q + 1);
                    }
                }
            }
            out.push(res);
        }
        if o == w - 1 {
            proof {
                prevcur = cur@;
            }
            sufrev = suffix_mins(&cur);
            cur = Vec::new();
            bstart += w;
            o = 0;
            proof {
                assert((bidx + 1) * w == bidx * w + w) by (nonlinear_arith);
                bidx = bidx + 1;
            }
        } else {
            o += 1;
        }
        q += 1;
    }
    out
}

} // verus!
