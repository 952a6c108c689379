//! The 8-lane SIMD rolling ntHash: eight chunk streams hashed in lockstep.
//!
//! Lane `j` of the produced stream carries exactly the scalar hash of lane
//! `j`'s base stream, so every SIMD hash is pinned to the same spec as the
//! scalar path.
use vstd::prelude::*;

use crate::chunks::lane_seq;
use crate::nthash::{base_table, comp_table, hchar, hchar_c, rotate_table, rotl, rotl1, rotl1_exec,
    rotr1};
use crate::nthash::{lemma_nt_fw_roll, lemma_nt_rc_append, lemma_nt_rc_roll, nt_fw, nt_rc, nthash};
use crate::simd::{bit_or, eq_mask, lanes, select_lanes, shl, shr, splat, xor};

verus! {

/// Every lane of the vector holds a 2-bit base.
pub open spec fn lanes_are_bases(v: wide::u32x8) -> bool {
    lanes(v).len() == 8 && forall|j: int| 0 <= j < 8 ==> lanes(v)[j] < 4
}

/// Lanewise table lookup over the four base values, by compare-and-select.
pub fn table_lookup(a: wide::u32x8, t: &[u32; 4]) -> (r: wide::u32x8)
    requires
        lanes_are_bases(a),
    ensures
        lanes(r).len() == 8,
        forall|j: int| 0 <= j < 8 ==> lanes(r)[j] == t@[lanes(a)[j] as int],
{
    let m0 = eq_mask(a, splat(0));
    let m1 = eq_mask(a, splat(1));
    let m2 = eq_mask(a, splat(2));
    let c23 = select_lanes(m2, splat(t[2]), splat(t[3]));
    let c123 = select_lanes(m1, splat(t[1]), c23);
    select_lanes(m0, splat(t[0]), c123)
}

/// Lanewise left rotation by one.
pub fn rotl1_simd(v: wide::u32x8) -> (r: wide::u32x8)
    ensures
        lanes(r).len() == 8,
        forall|j: int| 0 <= j < 8 ==> lanes(r)[j] == rotl1(lanes(v)[j]),
{
    bit_or(shl(v, 1), shr(v, 31))
}

/// Lanewise right rotation by one.
pub fn rotr1_simd(v: wide::u32x8) -> (r: wide::u32x8)
    ensures
        lanes(r).len() == 8,
        forall|j: int| 0 <= j < 8 ==> lanes(r)[j] == rotr1(lanes(v)[j]),
{
    bit_or(shr(v, 1), shl(v, 31))
}

/// The SIMD ntHash stage: entry `q` of the result carries, in each lane,
/// the hash of the k-mer starting at `q` of that lane's base stream.
pub fn nthash_simd<const CANONICAL: bool>(av: &Vec<wide::u32x8>, k: usize) -> (hv: Vec<
    wide::u32x8,
>)
    requires
        k >= 1,
        forall|t: int| 0 <= t < av@.len() ==> lanes_are_bases(#[trigger] av@[t]),
    ensures
        hv@.len() == if av@.len() >= k {
            av@.len() - k + 1
        } else {
            0
        },
        forall|q: int| 0 <= q < hv@.len() ==> lanes(#[trigger] hv@[q]).len() == 8,
        forall|q: int, j: int|
            0 <= q < hv@.len() && 0 <= j < 8 ==> #[trigger] lanes(hv@[q])[j] == nthash(
                lane_seq(av@, j),
                q,
                k as int,
                CANONICAL,
            ),
{
    let c = av.len();
    let mut hv: Vec<wide::u32x8> = Vec::new();
    if c < k {
        return hv;
    }
    let tab = base_table();
    let tabc = comp_table();
    let rot_fw = rotate_table(&tab, k);
    let rot_rc = rotate_table(&tabc, k - 1);
    // During warm-up, `cur_rc[b]` is the complement constant rotated by the
    // number of bases consumed so far.
    let mut cur_rc = comp_table();
    let mut hfw = splat(0);
    let mut hrc = splat(0);
    let mut t: usize = 0;
    while t < c
        invariant
            0 <= t <= c == av@.len(),
            1 <= k <= c,
            forall|q: int| 0 <= q < c ==> lanes_are_bases(#[trigger] av@[q]),
            forall|b: int| 0 <= b < 4 ==> tab@[b] == hchar(b as u8),
            forall|b: int| 0 <= b < 4 ==> tabc@[b] == hchar_c(b as u8),
            forall|b: int| 0 <= b < 4 ==> rot_fw@[b] == rotl(tab@[b], k as nat),
            forall|b: int| 0 <= b < 4 ==> rot_rc@[b] == rotl(tabc@[b], (k - 1) as nat),
            CANONICAL && t < k ==> forall|b: int| 0 <= b < 4 ==> cur_rc@[b] == rotl(tabc@[b], t as nat),
            lanes(hfw).len() == 8,
            lanes(hrc).len() == 8,
            forall|j: int|
                0 <= j < 8 ==> lanes(hfw)[j] == nt_fw(
                    lane_seq(av@, j),
                    if t < k {
                        0
                    } else {
                        t - k
                    },
                    if t < k {
                        t as int
                    } else {
                        k as int
                    },
                ),
            CANONICAL ==> forall|j: int|
                0 <= j < 8 ==> lanes(hrc)[j] == nt_rc(
                    lane_seq(av@, j),
                    if t < k {
                        0
                    } else {
                        t - k
                    },
                    if t < k {
                        t as int
                    } else {
                        k as int
                    },
                ),
            hv@.len() == if t >= k {
                t - k + 1
            } else {
                0
            },
            forall|q: int| 0 <= q < hv@.len() ==> lanes(#[trigger] hv@[q]).len() == 8,
            forall|q: int, j: int|
                0 <= q < hv@.len() && 0 <= j < 8 ==> #[trigger] lanes(hv@[q])[j] == nthash(
                    lane_seq(av@, j),
                    q,
                    k as int,
                    CANONICAL,
                ),
        decreases c - t,
    {
        let a = av[t];
        proof {
            assert(lanes_are_bases(a));
            assert forall|j: int| 0 <= j < 8 implies lane_seq(av@, j)[t as int] == lanes(a)[j]
                as u8 by {}
        }
        if t < k {
            let hin = table_lookup(a, &tab);
            let newfw = xor(rotl1_simd(hfw), hin);
            proof {
                assert forall|j: int| 0 <= j < 8 implies lanes(newfw)[j] == nt_fw(
                    lane_seq(av@, j),
                    0,
                    t + 1,
                ) by {
                    let ls = lane_seq(av@, j);
                    assert(tab@[lanes(a)[j] as int] == hchar(ls[t as int]));
                }
            }
            hfw = newfw;
            if CANONICAL {
                let rin = table_lookup(a, &cur_rc);
                let newrc = xor(hrc, rin);
                proof {
                    assert forall|j: int| 0 <= j < 8 implies lanes(newrc)[j] == nt_rc(
                        lane_seq(av@, j),
                        0,
                        t + 1,
                    ) by {
                        let ls = lane_seq(av@, j);
                        lemma_nt_rc_append(ls, 0, t + 1);
                        assert(cur_rc@[lanes(a)[j] as int] == rotl(hchar_c(ls[t as int]), t as nat));
                    }
                }
                hrc = newrc;
                if t + 1 < k {
                    let ghost oldt = cur_rc@;
                    cur_rc = [
                        rotl1_exec(cur_rc[0]),
                        rotl1_exec(cur_rc[1]),
                        rotl1_exec(cur_rc[2]),
                        rotl1_exec(cur_rc[3]),
                    ];
                    proof {
                        assert forall|b: int| 0 <= b < 4 implies cur_rc@[b] == rotl(
                            tabc@[b],
                            (t + 1) as nat,
                        ) by {
                            assert(rotl(tabc@[b], (t + 1) as nat) == rotl1(rotl(tabc@[b], t as nat)));
                            if b == 0 {
                                assert(cur_rc@[0] == rotl1(oldt[0]));
                            } else if b == 1 {
                                assert(cur_rc@[1] == rotl1(oldt[1]));
                            } else if b == 2 {
                                assert(cur_rc@[2] == rotl1(oldt[2]));
                            } else {
                                assert(cur_rc@[3] == rotl1(oldt[3]));
                            }
                        }
                    }
                }
            }
        } else {
            let r = av[t - k];
            proof {
                assert(lanes_are_bases(r));
                assert forall|j: int| 0 <= j < 8 implies lane_seq(av@, j)[t - k] == lanes(r)[j]
                    as u8 by {}
            }
            let rout = table_lookup(r, &rot_fw);
            let hin = table_lookup(a, &tab);
            let newfw = xor(xor(rotl1_simd(hfw), rout), hin);
            proof {
                assert forall|j: int| 0 <= j < 8 implies lanes(newfw)[j] == nt_fw(
                    lane_seq(av@, j),
                    t - k + 1,
                    k as int,
                ) by {
                    let ls = lane_seq(av@, j);
                    lemma_nt_fw_roll(ls, t - k, k as int);
                    assert(rot_fw@[lanes(r)[j] as int] == rotl(hchar(ls[t - k]), k as nat));
                    assert(tab@[lanes(a)[j] as int] == hchar(ls[t as int]));
                }
            }
            hfw = newfw;
            if CANONICAL {
                let cout = table_lookup(r, &tabc);
                let cin = table_lookup(a, &rot_rc);
                let newrc = xor(rotr1_simd(xor(hrc, cout)), cin);
                proof {
                    assert forall|j: int| 0 <= j < 8 implies lanes(newrc)[j] == nt_rc(
                        lane_seq(av@, j),
                        t - k + 1,
                        k as int,
                    ) by {
                        let ls = lane_seq(av@, j);
                        lemma_nt_rc_roll(ls, t - k, k as int);
                        assert(tabc@[lanes(r)[j] as int] == hchar_c(ls[t - k]));
                        assert(rot_rc@[lanes(a)[j] as int] == rotl(
                            hchar_c(ls[t as int]),
                            (k - 1) as nat,
                        ));
                    }
                }
                hrc = newrc;
            }
        }
        if t + 1 >= k {
            let h = if CANONICAL {
                xor(hfw, hrc)
            } else {
                hfw
            };
            proof {
                assert forall|j: int| 0 <= j < 8 implies lanes(h)[j] == nthash(
                    lane_seq(av@, j),
                    t + 1 - k,
                    k as int,
                    CANONICAL,
                ) by {}
            }
            hv.push(h);
        }
        t += 1;
    }
    hv
}

} // verus!
