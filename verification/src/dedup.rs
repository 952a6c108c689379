//! Deduplication of consecutive equal values.
//!
//! The minimizer stream emits one position per window; consecutive windows
//! often share their minimizer, so the distinct stream is obtained by
//! dropping every element that equals its predecessor.  The first
//! occurrence of every run is kept, so order is preserved.
use vstd::prelude::*;

use crate::collect::{collect_into, linearize};
use crate::simd::{lanes, to_array};

verus! {

/// The last element of a sequence, if any.
pub open spec fn last_opt(x: Seq<u32>) -> Option<u32> {
    if x.len() == 0 {
        None
    } else {
        Some(x.last())
    }
}

/// Drop every element equal to its predecessor; `prev` is the value that
/// precedes the first element (the last value already written, if any).
pub open spec fn dedup_from(x: Seq<u32>, prev: Option<u32>) -> Seq<u32>
    decreases x.len(),
{
    if x.len() == 0 {
        Seq::empty()
    } else if Some(x[0]) == prev {
        dedup_from(x.drop_first(), prev)
    } else {
        seq![x[0]] + dedup_from(x.drop_first(), Some(x[0]))
    }
}

/// The super-k-mer encoding of a value: the index where its run started in
/// the low 16 bits of the upper half, the value's low 16 bits below.
pub open spec fn super_encode(i: int, v: u32) -> u32 {
    (((i % 0x10000) as u32) << 16u32) | (v & 0xffffu32)
}

/// The deduplicated stream from position `i` on, with values at positions
/// below `hlen` super-encoded when `sup` is set.
pub open spec fn cd_from(x: Seq<u32>, hlen: int, i: int, prev: Option<u32>, sup: bool) -> Seq<u32>
    decreases x.len() - i,
{
    if i < 0 || i >= x.len() {
        Seq::empty()
    } else if Some(x[i]) == prev {
        cd_from(x, hlen, i + 1, prev, sup)
    } else {
        let e = if sup && i < hlen {
            super_encode(i, x[i])
        } else {
            x[i]
        };
        seq![e] + cd_from(x, hlen, i + 1, Some(x[i]), sup)
    }
}

/// Without super-encoding, the positional form agrees with `dedup_from`.
pub proof fn lemma_cd_is_dedup(x: Seq<u32>, hlen: int, i: int, prev: Option<u32>)
    requires
        0 <= i <= x.len(),
    ensures
        cd_from(x, hlen, i, prev, false) == dedup_from(x.subrange(i, x.len() as int), prev),
    decreases x.len() - i,
{
    let sub = x.subrange(i, x.len() as int);
    if i == x.len() {
        assert(sub.len() == 0);
    } else {
        lemma_cd_is_dedup(x, hlen, i + 1, prev);
        lemma_cd_is_dedup(x, hlen, i + 1, Some(x[i]));
        assert(sub.drop_first() =~= x.subrange(i + 1, x.len() as int));
        assert(sub[0] == x[i]);
    }
}

/// No two adjacent elements of a deduplicated stream are equal, and it
/// never starts with `prev`.
pub proof fn lemma_dedup_no_adjacent(x: Seq<u32>, prev: Option<u32>)
    ensures
        forall|i: int|
            1 <= i < dedup_from(x, prev).len() ==> #[trigger] dedup_from(x, prev)[i] != dedup_from(
                x,
                prev,
            )[i - 1],
        dedup_from(x, prev).len() > 0 ==> Some(dedup_from(x, prev)[0]) != prev,
    decreases x.len(),
{
    if x.len() > 0 {
        if Some(x[0]) == prev {
            lemma_dedup_no_adjacent(x.drop_first(), prev);
        } else {
            lemma_dedup_no_adjacent(x.drop_first(), Some(x[0]));
        }
    }
}

/// A stream without adjacent duplicates is a fixed point of `dedup_from`.
pub proof fn lemma_dedup_of_distinct(x: Seq<u32>, prev: Option<u32>)
    requires
        forall|i: int| 1 <= i < x.len() ==> #[trigger] x[i] != x[i - 1],
        x.len() > 0 ==> Some(x[0]) != prev,
    ensures
        dedup_from(x, prev) == x,
    decreases x.len(),
{
    if x.len() > 0 {
        let d = x.drop_first();
        assert forall|i: int| 1 <= i < d.len() implies #[trigger] d[i] != d[i - 1] by {
            assert(x[i + 1] != x[i]);
        }
        lemma_dedup_of_distinct(d, Some(x[0]));
        assert(dedup_from(x, prev) =~= x);
    }
}

/// Deduplication is idempotent: deduplicating an already deduplicated
/// stream changes nothing.  Together with the definition — which keeps the
/// first element of every run, in order — this pins the distinct stream.
pub proof fn lemma_dedup_idempotent(x: Seq<u32>)
    ensures
        dedup_from(dedup_from(x, None), None) == dedup_from(x, None),
{
    lemma_dedup_no_adjacent(x, None);
    lemma_dedup_of_distinct(dedup_from(x, None), None);
}

/// Remove consecutive duplicate values from a vector, in place.
pub fn dedup_vec(v: &mut Vec<u32>)
    ensures
        final(v)@ == dedup_from(old(v)@, None),
{
    let n = v.len();
    let mut out: Vec<u32> = Vec::new();
    proof {
        assert(v@.subrange(0, n as int) =~= v@);
        assert(Seq::<u32>::empty() + dedup_from(v@, None) =~= dedup_from(v@, None));
    }
    let mut i: usize = 0;
    while i < n
        invariant
            0 <= i <= n == v@.len(),
            dedup_from(v@, None) == out@ + dedup_from(v@.subrange(i as int, n as int), last_opt(out@)),
        decreases n - i,
    {
        let ghost pre = v@.subrange(i as int, n as int);
        proof {
            assert(pre.drop_first() =~= v@.subrange(i + 1, n as int));
            assert(pre[0] == v@[i as int]);
        }
        let x = v[i];
        let keep: bool = if out.len() == 0 {
            true
        } else {
            out[out.len() - 1] != x
        };
        if keep {
            out.push(x);
            proof {
                assert(out@.drop_last() + seq![x] =~= out@);
            }
        }
        i += 1;
    }
    proof {
        assert(v@.subrange(n as int, n as int).len() == 0);
        assert(dedup_from(v@, None) == out@ + Seq::<u32>::empty());
        assert(out@ + Seq::<u32>::empty() =~= out@);
    }
    *v = out;
}

/// Append the elements of `vals` whose matching element of `new` differs
/// from its predecessor; the predecessor of lane 0 is the last lane of
/// `prev`.  This is the dedup step the collector applies to each group of
/// eight values.
pub fn append_unique_vals(
    prev: wide::u32x8,
    new: wide::u32x8,
    vals: wide::u32x8,
    v: &mut Vec<u32>,
)
    ensures
        final(v)@ == old(v)@ + unique_vals(lanes(prev)[7], lanes(new), lanes(vals), 0),
{
    let pa = to_array(prev);
    let na = to_array(new);
    let va = to_array(vals);
    let mut i: usize = 0;
    while i < 8
        invariant
            0 <= i <= 8,
            forall|j: int| 0 <= j < 8 ==> pa@[j] == lanes(prev)[j],
            forall|j: int| 0 <= j < 8 ==> na@[j] == lanes(new)[j],
            forall|j: int| 0 <= j < 8 ==> va@[j] == lanes(vals)[j],
            v@ + unique_vals(lanes(prev)[7], lanes(new), lanes(vals), i as int) == old(v)@
                + unique_vals(lanes(prev)[7], lanes(new), lanes(vals), 0),
        decreases 8 - i,
    {
        let pred = if i == 0 {
            pa[7]
        } else {
            na[i - 1]
        };
        if na[i] != pred {
            v.push(va[i]);
            proof {
                assert(v@.drop_last() + (seq![va@[i as int]] + unique_vals(
                    lanes(prev)[7],
                    lanes(new),
                    lanes(vals),
                    i + 1,
                )) =~= v@ + unique_vals(lanes(prev)[7], lanes(new), lanes(vals), i + 1));
            }
        }
        i += 1;
    }
    proof {
        assert((v@ + unique_vals(lanes(prev)[7], lanes(new), lanes(vals), 8)).len() == v@.len());
        assert(v@ + unique_vals(lanes(prev)[7], lanes(new), lanes(vals), 8) =~= v@);
    }
}

/// The values of `vals` kept by the groupwise dedup step, from lane `i` on.
pub open spec fn unique_vals(carry: u32, news: Seq<u32>, vals: Seq<u32>, i: int) -> Seq<u32>
    decreases 8 - i,
{
    if i < 0 || i >= 8 {
        Seq::empty()
    } else {
        let pred = if i == 0 {
            carry
        } else {
            news[i - 1]
        };
        if news[i] != pred {
            seq![vals[i]] + unique_vals(carry, news, vals, i + 1)
        } else {
            unique_vals(carry, news, vals, i + 1)
        }
    }
}

/// Collect an 8-lane head stream and a scalar tail into `out_vec`,
/// dropping every value that repeats its predecessor in the linearised
/// order (and the last value already in `out_vec`).  With `SUPER`, head
/// values are super-encoded with the stream index where their run starts.
pub fn collect_and_dedup_into<const SUPER: bool>(
    head: &Vec<wide::u32x8>,
    tail: &Vec<u32>,
    out_vec: &mut Vec<u32>,
)
    requires
        8 * head@.len() + tail@.len() <= usize::MAX,
    ensures
        final(out_vec)@ == old(out_vec)@ + cd_from(
            linearize(head@, tail@),
            8 * head@.len() as int,
            0,
            last_opt(old(out_vec)@),
            SUPER,
        ),
{
    let mut lin: Vec<u32> = Vec::new();
    collect_into(head, tail, &mut lin);
    let n = lin.len();
    let ghost x = linearize(head@, tail@);
    let hlen = 8 * head.len();
    let mut i: usize = 0;
    while i < n
        invariant
            0 <= i <= n == x.len(),
            lin@ == x,
            hlen == 8 * head@.len(),
            n <= usize::MAX,
            i == 0 ==> out_vec@ == old(out_vec)@,
            out_vec@ + cd_from(x, hlen as int, i as int, last_opt_raw(old(out_vec)@, i as int, x), SUPER)
                == old(out_vec)@ + cd_from(x, hlen as int, 0, last_opt(old(out_vec)@), SUPER),
        decreases n - i,
    {
        let xv = lin[i];
        let keep: bool = if i == 0 {
            if out_vec.len() == 0 {
                true
            } else {
                out_vec[out_vec.len() - 1] != xv
            }
        } else {
            lin[i - 1] != xv
        };
        if keep {
            let e = if SUPER && i < hlen {
                let enc = (((i % 0x10000) as u32) << 16u32) | (xv & 0xffffu32);
                enc
            } else {
                xv
            };
            out_vec.push(e);
            proof {
                assert(out_vec@.drop_last() + (seq![e] + cd_from(
                    x,
                    hlen as int,
                    i + 1,
                    Some(x[i as int]),
                    SUPER,
                )) =~= out_vec@ + cd_from(x, hlen as int, i + 1, Some(x[i as int]), SUPER));
            }
        }
        i += 1;
    }
    proof {
        assert(cd_from(x, hlen as int, n as int, last_opt_raw(old(out_vec)@, n as int, x), SUPER)
            .len() == 0);
        assert(out_vec@ + cd_from(
            x,
            hlen as int,
            n as int,
            last_opt_raw(old(out_vec)@, n as int, x),
            SUPER,
        ) =~= out_vec@);
    }
}

/// The raw value preceding position `i`: the last element already written
/// before this call while `i == 0`, afterwards the previous stream value.
pub open spec fn last_opt_raw(base: Seq<u32>, i: int, x: Seq<u32>) -> Option<u32> {
    if i == 0 {
        last_opt(base)
    } else {
        Some(x[i - 1])
    }
}

/// Convenience wrapper around `collect_and_dedup_into`.
pub fn collect_and_dedup<const SUPER: bool>(input: (Vec<wide::u32x8>, Vec<u32>)) -> (r: Vec<u32>)
    requires
        8 * input.0@.len() + input.1@.len() <= usize::MAX,
    ensures
        r@ == cd_from(linearize(input.0@, input.1@), 8 * input.0@.len() as int, 0, None, SUPER),
{
    let (head, tail) = input;
    let mut v: Vec<u32> = Vec::new();
    collect_and_dedup_into::<SUPER>(&head, &tail, &mut v);
    proof {
        assert(Seq::<u32>::empty() + cd_from(linearize(head@, tail@), 8 * head@.len() as int, 0, None, SUPER)
            =~= cd_from(linearize(head@, tail@), 8 * head@.len() as int, 0, None, SUPER));
    }
    v
}

} // verus!
