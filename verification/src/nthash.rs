//! The ntHash-style rolling k-mer hash: forward and reverse-complement.
//!
//! The hash of a k-mer `b0 .. b_{k-1}` is
//! `rot(h(b0), k-1) XOR rot(h(b1), k-2) XOR ... XOR h(b_{k-1})`,
//! where `rot` is 32-bit left rotation and `h` maps each base to a fixed
//! 32-bit constant.  The reverse-complement hash of the k-mer is the forward
//! hash of its reverse complement; the canonical hash is the XOR of the two,
//! so it is invariant under reverse complement.
use vstd::prelude::*;

use crate::bases::{base_comp, is_base, revcomp_seq, valid_bases};

verus! {

pub const HASH_A: u32 = 0x3c8bfbb3;

pub const HASH_C: u32 = 0x3193c185;

pub const HASH_G: u32 = 0x20323ed0;

pub const HASH_T: u32 = 0x295549f5;

/// The fixed per-base hash constant.
pub open spec fn hchar(b: u8) -> u32 {
    if b == 0 {
        HASH_A
    } else if b == 1 {
        HASH_C
    } else if b == 2 {
        HASH_G
    } else {
        HASH_T
    }
}

/// The hash constant of the complement of a base.
pub open spec fn hchar_c(b: u8) -> u32 {
    hchar(base_comp(b))
}

/// 32-bit left rotation by one.
pub open spec fn rotl1(x: u32) -> u32 {
    (x << 1u32) | (x >> 31u32)
}

/// 32-bit right rotation by one.
pub open spec fn rotr1(x: u32) -> u32 {
    (x >> 1u32) | (x << 31u32)
}

/// 32-bit left rotation by `n`.
pub open spec fn rotl(x: u32, n: nat) -> u32
    decreases n,
{
    if n == 0 {
        x
    } else {
        rotl1(rotl(x, (n - 1) as nat))
    }
}

/// The forward ntHash of the k-mer `s[i .. i+k)`.
pub open spec fn nt_fw(s: Seq<u8>, i: int, k: int) -> u32
    decreases k,
{
    if k <= 0 {
        0
    } else {
        rotl1(nt_fw(s, i, k - 1)) ^ hchar(s[i + k - 1])
    }
}

/// The reverse-complement ntHash of the k-mer `s[i .. i+k)`: the forward
/// ntHash of the reverse complement of that k-mer.
pub open spec fn nt_rc(s: Seq<u8>, i: int, k: int) -> u32
    decreases k,
{
    if k <= 0 {
        0
    } else {
        rotl1(nt_rc(s, i + 1, k - 1)) ^ hchar_c(s[i])
    }
}

/// The canonical ntHash: XOR of the forward and reverse-complement hashes.
pub open spec fn nt_canon(s: Seq<u8>, i: int, k: int) -> u32 {
    nt_fw(s, i, k) ^ nt_rc(s, i, k)
}

/// The k-mer hash used by the pipelines: forward or canonical.
pub open spec fn nthash(s: Seq<u8>, i: int, k: int, canonical: bool) -> u32 {
    if canonical {
        nt_canon(s, i, k)
    } else {
        nt_fw(s, i, k)
    }
}

/// Rotating left by `n < 32` is the usual shift-or formula.
pub proof fn lemma_rotl_shift(x: u32, n: nat)
    requires
        n < 32,
    ensures
        n == 0 ==> rotl(x, n) == x,
        n != 0 ==> rotl(x, n) == ((x << (n as u32)) | (x >> ((32 - n) as u32))),
    decreases n,
{
    if n != 0 {
        lemma_rotl_shift(x, (n - 1) as nat);
        let m = (n - 1) as u32;
        if m == 0 {
            assert(rotl1(x) == (x << 1u32) | (x >> 31u32));
        } else {
            assert(rotl1((x << m) | (x >> ((32 - m) as u32))) == ((x << ((m + 1) as u32)) | (x
                >> ((31 - m) as u32)))) by (bit_vector)
                requires
                    0 < m < 31,
            ;
        }
    }
}

/// Rotating left by 32 more is the same rotation.
pub proof fn lemma_rotl_plus32(x: u32, n: nat)
    ensures
        rotl(x, n + 32) == rotl(x, n),
    decreases n,
{
    if n == 0 {
        lemma_rotl_shift(x, 31);
        let y = rotl(x, 31);
        assert(rotl1((x << 31u32) | (x >> 1u32)) == x) by (bit_vector);
    } else {
        lemma_rotl_plus32(x, (n - 1) as nat);
    }
}

/// Rotation counts matter only modulo 32.
pub proof fn lemma_rotl_mod(x: u32, n: nat)
    ensures
        rotl(x, n) == rotl(x, n % 32),
    decreases n,
{
    if n >= 32 {
        lemma_rotl_plus32(x, (n - 32) as nat);
        lemma_rotl_mod(x, (n - 32) as nat);
        assert((n - 32) % 32 == n % 32) by {
            vstd::arithmetic::div_mod::lemma_mod_sub_multiples_vanish(n as int, 32);
        }
    }
}

/// One rolling step of the forward hash: drop `s[i]`, add `s[i+k]`.
pub proof fn lemma_nt_fw_roll(s: Seq<u8>, i: int, k: int)
    requires
        k >= 1,
    ensures
        nt_fw(s, i + 1, k) == rotl1(nt_fw(s, i, k)) ^ rotl(hchar(s[i]), k as nat) ^ hchar(
            s[i + k],
        ),
    decreases k,
{
    if k == 1 {
        let h0 = hchar(s[i]);
        let h1 = hchar(s[i + 1]);
        assert(nt_fw(s, i, 0) == 0);
        assert(nt_fw(s, i + 1, 0) == 0);
        assert(nt_fw(s, i, 1) == rotl1(0u32) ^ h0);
        assert(nt_fw(s, i + 1, 1) == rotl1(0u32) ^ h1);
        assert(rotl(h0, 1) == rotl1(rotl(h0, 0)));
        assert(rotl1(0u32) ^ h1 == rotl1(rotl1(0u32) ^ h0) ^ rotl1(h0) ^ h1) by (bit_vector);
    } else {
        lemma_nt_fw_roll(s, i, k - 1);
        let a = nt_fw(s, i, k - 1);
        let h0 = hchar(s[i]);
        let rk = rotl(h0, (k - 1) as nat);
        let b = hchar(s[i + k - 1]);
        let c = hchar(s[i + k]);
        assert(nt_fw(s, i + 1, k - 1) == rotl1(a) ^ rk ^ b);
        assert(nt_fw(s, i + 1, k) == rotl1(rotl1(a) ^ rk ^ b) ^ c);
        assert(nt_fw(s, i, k) == rotl1(a) ^ b);
        assert(rotl(h0, k as nat) == rotl1(rotl(h0, (k as nat - 1) as nat)));
        assert((k as nat - 1) as nat == (k - 1) as nat);
        assert(rotl1(rotl1(a) ^ rk ^ b) ^ c == rotl1(rotl1(a) ^ b) ^ rotl1(rk) ^ c)
            by (bit_vector);
    }
}

/// The reverse-complement hash grows at the right end with rotation `k-1`.
pub proof fn lemma_nt_rc_append(s: Seq<u8>, i: int, k: int)
    requires
        k >= 1,
    ensures
        nt_rc(s, i, k) == nt_rc(s, i, k - 1) ^ rotl(hchar_c(s[i + k - 1]), (k - 1) as nat),
    decreases k,
{
    if k == 1 {
        let b = hchar_c(s[i]);
        assert(nt_rc(s, i + 1, 0) == 0);
        assert(nt_rc(s, i, 0) == 0);
        assert(nt_rc(s, i, 1) == rotl1(0u32) ^ b);
        assert(rotl1(0u32) ^ b == 0u32 ^ rotl(b, 0)) by (bit_vector)
            requires
                rotl(b, 0) == b,
        ;
    } else {
        lemma_nt_rc_append(s, i + 1, k - 1);
        let a = nt_rc(s, i + 1, k - 2);
        let hl = hchar_c(s[i + k - 1]);
        let r = rotl(hl, (k - 2) as nat);
        let b = hchar_c(s[i]);
        assert(nt_rc(s, i + 1, k - 1) == a ^ r);
        assert(nt_rc(s, i, k) == rotl1(a ^ r) ^ b);
        assert(nt_rc(s, i, k - 1) == rotl1(a) ^ b);
        assert(rotl(hl, (k - 1) as nat) == rotl1(rotl(hl, ((k - 1) as nat - 1) as nat)));
        assert(((k - 1) as nat - 1) as nat == (k - 2) as nat);
        assert(rotl1(a ^ r) ^ b == (rotl1(a) ^ b) ^ rotl1(r)) by (bit_vector);
    }
}

/// One rolling step of the reverse-complement hash.
pub proof fn lemma_nt_rc_roll(s: Seq<u8>, i: int, k: int)
    requires
        k >= 1,
    ensures
        nt_rc(s, i + 1, k) == rotr1(nt_rc(s, i, k) ^ hchar_c(s[i])) ^ rotl(
            hchar_c(s[i + k]),
            (k - 1) as nat,
        ),
{
    lemma_nt_rc_append(s, i + 1, k);
    let x = nt_rc(s, i + 1, k - 1);
    let b = hchar_c(s[i]);
    assert(nt_rc(s, i, k) == rotl1(x) ^ b);
    assert(nt_rc(s, i + 1, k) == x ^ rotl(hchar_c(s[i + k]), (k - 1) as nat));
    assert(rotr1((rotl1(x) ^ b) ^ b) == x) by (bit_vector);
}

/// Two k-mers with the same bases have the same forward hash.
pub proof fn lemma_nt_fw_shift(s: Seq<u8>, u: Seq<u8>, i: int, j: int, k: int)
    requires
        forall|t: int| 0 <= t < k ==> #[trigger] u[j + t] == s[i + t],
    ensures
        nt_fw(u, j, k) == nt_fw(s, i, k),
    decreases k,
{
    if k > 0 {
        lemma_nt_fw_shift(s, u, i, j, k - 1);
        assert(u[j + (k - 1)] == s[i + (k - 1)]);
    }
}

/// Two k-mers with the same bases have the same reverse-complement hash.
pub proof fn lemma_nt_rc_shift(s: Seq<u8>, u: Seq<u8>, i: int, j: int, k: int)
    requires
        forall|t: int| 0 <= t < k ==> #[trigger] u[j + t] == s[i + t],
    ensures
        nt_rc(u, j, k) == nt_rc(s, i, k),
    decreases k,
{
    if k > 0 {
        assert forall|t: int| 0 <= t < k - 1 implies #[trigger] u[j + 1 + t] == s[i + 1 + t] by {
            assert(u[j + (t + 1)] == s[i + (t + 1)]);
        }
        lemma_nt_rc_shift(s, u, i + 1, j + 1, k - 1);
        assert(u[j + 0] == s[i + 0]);
    }
}

/// Two k-mers with the same bases have the same hash, forward or canonical.
pub proof fn lemma_nthash_shift(s: Seq<u8>, u: Seq<u8>, i: int, j: int, k: int, canonical: bool)
    requires
        forall|t: int| 0 <= t < k ==> #[trigger] u[j + t] == s[i + t],
    ensures
        nthash(u, j, k, canonical) == nthash(s, i, k, canonical),
{
    lemma_nt_fw_shift(s, u, i, j, k);
    if canonical {
        lemma_nt_rc_shift(s, u, i, j, k);
    }
}

/// The forward hash of a k-mer of the reverse complement is the
/// reverse-complement hash of the mirrored k-mer.
pub proof fn lemma_nt_fw_revcomp(s: Seq<u8>, j: int, k: int)
    requires
        0 <= j,
        k >= 0,
        j + k <= s.len(),
    ensures
        nt_fw(revcomp_seq(s), j, k) == nt_rc(s, s.len() - k - j, k),
    decreases k,
{
    if k > 0 {
        lemma_nt_fw_revcomp(s, j, k - 1);
        let rc = revcomp_seq(s);
        let n = s.len() as int;
        let i = n - k - j;
        assert(rc[j + k - 1] == base_comp(s[n - 1 - (j + k - 1)]));
        assert(n - 1 - (j + k - 1) == i);
        assert(nt_fw(rc, j, k) == rotl1(nt_fw(rc, j, k - 1)) ^ hchar(rc[j + k - 1]));
        assert(nt_rc(s, i, k) == rotl1(nt_rc(s, i + 1, k - 1)) ^ hchar_c(s[i]));
    }
}

/// The reverse-complement hash of a k-mer of the reverse complement is the
/// forward hash of the mirrored k-mer.
pub proof fn lemma_nt_rc_revcomp(s: Seq<u8>, j: int, k: int)
    requires
        0 <= j,
        k >= 0,
        j + k <= s.len(),
    ensures
        nt_rc(revcomp_seq(s), j, k) == nt_fw(s, s.len() - k - j, k),
{
    let rc = revcomp_seq(s);
    crate::bases::lemma_revcomp_involution(s);
    lemma_nt_fw_revcomp(rc, s.len() - k - j, k);
}

/// The canonical hash is invariant under reverse complement: the k-mer at
/// `j` of the reverse complement hashes like the mirrored k-mer of `s`.
pub proof fn lemma_nt_canon_revcomp(s: Seq<u8>, j: int, k: int)
    requires
        0 <= j,
        k >= 0,
        j + k <= s.len(),
    ensures
        nt_canon(revcomp_seq(s), j, k) == nt_canon(s, s.len() - k - j, k),
{
    lemma_nt_fw_revcomp(s, j, k);
    lemma_nt_rc_revcomp(s, j, k);
    let a = nt_fw(s, s.len() - k - j, k);
    let b = nt_rc(s, s.len() - k - j, k);
    assert(b ^ a == a ^ b) by (bit_vector);
}

/// The ntHash of a window, read on the window itself, agrees with the
/// rolling hash read on the whole sequence at the window's start.
pub proof fn lemma_nthash_window(s: Seq<u8>, i: int, k: int, canonical: bool)
    requires
        0 <= i,
        k >= 1,
        i + k <= s.len(),
    ensures
        nthash(s.subrange(i, i + k), 0, k, canonical) == nthash(s, i, k, canonical),
{
    lemma_nthash_shift(s, s.subrange(i, i + k), i, 0, k, canonical);
}

/// 32-bit left rotation by one.
pub fn rotl1_exec(x: u32) -> (r: u32)
    ensures
        r == rotl1(x),
{
    (x << 1u32) | (x >> 31u32)
}

/// 32-bit right rotation by one.
pub fn rotr1_exec(x: u32) -> (r: u32)
    ensures
        r == rotr1(x),
{
    (x >> 1u32) | (x << 31u32)
}

/// 32-bit left rotation by an arbitrary count (taken modulo 32).
pub fn rotl_exec(x: u32, n: usize) -> (r: u32)
    ensures
        r == rotl(x, n as nat),
{
    let m: u32 = (n % 32) as u32;
    proof {
        lemma_rotl_mod(x, n as nat);
        lemma_rotl_shift(x, m as nat);
    }
    if m == 0 {
        x
    } else {
        (x << m) | (x >> (32 - m))
    }
}

/// The per-base hash constants, indexed by base value.
pub fn base_table() -> (t: [u32; 4])
    ensures
        forall|b: u8| b < 4 ==> t@[b as int] == hchar(b),
        forall|b: int| 0 <= b < 4 ==> t@[b] == hchar(b as u8),
{
    let t = [HASH_A, HASH_C, HASH_G, HASH_T];
    proof {
        assert forall|b: u8| b < 4 implies t@[b as int] == hchar(b) by {
            if b == 0 {
            } else if b == 1 {
            } else if b == 2 {
            } else {
                assert(b == 3);
            }
        }
    }
    t
}

/// The per-base hash constants of the complement base, indexed by base value.
pub fn comp_table() -> (t: [u32; 4])
    ensures
        forall|b: u8| b < 4 ==> t@[b as int] == hchar_c(b),
        forall|b: int| 0 <= b < 4 ==> t@[b] == hchar_c(b as u8),
{
    let t = [HASH_T, HASH_G, HASH_C, HASH_A];
    proof {
        assert forall|b: u8| b < 4 implies t@[b as int] == hchar_c(b) by {
            assert(base_comp(0) == 3 && base_comp(1) == 2 && base_comp(2) == 1 && base_comp(3)
                == 0) by (bit_vector);
            if b == 0 {
            } else if b == 1 {
            } else if b == 2 {
            } else {
                assert(b == 3);
            }
        }
    }
    t
}

/// A table rotated left by `n`, element by element.
pub fn rotate_table(t: &[u32; 4], n: usize) -> (r: [u32; 4])
    ensures
        forall|j: int| 0 <= j < 4 ==> r@[j] == rotl(t@[j], n as nat),
{
    [rotl_exec(t[0], n), rotl_exec(t[1], n), rotl_exec(t[2], n), rotl_exec(t[3], n)]
}

/// The hashes of all k-mers of `s`, in order: entry `q` is the hash of the
/// k-mer starting at `q`.  With `CANONICAL` the canonical (strand-invariant)
/// hash is produced, otherwise the forward hash.
pub fn hash_seq_scalar<const CANONICAL: bool>(s: &[u8], k: usize) -> (r: Vec<u32>)
    requires
        k >= 1,
        valid_bases(s@),
    ensures
        r@.len() == crate::bases::n_kmers(s@.len() as int, k as int),
        forall|q: int| 0 <= q < r@.len() ==> r@[q] == nthash(s@, q, k as int, CANONICAL),
{
    let n = s.len();
    let mut out: Vec<u32> = Vec::new();
    if n < k {
        return out;
    }
    let tab = base_table();
    let tabc = comp_table();
    let rot_fw = rotate_table(&tab, k);
    let rot_rc = rotate_table(&tabc, k - 1);

    let mut hfw: u32 = 0;
    let mut hrc: u32 = 0;
    let mut t: usize = 0;
    while t < k
        invariant
            0 <= t <= k,
            k <= n == s@.len(),
            valid_bases(s@),
            hfw == nt_fw(s@, 0, t as int),
            forall|b: u8| b < 4 ==> tab@[b as int] == hchar(b),
        decreases k - t,
    {
        hfw = rotl1_exec(hfw) ^ tab[s[t] as usize];
        t += 1;
    }
    if CANONICAL {
        let mut j: usize = k;
        while j > 0
            invariant
                0 <= j <= k,
                k <= n == s@.len(),
                valid_bases(s@),
                hrc == nt_rc(s@, j as int, (k - j) as int),
                forall|b: u8| b < 4 ==> tabc@[b as int] == hchar_c(b),
            decreases j,
        {
            j -= 1;
            hrc = rotl1_exec(hrc) ^ tabc[s[j] as usize];
        }
    }
    out.push(if CANONICAL {
        hfw ^ hrc
    } else {
        hfw
    });
    let mut t: usize = k;
    while t < n
        invariant
            k <= t <= n == s@.len(),
            k >= 1,
            valid_bases(s@),
            hfw == nt_fw(s@, t - k, k as int),
            CANONICAL ==> hrc == nt_rc(s@, t - k, k as int),
            out@.len() == t - k + 1,
            forall|q: int| 0 <= q < out@.len() ==> out@[q] == nthash(s@, q, k as int, CANONICAL),
            forall|b: u8| b < 4 ==> tab@[b as int] == hchar(b),
            forall|b: u8| b < 4 ==> tabc@[b as int] == hchar_c(b),
            forall|j: int| 0 <= j < 4 ==> rot_fw@[j] == rotl(tab@[j], k as nat),
            forall|j: int| 0 <= j < 4 ==> rot_rc@[j] == rotl(tabc@[j], (k - 1) as nat),
        decreases n - t,
    {
        proof {
            lemma_nt_fw_roll(s@, t - k, k as int);
        }
        hfw = rotl1_exec(hfw) ^ rot_fw[s[t - k] as usize] ^ tab[s[t] as usize];
        if CANONICAL {
            proof {
                lemma_nt_rc_roll(s@, t - k, k as int);
            }
            hrc = rotr1_exec(hrc ^ tabc[s[t - k] as usize]) ^ rot_rc[s[t] as usize];
        }
        out.push(if CANONICAL {
            hfw ^ hrc
        } else {
            hfw
        });
        t += 1;
    }
    out
}

} // verus!
