use simd_minimizers::bases::revcomp;
use simd_minimizers::collect::collect;
use simd_minimizers::minimizers::{canonical_minimizers_seq_scalar, canonical_minimizers_seq_simd,
    minimizer, minimizers_seq_scalar, minimizers_seq_simd};

fn to_bases(s: &str) -> Vec<u8> {
    s.bytes()
        .map(|c| match c {
            b'A' => 0u8,
            b'C' => 1,
            b'G' => 2,
            b'T' => 3,
            _ => panic!("not a nucleotide"),
        })
        .collect()
}

fn random_bases(n: usize) -> Vec<u8> {
    (0..n).map(|_| (rand::random::<u32>() % 4) as u8).collect()
}

fn naive_minimizers(s: &[u8], k: usize, w: usize) -> Vec<u32> {
    let l = k + w - 1;
    if s.len() < l {
        return vec![];
    }
    (0..s.len() - l + 1)
        .map(|i| (i + minimizer(&s[i..i + l], k)) as u32)
        .collect()
}

#[test]
fn minimizers_fwd() {
    let seq = random_bases(4096);
    for k in [1, 2, 3, 4, 5, 31, 32, 33, 63, 64, 65] {
        for w in [1, 2, 3, 4, 5, 31, 32, 33, 63, 64, 65] {
            for len in (0..100).chain(std::iter::once(4096)) {
                let s = &seq[..len];
                let naive = naive_minimizers(s, k, w);
                let scalar = minimizers_seq_scalar(s, k, w);
                let simd = collect(minimizers_seq_simd(s, k, w));
                assert_eq!(naive, scalar, "k={k}, w={w}, len={len}");
                assert_eq!(naive, simd, "k={k}, w={w}, len={len}");
            }
        }
    }
}

#[test]
fn minimizers_canonical() {
    let seq = random_bases(4096);
    for k in [1, 2, 3, 4, 5, 31, 32, 33, 63, 64, 65] {
        for w in [1, 2, 3, 4, 5, 31, 32, 33, 63, 64, 65] {
            if (k + w - 1) % 2 != 1 {
                continue;
            }
            for len in (0..100).chain(std::iter::once(4096)) {
                let s = &seq[..len];
                let scalar = canonical_minimizers_seq_scalar(s, k, w);
                let simd = collect(canonical_minimizers_seq_simd(s, k, w));
                assert_eq!(scalar, simd, "k={k}, w={w}, len={len}");
            }
        }
    }
}

#[test]
fn scenario_acgtacgt_k3_w2() {
    let s = to_bases("ACGTACGT");
    let k = 3;
    let w = 2;
    let out = minimizers_seq_scalar(&s, k, w);
    assert_eq!(out.len(), 5);
    for (i, &p) in out.iter().enumerate() {
        let best = i + minimizer(&s[i..i + k + w - 1], k);
        assert_eq!(p as usize, best);
        assert!(i <= p as usize && p as usize <= i + w - 1);
    }
    let simd = collect(minimizers_seq_simd(&s, k, w));
    assert_eq!(out, simd);
}

#[test]
fn scenario_all_a_k3_w3() {
    let s = to_bases("AAAAAAAA");
    let out = minimizers_seq_scalar(&s, 3, 3);
    assert_eq!(out, vec![0, 1, 2, 3]);
}

#[test]
fn scenario_acgtac_k4_w1() {
    let s = to_bases("ACGTAC");
    let out = minimizers_seq_scalar(&s, 4, 1);
    assert_eq!(out, vec![0, 1, 2]);
}

#[test]
fn scenario_random_equivalence() {
    let seq = random_bases(1024);
    for k in [1, 15, 16, 17, 33] {
        for w in [1, 2, 32, 65] {
            let naive = naive_minimizers(&seq, k, w);
            let scalar = minimizers_seq_scalar(&seq, k, w);
            let simd = collect(minimizers_seq_simd(&seq, k, w));
            assert_eq!(naive, scalar, "k={k}, w={w}");
            assert_eq!(naive, simd, "k={k}, w={w}");
        }
    }
}

#[test]
fn scenario_canonical_symmetry() {
    let s = to_bases("ACGTACGT");
    let k = 3;
    let w = 3;
    let l = k + w - 1;
    assert_eq!(l % 2, 1);
    let n = s.len();
    let fwd = canonical_minimizers_seq_scalar(&s, k, w);
    let simd = collect(canonical_minimizers_seq_simd(&s, k, w));
    assert_eq!(fwd, simd);
    let rc = revcomp(&s);
    let rev = canonical_minimizers_seq_scalar(&rc, k, w);
    let t = n - l + 1;
    assert_eq!(fwd.len(), t);
    for i in 0..t {
        assert_eq!(
            fwd[i] as usize + rev[t - 1 - i] as usize,
            n - k,
            "window {i}: {} + {}",
            fwd[i],
            rev[t - 1 - i]
        );
    }
}

#[test]
fn canonical_symmetry_random() {
    let seq = random_bases(256);
    for (k, w) in [(3usize, 3usize), (5, 3), (4, 2), (16, 2), (31, 3)] {
        let l = k + w - 1;
        assert_eq!(l % 2, 1);
        let n = seq.len();
        let fwd = canonical_minimizers_seq_scalar(&seq, k, w);
        let rc = revcomp(&seq);
        let rev = canonical_minimizers_seq_scalar(&rc, k, w);
        let t = n - l + 1;
        for i in 0..t {
            assert_eq!(fwd[i] as usize + rev[t - 1 - i] as usize, n - k, "k={k} w={w} i={i}");
        }
    }
}
