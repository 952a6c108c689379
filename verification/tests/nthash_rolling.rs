use simd_minimizers::bases::revcomp;
use simd_minimizers::nthash::hash_seq_scalar;

fn random_bases(n: usize) -> Vec<u8> {
    (0..n).map(|_| (rand::random::<u32>() % 4) as u8).collect()
}

#[test]
fn nthash_rolling_matches_kmer() {
    // The rolling hash of the whole sequence agrees, window by window,
    // with hashing each k-mer from scratch.
    let seq = random_bases(300);
    for k in [1, 2, 7, 31, 32, 33, 64] {
        let rolling = hash_seq_scalar::<false>(&seq, k);
        for i in 0..rolling.len() {
            let single = hash_seq_scalar::<false>(&seq[i..i + k], k);
            assert_eq!(rolling[i], single[0], "k={k}, i={i}");
        }
    }
}

#[test]
fn canonical_rolling_matches_kmer() {
    let seq = random_bases(300);
    for k in [1, 2, 7, 31, 32, 33, 64] {
        let rolling = hash_seq_scalar::<true>(&seq, k);
        for i in 0..rolling.len() {
            let single = hash_seq_scalar::<true>(&seq[i..i + k], k);
            assert_eq!(rolling[i], single[0], "k={k}, i={i}");
        }
    }
}

#[test]
fn canonical_hash_strand_invariant() {
    // The canonical hash of a k-mer equals that of its reverse complement.
    let seq = random_bases(300);
    let n = seq.len();
    let rc = revcomp(&seq);
    for k in [1, 2, 7, 31, 32, 33] {
        let fwd = hash_seq_scalar::<true>(&seq, k);
        let rev = hash_seq_scalar::<true>(&rc, k);
        for i in 0..fwd.len() {
            assert_eq!(fwd[i], rev[n - k - i], "k={k}, i={i}");
        }
    }
}

#[test]
fn revcomp_involution() {
    let seq = random_bases(100);
    assert_eq!(revcomp(&revcomp(&seq)), seq);
}

#[test]
fn forward_hash_distinguishes_bases() {
    // The four single-base hashes are the fixed table constants: all
    // distinct and non-zero.
    let hs: Vec<u32> = (0..4).map(|b| hash_seq_scalar::<false>(&[b as u8], 1)[0]).collect();
    for i in 0..4 {
        assert_ne!(hs[i], 0);
        for j in 0..i {
            assert_ne!(hs[i], hs[j]);
        }
    }
}
