use simd_minimizers::anti_lex::{anti_lex_kmer, anti_lex_seq_scalar, anti_lex_seq_simd};
use simd_minimizers::collect::collect;

fn random_bases(n: usize) -> Vec<u8> {
    (0..n).map(|_| (rand::random::<u32>() % 4) as u8).collect()
}

const KS: [usize; 18] = [1, 2, 3, 4, 5, 6, 7, 8, 9, 15, 16, 17, 31, 32, 33, 63, 64, 65];

#[test]
fn scalar_byte() {
    let seq = random_bases(1024);
    for k in KS {
        for len in (0..100).chain(std::iter::once(1024)) {
            let s = &seq[..len];
            let single: Vec<u32> = if len >= k {
                s.windows(k).map(|win| anti_lex_kmer(win)).collect()
            } else {
                vec![]
            };
            let scalar = anti_lex_seq_scalar(s, k);
            assert_eq!(single, scalar, "k={}, len={}", k, len);
        }
    }
}

#[test]
fn parallel_byte() {
    let seq = random_bases(1024);
    for k in KS {
        for len in (0..100).chain(std::iter::once(1024)) {
            let s = &seq[..len];
            let scalar = anti_lex_seq_scalar(s, k);
            let parallel = collect(anti_lex_seq_simd(s, k, 1));
            assert_eq!(scalar, parallel, "k={}, len={}", k, len);
        }
    }
}

#[test]
fn parallel_packed() {
    let seq = random_bases(1024);
    for k in KS {
        for len in (0..100).chain(std::iter::once(1024)) {
            let s = &seq[..len];
            let scalar = anti_lex_seq_scalar(s, k);
            let parallel = collect(anti_lex_seq_simd(s, k, 1));
            assert_eq!(scalar, parallel, "k={}, len={}", k, len);
        }
    }
}

#[test]
fn parallel_iter_byte() {
    let seq = random_bases(1024);
    for k in KS {
        for len in (0..100).chain(std::iter::once(1024)) {
            let s = &seq[..len];
            let scalar = anti_lex_seq_scalar(s, k);
            let (par_head, tail) = anti_lex_seq_simd(s, k, 1);
            let parallel_iter: Vec<u32> = (0..8)
                .flat_map(|j| par_head.iter().map(move |x| x.to_array()[j]))
                .chain(tail)
                .collect();
            assert_eq!(scalar, parallel_iter, "k={}, len={}", k, len);
        }
    }
}

#[test]
fn parallel_iter_packed() {
    let seq = random_bases(1024);
    for k in KS {
        for len in (0..100).chain(std::iter::once(1024)) {
            let s = &seq[..len];
            let scalar = anti_lex_seq_scalar(s, k);
            let (par_head, tail) = anti_lex_seq_simd(s, k, 1);
            let parallel_iter: Vec<u32> = (0..8)
                .flat_map(|j| par_head.iter().map(move |x| x.to_array()[j]))
                .chain(tail)
                .collect();
            assert_eq!(scalar, parallel_iter, "k={}, len={}", k, len);
        }
    }
}

#[test]
fn linearized() {
    let seq = random_bases(1024);
    for k in KS {
        for len in (0..100).chain([973, 1024]) {
            let s = &seq[..len];
            let scalar = anti_lex_seq_scalar(s, k);
            let simd = collect(anti_lex_seq_simd(s, k, 1));
            assert_eq!(scalar, simd, "k={}, len={}", k, len);
        }
    }
}

#[test]
fn anti_lex_rolling_matches_kmer() {
    let seq = random_bases(300);
    for k in [1, 2, 7, 15, 16, 17, 40] {
        let rolling = anti_lex_seq_scalar(&seq, k);
        for i in 0..rolling.len() {
            assert_eq!(rolling[i], anti_lex_kmer(&seq[i..i + k]), "k={k}, i={i}");
        }
    }
}

#[test]
fn anti_lex_known_values() {
    // A two-base k-mer "AC": bits 00 01, top base inverted: 0b1101 = 13.
    assert_eq!(anti_lex_kmer(&[0, 1]), 0b1101);
    // "A" alone: 0b00 ^ 0b11 = 3.
    assert_eq!(anti_lex_kmer(&[0]), 3);
    // "TG": 0b1110 with top base inverted -> 0b0010.
    assert_eq!(anti_lex_kmer(&[3, 2]), 0b0010);
}
