//! Verified computation of minimizers over 2-bit packed DNA sequences.
//!
//! Given a sequence of nucleotides, a k-mer length `k` and a window length
//! `w`, the library returns, for every window of `l = k + w - 1` bases, the
//! absolute position of the k-mer with the smallest hash.  Both a scalar
//! path and an 8-lane SIMD path (over `wide::u32x8`) are provided, together
//! with collectors that linearise the eight lanes back into one stream and
//! optionally deduplicate consecutive equal positions.

pub mod anchors;
pub mod anti_lex;
pub mod bases;
pub mod canonical;
pub mod chunks;
pub mod collect;
pub mod dedup;
pub mod hash_simd;
pub mod min_simd;
pub mod minimizers;
pub mod nthash;
pub mod simd;
pub mod sliding_min;
