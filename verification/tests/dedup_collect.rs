use simd_minimizers::collect::{collect, collect_into};
use simd_minimizers::dedup::{append_unique_vals, collect_and_dedup, dedup_vec};
use wide::u32x8;

#[test]
fn dedup() {
    let len: u32 = 200_000;
    for max in [len / 10, len / 3, len, len * 3, len * 10] {
        let mut v: Vec<u32> = (0..len).map(|_| rand::random::<u32>() % max).collect();
        v.sort();

        let mut v2 = v.clone();
        v2.dedup();

        let mut v3 = v.clone();
        dedup_vec(&mut v3);
        assert_eq!(v2, v3, "Failure for\n      : {v:?}");
    }
}

#[test]
fn dedup_vec_idempotent() {
    let mut v: Vec<u32> = vec![1, 1, 2, 2, 2, 3, 1, 1];
    dedup_vec(&mut v);
    assert_eq!(v, vec![1, 2, 3, 1]);
    let once = v.clone();
    dedup_vec(&mut v);
    assert_eq!(v, once);
}

#[test]
fn collect_and_dedup_stream() {
    let head: Vec<u32x8> = vec![];
    let tail: Vec<u32> = vec![1, 1, 2, 2, 2, 3, 1, 1];
    let out = collect_and_dedup::<false>((head, tail));
    assert_eq!(out, vec![1, 2, 3, 1]);
}

#[test]
fn collect_and_dedup_lanes() {
    // Two steps of eight lanes: lane j carries [10*j, 10*j] — every lane
    // collapses to one value, and lane boundaries stay distinct.
    let v0 = u32x8::new([0, 10, 20, 30, 40, 50, 60, 70]);
    let v1 = u32x8::new([0, 10, 20, 30, 40, 50, 60, 70]);
    let out = collect_and_dedup::<false>((vec![v0, v1], vec![70, 80]));
    assert_eq!(out, vec![0, 10, 20, 30, 40, 50, 60, 70, 80]);
}

#[test]
fn collect_order() {
    let v0 = u32x8::new([1, 2, 3, 4, 5, 6, 7, 8]);
    let v1 = u32x8::new([11, 12, 13, 14, 15, 16, 17, 18]);
    let out = collect((vec![v0, v1], vec![90, 91]));
    assert_eq!(
        out,
        vec![1, 11, 2, 12, 3, 13, 4, 14, 5, 15, 6, 16, 7, 17, 8, 18, 90, 91]
    );
}

#[test]
fn collect_into_replaces() {
    let v0 = u32x8::new([1, 2, 3, 4, 5, 6, 7, 8]);
    let mut out: Vec<u32> = vec![99, 98];
    collect_into(&vec![v0], &vec![42], &mut out);
    assert_eq!(out, vec![1, 2, 3, 4, 5, 6, 7, 8, 42]);
}

#[test]
fn append_unique_vals_groups() {
    let prev = u32x8::new([0, 0, 0, 0, 0, 0, 0, 5]);
    let new = u32x8::new([5, 5, 6, 6, 7, 7, 7, 8]);
    let vals = u32x8::new([100, 101, 102, 103, 104, 105, 106, 107]);
    let mut v: Vec<u32> = vec![];
    append_unique_vals(prev, new, vals, &mut v);
    // Lane 0 equals the carry 5 and is dropped; each later value is kept
    // only where it differs from its left neighbour.
    assert_eq!(v, vec![102, 104, 107]);
}

#[test]
fn collect_and_dedup_super_encoding() {
    // One group of eight equal values in lane order 0..8, all distinct:
    // every element is kept; head values are (index << 16) | low-16.
    let v0 = u32x8::new([3, 3, 4, 4, 4, 9, 9, 9]);
    let out = collect_and_dedup::<true>((vec![v0], vec![]));
    // Linearised head stream: [3,3,4,4,4,9,9,9] at indices 0..8.
    assert_eq!(out, vec![3, (2 << 16) | 4, (5 << 16) | 9]);
}
