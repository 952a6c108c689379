use simd_minimizers::anchors::{AntiLex, BdAnchor, Lex, SamplingScheme, SusAnchor};

#[test]
fn bd_anchor_smallest_rotation() {
    let bd = BdAnchor::new(4, 0);
    assert_eq!(bd.l(), 4);
    // Rotations of [1,0,2,0]: 1020, 0201, 2010, 0102 -> index 3 smallest.
    assert_eq!(bd.sample(&[1, 0, 2, 0]), 3);
    // All equal bytes: rotation 0 wins.
    assert_eq!(bd.sample(&[7, 7, 7, 7]), 0);
}

#[test]
fn bd_anchor_reduction() {
    // With r = 2 only the first w - r = 2 rotations compete.
    let bd = BdAnchor::new(4, 2);
    assert_eq!(bd.sample(&[1, 0, 2, 0]), 1);
}

#[test]
fn sus_anchor_lex() {
    let sus = SusAnchor::new(4, 1, Lex, false);
    assert_eq!(sus.l(), 4);
    // Suffixes of [1,0,2,0]: 1020, 020, 20, 0 -> the bare "0" wins.
    assert_eq!(sus.sample(&[1, 0, 2, 0]), 3);
}

#[test]
fn sus_anchor_anti_lex() {
    let sus = SusAnchor::new(4, 1, AntiLex, false);
    // Keys invert the first byte: 254..., 255..., 253..., 255 -> suffix 2.
    assert_eq!(sus.sample(&[1, 0, 2, 0]), 2);
}

#[test]
fn sus_anchor_modulo() {
    let sus = SusAnchor::new(4, 1, Lex, true);
    // The all-zero window short-circuits to 1.
    assert_eq!(sus.sample(&[0, 0, 0, 0]), 1);
    let sus2 = SusAnchor::new(3, 2, Lex, true);
    assert_eq!(sus2.l(), 4);
    // t = (k-1) % w + 1 = 2; candidates are suffixes 0, 1, 2 of [1,0,2,0]:
    // 1020, 020, 20 -> suffix 1; 1 % 3 == 1.
    assert_eq!(sus2.sample(&[1, 0, 2, 0]), 1);
}
