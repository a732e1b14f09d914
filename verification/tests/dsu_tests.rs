use qcu::dsu::UnionFind;

#[test]
fn singletons_after_init() {
    let mut dsu = UnionFind::new(4);
    for i in 0..4 {
        assert_eq!(dsu.find(i), i);
        assert!(!dsu.parity_bit(i));
    }
}

#[test]
fn union_merges_and_reports() {
    let mut dsu = UnionFind::new(4);
    assert!(dsu.union(0, 1));
    assert!(!dsu.union(0, 1));
    assert_eq!(dsu.find(0), dsu.find(1));
    assert_ne!(dsu.find(0), dsu.find(2));
    assert!(dsu.union(1, 2));
    assert_eq!(dsu.find(2), dsu.find(0));
}

#[test]
fn find_is_idempotent() {
    let mut dsu = UnionFind::new(6);
    dsu.union(0, 1);
    dsu.union(2, 3);
    dsu.union(1, 3);
    dsu.union(4, 5);
    let r1 = dsu.find(0);
    let r2 = dsu.find(0);
    assert_eq!(r1, r2);
    assert_eq!(dsu.find(r1), r1);
}

#[test]
fn toggle_parity_flips_cluster_bit() {
    let mut dsu = UnionFind::new(4);
    dsu.toggle_parity(0);
    let r0 = dsu.find(0);
    assert!(dsu.parity_bit(r0));
    dsu.toggle_parity(0);
    let r0b = dsu.find(0);
    assert!(!dsu.parity_bit(r0b));
}

#[test]
fn toggles_accumulate_modulo_two() {
    // Three toggles spread over one cluster leave its bit at 3 mod 2.
    let mut dsu = UnionFind::new(4);
    dsu.union(0, 1);
    dsu.union(1, 2);
    dsu.toggle_parity(0);
    dsu.toggle_parity(1);
    dsu.toggle_parity(2);
    let r = dsu.find(0);
    assert!(dsu.parity_bit(r));
    dsu.toggle_parity(2);
    let r2 = dsu.find(0);
    assert!(!dsu.parity_bit(r2));
}

#[test]
fn union_xors_parities() {
    let mut dsu = UnionFind::new(4);
    dsu.toggle_parity(0);
    dsu.toggle_parity(1);
    // odd + odd -> even
    dsu.union(0, 1);
    let r = dsu.find(0);
    assert!(!dsu.parity_bit(r));
    // even + odd -> odd
    dsu.toggle_parity(2);
    dsu.union(0, 2);
    let r2 = dsu.find(2);
    assert!(dsu.parity_bit(r2));
}

#[test]
fn set_parity_writes_cluster_bit() {
    let mut dsu = UnionFind::new(4);
    dsu.set_parity(1, true);
    let r = dsu.find(1);
    assert!(dsu.parity_bit(r));
    dsu.set_parity(1, false);
    let rb = dsu.find(1);
    assert!(!dsu.parity_bit(rb));
}

#[test]
fn reset_restores_singletons() {
    let mut dsu = UnionFind::new(4);
    dsu.union(0, 1);
    dsu.toggle_parity(2);
    dsu.reset(4);
    for i in 0..4 {
        assert_eq!(dsu.find(i), i);
        assert!(!dsu.parity_bit(i));
    }
}
