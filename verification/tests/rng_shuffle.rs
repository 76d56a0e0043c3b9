use ap_project::rng::{deterministic_shuffle, shuffle_order_of, Xorshift};

#[test]
fn xorshift_first_value_from_seed_zero() {
    // seed 0 becomes state 1; 1 -> 8193 -> 8257 -> 8257 * (1 + 2^17)
    let mut rng = Xorshift::new(0);
    assert_eq!(rng.next_u64(), 1_082_269_761);
}

#[test]
fn xorshift_matches_the_shift_register_definition() {
    let mut rng = Xorshift::new(0x5EED);
    let mut x: u64 = 0x5EED | 1;
    for _ in 0..100 {
        x ^= x << 13;
        x ^= x >> 7;
        x ^= x << 17;
        let v = rng.next_u64();
        assert_eq!(v, x);
        assert_ne!(v, 0);
    }
}

#[test]
fn shuffle_order_is_a_reproducible_permutation() {
    for n in 0..40 {
        let a = shuffle_order_of(n, 0x5EED);
        let b = shuffle_order_of(n, 0x5EED);
        assert_eq!(a, b);
        let mut sorted = a.clone();
        sorted.sort();
        assert_eq!(sorted, (0..n).collect::<Vec<usize>>());
    }
}

#[test]
fn shuffle_of_three_rows_with_seed_zero() {
    // first draw 1_082_269_761 is a multiple of 3: positions 2 and 0 swap
    let order = shuffle_order_of(3, 0);
    assert_eq!(order[2], 0);
    let mut sorted = order.clone();
    sorted.sort();
    assert_eq!(sorted, vec![0, 1, 2]);
    assert_eq!(shuffle_order_of(2, 0), vec![0, 1]);
}

#[test]
fn shuffle_moves_rows_and_targets_together() {
    let dim = 3;
    let n = 25;
    let features: Vec<f32> = (0..n * dim).map(|k| k as f32).collect();
    let targets: Vec<f32> = (0..n).map(|r| 1000.0 + r as f32).collect();
    let (f, t) = deterministic_shuffle(&features, &targets, dim, 0x5EED);
    let order = shuffle_order_of(n, 0x5EED);
    assert_eq!(f.len(), n * dim);
    assert_eq!(t.len(), n);
    for r in 0..n {
        let src = order[r];
        assert_eq!(t[r], 1000.0 + src as f32);
        for d in 0..dim {
            assert_eq!(f[r * dim + d], (src * dim + d) as f32);
        }
    }
    let (f2, t2) = deterministic_shuffle(&features, &targets, dim, 0x5EED);
    assert_eq!(f, f2);
    assert_eq!(t, t2);
}
