use libmtg::prob::{ch, ch_wide, pow};

#[test]
fn pow_values() {
    assert_eq!(pow(2, 0), 1);
    assert_eq!(pow(2, 10), 1024);
    assert_eq!(pow(3, 5), 243);
    assert_eq!(pow(0, 0), 1);
    assert_eq!(pow(0, 3), 0);
    assert_eq!(pow(1, 1000), 1);
    assert_eq!(pow(10, 19), 10_000_000_000_000_000_000);
}

#[test]
fn choose_values() {
    assert_eq!(ch(3, 2), 3);
    assert_eq!(ch(4, 2), 6);
    assert_eq!(ch(60, 7), 386_206_920);
    assert_eq!(ch(52, 5), 2_598_960);
    assert_eq!(ch(66, 33), 7_219_428_434_016_265_740);
    assert_eq!(ch_wide(100, 50), 100_891_344_545_564_193_334_812_497_256);
}

#[test]
fn choose_symmetry_and_bounds() {
    for n in 0..40usize {
        assert_eq!(ch(n, 0), 1);
        assert_eq!(ch(n, n), 1);
        assert_eq!(ch(n, n + 1), 0);
        assert_eq!(ch(n, n + 7), 0);
        for k in 0..=n {
            assert_eq!(ch(n, k), ch(n, n - k));
            assert_eq!(ch_wide(n, k), ch(n, k) as u128);
        }
    }
}

#[test]
fn hypergeometric_terms_add_up() {
    // sum over k0 of C(n0, k0) * C(n1, d - k0) == C(n0 + n1, d)
    for &(n0, n1) in &[(17usize, 43usize), (0, 5), (5, 0), (3, 4), (24, 36)] {
        for d in 0..=(n0 + n1).min(12) {
            let mut sum: u128 = 0;
            for k0 in 0..=d {
                sum += ch_wide(n0, k0) * ch_wide(n1, d - k0);
            }
            assert_eq!(sum, ch_wide(n0 + n1, d));
            let mut p = 0.0f64;
            for k0 in 0..=d {
                p += (ch_wide(n0, k0) * ch_wide(n1, d - k0)) as f64 / ch_wide(n0 + n1, d) as f64;
            }
            assert!((p - 1.0).abs() < 1e-9);
        }
    }
}
