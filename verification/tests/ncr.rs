use flag_frenzy::ncr::{estimate_combos, ncr};

#[test]
fn normal() {
    assert_eq!(ncr(19, 2), Ok(171));
    assert_eq!(ncr(25, 4), Ok(12_650));
    assert_eq!(ncr(100, 5), Ok(75_287_520));
}

#[test]
fn overflow() {
    assert!(ncr(1000, 50).is_err());
}

#[test]
fn ncr_n_equals_k() {
    // Samples the entire pool, only 1 combo.
    assert_eq!(ncr(100, 100), Ok(1));
}

#[test]
fn ncr_n_less_than_k() {
    // Edge case where you sample more than the original pool size, returns 0.
    assert_eq!(ncr(3, 4), Ok(0));
}

#[test]
fn estimate_sums_binomials() {
    // 1 + 3 + 3 + 1
    assert_eq!(estimate_combos(3, None), Ok(8));
    // 1 + 4
    assert_eq!(estimate_combos(4, Some(1)), Ok(5));
    // A bound above n changes nothing.
    assert_eq!(estimate_combos(3, Some(100)), Ok(8));
    // An empty pool has exactly the empty combination.
    assert_eq!(estimate_combos(0, None), Ok(1));
}

#[test]
fn estimate_propagates_overflow() {
    assert!(estimate_combos(1000, Some(50)).is_err());
}
