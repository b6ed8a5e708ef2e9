use flag_frenzy::combos::Combos;
use flag_frenzy::ncr::ncr;

fn collect_all(mut combos: Combos) -> Vec<Vec<usize>> {
    let mut out = Vec::new();
    while let Some(c) = combos.next() {
        out.push(c);
    }
    out
}

#[test]
fn combos_size() {
    let combos = collect_all(Combos::new(7, 2));

    assert_eq!(combos.len() as u128, ncr(7, 2).unwrap());

    for combo in combos.into_iter() {
        assert_eq!(combo.len(), 2);
    }
}

#[test]
fn combos_small() {
    let mut combos = Combos::new(3, 2);
    let expected = [vec![1, 2], vec![0, 2], vec![0, 1]];

    for combo in expected {
        assert_eq!(combos.next().unwrap(), combo);
    }

    assert!(combos.next().is_none());
}

#[test]
fn combos_n_equals_k() {
    let mut combos = Combos::new(7, 7);
    let expected = vec![0, 1, 2, 3, 4, 5, 6];

    assert_eq!(combos.next().unwrap(), expected);
    assert!(combos.next().is_none());
}

#[test]
fn k_is_zero() {
    let mut combos = Combos::new(2, 0);

    assert_eq!(combos.next().unwrap(), Vec::<usize>::new());
}

#[test]
fn combos_fused_after_end() {
    let mut combos = Combos::new(2, 0);
    assert!(combos.next().is_some());
    assert!(combos.next().is_none());
    assert!(combos.next().is_none());
}

#[test]
fn combos_count_matches_binomial() {
    // |Combos(n, k)| == C(n, k), and every yielded subset is strictly
    // ascending with unique members below n.
    for n in 0..7usize {
        for k in 0..=n {
            let combos = collect_all(Combos::new(n, k));
            assert_eq!(combos.len() as u128, ncr(n as u128, k as u128).unwrap());
            for combo in combos {
                assert_eq!(combo.len(), k);
                for j in 0..combo.len() {
                    assert!(combo[j] < n);
                    if j > 0 {
                        assert!(combo[j - 1] < combo[j]);
                    }
                }
            }
        }
    }
}
