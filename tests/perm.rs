use libmtg::perm::{mc_next, MultiSubSetIterator};

#[test]
fn test_gen() {
    let mut it = MultiSubSetIterator::new(&vec![2, 4, 1], 2);
    let mut all = Vec::new();
    while let Some(a) = it.next() {
        println!("{:?}", a);
        all.push(a);
    }

    println!("---------------------------------------------------");
    assert_eq!(
        all,
        vec![
            vec![2, 0, 0],
            vec![1, 1, 0],
            vec![0, 2, 0],
            vec![1, 0, 1],
            vec![0, 1, 1],
        ]
    );
}

#[test]
fn sub_multisets_respect_counts() {
    let ns = vec![3, 0, 2, 5];
    for k in 0..=11usize {
        let mut it = MultiSubSetIterator::new(&ns, k);
        let mut seen: Vec<Vec<usize>> = Vec::new();
        while let Some(a) = it.next() {
            assert_eq!(a.len(), 4);
            assert_eq!(a.iter().sum::<usize>(), k);
            for j in 0..4 {
                assert!(a[j] <= ns[j]);
            }
            assert!(!seen.contains(&a));
            seen.push(a);
        }
        let mut expected = 0;
        for a in 0..=3usize {
            for c in 0..=2usize {
                if a + c <= k && k - a - c <= 5 {
                    expected += 1;
                }
            }
        }
        assert_eq!(seen.len(), expected);
        assert!(it.next().is_none());
    }
}

#[test]
fn multiset_combinations_step() {
    let mset = vec![0, 1, 2, 2, 2, 3, 3];
    let mut nums = vec![0, 1, 2, 2];
    assert!(mc_next(&mset, &mut nums));
    assert_eq!(nums, vec![0, 1, 2, 3]);
    assert!(mc_next(&mset, &mut nums));
    assert_eq!(nums, vec![0, 1, 3, 3]);
    assert!(mc_next(&mset, &mut nums));
    assert_eq!(nums, vec![0, 2, 2, 2]);

    let mut last = vec![2, 2, 3, 3];
    assert!(!mc_next(&mset, &mut last));
    assert_eq!(last, vec![0, 1, 2, 2]);
}
