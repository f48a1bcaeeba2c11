use libmtg::interval::{closed, open, open_closed, range, Interval};

fn collect(i: &Interval) -> Vec<i64> {
    let mut it = i.iter();
    let mut v = Vec::new();
    while let Some(x) = it.next() {
        v.push(x);
    }
    v
}

#[test]
fn interval_iteration() {
    assert_eq!(collect(&open(0, 5)), vec![1, 2, 3, 4]);
    assert_eq!(collect(&range(0, 5)), vec![0, 1, 2, 3, 4]);
    assert_eq!(collect(&open_closed(0, 5)), vec![1, 2, 3, 4, 5]);
    assert_eq!(collect(&closed(0, 5)), vec![0, 1, 2, 3, 4, 5]);
    assert_eq!(collect(&closed(5, 0)), vec![0, 1, 2, 3, 4, 5]);
    assert_eq!(collect(&open(3, 3)), Vec::<i64>::new());
}
