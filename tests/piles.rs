use libmtg::colored::{Colored, ColoredPile};
use libmtg::dual::DualPile;
use libmtg::gen_pile::{GenPile, GenPileKeys, PileInfo};
use libmtg::pile::Pile;

fn first_three(i: usize) -> bool {
    i < 3
}

#[test]
fn colored_pile_arithmetic() {
    let deck = ColoredPile::new(8, 9, 43);
    assert_eq!(deck.total(), 60);
    assert_eq!(deck.lands(), 17);
    assert_eq!(deck.spells(), 43);
    assert_eq!(deck.colored(), 8);
    assert_eq!(deck.index(Colored::N), 9);
    let hand = ColoredPile::new(2, 1, 4);
    assert!(deck.has(&hand));
    assert!(!hand.has(&deck));
    let rest = deck.sub(hand);
    assert_eq!(rest, ColoredPile::new(6, 8, 39));
    // round trip
    assert_eq!(rest.add(hand), deck);
}

#[test]
fn colored_pile_enumeration_order() {
    let mut p = ColoredPile::iter(3);
    let mut seen = Vec::new();
    while let Some(q) = p.next() {
        seen.push((q.c, q.n, q.s));
    }
    assert_eq!(
        seen,
        vec![
            (3, 0, 0),
            (2, 1, 0),
            (1, 2, 0),
            (0, 3, 0),
            (2, 0, 1),
            (1, 1, 1),
            (0, 2, 1),
            (1, 0, 2),
            (0, 1, 2),
            (0, 0, 3),
        ]
    );
}

#[test]
fn colored_pile_enumeration_counts() {
    // stars and bars: C(k + 2, 2) piles of k cards, all distinct
    for k in 1..30usize {
        let mut p = ColoredPile::foreach_possible(k);
        let mut seen = Vec::new();
        while let Some(q) = p.next() {
            assert_eq!(q.total(), k);
            assert!(!seen.contains(&q));
            seen.push(q);
        }
        assert_eq!(seen.len(), (k + 2) * (k + 1) / 2);
    }
    let mut empty = ColoredPile::foreach_possible(0);
    assert!(empty.next().is_none());
}

#[test]
fn dual_pile_enumeration() {
    let deck = DualPile::new(3, 4, 2, 1, 40);
    assert_eq!(deck.total(), 50);
    assert_eq!(deck.lands(), 10);
    assert_eq!(deck.spells(), 40);
    assert_eq!(deck.index(2), 2);
    for k in 1..8usize {
        let mut p = DualPile::iter(k);
        let mut n = 0;
        let mut seen = Vec::new();
        while let Some(q) = p.next() {
            assert_eq!(q.total(), k);
            assert!(!seen.contains(&q));
            seen.push(q);
            n += 1;
        }
        // C(k + 4, 4)
        assert_eq!(n, (k + 4) * (k + 3) * (k + 2) * (k + 1) / 24);
    }
    let hand = DualPile::new(1, 1, 0, 0, 5);
    assert!(deck.has(&hand));
    assert_eq!(deck.sub(hand).add(hand), deck);
}

#[test]
fn gen_pile_basics() {
    let keys = GenPileKeys::new(4, first_three);
    assert_eq!(keys.lands, vec![true, true, true, false]);
    let deck = GenPile::new(vec![5, 6, 7, 20], keys.copy());
    assert_eq!(deck.total(), 38);
    assert_eq!(deck.lands(), 18);
    assert_eq!(deck.spells(), 20);
    assert_eq!(deck.index(2), 7);
    assert_eq!(deck.num_keys(), 4);
    let hand = GenPile::new(vec![1, 0, 2, 3], keys.copy());
    assert!(deck.has(&hand));
    let rest = deck.sub(&hand);
    assert_eq!(rest.e, vec![4, 6, 5, 17]);
    assert_eq!(rest.add(&hand).e, deck.e);
    let info: PileInfo = GenPileKeys::new(4, first_three);
    assert!(info.same(&keys));
    assert!(!info.same(&GenPileKeys::new(4, |i: usize| i == 0)));
}

#[test]
fn gen_pile_enumeration() {
    let keys = GenPileKeys::new(4, first_three);
    for k in 1..7usize {
        let mut p = GenPile::iter(k, keys.copy());
        let mut seen: Vec<Vec<usize>> = Vec::new();
        while let Some(q) = p.next() {
            assert_eq!(q.e.iter().sum::<usize>(), k);
            assert!(!seen.contains(&q.e));
            seen.push(q.e);
        }
        // C(k + 3, 3)
        assert_eq!(seen.len(), (k + 3) * (k + 2) * (k + 1) / 6);
    }
    let start = GenPile::new(vec![0, 0, 0, 0], keys.copy()).foreach_possible(2, keys.copy());
    assert_eq!(start.e, vec![2, 0, 0, 0]);
}

#[test]
fn gen_pile_subsets() {
    let keys = GenPileKeys::new(3, |i: usize| i < 2);
    let deck = GenPile::new(vec![2, 4, 1], keys.copy());
    let subs = deck.subsets(2);
    let es: Vec<Vec<usize>> = subs.iter().map(|p| p.e.clone()).collect();
    assert_eq!(es, vec![vec![2, 0, 0], vec![1, 1, 0], vec![0, 2, 0], vec![1, 0, 1], vec![0, 1, 1]]);
    assert!(subs.iter().all(|p| p.k.same(&keys)));
    assert_eq!(deck.subsets(7).len(), 1);
    assert_eq!(deck.subsets(8).len(), 0);
}
