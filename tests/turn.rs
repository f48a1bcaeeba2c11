use libmtg::colored::ColoredPile;
use libmtg::dual::DualPile;
use libmtg::gen_pile::{GenPile, GenPileKeys};
use libmtg::prob::ch_wide;
use libmtg::turn::{draw_odds, land_odds, mull_rule, stage, turn_counts, Stage};

/// The chance of reaching the goal over the mulligan process.
fn chance(stages: &[Stage]) -> f64 {
    let mut mull = 1.0;
    let mut succ = 0.0;
    for st in stages {
        let keep = st.kept as f64 / st.hands as f64;
        let cast = st.cast as f64 / (st.hands as f64 * st.draws as f64);
        succ += mull * (cast * keep);
        mull *= 1.0 - keep;
    }
    succ
}

#[test]
fn mulligan_rule() {
    assert_eq!(mull_rule(7), (2, 5));
    assert_eq!(mull_rule(6), (2, 4));
    assert_eq!(mull_rule(5), (1, 4));
    assert_eq!(mull_rule(4), (0, 4));
}

#[test]
fn seventeen_lands_opening_hand() {
    let deck = ColoredPile::new(8, 9, 43);
    let goal = |h: ColoredPile| h.lands() >= 3;
    let stages = turn_counts(&deck, 0, &goal);
    assert_eq!(stages.len(), 4);
    let st = stages[0];
    assert_eq!(st.hand_size, 7);
    assert_eq!(st.hands, ch_wide(60, 7));
    assert_eq!(st.draws, 1);
    let mut kept = 0;
    for l in 2..=5 {
        kept += ch_wide(17, l) * ch_wide(43, 7 - l);
    }
    assert_eq!(st.kept, kept);
    let mut cast = 0;
    for l in 3..=5 {
        cast += ch_wide(17, l) * ch_wide(43, 7 - l);
    }
    assert_eq!(st.cast, cast);
    // the same sum, as probabilities
    let mut p = 0.0;
    for l in 3..=5u64 {
        p += h(17, l, 43, 7 - l);
    }
    assert!((st.cast as f64 / st.hands as f64 - p).abs() < 1e-12);
    let r = chance(&stages);
    assert!(r > 0.0 && r <= 1.0);
    for (i, st) in stages.iter().enumerate() {
        assert_eq!(st.hand_size, 7 - i);
    }
}

fn c(n: u64, k: u64) -> f64 {
    if k > n {
        return 0.0;
    }
    let k = if k + k > n { n - k } else { k };
    let mut res = 1.0;
    for j in 0..k {
        res = res * (n - j) as f64 / (j + 1) as f64;
    }
    res
}

fn h(n0: u64, k0: u64, n1: u64, k1: u64) -> f64 {
    c(n0, k0) * c(n1, k1) / c(n0 + n1, k0 + k1)
}

#[test]
fn trivial_goal_counts_every_kept_pair() {
    let deck = ColoredPile::new(10, 7, 23);
    for draws in 0..4 {
        let stages = turn_counts(&deck, draws, &|_h: ColoredPile| true);
        for st in &stages {
            assert_eq!(st.cast, st.kept * st.draws);
        }
        let last = stages[3];
        assert_eq!(last.kept, last.hands);
        let r = chance(&stages);
        assert!(r >= 0.0 && r <= 1.0);
    }
}

#[test]
fn no_lands_no_success() {
    let deck = ColoredPile::new(0, 0, 60);
    for draws in 0..4 {
        let stages = turn_counts(&deck, draws, &|h: ColoredPile| h.lands() >= 1);
        for st in &stages {
            assert_eq!(st.cast, 0);
        }
        assert_eq!(chance(&stages), 0.0);
    }
}

#[test]
fn follow_up_draws() {
    // three lands by the third draw, with 24 lands out of 60
    let deck = ColoredPile::new(24, 0, 36);
    let stages = turn_counts(&deck, 2, &|h: ColoredPile| h.lands() >= 3);
    let st = stage(&deck, 7, 2, &|h: ColoredPile| h.lands() >= 3);
    assert_eq!(st, stages[0]);
    // kept 7-card hands with l lands, then draws of 2 reaching 3 lands
    let mut cast = 0u128;
    for l in 2..=5u128 {
        let hands = ch_wide(24, l as usize) * ch_wide(36, 7 - l as usize);
        let mut good = 0u128;
        for dl in 0..=2u128 {
            if l + dl >= 3 {
                good += ch_wide(24 - l as usize, dl as usize) * ch_wide(36 - (7 - l as usize), 2 - dl as usize);
            }
        }
        cast += hands * good;
    }
    assert_eq!(st.cast, cast);
    assert_eq!(st.draws, ch_wide(53, 2));
}

#[test]
fn shapes_agree() {
    let keys = GenPileKeys::new(3, |i: usize| i < 2);
    let gdeck = GenPile::new(vec![8, 9, 23], keys);
    let cdeck = ColoredPile::new(8, 9, 23);
    let ddeck = DualPile::new(8, 0, 0, 9, 23);
    for draws in 0..3 {
        let g = turn_counts(&gdeck, draws, &|h: GenPile| h.e[0] >= 2 && h.e[0] + h.e[1] >= 3);
        let c = turn_counts(&cdeck, draws, &|h: ColoredPile| h.c >= 2 && h.c + h.n >= 3);
        let d = turn_counts(&ddeck, draws, &|h: DualPile| h.a >= 2 && h.a + h.x >= 3);
        assert_eq!(g, c);
        assert_eq!(d, c);
    }
}

#[test]
fn colored_sources_help() {
    // more colored sources never hurt a goal that asks for colored sources
    let goal = |h: ColoredPile| h.c >= 2 && h.lands() >= 3;
    let mut last = -1.0;
    for k in 0..=17 {
        let deck = ColoredPile::new(k, 17 - k, 23);
        let r = chance(&turn_counts(&deck, 2, &goal));
        assert!(r >= last);
        last = r;
    }
}

#[test]
fn exact_draw_odds() {
    let deck = ColoredPile::new(8, 9, 43);
    let hand = ColoredPile::new(2, 1, 4);
    assert_eq!(
        draw_odds(&deck, &hand),
        (ch_wide(8, 2) * ch_wide(9, 1) * ch_wide(43, 4), ch_wide(60, 7))
    );
    assert_eq!(draw_odds(&deck, &ColoredPile::new(9, 0, 0)), (0, ch_wide(60, 9)));
    assert_eq!(land_odds(&deck, 3, 4), (ch_wide(17, 3) * ch_wide(43, 4), ch_wide(60, 7)));
    assert_eq!(land_odds(&deck, 18, 0), (0, ch_wide(60, 18)));
    // the exact draws of one size add up to all the draws
    let mut sum = 0;
    let mut p = ColoredPile::foreach_possible(7);
    while let Some(h) = p.next() {
        sum += draw_odds(&deck, &h).0;
    }
    assert_eq!(sum, ch_wide(60, 7));
    let gdeck = GenPile::new(vec![3, 0, 5, 2], GenPileKeys::new(4, |i: usize| i != 3));
    assert_eq!(
        draw_odds(&gdeck, &GenPile::new(vec![1, 0, 2, 1], GenPileKeys::new(4, |i: usize| i != 3))),
        (3 * 10 * 2, ch_wide(10, 4))
    );
}
