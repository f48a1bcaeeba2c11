use libmtg::colors::{Allied, Color, Dual, Enemy, Shard, Wedge};
use libmtg::mana::{can_cast, Mana};
use libmtg::mana_text::{pm, pm2};

#[test]
fn mana_amounts() {
    let m = Mana::new(1, 2, 3, 4, 5, 6, 7, 8);
    assert_eq!(m.as_vec(), vec![1, 2, 3, 4, 5, 6, 7, 8]);
    assert_eq!(m.cmc(), 28);
    assert_eq!(Mana::zero().as_vec(), vec![0; 8]);
    assert_eq!(Mana::w(2).w, 2);
    assert_eq!(Mana::u(2).u, 2);
    assert_eq!(Mana::b(2).b, 2);
    assert_eq!(Mana::r(2).r, 2);
    assert_eq!(Mana::g(2).g, 2);
    assert_eq!(Mana::c(2).c, 2);
    assert_eq!(Mana::n(2).n, 2);
    assert_eq!(Mana::x(2).x, 2);
    assert_eq!(Mana::x(2).cmc(), 0);
    assert_eq!(m.reset(Color::B).as_vec(), vec![1, 2, 0, 4, 5, 6, 7, 8]);
    assert_eq!(m.reset(Color::C).as_vec(), vec![1, 2, 3, 4, 5, 0, 7, 8]);
}

#[test]
fn mana_operations() {
    let a = Mana::new(1, 2, 3, 4, 5, 6, 7, 8);
    let b = Mana::new(1, 1, 1, 1, 1, 1, 1, 1);
    assert_eq!(a.add(b), Mana::new(2, 3, 4, 5, 6, 7, 8, 9));
    assert_eq!(a.sub(b), Mana::new(0, 1, 2, 3, 4, 5, 6, 9));
    assert_eq!(a.mul(3), Mana::new(3, 6, 9, 12, 15, 18, 21, 24));
}

#[test]
fn color_sources() {
    assert_eq!(Color::W.source(), Mana::w(1));
    assert_eq!(Color::C.source(), Mana::c(1));
    assert_eq!(Allied::WU.source(), Mana::new(1, 1, 0, 0, 0, 0, 0, 0));
    assert_eq!(Allied::GW.source(), Mana::new(1, 0, 0, 0, 1, 0, 0, 0));
    assert_eq!(Enemy::RW.source(), Mana::new(1, 0, 0, 1, 0, 0, 0, 0));
    assert_eq!(Dual::E(Enemy::GU).source(), Mana::new(0, 1, 0, 0, 1, 0, 0, 0));
    assert_eq!(Dual::A(Allied::BR).source(), Mana::new(0, 0, 1, 1, 0, 0, 0, 0));
    assert_eq!(Shard::WUR.source(), Mana::new(1, 1, 0, 1, 0, 0, 0, 0));
    assert_eq!(Wedge::GUB.source(), Mana::new(0, 1, 1, 0, 1, 0, 0, 0));
}

#[test]
fn mana_text() {
    let m = Mana::new(2, 1, 0, 0, 0, 0, 3, 1);
    assert_eq!(m.show(), "( 2, 1, 0, 0, 0, 0, 3, 1)");
    assert_eq!(m.pretty(), "X3WWU");
    assert_eq!(m.src(), format!(" 2W  1U{}  3N", " ".repeat(16)));
    let big = Mana::new(12, 0, 0, 0, 0, 101, 0, 0);
    assert_eq!(big.show(), "(12, 0, 0, 0, 0,101, 0, 0)");
    assert_eq!(big.src(), format!("12W{} 101C    ", " ".repeat(16)));
    assert_eq!(Mana::zero().pretty(), "");
    assert_eq!(Mana::n(10).pretty(), "10");
    assert_eq!(Mana::c(2).pretty(), "CC");
}

#[test]
fn paying_for_two_colors() {
    assert!(can_cast(1, 0, 1, 0, 1, 0, 0));
    assert!(can_cast(1, 0, 1, 0, 0, 1, 0));
    assert!(can_cast(1, 0, 1, 0, 0, 0, 1));
    assert!(can_cast(1, 0, 1, 0, 2, 0, 0));
    assert!(can_cast(1, 0, 1, 0, 1, 1, 0));
    assert!(!can_cast(1, 0, 1, 0, 0, 2, 0));
    assert!(can_cast(1, 0, 1, 0, 1, 0, 1));
    assert!(can_cast(1, 0, 1, 0, 0, 1, 1));
    assert!(can_cast(1, 0, 1, 0, 0, 0, 2));
    assert!(!can_cast(1, 0, 1, 0, 1, 1, 1));
    assert!(!can_cast(1, 0, 1, 0, 0, 1, 2));
    assert!(!can_cast(1, 0, 1, 0, 1, 0, 2));
    assert!(!can_cast(1, 0, 1, 0, 0, 0, 3));
}

#[test]
fn cost_labels() {
    assert_eq!(pm(2, 4), "2CC");
    assert_eq!(pm(3, 3), "CCC");
    assert_eq!(pm(1, 12), "11C");
    assert_eq!(pm2(2, 1, 0), "AAB");
    assert_eq!(pm2(1, 1, 3), "3AB");
}
