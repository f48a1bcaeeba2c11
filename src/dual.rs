//! The 5-category pile: lands of one color (`a`), of the other color (`b`),
//! dual lands of both (`ab`), other lands (`x`) and spells (`s`).
use vstd::prelude::*;
use crate::pile::{Pile, pile_lands, pile_total, lemma_sum_where_5};
use crate::gen_pile::{gen_steps, lemma_steps_first, lemma_steps_respread, lemma_steps_last};

verus! {

#[derive(Clone, Copy, Debug, PartialEq, Eq, Structural)]
pub struct DualPile {
    pub a: usize,
    pub b: usize,
    pub ab: usize,
    pub x: usize,
    pub s: usize,
}

impl Pile for DualPile {
    open spec fn wf(&self) -> bool {
        self.a + self.b + self.ab + self.x + self.s <= usize::MAX
    }

    open spec fn counts(&self) -> Seq<nat> {
        seq![self.a as nat, self.b as nat, self.ab as nat, self.x as nat, self.s as nat]
    }

    open spec fn is_land(&self, i: int) -> bool {
        0 <= i < 4
    }

    open spec fn shaped(&self, p: &DualPile, c: Seq<nat>) -> bool {
        c.len() == 5 && p.a == c[0] && p.b == c[1] && p.ab == c[2] && p.x == c[3] && p.s == c[4]
    }

    proof fn lemma_wf_total(&self) {
        lemma_sum_where_5(
            self.a as nat,
            self.b as nat,
            self.ab as nat,
            self.x as nat,
            self.s as nat,
            |i: int| true,
        );
    }

    fn num_keys(&self) -> (r: usize) {
        5
    }

    fn get(&self, i: usize) -> (r: usize) {
        self.index(i)
    }

    fn land_key(&self, i: usize) -> (r: bool) {
        i < 4
    }

    fn with_vec(&self, c: &Vec<usize>) -> (r: DualPile) {
        DualPile { a: c[0], b: c[1], ab: c[2], x: c[3], s: c[4] }
    }
}

/// The counts of a dual pile, in the order `a`, `b`, `ab`, `x`, `s`.
pub open spec fn dual_seq(p: DualPile) -> Seq<usize> {
    seq![p.a, p.b, p.ab, p.x, p.s]
}

impl DualPile {
    pub fn new(a: usize, b: usize, ab: usize, x: usize, s: usize) -> (r: DualPile)
        requires
            a + b + ab + x + s <= usize::MAX,
        ensures
            r == (DualPile { a, b, ab, x, s }),
            r.wf(),
    {
        DualPile { a, b, ab, x, s }
    }

    /// The first of all the piles of `d` cards: everything in `a`.
    pub fn foreach_possible(d: usize) -> (r: DualPile)
        ensures
            r == (DualPile { a: d, b: 0, ab: 0, x: 0, s: 0 }),
            r.wf(),
    {
        DualPile { a: d, b: 0, ab: 0, x: 0, s: 0 }
    }

    /// The first of all the piles of `d` cards: everything in `a`.
    pub fn iter(d: usize) -> (r: DualPile)
        ensures
            r == (DualPile { a: d, b: 0, ab: 0, x: 0, s: 0 }),
            r.wf(),
    {
        Self::foreach_possible(d)
    }

    /// The count of category `k`, in the order `a`, `b`, `ab`, `x`, `s`.
    pub fn index(&self, k: usize) -> (r: usize)
        requires
            k < 5,
        ensures
            r == self.counts()[k as int],
    {
        match k {
            0 => self.a,
            1 => self.b,
            2 => self.ab,
            3 => self.x,
            _ => self.s,
        }
    }

    pub fn total(&self) -> (r: usize)
        requires
            self.wf(),
        ensures
            r == self.a + self.b + self.ab + self.x + self.s,
            r == pile_total(*self),
    {
        proof {
            lemma_dual_sums(*self);
        }
        self.a + self.b + self.ab + self.x + self.s
    }

    /// The lands: every category but the spells.
    pub fn lands(&self) -> (r: usize)
        requires
            self.wf(),
        ensures
            r == self.a + self.b + self.ab + self.x,
            r == pile_lands(*self),
    {
        proof {
            lemma_dual_sums(*self);
        }
        self.a + self.b + self.ab + self.x
    }

    pub fn spells(&self) -> (r: usize)
        requires
            self.wf(),
        ensures
            r == self.s,
            r == pile_total(*self) - pile_lands(*self),
    {
        proof {
            lemma_dual_sums(*self);
        }
        self.total() - self.lands()
    }

    /// Every category of `self` holds at least as many cards as in `other`.
    pub fn has(&self, other: &DualPile) -> (r: bool)
        ensures
            r == crate::pile::dominates(self.counts(), other.counts()),
    {
        let r = self.a >= other.a && self.b >= other.b && self.ab >= other.ab && self.x >= other.x
            && self.s >= other.s;
        proof {
            if !r {
                if self.a < other.a {
                    assert(self.counts()[0] < other.counts()[0]);
                } else if self.b < other.b {
                    assert(self.counts()[1] < other.counts()[1]);
                } else if self.ab < other.ab {
                    assert(self.counts()[2] < other.counts()[2]);
                } else if self.x < other.x {
                    assert(self.counts()[3] < other.counts()[3]);
                } else {
                    assert(self.counts()[4] < other.counts()[4]);
                }
            }
        }
        r
    }

    pub fn add(self, other: DualPile) -> (r: DualPile)
        requires
            self.a + self.b + self.ab + self.x + self.s + other.a + other.b + other.ab + other.x
                + other.s <= usize::MAX,
        ensures
            r.counts() == crate::pile::seq_add(self.counts(), other.counts()),
            r.wf(),
    {
        let r = DualPile::new(
            self.a + other.a,
            self.b + other.b,
            self.ab + other.ab,
            self.x + other.x,
            self.s + other.s,
        );
        assert(r.counts() =~= crate::pile::seq_add(self.counts(), other.counts()));
        r
    }

    pub fn sub(self, other: DualPile) -> (r: DualPile)
        requires
            self.wf(),
            crate::pile::dominates(self.counts(), other.counts()),
        ensures
            r.counts() == crate::pile::seq_sub(self.counts(), other.counts()),
            r.wf(),
    {
        assert(self.counts()[0] >= other.counts()[0] && self.counts()[1] >= other.counts()[1]
            && self.counts()[2] >= other.counts()[2] && self.counts()[3] >= other.counts()[3]
            && self.counts()[4] >= other.counts()[4]);
        let r = DualPile::new(
            self.a - other.a,
            self.b - other.b,
            self.ab - other.ab,
            self.x - other.x,
            self.s - other.s,
        );
        assert(r.counts() =~= crate::pile::seq_sub(self.counts(), other.counts()));
        r
    }

    /// Steps through all the piles of one total: hands out the current pile
    /// and moves to the next one, by moving one card from `a` to `b`, or else
    /// emptying the first non-empty category into `a` less one card that
    /// goes to the category after it; after `(0, 0, 0, 0, n)` the state is
    /// empty, and an empty state hands out nothing.
    pub fn next(&mut self) -> (r: Option<DualPile>)
        requires
            old(self).wf(),
        ensures
            final(self).wf(),
            old(self).a > 0 ==> r == Some(*old(self)) && *final(self) == (DualPile {
                a: (old(self).a - 1) as usize,
                b: (old(self).b + 1) as usize,
                ..*old(self)
            }),
            old(self).a == 0 && old(self).b > 0 ==> r == Some(*old(self)) && *final(self) == (
            DualPile {
                a: (old(self).b - 1) as usize,
                b: 0,
                ab: (old(self).ab + 1) as usize,
                ..*old(self)
            }),
            old(self).a == 0 && old(self).b == 0 && old(self).ab > 0 ==> r == Some(*old(self))
                && *final(self) == (DualPile {
                a: (old(self).ab - 1) as usize,
                ab: 0,
                x: (old(self).x + 1) as usize,
                ..*old(self)
            }),
            old(self).a == 0 && old(self).b == 0 && old(self).ab == 0 && old(self).x > 0 ==> r
                == Some(*old(self)) && *final(self) == (DualPile {
                a: (old(self).x - 1) as usize,
                x: 0,
                s: (old(self).s + 1) as usize,
                ..*old(self)
            }),
            old(self).a == 0 && old(self).b == 0 && old(self).ab == 0 && old(self).x == 0
                && old(self).s > 0 ==> r == Some(*old(self)) && *final(self) == (DualPile {
                a: 0,
                b: 0,
                ab: 0,
                x: 0,
                s: 0,
            }),
            old(self).a == 0 && old(self).b == 0 && old(self).ab == 0 && old(self).x == 0
                && old(self).s == 0 ==> r.is_none() && *final(self) == *old(self),
            r.is_some() == (gen_steps(dual_seq(*old(self))) > 0),
            r.is_some() ==> gen_steps(dual_seq(*final(self))) + 1 == gen_steps(dual_seq(*old(self))),
    {
        let ghost e = dual_seq(*self);
        proof {
            crate::pile::lemma_sum_where_5(
                self.a as nat,
                self.b as nat,
                self.ab as nat,
                self.x as nat,
                self.s as nat,
                |i: int| true,
            );
            assert(crate::pile::nat_seq(e) =~= seq![
                self.a as nat,
                self.b as nat,
                self.ab as nat,
                self.x as nat,
                self.s as nat,
            ]);
        }
        let res = *self;
        if self.a > 0 {
            self.a = self.a - 1;
            self.b = self.b + 1;
            proof {
                lemma_steps_first(e);
                assert(dual_seq(*self) =~= e.update(0, (e[0] - 1) as usize).update(
                    1,
                    (e[1] + 1) as usize,
                ));
                lemma_dual_total(*self);
            }
            Some(res)
        } else if self.b > 0 {
            self.a = self.b - 1;
            self.ab = self.ab + 1;
            self.b = 0;
            proof {
                lemma_steps_respread(e, 1);
                assert(dual_seq(*self) =~= e.update(0, (e[1] - 1) as usize).update(
                    2,
                    (e[2] + 1) as usize,
                ).update(1, 0));
                lemma_dual_total(*self);
            }
            Some(res)
        } else if self.ab > 0 {
            self.a = self.ab - 1;
            self.x = self.x + 1;
            self.ab = 0;
            proof {
                lemma_steps_respread(e, 2);
                assert(dual_seq(*self) =~= e.update(0, (e[2] - 1) as usize).update(
                    3,
                    (e[3] + 1) as usize,
                ).update(2, 0));
                lemma_dual_total(*self);
            }
            Some(res)
        } else if self.x > 0 {
            self.a = self.x - 1;
            self.s = self.s + 1;
            self.x = 0;
            proof {
                lemma_steps_respread(e, 3);
                assert(dual_seq(*self) =~= e.update(0, (e[3] - 1) as usize).update(
                    4,
                    (e[4] + 1) as usize,
                ).update(3, 0));
                lemma_dual_total(*self);
            }
            Some(res)
        } else if self.s > 0 {
            self.s = 0;
            proof {
                lemma_steps_last(e);
                lemma_dual_total(*self);
            }
            Some(res)
        } else {
            None
        }
    }
}

pub proof fn lemma_dual_sums(p: DualPile)
    ensures
        pile_total(p) == p.a + p.b + p.ab + p.x + p.s,
        pile_lands(p) == p.a + p.b + p.ab + p.x,
{
    lemma_sum_where_5(p.a as nat, p.b as nat, p.ab as nat, p.x as nat, p.s as nat, |i: int| true);
    lemma_sum_where_5(
        p.a as nat,
        p.b as nat,
        p.ab as nat,
        p.x as nat,
        p.s as nat,
        |i: int| p.is_land(i),
    );
}

proof fn lemma_dual_total(p: DualPile)
    ensures
        crate::pile::seq_total(crate::pile::nat_seq(dual_seq(p))) == p.a + p.b + p.ab + p.x + p.s,
{
    crate::pile::lemma_sum_where_5(p.a as nat, p.b as nat, p.ab as nat, p.x as nat, p.s as nat, |i: int| true);
    assert(crate::pile::nat_seq(dual_seq(p)) =~= seq![
        p.a as nat,
        p.b as nat,
        p.ab as nat,
        p.x as nat,
        p.s as nat,
    ]);
}

/// The enumeration of the 5-category piles of `k >= 1` cards, from
/// `DualPile::iter(k)`, starts with `C(k + 4, 4)` steps to go and loses one
/// per pile handed out (see `next`): it hands out that many piles, each once.
pub proof fn lemma_dual_enumeration(k: usize)
    requires
        k >= 1,
    ensures
        gen_steps(dual_seq(DualPile { a: k, b: 0, ab: 0, x: 0, s: 0 })) == crate::prob::binom(
            (k + 4) as nat,
            4,
        ),
{
    crate::gen_pile::lemma_gen_enumeration(k, 5);
    assert(dual_seq(DualPile { a: k, b: 0, ab: 0, x: 0, s: 0 }) =~= Seq::new(
        5,
        |i: int| if i == 0 { k } else { 0usize },
    ));
}

} // verus!
