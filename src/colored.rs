//! The 3-category pile: colored lands, other lands and spells.
use vstd::prelude::*;
use crate::pile::{Pile, pile_lands, pile_total, lemma_sum_where_3};
use crate::prob::binom;

verus! {

/// A colored pile counts the colored lands (`c`), the other lands (`n`) and
/// the spells (`s`).
#[derive(Clone, Copy, Debug, PartialEq, Eq, Structural)]
pub struct ColoredPile {
    pub c: usize,
    pub n: usize,
    pub s: usize,
}

/// The category of a colored pile.
#[derive(Clone, Copy, Debug, PartialEq, Eq, Structural)]
pub enum Colored {
    C,
    N,
    S,
}

impl Pile for ColoredPile {
    open spec fn wf(&self) -> bool {
        self.c + self.n + self.s <= usize::MAX
    }

    open spec fn counts(&self) -> Seq<nat> {
        seq![self.c as nat, self.n as nat, self.s as nat]
    }

    open spec fn is_land(&self, i: int) -> bool {
        i == 0 || i == 1
    }

    open spec fn shaped(&self, p: &ColoredPile, c: Seq<nat>) -> bool {
        c.len() == 3 && p.c == c[0] && p.n == c[1] && p.s == c[2]
    }

    proof fn lemma_wf_total(&self) {
        lemma_sum_where_3(self.c as nat, self.n as nat, self.s as nat, |i: int| true);
    }

    fn num_keys(&self) -> (r: usize) {
        3
    }

    fn get(&self, i: usize) -> (r: usize) {
        if i == 0 {
            self.c
        } else if i == 1 {
            self.n
        } else {
            self.s
        }
    }

    fn land_key(&self, i: usize) -> (r: bool) {
        i == 0 || i == 1
    }

    fn with_vec(&self, c: &Vec<usize>) -> (r: ColoredPile) {
        ColoredPile { c: c[0], n: c[1], s: c[2] }
    }
}

/// `1 + 2 + ... + m`.
pub open spec fn triangle(m: nat) -> nat
    decreases m,
{
    if m == 0 {
        0
    } else {
        triangle((m - 1) as nat) + m
    }
}

/// How many piles the enumeration still hands out from state `p`, itself
/// included.
pub open spec fn colored_steps(p: ColoredPile) -> nat {
    if p.c + p.n + p.s == 0 {
        0
    } else {
        (p.c + 1 + triangle((p.c + p.n) as nat)) as nat
    }
}

impl ColoredPile {
    pub fn new(c: usize, n: usize, s: usize) -> (r: ColoredPile)
        requires
            c + n + s <= usize::MAX,
        ensures
            r == (ColoredPile { c, n, s }),
            r.wf(),
    {
        ColoredPile { c, n, s }
    }

    /// The first of all the piles of `n` cards: `(n, 0, 0)`.
    pub fn foreach_possible(n: usize) -> (r: ColoredPile)
        ensures
            r == (ColoredPile { c: n, n: 0, s: 0 }),
            r.wf(),
    {
        ColoredPile { c: n, n: 0, s: 0 }
    }

    /// The first of all the piles of `n` cards: `(n, 0, 0)`.
    pub fn iter(n: usize) -> (r: ColoredPile)
        ensures
            r == (ColoredPile { c: n, n: 0, s: 0 }),
            r.wf(),
    {
        Self::foreach_possible(n)
    }

    pub fn colored(&self) -> (r: usize)
        ensures
            r == self.c,
    {
        self.c
    }

    /// The count of one category.
    pub fn index(&self, k: Colored) -> (r: usize)
        ensures
            r == match k {
                Colored::C => self.c,
                Colored::N => self.n,
                Colored::S => self.s,
            },
    {
        match k {
            Colored::C => self.c,
            Colored::N => self.n,
            Colored::S => self.s,
        }
    }

    pub fn total(&self) -> (r: usize)
        requires
            self.wf(),
        ensures
            r == self.c + self.n + self.s,
            r == pile_total(*self),
    {
        proof {
            lemma_colored_sums(*self);
        }
        self.c + self.n + self.s
    }

    pub fn lands(&self) -> (r: usize)
        requires
            self.wf(),
        ensures
            r == self.c + self.n,
            r == pile_lands(*self),
    {
        proof {
            lemma_colored_sums(*self);
        }
        self.c + self.n
    }

    pub fn spells(&self) -> (r: usize)
        requires
            self.wf(),
        ensures
            r == self.s,
            r == pile_total(*self) - pile_lands(*self),
    {
        proof {
            lemma_colored_sums(*self);
        }
        self.total() - self.lands()
    }

    /// Every category of `self` holds at least as many cards as in `other`.
    pub fn has(&self, other: &ColoredPile) -> (r: bool)
        ensures
            r == (self.c >= other.c && self.n >= other.n && self.s >= other.s),
            r == crate::pile::dominates(self.counts(), other.counts()),
    {
        let r = self.c >= other.c && self.n >= other.n && self.s >= other.s;
        proof {
            if !r {
                if self.c < other.c {
                    assert(self.counts()[0] < other.counts()[0]);
                } else if self.n < other.n {
                    assert(self.counts()[1] < other.counts()[1]);
                } else {
                    assert(self.counts()[2] < other.counts()[2]);
                }
            }
        }
        r
    }

    pub fn add(self, other: ColoredPile) -> (r: ColoredPile)
        requires
            self.c + self.n + self.s + other.c + other.n + other.s <= usize::MAX,
        ensures
            r.c == self.c + other.c && r.n == self.n + other.n && r.s == self.s + other.s,
            r.counts() == crate::pile::seq_add(self.counts(), other.counts()),
            r.wf(),
    {
        let r = ColoredPile::new(self.c + other.c, self.n + other.n, self.s + other.s);
        assert(r.counts() =~= crate::pile::seq_add(self.counts(), other.counts()));
        r
    }

    pub fn sub(self, other: ColoredPile) -> (r: ColoredPile)
        requires
            self.wf(),
            self.c >= other.c && self.n >= other.n && self.s >= other.s,
        ensures
            r.c == self.c - other.c && r.n == self.n - other.n && r.s == self.s - other.s,
            r.counts() == crate::pile::seq_sub(self.counts(), other.counts()),
            r.wf(),
    {
        let r = ColoredPile::new(self.c - other.c, self.n - other.n, self.s - other.s);
        assert(r.counts() =~= crate::pile::seq_sub(self.counts(), other.counts()));
        r
    }

    /// Steps through all the piles of one total, as in
    /// `(3, 0, 0) -> (2, 1, 0) -> (1, 2, 0) -> (0, 3, 0) -> (2, 0, 1) -> ... -> (0, 0, 3)`:
    /// hands out the current pile and moves to the next one; after the last
    /// one the state is empty, and an empty state hands out nothing.
    pub fn next(&mut self) -> (r: Option<ColoredPile>)
        requires
            old(self).wf(),
        ensures
            final(self).wf(),
            old(self).c > 0 ==> r == Some(*old(self)) && *final(self) == (ColoredPile {
                c: (old(self).c - 1) as usize,
                n: (old(self).n + 1) as usize,
                s: old(self).s,
            }),
            old(self).c == 0 && old(self).n > 0 ==> r == Some(*old(self)) && *final(self) == (
            ColoredPile { c: (old(self).n - 1) as usize, n: 0, s: (old(self).s + 1) as usize }),
            old(self).c == 0 && old(self).n == 0 && old(self).s > 0 ==> r == Some(*old(self))
                && *final(self) == (ColoredPile { c: 0, n: 0, s: 0 }),
            old(self).c == 0 && old(self).n == 0 && old(self).s == 0 ==> r.is_none()
                && *final(self) == *old(self),
            r.is_some() <==> colored_steps(*old(self)) > 0,
            r.is_some() ==> colored_steps(*final(self)) + 1 == colored_steps(*old(self)),
            colored_steps(*final(self)) > 0 ==> final(self).c + final(self).n + final(self).s
                == old(self).c + old(self).n + old(self).s,
    {
        let res = *self;
        if self.c > 0 {
            self.c = self.c - 1;
            self.n = self.n + 1;
            Some(res)
        } else if self.n > 0 {
            self.c = self.n - 1;
            self.s = self.s + 1;
            self.n = 0;
            proof {
                let m = res.n as nat;
                assert(triangle(m) == triangle((m - 1) as nat) + m);
            }
            Some(res)
        } else if self.s > 0 {
            self.s = 0;
            Some(res)
        } else {
            None
        }
    }
}

pub proof fn lemma_colored_sums(p: ColoredPile)
    ensures
        pile_total(p) == p.c + p.n + p.s,
        pile_lands(p) == p.c + p.n,
{
    lemma_sum_where_3(p.c as nat, p.n as nat, p.s as nat, |i: int| true);
    lemma_sum_where_3(p.c as nat, p.n as nat, p.s as nat, |i: int| p.is_land(i));
}

proof fn lemma_triangle_grows(a: nat, b: nat)
    requires
        a <= b,
    ensures
        triangle(a) <= triangle(b),
    decreases b,
{
    if a < b {
        lemma_triangle_grows(a, (b - 1) as nat);
    }
}

proof fn lemma_triangle_binom(m: nat)
    ensures
        triangle(m + 1) == binom(m + 2, 2),
    decreases m,
{
    assert(binom(m + 2, 1) == binom(m + 1, 0) + binom(m + 1, 1));
    lemma_binom_one(m + 1);
    assert(binom(m + 2, 2) == binom(m + 1, 1) + binom(m + 1, 2));
    assert(triangle(m + 1) == triangle(m) + m + 1);
    if m > 0 {
        lemma_triangle_binom((m - 1) as nat);
        assert(((m - 1) as nat + 1) == m);
        assert(triangle(m) == binom(m + 1, 2));
    } else {
        assert(binom(1, 2) == binom(0, 1) + binom(0, 2));
        assert(binom(2, 2) == binom(1, 1) + binom(1, 2));
        assert(binom(1, 1) == binom(0, 0) + binom(0, 1));
    }
}

proof fn lemma_binom_one(n: nat)
    ensures
        binom(n, 1) == n,
    decreases n,
{
    if n > 0 {
        lemma_binom_one((n - 1) as nat);
        assert(binom(n, 1) == binom((n - 1) as nat, 0) + binom((n - 1) as nat, 1));
    }
}

/// The enumeration of the piles of `k >= 1` cards: it starts with
/// `C(k + 2, 2)` steps to go, and loses one per pile handed out (see
/// `next`); every pile of `k` cards lies in that range of steps, and no two
/// of them share a count of steps. So it hands out each of the
/// `C(k + 2, 2)` piles of `k` cards exactly once.
pub proof fn lemma_colored_enumeration(k: usize, p: ColoredPile, q: ColoredPile)
    requires
        k >= 1,
        p.c + p.n + p.s == k,
        q.c + q.n + q.s == k,
    ensures
        colored_steps(ColoredPile { c: k, n: 0, s: 0 }) == binom(k as nat + 2, 2),
        1 <= colored_steps(p) <= binom(k as nat + 2, 2),
        colored_steps(p) == colored_steps(q) ==> p == q,
{
    let k = k as nat;
    lemma_triangle_binom(k);
    assert(triangle(k + 1) == triangle(k) + k + 1);
    let mp = (p.c + p.n) as nat;
    let mq = (q.c + q.n) as nat;
    lemma_triangle_grows(mp, k);
    if colored_steps(p) == colored_steps(q) {
        if mp < mq {
            lemma_triangle_grows(mp + 1, mq);
            assert(triangle(mp + 1) == triangle(mp) + mp + 1);
        } else if mq < mp {
            lemma_triangle_grows(mq + 1, mp);
            assert(triangle(mq + 1) == triangle(mq) + mq + 1);
        }
    }
}

} // verus!
