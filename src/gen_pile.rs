//! The N-category pile, whose shape (the count of categories and which of
//! them are lands) is given by its keys.
use vstd::prelude::*;
use crate::perm::{MultiSubSetIterator, fits_fn, is_subset_of_size};
use crate::counting::comp_sum;
use crate::prob::{binom, lemma_binom_all};
use crate::pile::{
    Pile, seq_total, nat_seq, seq_add, seq_sub, dominates, pile_lands, pile_total, sum_where,
};

verus! {

/// The shape of an N-category pile: its count of categories, and for each
/// category whether it holds lands.
#[derive(Debug)]
pub struct GenPileKeys {
    pub num_keys: usize,
    pub lands: Vec<bool>,
}

/// Another name for the keys of an N-category pile.
pub type PileInfo = GenPileKeys;

/// A copy of a vector.
pub fn copy_vec<T: Copy>(v: &Vec<T>) -> (r: Vec<T>)
    ensures
        r@ == v@,
{
    let mut r: Vec<T> = Vec::new();
    let mut i: usize = 0;
    while i < v.len()
        invariant
            i <= v.len(),
            r@ == v@.subrange(0, i as int),
        decreases v.len() - i,
    {
        r.push(v[i]);
        i = i + 1;
        assert(r@ =~= v@.subrange(0, i as int));
    }
    assert(v@.subrange(0, i as int) =~= v@);
    r
}

impl GenPileKeys {
    /// The keys of `keys` categories, category `i` holding lands when
    /// `is_land(i)`.
    pub fn new<F: Fn(usize) -> bool>(keys: usize, is_land: F) -> (r: GenPileKeys)
        requires
            forall|i: usize| i < keys ==> #[trigger] is_land.requires((i,)),
        ensures
            r.num_keys == keys,
            r.lands.len() == keys,
            forall|i: int| 0 <= i < keys ==> is_land.ensures((i as usize,), #[trigger] r.lands[i]),
    {
        let mut lands: Vec<bool> = Vec::new();
        let mut i: usize = 0;
        while i < keys
            invariant
                i <= keys,
                lands.len() == i,
                forall|i: usize| i < keys ==> #[trigger] is_land.requires((i,)),
                forall|j: int| 0 <= j < i ==> is_land.ensures((j as usize,), #[trigger] lands[j]),
            decreases keys - i,
        {
            let b = is_land(i);
            lands.push(b);
            i = i + 1;
        }
        GenPileKeys { num_keys: keys, lands }
    }

    /// A copy of the keys.
    pub fn copy(&self) -> (r: GenPileKeys)
        ensures
            r.num_keys == self.num_keys,
            r.lands@ == self.lands@,
    {
        GenPileKeys { num_keys: self.num_keys, lands: copy_vec(&self.lands) }
    }

    /// The two keys give the same shape.
    pub fn same(&self, other: &GenPileKeys) -> (r: bool)
        ensures
            r == (self.num_keys == other.num_keys && self.lands@ == other.lands@),
    {
        if self.num_keys != other.num_keys || self.lands.len() != other.lands.len() {
            return false;
        }
        let mut i: usize = 0;
        while i < self.lands.len()
            invariant
                i <= self.lands.len(),
                self.lands.len() == other.lands.len(),
                forall|j: int| 0 <= j < i ==> self.lands[j] == other.lands[j],
            decreases self.lands.len() - i,
        {
            if self.lands[i] != other.lands[i] {
                return false;
            }
            i = i + 1;
        }
        assert(self.lands@ =~= other.lands@);
        true
    }
}

/// A pile of any number of categories.
#[derive(Debug)]
pub struct GenPile {
    pub e: Vec<usize>,
    pub k: GenPileKeys,
}

impl Pile for GenPile {
    open spec fn wf(&self) -> bool {
        &&& self.e.len() == self.k.num_keys
        &&& self.k.lands.len() == self.k.num_keys
        &&& seq_total(nat_seq(self.e@)) <= usize::MAX
    }

    open spec fn counts(&self) -> Seq<nat> {
        nat_seq(self.e@)
    }

    open spec fn is_land(&self, i: int) -> bool {
        0 <= i < self.k.lands.len() && self.k.lands[i]
    }

    open spec fn shaped(&self, p: &GenPile, c: Seq<nat>) -> bool {
        &&& p.k.num_keys == self.k.num_keys
        &&& p.k.lands@ == self.k.lands@
        &&& nat_seq(p.e@) == c
    }

    proof fn lemma_wf_total(&self) {
    }

    fn num_keys(&self) -> (r: usize) {
        self.k.num_keys
    }

    fn get(&self, i: usize) -> (r: usize) {
        self.e[i]
    }

    fn land_key(&self, i: usize) -> (r: bool) {
        self.k.lands[i]
    }

    fn with_vec(&self, c: &Vec<usize>) -> (r: GenPile) {
        let e = copy_vec(c);
        GenPile { e, k: self.k.copy() }
    }
}

/// Where the enumeration of `e` takes its next card from: the first
/// non-empty category from `from` on, short of the last one; the last one
/// when there is none.
pub open spec fn first_full(e: Seq<usize>, from: int) -> int
    decreases e.len() - from,
{
    if from >= e.len() - 1 {
        e.len() - 1
    } else if e[from] > 0 {
        from
    } else {
        first_full(e, from + 1)
    }
}

proof fn lemma_first_full(e: Seq<usize>, from: int)
    requires
        1 <= from <= e.len() - 1,
    ensures
        from <= first_full(e, from) <= e.len() - 1,
        forall|j: int| from <= j < first_full(e, from) ==> e[j] == 0,
        first_full(e, from) < e.len() - 1 ==> e[first_full(e, from)] > 0,
    decreases e.len() - from,
{
    if from < e.len() - 1 && e[from] == 0 {
        lemma_first_full(e, from + 1);
    }
}

impl GenPile {
    pub fn new(l: Vec<usize>, ks: GenPileKeys) -> (r: GenPile)
        ensures
            r.e@ == l@,
            r.k == ks,
    {
        GenPile { e: l, k: ks }
    }

    /// The first of all the piles of `n` cards of the shape `ks`: all of
    /// them in the first category.
    pub fn iter(n: usize, ks: GenPileKeys) -> (r: GenPile)
        ensures
            r.e@ == Seq::new(ks.num_keys as nat, |i: int| if i == 0 { n } else { 0 }),
            r.k == ks,
    {
        let mut e: Vec<usize> = Vec::new();
        let mut i: usize = 0;
        while i < ks.num_keys
            invariant
                i <= ks.num_keys,
                e@ == Seq::new(i as nat, |j: int| if j == 0 { n } else { 0usize }),
            decreases ks.num_keys - i,
        {
            e.push(if i == 0 { n } else { 0 });
            i = i + 1;
            assert(e@ =~= Seq::new(i as nat, |j: int| if j == 0 { n } else { 0usize }));
        }
        GenPile { e, k: ks }
    }

    /// The first of all the piles of `n` cards with as many categories as
    /// `self`, of the shape `ks`.
    pub fn foreach_possible(&self, n: usize, ks: GenPileKeys) -> (r: GenPile)
        ensures
            r.e@ == Seq::new(self.e.len() as nat, |i: int| if i == 0 { n } else { 0 }),
            r.k == ks,
    {
        let mut e: Vec<usize> = Vec::new();
        let mut i: usize = 0;
        while i < self.e.len()
            invariant
                i <= self.e.len(),
                e@ == Seq::new(i as nat, |j: int| if j == 0 { n } else { 0usize }),
            decreases self.e.len() - i,
        {
            e.push(if i == 0 { n } else { 0 });
            i = i + 1;
            assert(e@ =~= Seq::new(i as nat, |j: int| if j == 0 { n } else { 0usize }));
        }
        GenPile { e, k: ks }
    }

    /// Every pile of `n` cards of the shape of `self` that `self` holds, in
    /// the order of `MultiSubSetIterator`.
    pub fn subsets(&self, n: usize) -> (r: Vec<GenPile>)
        requires
            self.wf(),
        ensures
            r.len() == comp_sum(self.e.len() as nat, n as nat, fits_fn(self.counts(), Seq::empty())),
            forall|t: int|
                0 <= t < r.len() ==> {
                    &&& self.shaped(&#[trigger] r[t], r[t].counts())
                    &&& is_subset_of_size(self.counts(), n as nat, r[t].e@)
                },
            forall|t1: int, t2: int| 0 <= t1 < t2 < r.len() ==> #[trigger] r[t1].e@ != #[trigger] r[t2].e@,
    {
        let mut it = MultiSubSetIterator::new(self.e.as_slice(), n);
        let ghost total = it.remaining().len();
        let ghost init = it.remaining();
        let mut r: Vec<GenPile> = Vec::new();
        loop
            invariant
                it.wf(),
                it.counts() == self.counts(),
                it.size() == n,
                r.len() + it.remaining().len() == total,
                init.len() == total,
                it.remaining() == init.subrange(r.len() as int, total as int),
                forall|t: int| 0 <= t < r.len() ==> #[trigger] r[t].e@ == init[t],
                forall|t1: int, t2: int| 0 <= t1 < t2 < init.len() ==> #[trigger] init[t1] != #[trigger] init[t2],
                total == comp_sum(self.e.len() as nat, n as nat, fits_fn(self.counts(), Seq::empty())),
                forall|t: int|
                    0 <= t < r.len() ==> {
                        &&& self.shaped(&#[trigger] r[t], r[t].counts())
                        &&& is_subset_of_size(self.counts(), n as nat, r[t].e@)
                    },
            ensures
                r.len() == total,
                forall|t1: int, t2: int| 0 <= t1 < t2 < r.len() ==> #[trigger] r[t1].e@ != #[trigger] r[t2].e@,
                forall|t: int|
                    0 <= t < r.len() ==> {
                        &&& self.shaped(&#[trigger] r[t], r[t].counts())
                        &&& is_subset_of_size(self.counts(), n as nat, r[t].e@)
                    },
            decreases it.remaining().len(),
        {
            match it.next() {
                Some(e) => {
                    proof {
                        assert(e@ == init[r.len() as int]);
                        assert(it.remaining() =~= init.subrange(r.len() + 1, total as int));
                    }
                    r.push(GenPile { e, k: self.k.copy() });
                },
                None => {
                    break;
                },
            }
        }
        r
    }

    /// The count of category `i`.
    pub fn index(&self, i: usize) -> (r: usize)
        requires
            i < self.e.len(),
        ensures
            r == self.e[i as int],
    {
        self.e[i]
    }

    pub fn total(&self) -> (r: usize)
        requires
            self.wf(),
        ensures
            r == pile_total(*self),
    {
        let ghost s = nat_seq(self.e@);
        let mut acc: usize = 0;
        let mut i: usize = 0;
        while i < self.e.len()
            invariant
                s == nat_seq(self.e@),
                seq_total(s) <= usize::MAX,
                i <= self.e.len(),
                acc == seq_total(s.subrange(0, i as int)),
            decreases self.e.len() - i,
        {
            proof {
                assert(s.subrange(0, i as int + 1).drop_last() =~= s.subrange(0, i as int));
                lemma_prefix_total_le(s, i as int + 1);
            }
            acc = acc + self.e[i];
            i = i + 1;
        }
        assert(s.subrange(0, i as int) =~= s);
        acc
    }

    pub fn lands(&self) -> (r: usize)
        requires
            self.wf(),
        ensures
            r == pile_lands(*self),
    {
        let ghost s = nat_seq(self.e@);
        let ghost sel = |i: int| self.is_land(i);
        let mut acc: usize = 0;
        let mut i: usize = 0;
        while i < self.e.len()
            invariant
                self.wf(),
                s == nat_seq(self.e@),
                sel == (|i: int| self.is_land(i)),
                i <= self.e.len(),
                acc == sum_where(s.subrange(0, i as int), sel),
            decreases self.e.len() - i,
        {
            proof {
                assert(s.subrange(0, i as int + 1).drop_last() =~= s.subrange(0, i as int));
                crate::pile::lemma_sum_where_le_total(s.subrange(0, i as int + 1), sel);
                lemma_prefix_total_le(s, i as int + 1);
            }
            if self.k.lands[i] {
                acc = acc + self.e[i];
            }
            i = i + 1;
        }
        assert(s.subrange(0, i as int) =~= s);
        acc
    }

    pub fn spells(&self) -> (r: usize)
        requires
            self.wf(),
        ensures
            r == pile_total(*self) - pile_lands(*self),
    {
        proof {
            crate::pile::lemma_sum_where_le_total(self.counts(), |i: int| self.is_land(i));
        }
        self.total() - self.lands()
    }

    /// Every category of `self` holds at least as many cards as in `other`.
    pub fn has(&self, other: &GenPile) -> (r: bool)
        requires
            self.e.len() == other.e.len(),
        ensures
            r == dominates(self.counts(), other.counts()),
    {
        let mut i: usize = 0;
        while i < self.e.len()
            invariant
                i <= self.e.len(),
                self.e.len() == other.e.len(),
                forall|j: int| 0 <= j < i ==> self.e[j] >= other.e[j],
            decreases self.e.len() - i,
        {
            if self.e[i] < other.e[i] {
                assert(self.counts()[i as int] < other.counts()[i as int]);
                return false;
            }
            i = i + 1;
        }
        true
    }

    /// The category-wise sum of two piles of the same shape.
    pub fn add(&self, other: &GenPile) -> (r: GenPile)
        requires
            self.wf(),
            other.wf(),
            self.k.num_keys == other.k.num_keys,
            self.k.lands@ == other.k.lands@,
            seq_total(self.counts()) + seq_total(other.counts()) <= usize::MAX,
        ensures
            r.wf(),
            r.counts() == seq_add(self.counts(), other.counts()),
            r.k.num_keys == self.k.num_keys,
            r.k.lands@ == self.k.lands@,
    {
        let mut e: Vec<usize> = Vec::new();
        let mut i: usize = 0;
        while i < self.e.len()
            invariant
                self.wf(),
                other.wf(),
                self.e.len() == other.e.len(),
                seq_total(self.counts()) + seq_total(other.counts()) <= usize::MAX,
                i <= self.e.len(),
                e.len() == i,
                forall|j: int| 0 <= j < i ==> e[j] == self.e[j] + other.e[j],
            decreases self.e.len() - i,
        {
            proof {
                crate::pile::lemma_sum_where_bound(self.counts(), |t: int| true, i as int);
                crate::pile::lemma_sum_where_bound(other.counts(), |t: int| true, i as int);
            }
            e.push(self.e[i] + other.e[i]);
            i = i + 1;
        }
        assert(nat_seq(e@) =~= seq_add(self.counts(), other.counts()));
        proof {
            crate::pile::lemma_sum_where_add(self.counts(), other.counts(), |t: int| true);
        }
        GenPile { e, k: self.k.copy() }
    }

    /// The category-wise difference of two piles of the same shape, the
    /// first holding the second.
    pub fn sub(&self, other: &GenPile) -> (r: GenPile)
        requires
            self.wf(),
            self.e.len() == other.e.len(),
            dominates(self.counts(), other.counts()),
        ensures
            r.wf(),
            r.counts() == seq_sub(self.counts(), other.counts()),
            r.k.num_keys == self.k.num_keys,
            r.k.lands@ == self.k.lands@,
    {
        let mut e: Vec<usize> = Vec::new();
        let mut i: usize = 0;
        while i < self.e.len()
            invariant
                self.e.len() == other.e.len(),
                dominates(self.counts(), other.counts()),
                i <= self.e.len(),
                e.len() == i,
                forall|j: int| 0 <= j < i ==> e[j] == self.e[j] - other.e[j],
            decreases self.e.len() - i,
        {
            assert(self.counts()[i as int] >= other.counts()[i as int]);
            e.push(self.e[i] - other.e[i]);
            i = i + 1;
        }
        assert(nat_seq(e@) =~= seq_sub(self.counts(), other.counts()));
        proof {
            crate::pile::lemma_seq_sub_add(self.counts(), other.counts());
            crate::counting::lemma_total_sub(self.counts(), other.counts());
        }
        GenPile { e, k: self.k.copy() }
    }

    /// Steps through all the piles of one total, as the 3-category pile
    /// does: hands out the current pile and moves to the next one, by moving
    /// one card from the first category to the second, or else emptying the
    /// first non-empty category `i` (short of the last) into the first one,
    /// less one card that goes to category `i + 1`; from a pile whose cards
    /// are all in the last category it moves to the empty state, and an
    /// empty state hands out nothing.
    pub fn next(&mut self) -> (r: Option<GenPile>)
        requires
            old(self).wf(),
            old(self).e.len() >= 2,
        ensures
            final(self).wf(),
            final(self).k == old(self).k,
            final(self).e.len() == old(self).e.len(),
            ({
                let e = old(self).e@;
                let i = first_full(e, 1);
                if e[0] > 0 {
                    final(self).e@ == e.update(0, (e[0] - 1) as usize).update(1, (e[1] + 1) as usize)
                } else if i < e.len() - 1 {
                    final(self).e@ == e.update(0, (e[i] - 1) as usize).update(
                        i + 1,
                        (e[i + 1] + 1) as usize,
                    ).update(i, 0)
                } else if e[i] > 0 {
                    final(self).e@ == e.update(i, 0)
                } else {
                    final(self).e@ == e
                }
            }),
            r.is_some() == (old(self).counts() != Seq::new(old(self).e.len() as nat, |i: int| 0nat)),
            r.is_some() ==> r.unwrap().e@ == old(self).e@ && r.unwrap().k.num_keys == old(
                self,
            ).k.num_keys && r.unwrap().k.lands@ == old(self).k.lands@,
            r.is_some() == (gen_steps(old(self).e@) > 0),
            r.is_some() ==> gen_steps(final(self).e@) + 1 == gen_steps(old(self).e@),
    {
        let ghost e0 = self.e@;
        let len = self.e.len();
        let res = GenPile { e: copy_vec(&self.e), k: self.k.copy() };
        proof {
            lemma_first_full(e0, 1);
        }
        if self.e[0] > 0 {
            proof {
                lemma_two_le_total(e0, 0, 1);
                lemma_move_total(e0, 0, 1);
            }
            let a = self.e[0] - 1;
            let b = self.e[1] + 1;
            self.e.set(0, a);
            self.e.set(1, b);
            proof {
                assert(nat_seq(e0)[0] != Seq::new(len as nat, |i: int| 0nat)[0]);
                lemma_steps_first(e0);
                crate::pile::lemma_sum_where_bound(nat_seq(e0), |t: int| true, 0);
            }
            return Some(res);
        }
        let mut i: usize = 1;
        while i < len - 1
            invariant
                self.e@ == e0,
                e0 == old(self).e@,
                res.e@ == e0,
                res.k.num_keys == old(self).k.num_keys,
                res.k.lands@ == old(self).k.lands@,
                e0[0] == 0,
                self.k == old(self).k,
                self.wf(),
                len == self.e.len(),
                len >= 2,
                1 <= i <= len - 1,
                first_full(e0, 1) == first_full(e0, i as int),
            decreases len - i,
        {
            if self.e[i] > 0 {
                proof {
                    lemma_two_le_total(e0, i as int, i as int + 1);
                }
                let a = self.e[i] - 1;
                let b = self.e[i + 1] + 1;
                self.e.set(0, a);
                self.e.set(i + 1, b);
                self.e.set(i, 0);
                proof {
                    assert(nat_seq(e0)[i as int] != Seq::new(len as nat, |i: int| 0nat)[i as int]);
                    lemma_respread_total(e0, i as int);
                    assert(first_full(e0, i as int) == i);
                    lemma_first_full(e0, 1);
                    assert forall|t: int| 0 <= t < i implies e0[t] == 0 by {
                        if t >= 1 {
                            assert(1 <= t < first_full(e0, 1));
                        }
                    }
                    lemma_steps_respread(e0, i as int);
                    crate::pile::lemma_sum_where_bound(nat_seq(e0), |t: int| true, i as int);
                }
                return Some(res);
            }
            i = i + 1;
        }
        if self.e[len - 1] > 0 {
            self.e.set(len - 1, 0);
            proof {
                assert(nat_seq(e0)[len - 1] != Seq::new(len as nat, |i: int| 0nat)[len - 1]);
                lemma_nat_seq_update(e0, len - 1, 0);
                lemma_total_update(nat_seq(e0), len - 1, 0);
                assert forall|t: int| 0 <= t < len - 1 implies e0[t] == 0 by {
                    if t >= 1 {
                        assert(1 <= t < first_full(e0, 1));
                    }
                }
                lemma_steps_last(e0);
                crate::pile::lemma_sum_where_bound(nat_seq(e0), |t: int| true, len - 1);
                lemma_head_zero(self.e@, len as int);
                assert(nat_seq(self.e@).subrange(0, len as int) =~= nat_seq(self.e@));
            }
            Some(res)
        } else {
            proof {
                assert(forall|j: int| 1 <= j < len - 1 ==> e0[j] == 0);
                assert(old(self).counts() =~= Seq::new(len as nat, |i: int| 0nat));
                lemma_head_zero(e0, len as int);
                assert(nat_seq(e0).subrange(0, len as int) =~= nat_seq(e0));
            }
            None
        }
    }
}

proof fn lemma_prefix_total_le(s: Seq<nat>, j: int)
    requires
        0 <= j <= s.len(),
    ensures
        seq_total(s.subrange(0, j)) <= seq_total(s),
    decreases s.len() - j,
{
    if j < s.len() {
        lemma_prefix_total_le(s, j + 1);
        assert(s.subrange(0, j + 1).drop_last() =~= s.subrange(0, j));
    } else {
        assert(s.subrange(0, j) =~= s);
    }
}

proof fn lemma_total_update(s: Seq<nat>, i: int, v: nat)
    requires
        0 <= i < s.len(),
    ensures
        seq_total(s.update(i, v)) + s[i] == seq_total(s) + v,
    decreases s.len(),
{
    let t = s.update(i, v);
    if i < s.len() - 1 {
        assert(t.drop_last() =~= s.drop_last().update(i, v));
        lemma_total_update(s.drop_last(), i, v);
    } else {
        assert(t.drop_last() =~= s.drop_last());
    }
}

proof fn lemma_nat_seq_update(e: Seq<usize>, i: int, v: usize)
    requires
        0 <= i < e.len(),
    ensures
        nat_seq(e.update(i, v)) == nat_seq(e).update(i, v as nat),
{
    assert(nat_seq(e.update(i, v)) =~= nat_seq(e).update(i, v as nat));
}

proof fn lemma_move_total(e: Seq<usize>, i: int, j: int)
    requires
        0 <= i < e.len(),
        0 <= j < e.len(),
        i != j,
        e[i] > 0,
        e[j] + 1 <= usize::MAX,
    ensures
        seq_total(nat_seq(e.update(i, (e[i] - 1) as usize).update(j, (e[j] + 1) as usize)))
            == seq_total(nat_seq(e)),
{
    let e1 = e.update(i, (e[i] - 1) as usize);
    lemma_nat_seq_update(e, i, (e[i] - 1) as usize);
    lemma_nat_seq_update(e1, j, (e[j] + 1) as usize);
    lemma_total_update(nat_seq(e), i, (e[i] - 1) as nat);
    lemma_total_update(nat_seq(e1), j, (e[j] + 1) as nat);
}

proof fn lemma_respread_total(e: Seq<usize>, i: int)
    requires
        1 <= i,
        i + 1 < e.len(),
        e[0] == 0,
        e[i] > 0,
        e[i + 1] + 1 <= usize::MAX,
    ensures
        seq_total(
            nat_seq(
                e.update(0, (e[i] - 1) as usize).update(i + 1, (e[i + 1] + 1) as usize).update(i, 0),
            ),
        ) == seq_total(nat_seq(e)),
{
    let e1 = e.update(0, (e[i] - 1) as usize);
    let e2 = e1.update(i + 1, (e[i + 1] + 1) as usize);
    lemma_nat_seq_update(e, 0, (e[i] - 1) as usize);
    lemma_nat_seq_update(e1, i + 1, (e[i + 1] + 1) as usize);
    lemma_nat_seq_update(e2, i, 0);
    lemma_total_update(nat_seq(e), 0, (e[i] - 1) as nat);
    lemma_total_update(nat_seq(e1), i + 1, (e[i + 1] + 1) as nat);
    lemma_total_update(nat_seq(e2), i, 0);
}

proof fn lemma_two_le_total(e: Seq<usize>, i: int, j: int)
    requires
        0 <= i < e.len(),
        0 <= j < e.len(),
        i != j,
    ensures
        e[i] + e[j] <= seq_total(nat_seq(e)),
{
    let s = nat_seq(e);
    lemma_total_update(s, i, 0);
    crate::pile::lemma_sum_where_bound(s.update(i, 0), |t: int| true, j);
}

/// The cards of the first `j` categories of `e`.
pub open spec fn head_total(e: Seq<usize>, j: int) -> nat {
    seq_total(nat_seq(e).subrange(0, j))
}

/// The part of the rank of `e` that its first `j + 1` categories give:
/// `C(head_total(e, j) + j - 1, j)`.
pub open spec fn rank_term(e: Seq<usize>, j: int) -> nat {
    binom((head_total(e, j) + j - 1) as nat, j as nat)
}

/// `rank_term(e, 1) + ... + rank_term(e, j)`.
pub open spec fn rank_sum(e: Seq<usize>, j: int) -> nat
    decreases j,
{
    if j <= 0 {
        0
    } else {
        rank_sum(e, j - 1) + rank_term(e, j)
    }
}

/// How many piles the enumeration of `GenPile::next` still hands out from
/// the state `e`, itself included.
pub open spec fn gen_steps(e: Seq<usize>) -> nat {
    if seq_total(nat_seq(e)) == 0 {
        0
    } else {
        1 + rank_sum(e, e.len() - 1)
    }
}

proof fn lemma_head_update(e: Seq<usize>, i: int, v: usize, j: int)
    requires
        0 <= i < e.len(),
        0 <= j <= e.len(),
    ensures
        head_total(e.update(i, v), j) + (if i < j {
            e[i] as nat
        } else {
            0
        }) == head_total(e, j) + (if i < j {
            v as nat
        } else {
            0
        }),
{
    let s = nat_seq(e).subrange(0, j);
    if i < j {
        assert(nat_seq(e.update(i, v)).subrange(0, j) =~= s.update(i, v as nat));
        lemma_total_update(s, i, v as nat);
    } else {
        assert(nat_seq(e.update(i, v)).subrange(0, j) =~= s);
    }
}

proof fn lemma_head_zero(e: Seq<usize>, j: int)
    requires
        0 <= j <= e.len(),
        forall|t: int| 0 <= t < j ==> e[t] == 0,
    ensures
        head_total(e, j) == 0,
    decreases j,
{
    if j > 0 {
        lemma_head_zero(e, j - 1);
        assert(nat_seq(e).subrange(0, j).drop_last() =~= nat_seq(e).subrange(0, j - 1));
    }
}

proof fn lemma_head_step(e: Seq<usize>, j: int)
    requires
        0 <= j < e.len(),
    ensures
        head_total(e, j + 1) == head_total(e, j) + e[j],
{
    assert(nat_seq(e).subrange(0, j + 1).drop_last() =~= nat_seq(e).subrange(0, j));
}

/// With the same head totals from `a` on, the rank sums keep their gap.
proof fn lemma_rank_sum_keep(e: Seq<usize>, f: Seq<usize>, a: int, j: int, c: nat)
    requires
        0 <= a <= j,
        rank_sum(e, a) == rank_sum(f, a) + c,
        forall|t: int| a < t <= j ==> head_total(e, t) == head_total(f, t),
    ensures
        rank_sum(e, j) == rank_sum(f, j) + c,
    decreases j - a,
{
    if j > a {
        lemma_rank_sum_keep(e, f, a, j - 1, c);
    }
}

/// Hockey stick: with every head total up to `j` equal to `k`, the rank sum
/// is `C(k + j, j) - 1`.
proof fn lemma_rank_sum_flat(e: Seq<usize>, j: int, k: nat)
    requires
        0 <= j,
        forall|t: int| 1 <= t <= j ==> head_total(e, t) == k,
    ensures
        rank_sum(e, j) + 1 == binom(k + j as nat, j as nat),
    decreases j,
{
    if j == 0 {
        assert(binom(k, 0) == 1);
    } else {
        lemma_rank_sum_flat(e, j - 1, k);
        let n = (k + j) as nat;
        assert(binom(n, j as nat) == binom((n - 1) as nat, (j - 1) as nat) + binom(
            (n - 1) as nat,
            j as nat,
        ));
        assert((k + (j - 1)) as nat == (n - 1) as nat);
    }
}

/// A state whose cards all lie in its last category is the last one handed
/// out.
pub(crate) proof fn lemma_steps_last(e: Seq<usize>)
    requires
        e.len() >= 1,
        forall|t: int| 0 <= t < e.len() - 1 ==> e[t] == 0,
    ensures
        rank_sum(e, e.len() - 1) == 0,
{
    assert forall|t: int| 1 <= t <= e.len() - 1 implies head_total(e, t) == 0 by {
        lemma_head_zero(e, t);
    }
    lemma_rank_sum_flat(e, e.len() - 1, 0);
    lemma_binom_all((e.len() - 1) as nat);
}

proof fn lemma_head_one(e: Seq<usize>)
    requires
        e.len() >= 1,
    ensures
        head_total(e, 1) == e[0],
{
    lemma_head_zero(e, 0);
    lemma_head_step(e, 0);
}

proof fn lemma_binom_one(n: nat)
    ensures
        binom(n, 1) == n,
    decreases n,
{
    if n > 0 {
        lemma_binom_one((n - 1) as nat);
        assert(binom(n, 1) == binom((n - 1) as nat, 0) + binom((n - 1) as nat, 1));
    }
}

/// Moving a card from the first category to the second takes one step.
pub(crate) proof fn lemma_steps_first(e: Seq<usize>)
    requires
        e.len() >= 2,
        e[0] > 0,
        e[1] + 1 <= usize::MAX,
    ensures
        rank_sum(e, e.len() - 1) == rank_sum(
            e.update(0, (e[0] - 1) as usize).update(1, (e[1] + 1) as usize),
            e.len() - 1,
        ) + 1,
{
    let g = e.update(0, (e[0] - 1) as usize);
    let f = g.update(1, (e[1] + 1) as usize);
    let m = e.len() as int;
    assert forall|t: int| 1 <= t <= m implies head_total(f, t) + (if t == 1 {
        1nat
    } else {
        0nat
    }) == head_total(e, t) by {
        lemma_head_update(e, 0, (e[0] - 1) as usize, t);
        lemma_head_update(g, 1, (e[1] + 1) as usize, t);
    }
    lemma_head_one(e);
    lemma_binom_one(head_total(e, 1));
    lemma_binom_one(head_total(f, 1));
    assert(head_total(f, 1) + 1 == head_total(e, 1));
    assert((head_total(e, 1) + 1 - 1) as nat == head_total(e, 1));
    assert((head_total(f, 1) + 1 - 1) as nat == head_total(f, 1));
    assert(rank_term(e, 1) == head_total(e, 1));
    assert(rank_term(f, 1) == head_total(f, 1));
    assert(rank_sum(e, 1) == rank_sum(e, 0) + rank_term(e, 1));
    assert(rank_sum(f, 1) == rank_sum(f, 0) + rank_term(f, 1));
    assert(rank_sum(e, 1) == rank_sum(f, 1) + 1);
    lemma_rank_sum_keep(e, f, 1, m - 1, 1);
}

/// Emptying the first non-empty category `i` into the first one, less one
/// card that goes to category `i + 1`, takes one step.
pub(crate) proof fn lemma_steps_respread(e: Seq<usize>, i: int)
    requires
        1 <= i,
        i + 1 < e.len(),
        forall|t: int| 0 <= t < i ==> e[t] == 0,
        e[i] > 0,
        e[i + 1] + 1 <= usize::MAX,
    ensures
        rank_sum(e, e.len() - 1) == rank_sum(
            e.update(0, (e[i] - 1) as usize).update(i + 1, (e[i + 1] + 1) as usize).update(i, 0),
            e.len() - 1,
        ) + 1,
{
    let k1 = (e[i] - 1) as usize;
    let g1 = e.update(0, k1);
    let g2 = g1.update(i + 1, (e[i + 1] + 1) as usize);
    let f = g2.update(i, 0);
    let m = e.len() as int;
    assert forall|t: int| 0 <= t <= i implies head_total(e, t) == 0 by {
        lemma_head_zero(e, t);
    }
    lemma_head_step(e, i);
    assert forall|t: int| 0 <= t <= m implies #[trigger] head_total(f, t) == if t == 0 {
        0
    } else if t <= i + 1 {
        k1 as nat
    } else {
        head_total(e, t)
    } by {
        lemma_head_update(e, 0, k1, t);
        lemma_head_update(g1, i + 1, (e[i + 1] + 1) as usize, t);
        lemma_head_update(g2, i, 0, t);
        if t == 0 {
            assert(nat_seq(f).subrange(0, 0) =~= Seq::<nat>::empty());
        }
    }
    assert forall|t: int| 1 <= t <= i + 1 implies head_total(f, t) == k1 as nat by {
        assert(head_total(f, t) == k1 as nat);
    }
    lemma_rank_sum_flat(f, i + 1, k1 as nat);
    assert forall|t: int| 1 <= t <= i implies head_total(e, t) == 0 by {
    }
    lemma_rank_sum_flat(e, i, 0);
    lemma_binom_all(i as nat);
    assert(rank_term(e, i + 1) == binom((k1 + i + 1) as nat, (i + 1) as nat));
    assert(rank_sum(e, i + 1) == rank_sum(f, i + 1) + 1);
    assert forall|t: int| i + 1 < t <= m - 1 implies head_total(e, t) == head_total(f, t) by {
        assert(head_total(f, t) == head_total(e, t));
    }
    lemma_rank_sum_keep(e, f, i + 1, m - 1, 1);
}

/// The enumeration of the piles of `k >= 1` cards in `m >= 1` categories,
/// from `GenPile::iter(k, ..)`, starts with `C(k + m - 1, m - 1)` steps to
/// go and loses one per pile handed out (see `next`): it hands out that many
/// piles of `k` cards, each once.
pub proof fn lemma_gen_enumeration(k: usize, m: nat)
    requires
        k >= 1,
        m >= 1,
    ensures
        gen_steps(Seq::new(m, |i: int| if i == 0 { k } else { 0usize })) == binom(
            (k + m - 1) as nat,
            (m - 1) as nat,
        ),
{
    let e = Seq::new(m, |i: int| if i == 0 { k } else { 0usize });
    lemma_head_one(e);
    assert forall|t: int| 1 <= t <= m implies #[trigger] head_total(e, t) == k by {
        lemma_head_flat(e, t);
    }
    lemma_rank_sum_flat(e, m - 1, k as nat);
    assert(nat_seq(e).subrange(0, m as int) =~= nat_seq(e));
    assert((k + (m - 1)) as nat == (k + m - 1) as nat);
}

proof fn lemma_head_flat(e: Seq<usize>, t: int)
    requires
        1 <= t <= e.len(),
        forall|j: int| 1 <= j < e.len() ==> e[j] == 0,
    ensures
        head_total(e, t) == e[0],
    decreases t,
{
    if t == 1 {
        lemma_head_one(e);
    } else {
        lemma_head_flat(e, t - 1);
        lemma_head_step(e, t - 1);
    }
}

} // verus!
