//! Piles: fixed-shape vectors of card counts, one count per category, with
//! some categories marked as lands.
use vstd::prelude::*;

verus! {

/// The sum of the counts `s[i]` for which `sel(i)` holds.
pub open spec fn sum_where(s: Seq<nat>, sel: spec_fn(int) -> bool) -> nat
    decreases s.len(),
{
    if s.len() == 0 {
        0
    } else {
        sum_where(s.drop_last(), sel) + if sel(s.len() - 1) {
            s.last()
        } else {
            0
        }
    }
}

/// The sum of all the counts.
pub open spec fn seq_total(s: Seq<nat>) -> nat {
    sum_where(s, |i: int| true)
}

/// Every count of `a` is at least the count of `b` in the same category.
pub open spec fn dominates(a: Seq<nat>, b: Seq<nat>) -> bool {
    a.len() == b.len() && forall|i: int| 0 <= i < a.len() ==> #[trigger] a[i] >= b[i]
}

/// Category-wise sum.
pub open spec fn seq_add(a: Seq<nat>, b: Seq<nat>) -> Seq<nat> {
    Seq::new(a.len(), |i: int| a[i] + b[i])
}

/// Category-wise difference (cut at zero).
pub open spec fn seq_sub(a: Seq<nat>, b: Seq<nat>) -> Seq<nat> {
    Seq::new(a.len(), |i: int| crate::prob::minus(a[i], b[i]))
}

/// The counts of a vector of `usize`.
pub open spec fn nat_seq(v: Seq<usize>) -> Seq<nat> {
    Seq::new(v.len(), |i: int| v[i] as nat)
}

pub proof fn lemma_sum_where_bound(s: Seq<nat>, sel: spec_fn(int) -> bool, i: int)
    requires
        0 <= i < s.len(),
    ensures
        sum_where(s, sel) >= if sel(i) {
            s[i]
        } else {
            0
        },
        sum_where(s, sel) <= seq_total(s),
    decreases s.len(),
{
    lemma_sum_where_le_total(s, sel);
    if i < s.len() - 1 {
        lemma_sum_where_bound(s.drop_last(), sel, i);
    }
}

pub proof fn lemma_sum_where_le_total(s: Seq<nat>, sel: spec_fn(int) -> bool)
    ensures
        sum_where(s, sel) <= seq_total(s),
    decreases s.len(),
{
    if s.len() > 0 {
        lemma_sum_where_le_total(s.drop_last(), sel);
    }
}

/// The sums of a category-wise sum add up.
pub proof fn lemma_sum_where_add(a: Seq<nat>, b: Seq<nat>, sel: spec_fn(int) -> bool)
    requires
        a.len() == b.len(),
    ensures
        sum_where(seq_add(a, b), sel) == sum_where(a, sel) + sum_where(b, sel),
    decreases a.len(),
{
    if a.len() > 0 {
        lemma_sum_where_add(a.drop_last(), b.drop_last(), sel);
        assert(seq_add(a, b).drop_last() =~= seq_add(a.drop_last(), b.drop_last()));
    }
}

/// Taking a dominated pile out and putting it back gives the pile again.
pub proof fn lemma_seq_sub_add(a: Seq<nat>, b: Seq<nat>)
    requires
        dominates(a, b),
    ensures
        seq_add(seq_sub(a, b), b) == a,
        dominates(a, seq_sub(a, b)),
{
    assert(seq_add(seq_sub(a, b), b) =~= a);
}

/// What the probability engine needs of a pile: its counts, which of its
/// categories are lands, and a way to build a pile of the same shape.
pub trait Pile: Sized {
    /// The pile is well formed.
    spec fn wf(&self) -> bool;

    /// The count of each category.
    spec fn counts(&self) -> Seq<nat>;

    /// Category `i` holds lands.
    spec fn is_land(&self, i: int) -> bool;

    /// `p` has the shape of `self`, and the counts `c`.
    spec fn shaped(&self, p: &Self, c: Seq<nat>) -> bool;

    proof fn lemma_wf_total(&self)
        requires
            self.wf(),
        ensures
            seq_total(self.counts()) <= usize::MAX,
    ;

    /// The number of categories.
    fn num_keys(&self) -> (r: usize)
        requires
            self.wf(),
        ensures
            r == self.counts().len(),
    ;

    /// The count of category `i`.
    fn get(&self, i: usize) -> (r: usize)
        requires
            self.wf(),
            i < self.counts().len(),
        ensures
            r == self.counts()[i as int],
    ;

    /// Category `i` holds lands.
    fn land_key(&self, i: usize) -> (r: bool)
        requires
            self.wf(),
            i < self.counts().len(),
        ensures
            r == self.is_land(i as int),
    ;

    /// The pile of the same shape as `self` with the counts `c`.
    fn with_vec(&self, c: &Vec<usize>) -> (r: Self)
        requires
            self.wf(),
            c.len() == self.counts().len(),
            seq_total(nat_seq(c@)) <= usize::MAX,
        ensures
            self.shaped(&r, nat_seq(c@)),
    ;
}

/// The number of lands in a pile.
pub open spec fn pile_lands<P: Pile>(p: P) -> nat {
    sum_where(p.counts(), |i: int| p.is_land(i))
}

/// The number of cards of a pile.
pub open spec fn pile_total<P: Pile>(p: P) -> nat {
    seq_total(p.counts())
}

pub proof fn lemma_sum_where_3(a: nat, b: nat, c: nat, sel: spec_fn(int) -> bool)
    ensures
        sum_where(seq![a, b, c], sel) == (if sel(0) {
            a
        } else {
            0
        }) + (if sel(1) {
            b
        } else {
            0
        }) + (if sel(2) {
            c
        } else {
            0
        }),
{
    let s = seq![a, b, c];
    assert(s.drop_last() =~= seq![a, b]);
    assert(seq![a, b].drop_last() =~= seq![a]);
    assert(seq![a].drop_last() =~= Seq::<nat>::empty());
    assert(sum_where(s, sel) == sum_where(seq![a, b], sel) + if sel(2) {
        c
    } else {
        0
    });
    assert(sum_where(seq![a, b], sel) == sum_where(seq![a], sel) + if sel(1) {
        b
    } else {
        0
    });
    assert(sum_where(seq![a], sel) == sum_where(Seq::<nat>::empty(), sel) + if sel(0) {
        a
    } else {
        0
    });
}

pub proof fn lemma_sum_where_5(a: nat, b: nat, c: nat, d: nat, e: nat, sel: spec_fn(int) -> bool)
    ensures
        sum_where(seq![a, b, c, d, e], sel) == (if sel(0) {
            a
        } else {
            0
        }) + (if sel(1) {
            b
        } else {
            0
        }) + (if sel(2) {
            c
        } else {
            0
        }) + (if sel(3) {
            d
        } else {
            0
        }) + (if sel(4) {
            e
        } else {
            0
        }),
{
    let s = seq![a, b, c, d, e];
    assert(s.drop_last() =~= seq![a, b, c, d]);
    assert(seq![a, b, c, d].drop_last() =~= seq![a, b, c]);
    lemma_sum_where_3(a, b, c, sel);
    assert(sum_where(s, sel) == sum_where(seq![a, b, c, d], sel) + if sel(4) {
        e
    } else {
        0
    });
    assert(sum_where(seq![a, b, c, d], sel) == sum_where(seq![a, b, c], sel) + if sel(3) {
        d
    } else {
        0
    });
}

/// Taking a pile `q` that `p` holds out of `p` and putting it back gives
/// `p` again: `(p - q) + q == p`, for the counts that `sub` and `add` of
/// every pile shape give.
pub proof fn lemma_pile_round_trip<P: Pile>(p: P, q: P)
    requires
        dominates(p.counts(), q.counts()),
    ensures
        seq_add(seq_sub(p.counts(), q.counts()), q.counts()) == p.counts(),
{
    lemma_seq_sub_add(p.counts(), q.counts());
}

/// A pile holds at least the cards of any pile it dominates, in every
/// selection of categories.
pub proof fn lemma_sum_where_dominates(a: Seq<nat>, b: Seq<nat>, sel: spec_fn(int) -> bool)
    requires
        dominates(a, b),
    ensures
        sum_where(b, sel) <= sum_where(a, sel),
    decreases a.len(),
{
    if a.len() > 0 {
        lemma_sum_where_dominates(a.drop_last(), b.drop_last(), sel);
    }
}

} // verus!
