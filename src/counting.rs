//! Sums over all the compositions of a number into a fixed count of
//! categories, and the number of ways of drawing a given composition.
use vstd::prelude::*;
use crate::pile::{seq_total, sum_where, seq_sub, dominates};
use crate::prob::{binom, minus, vandermonde_sum, lemma_vandermonde, lemma_binom_above};

verus! {

/// The number of ways of drawing the composition `hand` out of a deck with
/// the composition `deck`: the product of `C(deck[i], hand[i])`.
pub open spec fn ways(deck: Seq<nat>, hand: Seq<nat>) -> nat
    decreases deck.len(),
{
    if deck.len() == 0 {
        1
    } else {
        ways(deck.drop_last(), hand.drop_last()) * binom(deck.last(), hand.last())
    }
}

/// The sum of `f(h)` over every sequence `h` of `len` counts that add up to
/// `k`.
pub open spec fn comp_sum(len: nat, k: nat, f: spec_fn(Seq<nat>) -> nat) -> nat
    decreases len, 1nat,
{
    if len == 0 {
        if k == 0 {
            f(Seq::empty())
        } else {
            0
        }
    } else {
        last_sum(len, k, f, k + 1)
    }
}

/// The part of `comp_sum(len, k, f)` whose last count is below `i`.
pub open spec fn last_sum(len: nat, k: nat, f: spec_fn(Seq<nat>) -> nat, i: nat) -> nat
    decreases len, 0nat, i,
{
    if len == 0 || i == 0 {
        0
    } else {
        last_sum(len, k, f, (i - 1) as nat) + comp_sum(
            (len - 1) as nat,
            (k - (i - 1)) as nat,
            push_fn(f, (i - 1) as nat),
        )
    }
}

/// `h` to `f(h.push(x))`.
pub open spec fn push_fn(f: spec_fn(Seq<nat>) -> nat, x: nat) -> spec_fn(Seq<nat>) -> nat {
    |h: Seq<nat>| f(h.push(x))
}

pub proof fn lemma_total_push(h: Seq<nat>, x: nat)
    ensures
        seq_total(h.push(x)) == seq_total(h) + x,
{
    assert(h.push(x).drop_last() =~= h);
}

/// Scaling every term scales the sum.
pub proof fn lemma_comp_sum_scale(len: nat, k: nat, f: spec_fn(Seq<nat>) -> nat, c: nat)
    ensures
        comp_sum(len, k, |h: Seq<nat>| c * f(h)) == c * comp_sum(len, k, f),
    decreases len, 1nat,
{
    let g = |h: Seq<nat>| c * f(h);
    if len == 0 {
        if k != 0 {
            assert(c * 0 == 0) by (nonlinear_arith);
        }
    } else {
        lemma_last_sum_scale(len, k, f, c, k + 1);
    }
}

pub proof fn lemma_last_sum_scale(len: nat, k: nat, f: spec_fn(Seq<nat>) -> nat, c: nat, i: nat)
    requires
        len > 0,
    ensures
        last_sum(len, k, |h: Seq<nat>| c * f(h), i) == c * last_sum(len, k, f, i),
    decreases len, 0nat, i,
{
    let g = |h: Seq<nat>| c * f(h);
    if i == 0 {
        assert(c * 0 == 0) by (nonlinear_arith);
    } else {
        let x = (i - 1) as nat;
        let kx = (k - x) as nat;
        lemma_last_sum_scale(len, k, f, c, x);
        lemma_comp_sum_scale((len - 1) as nat, kx, push_fn(f, x), c);
        assert(push_fn(g, x) =~= (|h: Seq<nat>| c * push_fn(f, x)(h)));
        let a = last_sum(len, k, f, x);
        let b = comp_sum((len - 1) as nat, kx, push_fn(f, x));
        assert(c * a + c * b == c * (a + b)) by (nonlinear_arith);
    }
}

/// A sum of terms that are each at most the matching term of another sum is
/// at most that sum.
pub proof fn lemma_comp_sum_le(
    len: nat,
    k: nat,
    f: spec_fn(Seq<nat>) -> nat,
    g: spec_fn(Seq<nat>) -> nat,
)
    requires
        forall|h: Seq<nat>| h.len() == len && seq_total(h) == k ==> #[trigger] f(h) <= g(h),
    ensures
        comp_sum(len, k, f) <= comp_sum(len, k, g),
    decreases len, 1nat,
{
    if len > 0 {
        lemma_last_sum_le(len, k, f, g, k + 1);
    } else if k == 0 {
        assert(Seq::<nat>::empty().len() == 0 && seq_total(Seq::<nat>::empty()) == 0);
    }
}

pub proof fn lemma_last_sum_le(
    len: nat,
    k: nat,
    f: spec_fn(Seq<nat>) -> nat,
    g: spec_fn(Seq<nat>) -> nat,
    i: nat,
)
    requires
        len > 0,
        i <= k + 1,
        forall|h: Seq<nat>| h.len() == len && seq_total(h) == k ==> #[trigger] f(h) <= g(h),
    ensures
        last_sum(len, k, f, i) <= last_sum(len, k, g, i),
    decreases len, 0nat, i,
{
    if i > 0 {
        let x = (i - 1) as nat;
        let kx = (k - x) as nat;
        lemma_last_sum_le(len, k, f, g, x);
        assert forall|h: Seq<nat>| h.len() == (len - 1) as nat && seq_total(h) == kx implies #[trigger] push_fn(f, x)(h)
            <= push_fn(g, x)(h) by {
            lemma_total_push(h, x);
            assert(f(h.push(x)) <= g(h.push(x)));
        }
        lemma_comp_sum_le((len - 1) as nat, kx, push_fn(f, x), push_fn(g, x));
    }
}

/// The partial sums grow with their bound.
pub proof fn lemma_last_sum_grows(len: nat, k: nat, f: spec_fn(Seq<nat>) -> nat, i: nat, j: nat)
    requires
        i <= j,
    ensures
        last_sum(len, k, f, i) <= last_sum(len, k, f, j),
    decreases j,
{
    if i < j {
        lemma_last_sum_grows(len, k, f, i, (j - 1) as nat);
    }
}

/// A sum of terms that are all zero is zero.
pub proof fn lemma_comp_sum_zero(len: nat, k: nat, f: spec_fn(Seq<nat>) -> nat)
    requires
        forall|h: Seq<nat>| h.len() == len && seq_total(h) == k ==> #[trigger] f(h) == 0,
    ensures
        comp_sum(len, k, f) == 0,
{
    let z = |h: Seq<nat>| 0 * f(h);
    lemma_comp_sum_le(len, k, f, z);
    lemma_comp_sum_scale(len, k, f, 0);
}

/// A deck holds no way of drawing more cards of a category than it has.
pub proof fn lemma_ways_zero(deck: Seq<nat>, hand: Seq<nat>, i: int)
    requires
        deck.len() == hand.len(),
        0 <= i < deck.len(),
        hand[i] > deck[i],
    ensures
        ways(deck, hand) == 0,
    decreases deck.len(),
{
    if i == deck.len() - 1 {
        lemma_binom_above(deck.last(), hand.last());
        let w = ways(deck.drop_last(), hand.drop_last());
        assert(w * 0 == 0) by (nonlinear_arith);
    } else {
        lemma_ways_zero(deck.drop_last(), hand.drop_last(), i);
        let b = binom(deck.last(), hand.last());
        assert(0 * b == 0) by (nonlinear_arith);
    }
}

/// Generalised Vandermonde identity: over all the compositions of `k`, the
/// numbers of ways of drawing them add up to `C(total, k)`.
pub proof fn lemma_ways_sum(deck: Seq<nat>, k: nat)
    ensures
        comp_sum(deck.len(), k, |h: Seq<nat>| ways(deck, h)) == binom(seq_total(deck), k),
    decreases deck.len(), 1nat,
{
    let w = |h: Seq<nat>| ways(deck, h);
    if deck.len() == 0 {
        assert(seq_total(deck) == 0);
        if k > 0 {
            lemma_binom_above(0, k);
        }
    } else {
        let d1 = deck.drop_last();
        let t1 = seq_total(d1);
        assert(seq_total(deck) == t1 + deck.last()) by {
            assert((|i: int| true) =~= (|i: int| true));
        }
        lemma_ways_sum_last(deck, k, k + 1);
        lemma_vandermonde(deck.last(), t1, k);
    }
}

proof fn lemma_ways_sum_last(deck: Seq<nat>, k: nat, i: nat)
    requires
        deck.len() > 0,
        i <= k + 1,
    ensures
        last_sum(deck.len(), k, |h: Seq<nat>| ways(deck, h), i) == vandermonde_sum(
            deck.last(),
            seq_total(deck.drop_last()),
            k,
            i,
        ),
    decreases deck.len(), 0nat, i,
{
    let w = |h: Seq<nat>| ways(deck, h);
    if i > 0 {
        let x = (i - 1) as nat;
        let kx = (k - x) as nat;
        let d1 = deck.drop_last();
        lemma_ways_sum_last(deck, k, x);
        let c = binom(deck.last(), x);
        let w1 = |h: Seq<nat>| ways(d1, h);
        assert forall|h: Seq<nat>| #[trigger] push_fn(w, x)(h) == c * w1(h) by {
            assert(h.push(x).drop_last() =~= h);
            let a = ways(d1, h);
            assert(a * c == c * a) by (nonlinear_arith);
        }
        assert(push_fn(w, x) =~= (|h: Seq<nat>| c * w1(h)));
        lemma_comp_sum_scale((deck.len() - 1) as nat, kx, w1, c);
        lemma_ways_sum(d1, kx);
    }
}

/// A composition whose every count is at most the deck's is drawn in at
/// least one way.
pub proof fn lemma_ways_positive(deck: Seq<nat>, hand: Seq<nat>)
    requires
        dominates(deck, hand),
    ensures
        ways(deck, hand) >= 1,
    decreases deck.len(),
{
    if deck.len() > 0 {
        lemma_ways_positive(deck.drop_last(), hand.drop_last());
        crate::prob::lemma_binom_positive(deck.last(), hand.last());
        let a = ways(deck.drop_last(), hand.drop_last());
        let b = binom(deck.last(), hand.last());
        assert(a * b >= 1) by (nonlinear_arith)
            requires
                a >= 1,
                b >= 1,
        ;
    }
}

/// The cards left after a dominated pile is taken out.
pub proof fn lemma_total_sub(a: Seq<nat>, b: Seq<nat>)
    requires
        dominates(a, b),
    ensures
        seq_total(seq_sub(a, b)) + seq_total(b) == seq_total(a),
{
    crate::pile::lemma_seq_sub_add(a, b);
    crate::pile::lemma_sum_where_add(seq_sub(a, b), b, |i: int| true);
}

/// Every composition counts one.
pub open spec fn count_one(h: Seq<nat>) -> nat {
    1
}

/// Stars and bars: there are `C(k + m - 1, m - 1)` compositions of `k`
/// into `m >= 1` counts.
pub proof fn lemma_compositions_count(m: nat, k: nat)
    requires
        m >= 1,
    ensures
        comp_sum(m, k, |h: Seq<nat>| count_one(h)) == binom((k + m - 1) as nat, (m - 1) as nat),
    decreases m, 1nat,
{
    if m == 1 {
        lemma_compositions_one(k, k + 1);
        assert(binom(k, 0) == 1);
    } else {
        lemma_compositions_last(m, k, k + 1);
        lemma_binom_above((m - 2) as nat, (m - 1) as nat);
        assert((k + m - 1 - (k + 1)) as nat == (m - 2) as nat);
    }
}

proof fn lemma_compositions_one(k: nat, i: nat)
    requires
        i <= k + 1,
    ensures
        last_sum(1, k, |h: Seq<nat>| count_one(h), i) == if i == k + 1 {
            1nat
        } else {
            0nat
        },
    decreases i,
{
    let one = |h: Seq<nat>| count_one(h);
    if i > 0 {
        let x = (i - 1) as nat;
        lemma_compositions_one(k, x);
        assert(comp_sum(0, (k - x) as nat, push_fn(one, x)) == if x == k {
            1nat
        } else {
            0nat
        });
    }
}

proof fn lemma_compositions_last(m: nat, k: nat, i: nat)
    requires
        m >= 2,
        i <= k + 1,
    ensures
        last_sum(m, k, |h: Seq<nat>| count_one(h), i) + binom(
            (k + m - 1 - i) as nat,
            (m - 1) as nat,
        ) == binom((k + m - 1) as nat, (m - 1) as nat),
    decreases m, 0nat, i,
{
    let one = |h: Seq<nat>| count_one(h);
    if i > 0 {
        let x = (i - 1) as nat;
        lemma_compositions_last(m, k, x);
        assert(push_fn(one, x) =~= one);
        lemma_compositions_count((m - 1) as nat, (k - x) as nat);
        let n = (k + m - 1 - x) as nat;
        assert(((k - x) as nat + (m - 1) as nat - 1) as nat == (n - 1) as nat);
        assert(binom(n, (m - 1) as nat) == binom((n - 1) as nat, (m - 2) as nat) + binom(
            (n - 1) as nat,
            (m - 1) as nat,
        ));
        assert((k + m - 1 - i) as nat == (n - 1) as nat);
    }
}

/// Sums of two families of terms add up.
pub proof fn lemma_comp_sum_add(
    len: nat,
    k: nat,
    f: spec_fn(Seq<nat>) -> nat,
    g: spec_fn(Seq<nat>) -> nat,
)
    ensures
        comp_sum(len, k, |h: Seq<nat>| f(h) + g(h)) == comp_sum(len, k, f) + comp_sum(len, k, g),
    decreases len, 1nat,
{
    if len > 0 {
        lemma_last_sum_add(len, k, f, g, k + 1);
    }
}

proof fn lemma_last_sum_add(
    len: nat,
    k: nat,
    f: spec_fn(Seq<nat>) -> nat,
    g: spec_fn(Seq<nat>) -> nat,
    i: nat,
)
    requires
        len > 0,
    ensures
        last_sum(len, k, |h: Seq<nat>| f(h) + g(h), i) == last_sum(len, k, f, i) + last_sum(
            len,
            k,
            g,
            i,
        ),
    decreases len, 0nat, i,
{
    let fg = |h: Seq<nat>| f(h) + g(h);
    if i > 0 {
        let x = (i - 1) as nat;
        let kx = (k - x) as nat;
        lemma_last_sum_add(len, k, f, g, x);
        lemma_comp_sum_add((len - 1) as nat, kx, push_fn(f, x), push_fn(g, x));
        assert(push_fn(fg, x) =~= (|h: Seq<nat>| push_fn(f, x)(h) + push_fn(g, x)(h)));
    }
}

/// Two families of terms that agree on every composition have the same sum.
pub proof fn lemma_comp_sum_eq(
    len: nat,
    k: nat,
    f: spec_fn(Seq<nat>) -> nat,
    g: spec_fn(Seq<nat>) -> nat,
)
    requires
        forall|h: Seq<nat>| h.len() == len && seq_total(h) == k ==> #[trigger] f(h) == g(h),
    ensures
        comp_sum(len, k, f) == comp_sum(len, k, g),
{
    lemma_comp_sum_le(len, k, f, g);
    lemma_comp_sum_le(len, k, g, f);
}

/// The ways of drawing `h` when it holds exactly `l` cards of the
/// categories that `sel` picks; zero otherwise.
pub open spec fn ways_with(deck: Seq<nat>, sel: spec_fn(int) -> bool, l: nat) -> spec_fn(
    Seq<nat>,
) -> nat {
    |h: Seq<nat>|
        if sum_where(h, sel) == l {
            ways(deck, h)
        } else {
            0
        }
}

/// The categories that `sel` does not pick.
pub open spec fn not_sel(sel: spec_fn(int) -> bool) -> spec_fn(int) -> bool {
    |i: int| !sel(i)
}

/// Drawing `k` cards of which exactly `l` come from the categories that
/// `sel` picks: `C(picked, l) * C(others, k - l)` ways.
pub proof fn lemma_ways_with(deck: Seq<nat>, sel: spec_fn(int) -> bool, k: nat, l: nat)
    ensures
        comp_sum(deck.len(), k, ways_with(deck, sel, l)) == if l <= k {
            binom(sum_where(deck, sel), l) * binom(sum_where(deck, not_sel(sel)), (k - l) as nat)
        } else {
            0
        },
    decreases deck.len(), 1nat,
{
    let f = ways_with(deck, sel, l);
    if deck.len() == 0 {
        assert(sum_where(deck, sel) == 0 && sum_where(deck, not_sel(sel)) == 0);
        if k == 0 {
            assert(sum_where(Seq::<nat>::empty(), sel) == 0);
            assert(ways(Seq::<nat>::empty(), Seq::<nat>::empty()) == 1);
            if l == 0 {
                assert(binom(0, 0) == 1);
                assert(binom(0, 0) * binom(0, 0) == 1) by (nonlinear_arith)
                    requires
                        binom(0, 0) == 1,
                ;
            }
        } else if l <= k {
            if l > 0 {
                lemma_binom_above(0, l);
                assert(0 * binom(0, (k - l) as nat) == 0) by (nonlinear_arith);
            } else {
                lemma_binom_above(0, k);
                assert(binom(0, 0) * 0 == 0) by (nonlinear_arith);
            }
        }
    } else {
        lemma_ways_with_last(deck, sel, k, l, k + 1);
        let d1 = deck.drop_last();
        let c = deck.last();
        let j = deck.len() - 1;
        let lands1 = sum_where(d1, sel);
        let others1 = sum_where(d1, not_sel(sel));
        assert(sum_where(deck, sel) == lands1 + if sel(j) {
            c
        } else {
            0
        });
        assert(sum_where(deck, not_sel(sel)) == others1 + if !sel(j) {
            c
        } else {
            0
        });
        if l <= k {
            if sel(j) {
                lemma_vandermonde(c, lands1, l);
                let x = binom(others1, (k - l) as nat);
                let y = binom(c + lands1, l);
                assert(comp_sum(deck.len(), k, f) == x * y);
                assert(x * y == y * x) by (nonlinear_arith);
                assert(c + lands1 == lands1 + c);
            } else {
                lemma_vandermonde(c, others1, (k - l) as nat);
                assert(c + others1 == others1 + c);
            }
        }
    }
}

proof fn lemma_ways_with_last(deck: Seq<nat>, sel: spec_fn(int) -> bool, k: nat, l: nat, i: nat)
    requires
        deck.len() > 0,
        i <= k + 1,
    ensures
        last_sum(deck.len(), k, ways_with(deck, sel, l), i) == ways_with_partial(deck, sel, k, l, i),
    decreases deck.len(), 0nat, i,
{
    let d1 = deck.drop_last();
    let c = deck.last();
    let j = (deck.len() - 1) as nat;
    let lands1 = sum_where(d1, sel);
    let others1 = sum_where(d1, not_sel(sel));
    let f = ways_with(deck, sel, l);
    if i == 0 {
        assert(binom(others1, (k - l) as nat) * 0 == 0) by (nonlinear_arith);
        assert(binom(lands1, l) * 0 == 0) by (nonlinear_arith);
    } else {
        let x = (i - 1) as nat;
        let kx = (k - x) as nat;
        lemma_ways_with_last(deck, sel, k, l, x);
        let fx = push_fn(f, x);
        let bx = binom(c, x);
        let prev = ways_with_partial(deck, sel, k, l, x);
        let term = comp_sum(j, kx, fx);
        assert(last_sum(deck.len(), k, f, i) == last_sum(deck.len(), k, f, x) + comp_sum(j, kx, fx));
        assert forall|h: Seq<nat>| h.len() == j implies #[trigger] fx(h) == if sum_where(h, sel) + (
        if sel(j as int) {
            x
        } else {
            0
        }) == l {
            ways(d1, h) * bx
        } else {
            0
        } by {
            assert(h.push(x).drop_last() =~= h);
        }
        if sel(j as int) {
            if x <= l {
                let lx = (l - x) as nat;
                let g = |h: Seq<nat>| bx * ways_with(d1, sel, lx)(h);
                assert forall|h: Seq<nat>| h.len() == j && seq_total(h) == kx implies #[trigger] fx(h)
                    == g(h) by {
                    let w = ways(d1, h);
                    assert(w * bx == bx * w) by (nonlinear_arith);
                    assert(bx * 0 == 0) by (nonlinear_arith);
                }
                lemma_comp_sum_eq(j, kx, fx, g);
                lemma_comp_sum_scale(j, kx, ways_with(d1, sel, lx), bx);
                lemma_ways_with(d1, sel, kx, lx);
                if l <= k {
                    assert((kx - lx) as nat == (k - l) as nat);
                    let a = binom(lands1, lx);
                    let b = binom(others1, (k - l) as nat);
                    assert(comp_sum(j, kx, fx) == bx * (a * b));
                    assert(bx * (a * b) == b * (bx * a)) by (nonlinear_arith);
                    let v0 = vandermonde_sum(c, lands1, l, x);
                    assert(vandermonde_sum(c, lands1, l, i) == v0 + bx * a);
                    assert(b * v0 + b * (bx * a) == b * (v0 + bx * a)) by (nonlinear_arith);
                } else {
                    assert(comp_sum(j, kx, fx) == bx * 0);
                    assert(bx * 0 == 0) by (nonlinear_arith);
                }
            } else {
                assert forall|h: Seq<nat>| h.len() == j && seq_total(h) == kx implies #[trigger] fx(h)
                    == 0 by {
                }
                lemma_comp_sum_zero(j, kx, fx);
            }
        } else {
            let g = |h: Seq<nat>| bx * ways_with(d1, sel, l)(h);
            assert forall|h: Seq<nat>| h.len() == j && seq_total(h) == kx implies #[trigger] fx(h)
                == g(h) by {
                let w = ways(d1, h);
                assert(w * bx == bx * w) by (nonlinear_arith);
                assert(bx * 0 == 0) by (nonlinear_arith);
            }
            lemma_comp_sum_eq(j, kx, fx, g);
            lemma_comp_sum_scale(j, kx, ways_with(d1, sel, l), bx);
            lemma_ways_with(d1, sel, kx, l);
            if l <= kx {
                let a = binom(lands1, l);
                let b = binom(others1, (kx - l) as nat);
                assert(((k - l) as nat - x) as nat == (kx - l) as nat);
                assert(comp_sum(j, kx, fx) == bx * (a * b));
                assert(bx * (a * b) == a * (bx * b)) by (nonlinear_arith);
                let v0 = vandermonde_sum(c, others1, (k - l) as nat, x);
                assert(vandermonde_sum(c, others1, (k - l) as nat, i) == v0 + bx * b);
                assert(a * v0 + a * (bx * b) == a * (v0 + bx * b)) by (nonlinear_arith);
            } else {
                assert(comp_sum(j, kx, fx) == bx * 0);
                assert(bx * 0 == 0) by (nonlinear_arith);
            }
        }
        assert(ways_with_partial(deck, sel, k, l, i) == prev + term);
    }
}

/// The part of `lemma_ways_with`'s sum whose last count is below `i`.
spec fn ways_with_partial(deck: Seq<nat>, sel: spec_fn(int) -> bool, k: nat, l: nat, i: nat) -> nat {
    let d1 = deck.drop_last();
    let c = deck.last();
    let j = deck.len() - 1;
    let lands1 = sum_where(d1, sel);
    let others1 = sum_where(d1, not_sel(sel));
    if l > k {
        0
    } else if sel(j) {
        binom(others1, (k - l) as nat) * vandermonde_sum(c, lands1, l, if i < l + 1 {
            i
        } else {
            l + 1
        })
    } else {
        binom(lands1, l) * vandermonde_sum(c, others1, (k - l) as nat, if i < (k - l) + 1 {
            i
        } else {
            ((k - l) + 1) as nat
        })
    }
}

/// The ways of drawing `h` when it holds from `lo` to `hi` cards of the
/// categories that `sel` picks; zero otherwise.
pub open spec fn ways_in(deck: Seq<nat>, sel: spec_fn(int) -> bool, lo: nat, hi: nat) -> spec_fn(
    Seq<nat>,
) -> nat {
    |h: Seq<nat>|
        if lo <= sum_where(h, sel) && sum_where(h, sel) <= hi {
            ways(deck, h)
        } else {
            0
        }
}

/// Drawing `k` cards of which `lo` to `hi` come from the categories that
/// `sel` picks: the sum over `l` from `lo` to `hi` of
/// `C(picked, l) * C(others, k - l)`.
pub proof fn lemma_ways_in(deck: Seq<nat>, sel: spec_fn(int) -> bool, k: nat, lo: nat, hi: nat)
    requires
        lo <= hi + 1,
        hi <= k,
    ensures
        comp_sum(deck.len(), k, ways_in(deck, sel, lo, hi)) == minus(
            vandermonde_sum(sum_where(deck, sel), sum_where(deck, not_sel(sel)), k, hi + 1),
            vandermonde_sum(sum_where(deck, sel), sum_where(deck, not_sel(sel)), k, lo),
        ),
        vandermonde_sum(sum_where(deck, sel), sum_where(deck, not_sel(sel)), k, lo)
            <= vandermonde_sum(sum_where(deck, sel), sum_where(deck, not_sel(sel)), k, hi + 1),
{
    lemma_ways_below(deck, sel, k, lo, hi + 1);
    let g = ways_in(deck, sel, lo, hi);
    let g2 = ways_below(deck, sel, lo, hi + 1);
    assert forall|h: Seq<nat>| h.len() == deck.len() && seq_total(h) == k implies #[trigger] g(h)
        == g2(h) by {
    }
    lemma_comp_sum_eq(deck.len(), k, g, g2);
}

/// The ways of drawing `h` when it holds at least `lo` and fewer than `j`
/// cards of the categories that `sel` picks; zero otherwise.
spec fn ways_below(deck: Seq<nat>, sel: spec_fn(int) -> bool, lo: nat, j: nat) -> spec_fn(
    Seq<nat>,
) -> nat {
    |h: Seq<nat>|
        if lo <= sum_where(h, sel) && sum_where(h, sel) < j {
            ways(deck, h)
        } else {
            0
        }
}

proof fn lemma_ways_below(deck: Seq<nat>, sel: spec_fn(int) -> bool, k: nat, lo: nat, j: nat)
    requires
        lo <= j,
        j <= k + 1,
    ensures
        comp_sum(deck.len(), k, ways_below(deck, sel, lo, j)) == minus(
            vandermonde_sum(sum_where(deck, sel), sum_where(deck, not_sel(sel)), k, j),
            vandermonde_sum(sum_where(deck, sel), sum_where(deck, not_sel(sel)), k, lo),
        ),
        vandermonde_sum(sum_where(deck, sel), sum_where(deck, not_sel(sel)), k, lo)
            <= vandermonde_sum(sum_where(deck, sel), sum_where(deck, not_sel(sel)), k, j),
    decreases j - lo,
{
    let a = sum_where(deck, sel);
    let b = sum_where(deck, not_sel(sel));
    let g = ways_below(deck, sel, lo, j);
    if j == lo {
        assert forall|h: Seq<nat>| h.len() == deck.len() && seq_total(h) == k implies #[trigger] g(h)
            == 0 by {
        }
        lemma_comp_sum_zero(deck.len(), k, g);
    } else {
        let j1 = (j - 1) as nat;
        lemma_ways_below(deck, sel, k, lo, j1);
        let g1 = ways_below(deck, sel, lo, j1);
        let w = ways_with(deck, sel, j1);
        assert forall|h: Seq<nat>| h.len() == deck.len() && seq_total(h) == k implies #[trigger] g(h)
            == (|h: Seq<nat>| g1(h) + w(h))(h) by {
        }
        lemma_comp_sum_eq(deck.len(), k, g, |h: Seq<nat>| g1(h) + w(h));
        lemma_comp_sum_add(deck.len(), k, g1, w);
        lemma_ways_with(deck, sel, k, j1);
        assert(vandermonde_sum(a, b, k, j) == vandermonde_sum(a, b, k, j1) + binom(a, j1) * binom(
            b,
            (k - j1) as nat,
        ));
    }
}

/// The picked and the other categories hold all the cards.
pub proof fn lemma_sum_where_split(s: Seq<nat>, sel: spec_fn(int) -> bool)
    ensures
        sum_where(s, sel) + sum_where(s, not_sel(sel)) == seq_total(s),
    decreases s.len(),
{
    if s.len() > 0 {
        lemma_sum_where_split(s.drop_last(), sel);
    }
}

/// One term of a sum of compositions is at most the sum.
pub proof fn lemma_comp_sum_term(len: nat, k: nat, f: spec_fn(Seq<nat>) -> nat, h: Seq<nat>)
    requires
        h.len() == len,
        seq_total(h) == k,
    ensures
        f(h) <= comp_sum(len, k, f),
    decreases len,
{
    if len == 0 {
        assert(h =~= Seq::<nat>::empty());
    } else {
        let x = h.last();
        let h1 = h.drop_last();
        assert(seq_total(h) == seq_total(h1) + x) by {
            assert(h1.push(x) =~= h);
            lemma_total_push(h1, x);
        }
        lemma_comp_sum_term((len - 1) as nat, (k - x) as nat, push_fn(f, x), h1);
        assert(h1.push(x) =~= h);
        lemma_last_sum_grows(len, k, f, x + 1, k + 1);
    }
}

} // verus!
