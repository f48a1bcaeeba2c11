//! The mulligan-aware opening: for each hand size, the exact numbers of
//! hands, of hands kept, of follow-up draws and of (hand, draw) pairs that
//! reach a goal. A probability is a ratio of two of these counts.
use vstd::prelude::*;
use crate::pile::{
    Pile, seq_total, sum_where, seq_add, seq_sub, nat_seq, dominates, pile_total, pile_lands,
    lemma_sum_where_bound,
};
use crate::counting::{
    ways, comp_sum, last_sum, push_fn, lemma_comp_sum_scale, lemma_comp_sum_le,
    lemma_last_sum_grows, lemma_comp_sum_zero, lemma_ways_zero, lemma_ways_sum,
    lemma_ways_positive, lemma_total_sub, lemma_comp_sum_eq, ways_in, not_sel, lemma_ways_in,
    lemma_sum_where_split, lemma_comp_sum_term,
};
use crate::prob::{
    binom, minus, ch_wide, vandermonde_sum, lemma_vandermonde, lemma_vandermonde_sum_grows,
};

verus! {

/// The land counts that a hand of `hand_size` cards must have to be kept:
/// 7 cards `[2, 5]`, 6 cards `[2, 4]`, 5 cards `[1, 4]`, 4 cards `[0, 4]`
/// (always kept).
pub open spec fn mull_range(hand_size: nat) -> (nat, nat) {
    if hand_size == 7 {
        (2, 5)
    } else if hand_size == 6 {
        (2, 4)
    } else if hand_size == 5 {
        (1, 4)
    } else {
        (0, 4)
    }
}

/// The mulligan rule: the accepted land range for a hand size from 4 to 7.
pub fn mull_rule(hand_size: usize) -> (r: (usize, usize))
    requires
        4 <= hand_size <= 7,
    ensures
        r.0 == mull_range(hand_size as nat).0,
        r.1 == mull_range(hand_size as nat).1,
{
    if hand_size == 7 {
        (2, 5)
    } else if hand_size == 6 {
        (2, 4)
    } else if hand_size == 5 {
        (1, 4)
    } else {
        (0, 4)
    }
}

/// The goal answers every pile, always the same way, and the same for
/// every pile of the deck's shape with the same counts.
pub open spec fn is_goal<P: Pile, G: Fn(P) -> bool>(deck: P, goal: G) -> bool {
    &&& forall|p: P| #[trigger] goal.requires((p,))
    &&& forall|p: P, b: bool| #[trigger] goal.ensures((p,), b) ==> b == goal.ensures((p,), true)
    &&& forall|p: P, q: P, c: Seq<nat>|
        #![trigger deck.shaped(&p, c), deck.shaped(&q, c)]
        deck.shaped(&p, c) && deck.shaped(&q, c) ==> goal.ensures((p,), true) == goal.ensures(
            (q,),
            true,
        )
}

/// The goal holds of the pile of the deck's shape with the counts `c`.
pub open spec fn goal_holds<P: Pile, G: Fn(P) -> bool>(deck: P, goal: G, c: Seq<nat>) -> bool {
    exists|p: P| deck.shaped(&p, c) && #[trigger] goal.ensures((p,), true)
}

/// The lands of a composition of the deck's shape.
pub open spec fn hand_lands<P: Pile>(deck: P, h: Seq<nat>) -> nat {
    sum_where(h, |i: int| deck.is_land(i))
}

/// The ways of drawing `e` from what is left after `hand`, when the hand
/// with `e` reaches the goal; zero otherwise.
pub open spec fn draw_term<P: Pile, G: Fn(P) -> bool>(
    deck: P,
    goal: G,
    hand: Seq<nat>,
    e: Seq<nat>,
) -> nat {
    if goal_holds(deck, goal, seq_add(hand, e)) {
        ways(seq_sub(deck.counts(), hand), e)
    } else {
        0
    }
}

/// `e` to `draw_term` of `e` followed by `suffix`.
pub open spec fn draws_fn<P: Pile, G: Fn(P) -> bool>(
    deck: P,
    goal: G,
    hand: Seq<nat>,
    suffix: Seq<nat>,
) -> spec_fn(Seq<nat>) -> nat {
    |x: Seq<nat>| draw_term(deck, goal, hand, x + suffix)
}

/// The number of draws of `d` cards, from what is left after `hand`, with
/// which the goal is reached.
pub open spec fn follow_count<P: Pile, G: Fn(P) -> bool>(
    deck: P,
    goal: G,
    hand: Seq<nat>,
    d: nat,
) -> nat {
    comp_sum(deck.counts().len(), d, |e: Seq<nat>| draw_term(deck, goal, hand, e))
}

/// For a kept hand, its ways of being drawn times its successful draws.
pub open spec fn hand_term<P: Pile, G: Fn(P) -> bool>(
    deck: P,
    goal: G,
    lo: nat,
    hi: nat,
    d: nat,
    h: Seq<nat>,
) -> nat {
    if lo <= hand_lands(deck, h) <= hi {
        ways(deck.counts(), h) * follow_count(deck, goal, h, d)
    } else {
        0
    }
}

/// `x` to `hand_term` of `x` followed by `suffix`.
pub open spec fn hands_fn<P: Pile, G: Fn(P) -> bool>(
    deck: P,
    goal: G,
    lo: nat,
    hi: nat,
    d: nat,
    suffix: Seq<nat>,
) -> spec_fn(Seq<nat>) -> nat {
    |x: Seq<nat>| hand_term(deck, goal, lo, hi, d, x + suffix)
}

/// The number of pairs (hand of `s` cards, draw of `d` more cards) whose
/// hand has a land count in `[lo, hi]` and whose cards together reach the
/// goal.
pub open spec fn cast_count<P: Pile, G: Fn(P) -> bool>(
    deck: P,
    goal: G,
    s: nat,
    lo: nat,
    hi: nat,
    d: nat,
) -> nat {
    comp_sum(deck.counts().len(), s, |h: Seq<nat>| hand_term(deck, goal, lo, hi, d, h))
}

/// The number of hands of `s` cards with a land count in `[lo, hi]`, out of
/// `lands` lands and `spells` other cards.
pub open spec fn keep_count(lands: nat, spells: nat, s: nat, lo: nat, hi: nat) -> nat {
    minus(vandermonde_sum(lands, spells, s, hi + 1), vandermonde_sum(lands, spells, s, lo))
}

/// The counts of one hand size fit in 128 bits.
pub open spec fn stage_fits(total: nat, s: nat, d: nat) -> bool {
    &&& binom(total, s) * (s + d + 1) <= u128::MAX
    &&& binom(minus(total, s), d) * (d + 1) <= u128::MAX
    &&& binom(total, s) * binom(minus(total, s), d) * (s + d + 1) <= u128::MAX
}

/// The counts of one hand size of the mulligan process. Out of `hands`
/// equally likely hands, `kept` are kept; each kept hand is followed by one
/// of `draws` equally likely draws; `cast` (hand, draw) pairs of a kept hand
/// reach the goal. So the chance of keeping is `kept / hands`, and the chance
/// of drawing a kept hand that goes on to the goal is
/// `cast / (hands * draws)`.
#[derive(Clone, Copy, Debug, PartialEq, Eq, Structural)]
pub struct Stage {
    pub hand_size: usize,
    pub hands: u128,
    pub kept: u128,
    pub draws: u128,
    pub cast: u128,
}

/// `st` holds the counts of hand size `s` with `d` draws for `deck` and `goal`.
pub open spec fn stage_matches<P: Pile, G: Fn(P) -> bool>(
    st: Stage,
    deck: P,
    s: nat,
    d: nat,
    goal: G,
) -> bool {
    let n = pile_total(deck);
    let l = pile_lands(deck);
    &&& st.hand_size == s
    &&& st.hands == binom(n, s)
    &&& st.kept == keep_count(l, minus(n, l), s, mull_range(s).0, mull_range(s).1)
    &&& st.draws == binom(minus(n, s), d)
    &&& st.cast == cast_count(deck, goal, s, mull_range(s).0, mull_range(s).1, d)
}

proof fn lemma_total_prepend(x: nat, s: Seq<nat>)
    ensures
        seq_total(seq![x] + s) == x + seq_total(s),
    decreases s.len(),
{
    if s.len() == 0 {
        assert(seq![x] + s =~= seq![x]);
        assert(seq![x].drop_last() =~= Seq::<nat>::empty());
        assert(sum_where(seq![x], |i: int| true) == sum_where(Seq::<nat>::empty(), |i: int| true)
            + x);
    } else {
        lemma_total_prepend(x, s.drop_last());
        let t = seq![x] + s;
        assert(t.drop_last() =~= seq![x] + s.drop_last());
        assert(t.last() == s.last());
        assert(sum_where(t, |i: int| true) == sum_where(t.drop_last(), |i: int| true) + t.last());
        assert(sum_where(s, |i: int| true) == sum_where(s.drop_last(), |i: int| true) + s.last());
    }
}

proof fn lemma_total_le(a: Seq<nat>, b: Seq<nat>)
    requires
        dominates(a, b),
    ensures
        seq_total(b) <= seq_total(a),
{
    lemma_total_sub(a, b);
}

proof fn lemma_ways_prefix(d: Seq<nat>, h: Seq<nat>, j: int)
    requires
        d.len() == h.len(),
        0 <= j < d.len(),
    ensures
        ways(d.subrange(0, j + 1), h.subrange(0, j + 1)) == ways(d.subrange(0, j), h.subrange(0, j))
            * binom(d[j], h[j]),
{
    assert(d.subrange(0, j + 1).drop_last() =~= d.subrange(0, j));
    assert(h.subrange(0, j + 1).drop_last() =~= h.subrange(0, j));
}

proof fn lemma_ways_prefix_le(d: Seq<nat>, h: Seq<nat>, j: int)
    requires
        d.len() == h.len(),
        dominates(d, h),
        0 <= j <= d.len(),
    ensures
        ways(d.subrange(0, j), h.subrange(0, j)) <= ways(d, h),
        ways(d.subrange(0, j), h.subrange(0, j)) >= 1,
    decreases d.len() - j,
{
    lemma_ways_positive(d.subrange(0, j), h.subrange(0, j));
    if j < d.len() {
        lemma_ways_prefix_le(d, h, j + 1);
        lemma_ways_prefix(d, h, j);
        crate::prob::lemma_binom_positive(d[j], h[j]);
        let a = ways(d.subrange(0, j), h.subrange(0, j));
        let b = binom(d[j], h[j]);
        assert(a <= a * b) by (nonlinear_arith)
            requires
                b >= 1,
        ;
    } else {
        assert(d.subrange(0, j) =~= d);
        assert(h.subrange(0, j) =~= h);
    }
}

/// `ways(deck, hand)`, the product of the `C(deck[j], hand[j])`.
fn ways_of(deck: &Vec<usize>, hand: &Vec<usize>, top: usize) -> (r: u128)
    requires
        deck.len() == hand.len(),
        dominates(nat_seq(deck@), nat_seq(hand@)),
        forall|j: int| 0 <= j < hand.len() ==> hand[j] <= top,
        ways(nat_seq(deck@), nat_seq(hand@)) * (top + 1) <= u128::MAX,
    ensures
        r == ways(nat_seq(deck@), nat_seq(hand@)),
{
    let ghost ds = nat_seq(deck@);
    let ghost hs = nat_seq(hand@);
    let mut w: u128 = 1;
    let mut j: usize = 0;
    assert(ds.subrange(0, 0).len() == 0);
    while j < deck.len()
        invariant
            j <= deck.len(),
            deck.len() == hand.len(),
            ds == nat_seq(deck@),
            hs == nat_seq(hand@),
            dominates(ds, hs),
            forall|j: int| 0 <= j < hand.len() ==> hand[j] <= top,
            ways(ds, hs) * (top + 1) <= u128::MAX,
            w == ways(ds.subrange(0, j as int), hs.subrange(0, j as int)),
        decreases deck.len() - j,
    {
        proof {
            lemma_ways_prefix(ds, hs, j as int);
            lemma_ways_prefix_le(ds, hs, j as int);
            lemma_ways_prefix_le(ds, hs, j as int + 1);
            let a = ways(ds.subrange(0, j as int), hs.subrange(0, j as int));
            let b = binom(ds[j as int], hs[j as int]);
            let full = ways(ds, hs);
            assert(b * hand[j as int] <= full * (top + 1) && a * b <= full * (top + 1))
                by (nonlinear_arith)
                requires
                    a >= 1,
                    a * b <= full,
                    hand[j as int] <= top,
            ;
        }
        let b = ch_wide(deck[j], hand[j]);
        w = w * b;
        j = j + 1;
    }
    proof {
        assert(ds.subrange(0, j as int) =~= ds);
        assert(hs.subrange(0, j as int) =~= hs);
    }
    w
}

/// The counts of a pile as a vector.
fn counts_vec<P: Pile>(deck: &P) -> (r: Vec<usize>)
    requires
        deck.wf(),
    ensures
        nat_seq(r@) == deck.counts(),
{
    let n = deck.num_keys();
    let mut v: Vec<usize> = Vec::new();
    let mut j: usize = 0;
    while j < n
        invariant
            deck.wf(),
            n == deck.counts().len(),
            j <= n,
            v.len() == j,
            forall|i: int| 0 <= i < j ==> v[i] as nat == deck.counts()[i],
        decreases n - j,
    {
        v.push(deck.get(j));
        j = j + 1;
    }
    assert(nat_seq(v@) =~= deck.counts());
    v
}

/// The lands of the composition `h` of the deck's shape.
fn lands_in<P: Pile>(deck: &P, h: &Vec<usize>) -> (r: usize)
    requires
        deck.wf(),
        h.len() == deck.counts().len(),
        dominates(deck.counts(), nat_seq(h@)),
    ensures
        r == hand_lands(*deck, nat_seq(h@)),
{
    let ghost hs = nat_seq(h@);
    let ghost sel = |i: int| deck.is_land(i);
    let mut acc: usize = 0;
    let mut j: usize = 0;
    proof {
        deck.lemma_wf_total();
        lemma_total_le(deck.counts(), hs);
        lemma_sum_where_le_total_prefix(hs, sel, 0);
    }
    while j < h.len()
        invariant
            deck.wf(),
            h.len() == deck.counts().len(),
            hs == nat_seq(h@),
            sel == (|i: int| deck.is_land(i)),
            seq_total(hs) <= usize::MAX,
            j <= h.len(),
            acc == sum_where(hs.subrange(0, j as int), sel),
        decreases h.len() - j,
    {
        proof {
            assert(hs.subrange(0, j as int + 1).drop_last() =~= hs.subrange(0, j as int));
            lemma_sum_where_le_total_prefix(hs, sel, j as int + 1);
        }
        if deck.land_key(j) {
            acc = acc + h[j];
        }
        j = j + 1;
    }
    assert(hs.subrange(0, j as int) =~= hs);
    acc
}

proof fn lemma_sum_where_le_total_prefix(s: Seq<nat>, sel: spec_fn(int) -> bool, j: int)
    requires
        0 <= j <= s.len(),
    ensures
        sum_where(s.subrange(0, j), sel) <= seq_total(s),
    decreases s.len() - j,
{
    crate::pile::lemma_sum_where_le_total(s.subrange(0, j), sel);
    if j < s.len() {
        lemma_sum_where_le_total_prefix(s, |i: int| true, j + 1);
        assert(s.subrange(0, j + 1).drop_last() =~= s.subrange(0, j));
    } else {
        assert(s.subrange(0, j) =~= s);
    }
}

/// The sum, over every way of completing the first `i` counts of `e` with
/// counts that add up to `k`, of `draw_term` of the completed draw.
fn draws_rec<P: Pile, G: Fn(P) -> bool>(
    deck: &P,
    goal: &G,
    hand: &Vec<usize>,
    rem: &Vec<usize>,
    d: usize,
    i: usize,
    k: usize,
    e: &mut Vec<usize>,
) -> (r: u128)
    requires
        deck.wf(),
        is_goal::<P, G>(*deck, *goal),
        d < usize::MAX,
        hand.len() == deck.counts().len(),
        rem.len() == deck.counts().len(),
        old(e).len() == deck.counts().len(),
        dominates(deck.counts(), nat_seq(hand@)),
        nat_seq(rem@) == seq_sub(deck.counts(), nat_seq(hand@)),
        i <= deck.counts().len(),
        forall|j: int| i <= j < deck.counts().len() ==> old(e)[j] <= rem[j],
        seq_total(nat_seq(old(e)@).subrange(i as int, deck.counts().len() as int)) + k == d,
        comp_sum(
            i as nat,
            k as nat,
            draws_fn(
                *deck,
                *goal,
                nat_seq(hand@),
                nat_seq(old(e)@).subrange(i as int, deck.counts().len() as int),
            ),
        ) * (d + 1) <= u128::MAX,
    ensures
        r == comp_sum(
            i as nat,
            k as nat,
            draws_fn(
                *deck,
                *goal,
                nat_seq(hand@),
                nat_seq(old(e)@).subrange(i as int, deck.counts().len() as int),
            ),
        ),
        final(e).len() == old(e).len(),
        forall|j: int| i <= j < final(e).len() ==> final(e)[j] == old(e)[j],
    decreases i,
{
    let len = hand.len();
    let ghost hs = nat_seq(hand@);
    let ghost suffix = nat_seq(e@).subrange(i as int, len as int);
    let ghost f = draws_fn(*deck, *goal, hs, suffix);
    if i == 0 {
        if k != 0 {
            return 0;
        }
        let ghost es = nat_seq(e@);
        proof {
            assert(Seq::<nat>::empty() + suffix =~= es);
            assert(suffix =~= es);
            crate::pile::lemma_seq_sub_add(deck.counts(), hs);
            deck.lemma_wf_total();
        }
        let mut v: Vec<usize> = Vec::new();
        let mut j: usize = 0;
        while j < len
            invariant
                deck.wf(),
                len == deck.counts().len(),
                hand.len() == len,
                rem.len() == len,
                e.len() == len,
                hs == nat_seq(hand@),
                es == nat_seq(e@),
                dominates(deck.counts(), hs),
                nat_seq(rem@) == seq_sub(deck.counts(), hs),
                forall|j: int| 0 <= j < len ==> e[j] <= rem[j],
                seq_total(deck.counts()) <= usize::MAX,
                j <= len,
                v.len() == j,
                forall|t: int| 0 <= t < j ==> v[t] == hand[t] + e[t],
            decreases len - j,
        {
            proof {
                lemma_sum_where_bound(deck.counts(), |t: int| true, j as int);
                assert(seq_sub(deck.counts(), hs)[j as int] == rem[j as int]);
            }
            v.push(hand[j] + e[j]);
            j = j + 1;
        }
        proof {
            assert(nat_seq(v@) =~= seq_add(hs, es));
            assert(dominates(deck.counts(), nat_seq(v@))) by {
                assert forall|t: int| 0 <= t < len implies #[trigger] deck.counts()[t]
                    >= nat_seq(v@)[t] by {
                    assert(seq_sub(deck.counts(), hs)[t] == rem[t]);
                }
            }
            lemma_total_le(deck.counts(), nat_seq(v@));
        }
        let p = deck.with_vec(&v);
        let ghost pp = p;
        let ok = goal(p);
        proof {
            let c = seq_add(hs, es);
            if ok {
                assert(deck.shaped(&pp, c) && goal.ensures((pp,), true));
            } else if goal_holds(*deck, *goal, c) {
                let q = choose|q: P| deck.shaped(&q, c) && #[trigger] goal.ensures((q,), true);
                assert(goal.ensures((pp,), true));
            }
        }
        if ok {
            proof {
                assert(dominates(nat_seq(rem@), es));
                assert forall|t: int| 0 <= t < e.len() implies e[t] <= d by {
                    lemma_sum_where_bound(es, |x: int| true, t);
                }
                assert(f(Seq::empty()) == ways(nat_seq(rem@), es));
            }
            ways_of(rem, e, d)
        } else {
            0
        }
    } else {
        let mut acc: u128 = 0;
        let mut x: usize = 0;
        let ghost olde = *e;
        proof {
            lemma_last_sum_grows(i as nat, k as nat, f, 0, k as nat + 1);
        }
        while x <= k
            invariant
                deck.wf(),
                is_goal::<P, G>(*deck, *goal),
                len == deck.counts().len(),
                hand.len() == len,
                rem.len() == len,
                e.len() == len,
                hs == nat_seq(hand@),
                dominates(deck.counts(), hs),
                nat_seq(rem@) == seq_sub(deck.counts(), hs),
                0 < i <= len,
                olde.len() == len,
                forall|j: int| i <= j < len ==> e[j] == olde[j],
                forall|j: int| i <= j < len ==> olde[j] <= rem[j],
                suffix == nat_seq(olde@).subrange(i as int, len as int),
                f == draws_fn(*deck, *goal, hs, suffix),
                seq_total(suffix) + k == d,
                d < usize::MAX,
                comp_sum(i as nat, k as nat, f) * (d + 1) <= u128::MAX,
                x <= k + 1,
                acc == last_sum(i as nat, k as nat, f, x as nat),
            decreases k + 1 - x,
        {
            let ghost fx = push_fn(f, x as nat);
            proof {
                lemma_last_sum_grows(i as nat, k as nat, f, x as nat + 1, k as nat + 1);
                assert(last_sum(i as nat, k as nat, f, x as nat + 1) == acc + comp_sum(
                    (i - 1) as nat,
                    (k - x) as nat,
                    fx,
                ));
                let c = comp_sum(i as nat, k as nat, f);
                assert(c * 1 <= c * (d + 1)) by (nonlinear_arith);
            }
            if x <= rem[i - 1] {
                e.set(i - 1, x);
                let ghost suffix2 = nat_seq(e@).subrange(i - 1, len as int);
                proof {
                    assert(suffix.len() == len - i);
                    assert forall|t: int| 0 <= t < suffix2.len() implies suffix2[t] == (seq![
                        x as nat,
                    ] + suffix)[t] by {
                        if t > 0 {
                            assert(e[i - 1 + t] == olde[i - 1 + t]);
                        }
                    }
                    assert(suffix2 =~= seq![x as nat] + suffix);
                    lemma_total_prepend(x as nat, suffix);
                    assert forall|h: Seq<nat>| #[trigger] fx(h) == draws_fn(
                        *deck,
                        *goal,
                        hs,
                        suffix2,
                    )(h) by {
                        assert(h.push(x as nat) + suffix =~= h + suffix2);
                    }
                    assert(fx =~= draws_fn(*deck, *goal, hs, suffix2));
                    let cx = comp_sum((i - 1) as nat, (k - x) as nat, fx);
                    let c = comp_sum(i as nat, k as nat, f);
                    assert(cx * (d + 1) <= c * (d + 1)) by (nonlinear_arith)
                        requires
                            cx <= c,
                    ;
                }
                let r = draws_rec(deck, goal, hand, rem, d, i - 1, k - x, e);
                acc = acc + r;
            } else {
                proof {
                    assert forall|h: Seq<nat>|
                        h.len() == (i - 1) as nat && seq_total(h) == (k - x) as nat implies #[trigger] fx(
                        h,
                    ) == 0 by {
                        let full = h.push(x as nat) + suffix;
                        assert(suffix.len() == len - i);
                        assert(full.len() == len);
                        assert(nat_seq(rem@).len() == len);
                        assert(full[i - 1] == x);
                        lemma_ways_zero(nat_seq(rem@), full, i - 1);
                    }
                    lemma_comp_sum_zero((i - 1) as nat, (k - x) as nat, fx);
                }
            }
            x = x + 1;
        }
        acc
    }
}

/// The sum, over every way of completing the first `i` counts of the hand
/// `e` with counts that add up to `k`, of `hand_term` of the completed hand.
fn hands_rec<P: Pile, G: Fn(P) -> bool>(
    deck: &P,
    dv: &Vec<usize>,
    goal: &G,
    lo: usize,
    hi: usize,
    s: usize,
    d: usize,
    i: usize,
    k: usize,
    e: &mut Vec<usize>,
) -> (r: u128)
    requires
        deck.wf(),
        is_goal::<P, G>(*deck, *goal),
        d < usize::MAX,
        s <= 7,
        nat_seq(dv@) == deck.counts(),
        old(e).len() == deck.counts().len(),
        i <= deck.counts().len(),
        forall|j: int| i <= j < deck.counts().len() ==> old(e)[j] <= dv[j],
        seq_total(nat_seq(old(e)@).subrange(i as int, deck.counts().len() as int)) + k == s,
        comp_sum(
            i as nat,
            k as nat,
            hands_fn(
                *deck,
                *goal,
                lo as nat,
                hi as nat,
                d as nat,
                nat_seq(old(e)@).subrange(i as int, deck.counts().len() as int),
            ),
        ) * (s + d + 1) <= u128::MAX,
    ensures
        r == comp_sum(
            i as nat,
            k as nat,
            hands_fn(
                *deck,
                *goal,
                lo as nat,
                hi as nat,
                d as nat,
                nat_seq(old(e)@).subrange(i as int, deck.counts().len() as int),
            ),
        ),
        final(e).len() == old(e).len(),
        forall|j: int| i <= j < final(e).len() ==> final(e)[j] == old(e)[j],
    decreases i,
{
    let len = dv.len();
    let ghost suffix = nat_seq(e@).subrange(i as int, len as int);
    let ghost f = hands_fn(*deck, *goal, lo as nat, hi as nat, d as nat, suffix);
    if i == 0 {
        if k != 0 {
            return 0;
        }
        let ghost hs = nat_seq(e@);
        proof {
            assert(Seq::<nat>::empty() + suffix =~= hs);
            assert(suffix =~= hs);
            assert(f(Seq::empty()) == hand_term(*deck, *goal, lo as nat, hi as nat, d as nat, hs));
            assert(dominates(deck.counts(), hs)) by {
                assert forall|t: int| 0 <= t < len implies #[trigger] deck.counts()[t] >= hs[t] by {
                    assert(nat_seq(dv@)[t] == dv[t]);
                }
            }
        }
        let lands = lands_in(deck, e);
        if lands < lo || lands > hi {
            return 0;
        }
        let mut rem: Vec<usize> = Vec::new();
        let mut zero: Vec<usize> = Vec::new();
        let mut j: usize = 0;
        while j < len
            invariant
                len == deck.counts().len(),
                dv.len() == len,
                e.len() == len,
                hs == nat_seq(e@),
                nat_seq(dv@) == deck.counts(),
                dominates(deck.counts(), hs),
                j <= len,
                rem.len() == j,
                zero.len() == j,
                forall|t: int| 0 <= t < j ==> rem[t] == dv[t] - e[t],
                forall|t: int| 0 <= t < j ==> zero[t] == 0,
            decreases len - j,
        {
            proof {
                assert(nat_seq(dv@)[j as int] == dv[j as int]);
            }
            rem.push(dv[j] - e[j]);
            zero.push(0);
            j = j + 1;
        }
        let ghost fl = |x: Seq<nat>| draw_term(*deck, *goal, hs, x);
        proof {
            assert(nat_seq(rem@) =~= seq_sub(deck.counts(), hs));
            assert(nat_seq(zero@).subrange(len as int, len as int) =~= Seq::<nat>::empty());
            assert forall|x: Seq<nat>| #[trigger] draws_fn(*deck, *goal, hs, Seq::<nat>::empty())(x) == fl(
                x,
            ) by {
                assert(x + Seq::<nat>::empty() =~= x);
            }
            assert(draws_fn(*deck, *goal, hs, Seq::<nat>::empty()) =~= fl);
            assert(seq_total(Seq::<nat>::empty()) == 0);
            lemma_ways_positive(deck.counts(), hs);
            let w = ways(deck.counts(), hs);
            let fc = follow_count(*deck, *goal, hs, d as nat);
            assert(fc * (d + 1) <= w * fc * (s + d + 1)) by (nonlinear_arith)
                requires
                    w >= 1,
            ;
        }
        let fc = draws_rec(deck, goal, e, &rem, d, len, d, &mut zero);
        if fc == 0 {
            proof {
                let w = ways(deck.counts(), hs);
                assert(w * 0 == 0) by (nonlinear_arith);
            }
            return 0;
        }
        proof {
            let w = ways(deck.counts(), hs);
            assert(w * (s + 1) <= w * fc * (s + d + 1)) by (nonlinear_arith)
                requires
                    fc >= 1,
            ;
            assert forall|t: int| 0 <= t < e.len() implies e[t] <= s by {
                lemma_sum_where_bound(hs, |x: int| true, t);
            }
            assert(w * fc <= w * fc * (s + d + 1)) by (nonlinear_arith);
        }
        let w = ways_of(dv, e, s);
        w * fc
    } else {
        let mut acc: u128 = 0;
        let mut x: usize = 0;
        let ghost olde = *e;
        proof {
            lemma_last_sum_grows(i as nat, k as nat, f, 0, k as nat + 1);
        }
        while x <= k
            invariant
                deck.wf(),
                is_goal::<P, G>(*deck, *goal),
                len == deck.counts().len(),
                dv.len() == len,
                e.len() == len,
                nat_seq(dv@) == deck.counts(),
                s <= 7,
                0 < i <= len,
                olde.len() == len,
                forall|j: int| i <= j < len ==> e[j] == olde[j],
                forall|j: int| i <= j < len ==> olde[j] <= dv[j],
                suffix == nat_seq(olde@).subrange(i as int, len as int),
                f == hands_fn(*deck, *goal, lo as nat, hi as nat, d as nat, suffix),
                seq_total(suffix) + k == s,
                d < usize::MAX,
                comp_sum(i as nat, k as nat, f) * (s + d + 1) <= u128::MAX,
                x <= k + 1,
                acc == last_sum(i as nat, k as nat, f, x as nat),
            decreases k + 1 - x,
        {
            let ghost fx = push_fn(f, x as nat);
            proof {
                lemma_last_sum_grows(i as nat, k as nat, f, x as nat + 1, k as nat + 1);
                assert(last_sum(i as nat, k as nat, f, x as nat + 1) == acc + comp_sum(
                    (i - 1) as nat,
                    (k - x) as nat,
                    fx,
                ));
                let c = comp_sum(i as nat, k as nat, f);
                assert(c * 1 <= c * (s + d + 1)) by (nonlinear_arith);
            }
            if x <= dv[i - 1] {
                e.set(i - 1, x);
                let ghost suffix2 = nat_seq(e@).subrange(i - 1, len as int);
                proof {
                    assert(suffix.len() == len - i);
                    assert forall|t: int| 0 <= t < suffix2.len() implies suffix2[t] == (seq![
                        x as nat,
                    ] + suffix)[t] by {
                        if t > 0 {
                            assert(e[i - 1 + t] == olde[i - 1 + t]);
                        }
                    }
                    assert(suffix2 =~= seq![x as nat] + suffix);
                    lemma_total_prepend(x as nat, suffix);
                    assert forall|h: Seq<nat>| #[trigger] fx(h) == hands_fn(
                        *deck,
                        *goal,
                        lo as nat,
                        hi as nat,
                        d as nat,
                        suffix2,
                    )(h) by {
                        assert(h.push(x as nat) + suffix =~= h + suffix2);
                    }
                    assert(fx =~= hands_fn(*deck, *goal, lo as nat, hi as nat, d as nat, suffix2));
                    let cx = comp_sum((i - 1) as nat, (k - x) as nat, fx);
                    let c = comp_sum(i as nat, k as nat, f);
                    assert(cx * (s + d + 1) <= c * (s + d + 1)) by (nonlinear_arith)
                        requires
                            cx <= c,
                    ;
                }
                let r = hands_rec(deck, dv, goal, lo, hi, s, d, i - 1, k - x, e);
                acc = acc + r;
            } else {
                proof {
                    assert forall|h: Seq<nat>|
                        h.len() == (i - 1) as nat && seq_total(h) == (k - x) as nat implies #[trigger] fx(
                        h,
                    ) == 0 by {
                        let full = h.push(x as nat) + suffix;
                        assert(suffix.len() == len - i);
                        assert(full.len() == len);
                        assert(deck.counts().len() == len);
                        assert(full[i - 1] == x);
                        assert(deck.counts()[i - 1] == dv[i - 1]);
                        lemma_ways_zero(deck.counts(), full, i - 1);
                        let fc = follow_count(*deck, *goal, full, d as nat);
                        assert(0 * fc == 0) by (nonlinear_arith);
                    }
                    lemma_comp_sum_zero((i - 1) as nat, (k - x) as nat, fx);
                }
            }
            x = x + 1;
        }
        acc
    }
}

/// The number of cards of a pile.
fn total_of<P: Pile>(deck: &P) -> (r: usize)
    requires
        deck.wf(),
    ensures
        r == pile_total(*deck),
{
    let dv = counts_vec(deck);
    let ghost ds = nat_seq(dv@);
    let mut acc: usize = 0;
    let mut j: usize = 0;
    proof {
        deck.lemma_wf_total();
        lemma_sum_where_le_total_prefix(ds, |i: int| true, 0);
    }
    while j < dv.len()
        invariant
            ds == nat_seq(dv@),
            ds == deck.counts(),
            seq_total(ds) <= usize::MAX,
            j <= dv.len(),
            acc == sum_where(ds.subrange(0, j as int), |i: int| true),
        decreases dv.len() - j,
    {
        proof {
            assert(ds.subrange(0, j as int + 1).drop_last() =~= ds.subrange(0, j as int));
            lemma_sum_where_le_total_prefix(ds, |i: int| true, j as int + 1);
        }
        acc = acc + dv[j];
        j = j + 1;
    }
    assert(ds.subrange(0, j as int) =~= ds);
    acc
}

/// Every (hand, draw) pair that reaches the goal is one of the
/// `C(n, s) * C(n - s, d)` pairs of the deck.
pub proof fn lemma_cast_bound<P: Pile, G: Fn(P) -> bool>(
    deck: P,
    goal: G,
    s: nat,
    lo: nat,
    hi: nat,
    d: nat,
)
    requires
        deck.wf(),
    ensures
        cast_count(deck, goal, s, lo, hi, d) <= binom(pile_total(deck), s) * binom(
            minus(pile_total(deck), s),
            d,
        ),
{
    let n = pile_total(deck);
    let len = deck.counts().len();
    let b2 = binom(minus(n, s), d);
    let w = |h: Seq<nat>| ways(deck.counts(), h);
    let t = |h: Seq<nat>| hand_term(deck, goal, lo, hi, d, h);
    let g = |h: Seq<nat>| b2 * w(h);
    assert forall|h: Seq<nat>| h.len() == len && seq_total(h) == s implies #[trigger] t(h) <= g(h) by {
        let wh = ways(deck.counts(), h);
        let fc = follow_count(deck, goal, h, d);
        if lo <= hand_lands(deck, h) <= hi {
            if dominates(deck.counts(), h) {
                let rem = seq_sub(deck.counts(), h);
                lemma_total_sub(deck.counts(), h);
                let dt = |e: Seq<nat>| draw_term(deck, goal, h, e);
                let we = |e: Seq<nat>| ways(rem, e);
                lemma_comp_sum_le(len, d, dt, we);
                lemma_ways_sum(rem, d);
                assert(fc <= b2);
                assert(wh * fc <= b2 * wh) by (nonlinear_arith)
                    requires
                        fc <= b2,
                ;
            } else {
                let i = choose|i: int| 0 <= i < len && !(deck.counts()[i] >= h[i]);
                lemma_ways_zero(deck.counts(), h, i);
                assert(wh * fc == 0) by (nonlinear_arith)
                    requires
                        wh == 0,
                ;
            }
        }
    }
    lemma_comp_sum_le(len, s, t, g);
    lemma_comp_sum_scale(len, s, w, b2);
    lemma_ways_sum(deck.counts(), s);
    let c = binom(n, s);
    assert(b2 * c == c * b2) by (nonlinear_arith);
}

/// The counts of hand size `hand_size` of the mulligan process, with
/// `draws` cards drawn after the hand, for reaching `goal` with `deck`.
pub fn stage<P: Pile, G: Fn(P) -> bool>(deck: &P, hand_size: usize, draws: usize, goal: &G) -> (r:
    Stage)
    requires
        deck.wf(),
        is_goal::<P, G>(*deck, *goal),
        4 <= hand_size <= 7,
        stage_fits(pile_total(*deck), hand_size as nat, draws as nat),
    ensures
        stage_matches(r, *deck, hand_size as nat, draws as nat, *goal),
        r.kept <= r.hands,
        r.cast <= r.hands * r.draws,
{
    let s = hand_size;
    let d = draws;
    let (lo, hi) = mull_rule(s);
    let dv = counts_vec(deck);
    let n = total_of(deck);
    let l = lands_in(deck, &dv);
    let ghost nn = n as nat;
    let ghost b1 = binom(nn, s as nat);
    let ghost b2 = binom(minus(nn, s as nat), d as nat);
    proof {
        assert(nat_seq(dv@) == deck.counts());
        crate::pile::lemma_sum_where_le_total(deck.counts(), |i: int| deck.is_land(i));
        assert(b1 * s <= b1 * (s + d + 1)) by (nonlinear_arith);
        assert(b2 * d <= b2 * (d + 1)) by (nonlinear_arith);
    }
    let hands = ch_wide(n, s);
    let draws_left: usize = if n >= s { n - s } else { 0 };
    proof {
        assert(draws_left as nat == minus(nn, s as nat));
        assert(binom(draws_left as nat, d as nat) == b2);
    }
    let draw_count = ch_wide(draws_left, d);
    // hands kept: lands in [lo, hi]
    let sp = n - l;
    let ghost ll = l as nat;
    let ghost ss = sp as nat;
    proof {
        lemma_vandermonde(ll, ss, s as nat);
        lemma_vandermonde_sum_grows(ll, ss, s as nat, 0, lo as nat);
    }
    let mut kept: u128 = 0;
    let mut j: usize = lo;
    while j <= hi
        invariant
            lo <= j <= hi + 1,
            ll == l as nat,
            ss == sp as nat,
            nn == n as nat,
            hi <= s,
            s <= 7,
            ll + ss == nn,
            binom(nn, s as nat) * (s + d + 1) <= u128::MAX,
            vandermonde_sum(ll, ss, s as nat, s as nat + 1) == binom(nn, s as nat),
            vandermonde_sum(ll, ss, s as nat, lo as nat) <= vandermonde_sum(ll, ss, s as nat, j as nat),
            kept == vandermonde_sum(ll, ss, s as nat, j as nat) - vandermonde_sum(
                ll,
                ss,
                s as nat,
                lo as nat,
            ),
        decreases hi + 1 - j,
    {
        let ghost bl = binom(ll, j as nat);
        let ghost bs = binom(ss, (s - j) as nat);
        proof {
            lemma_vandermonde_sum_grows(ll, ss, s as nat, j as nat + 1, s as nat + 1);
            assert(vandermonde_sum(ll, ss, s as nat, j as nat + 1) == vandermonde_sum(
                ll,
                ss,
                s as nat,
                j as nat,
            ) + bl * bs);
        }
        if j <= l && s - j <= sp {
            proof {
                crate::prob::lemma_binom_positive(ll, j as nat);
                crate::prob::lemma_binom_positive(ss, (s - j) as nat);
                let b = binom(nn, s as nat);
                assert(b <= b * (s + d + 1)) by (nonlinear_arith);
                assert(bl * j <= b * (s + d + 1) && bs * (s - j) <= b * (s + d + 1))
                    by (nonlinear_arith)
                    requires
                        bl >= 1,
                        bs >= 1,
                        bl * bs <= b,
                        j <= s,
                ;
            }
            let a = ch_wide(l, j);
            let b = ch_wide(sp, s - j);
            kept = kept + a * b;
        } else {
            proof {
                if j > l {
                    crate::prob::lemma_binom_above(ll, j as nat);
                    assert(0 * bs == 0) by (nonlinear_arith);
                } else {
                    crate::prob::lemma_binom_above(ss, (s - j) as nat);
                    assert(bl * 0 == 0) by (nonlinear_arith);
                }
            }
        }
        j = j + 1;
    }
    proof {
        lemma_cast_bound(*deck, *goal, s as nat, lo as nat, hi as nat, d as nat);
    }
    let cast: u128 = if s > n || d > n - s {
        proof {
            if s > nn {
                crate::prob::lemma_binom_above(nn, s as nat);
            } else {
                crate::prob::lemma_binom_above(minus(nn, s as nat), d as nat);
            }
            assert(b1 * b2 == 0) by (nonlinear_arith)
                requires
                    b1 == 0 || b2 == 0,
            ;
        }
        0
    } else {
        let mut hv: Vec<usize> = Vec::new();
        let mut t: usize = 0;
        while t < dv.len()
            invariant
                t <= dv.len(),
                hv.len() == t,
                forall|x: int| 0 <= x < t ==> hv[x] == 0,
            decreases dv.len() - t,
        {
            hv.push(0);
            t = t + 1;
        }
        let len = dv.len();
        proof {
            let suffix = nat_seq(hv@).subrange(len as int, len as int);
            assert(suffix =~= Seq::<nat>::empty());
            assert(seq_total(suffix) == 0);
            let f = hands_fn(*deck, *goal, lo as nat, hi as nat, d as nat, suffix);
            assert forall|x: Seq<nat>| #[trigger] f(x) == hand_term(
                *deck,
                *goal,
                lo as nat,
                hi as nat,
                d as nat,
                x,
            ) by {
                assert(x + suffix =~= x);
            }
            assert(f =~= (|x: Seq<nat>| hand_term(*deck, *goal, lo as nat, hi as nat, d as nat, x)));
            let c = cast_count(*deck, *goal, s as nat, lo as nat, hi as nat, d as nat);
            assert(c * (s + d + 1) <= b1 * b2 * (s + d + 1)) by (nonlinear_arith)
                requires
                    c <= b1 * b2,
            ;
            assert(d < usize::MAX);
        }
        hands_rec(deck, &dv, goal, lo, hi, s, d, len, s, &mut hv)
    };
    proof {
        lemma_vandermonde_sum_grows(ll, ss, s as nat, hi as nat + 1, s as nat + 1);
    }
    Stage { hand_size: s, hands, kept, draws: draw_count, cast }
}

/// The counts of each hand size of the mulligan process, from 7 cards down
/// to 4, with `draws` cards drawn after the hand, for reaching `goal` with
/// `deck`.
pub fn turn_counts<P: Pile, G: Fn(P) -> bool>(deck: &P, draws: usize, goal: &G) -> (r: Vec<Stage>)
    requires
        deck.wf(),
        is_goal::<P, G>(*deck, *goal),
        forall|s: nat| 4 <= s <= 7 ==> stage_fits(pile_total(*deck), s, draws as nat),
    ensures
        r.len() == 4,
        forall|i: int|
            0 <= i < 4 ==> stage_matches(#[trigger] r[i], *deck, (7 - i) as nat, draws as nat, *goal),
        forall|i: int| 0 <= i < 4 ==> #[trigger] r[i].kept <= r[i].hands,
        forall|i: int| 0 <= i < 4 ==> #[trigger] r[i].cast <= r[i].hands * r[i].draws,
{
    let mut r: Vec<Stage> = Vec::new();
    let mut s: usize = 7;
    while s >= 4
        invariant
            deck.wf(),
            is_goal::<P, G>(*deck, *goal),
            forall|s: nat| 4 <= s <= 7 ==> stage_fits(pile_total(*deck), s, draws as nat),
            3 <= s <= 7,
            r.len() == 7 - s,
            forall|i: int|
                0 <= i < r.len() ==> stage_matches(#[trigger] r[i], *deck, (7 - i) as nat, draws as nat, *goal),
            forall|i: int| 0 <= i < r.len() ==> #[trigger] r[i].kept <= r[i].hands,
            forall|i: int| 0 <= i < r.len() ==> #[trigger] r[i].cast <= r[i].hands * r[i].draws,
        decreases s,
    {
        let st = stage(deck, s, draws, goal);
        r.push(st);
        s = s - 1;
    }
    r
}

/// With no land in the deck, a goal that asks for at least one land is
/// reached by no (hand, draw) pair, at every hand size: the chance of
/// reaching it is zero.
pub proof fn lemma_no_lands_no_cast<P: Pile, G: Fn(P) -> bool>(
    deck: P,
    goal: G,
    s: nat,
    lo: nat,
    hi: nat,
    d: nat,
)
    requires
        deck.wf(),
        pile_lands(deck) == 0,
        forall|c: Seq<nat>| #[trigger] goal_holds(deck, goal, c) ==> hand_lands(deck, c) >= 1,
    ensures
        cast_count(deck, goal, s, lo, hi, d) == 0,
{
    let len = deck.counts().len();
    let t = |h: Seq<nat>| hand_term(deck, goal, lo, hi, d, h);
    let sel = |i: int| deck.is_land(i);
    assert forall|h: Seq<nat>| h.len() == len && seq_total(h) == s implies #[trigger] t(h) == 0 by {
        let wh = ways(deck.counts(), h);
        let fc = follow_count(deck, goal, h, d);
        if lo <= hand_lands(deck, h) <= hi {
            if dominates(deck.counts(), h) {
                let rem = seq_sub(deck.counts(), h);
                let dt = |e: Seq<nat>| draw_term(deck, goal, h, e);
                assert forall|e: Seq<nat>| e.len() == len && seq_total(e) == d implies #[trigger] dt(e)
                    == 0 by {
                    if goal_holds(deck, goal, seq_add(h, e)) {
                        if dominates(rem, e) {
                            let c = seq_add(h, e);
                            assert(dominates(deck.counts(), c)) by {
                                assert forall|i: int| 0 <= i < len implies #[trigger] deck.counts()[i]
                                    >= c[i] by {
                                    assert(rem[i] >= e[i]);
                                }
                            }
                            crate::pile::lemma_sum_where_dominates(deck.counts(), c, sel);
                        } else {
                            let i = choose|i: int| 0 <= i < len && !(rem[i] >= e[i]);
                            lemma_ways_zero(rem, e, i);
                        }
                    }
                }
                lemma_comp_sum_zero(len, d, dt);
                assert(wh * 0 == 0) by (nonlinear_arith);
            } else {
                let i = choose|i: int| 0 <= i < len && !(deck.counts()[i] >= h[i]);
                lemma_ways_zero(deck.counts(), h, i);
                assert(0 * fc == 0) by (nonlinear_arith);
            }
        }
    }
    lemma_comp_sum_zero(len, s, t);
}

/// With a goal that every hand the deck holds reaches, every kept hand
/// counts with every draw: `cast == kept * draws`, the counts of each hand
/// size that `stage` returns.
pub proof fn lemma_sure_goal<P: Pile, G: Fn(P) -> bool>(
    deck: P,
    goal: G,
    s: nat,
    lo: nat,
    hi: nat,
    d: nat,
)
    requires
        deck.wf(),
        lo <= hi <= s,
        forall|c: Seq<nat>| dominates(deck.counts(), c) ==> #[trigger] goal_holds(deck, goal, c),
    ensures
        cast_count(deck, goal, s, lo, hi, d) == keep_count(
            pile_lands(deck),
            minus(pile_total(deck), pile_lands(deck)),
            s,
            lo,
            hi,
        ) * binom(minus(pile_total(deck), s), d),
{
    let dc = deck.counts();
    let len = dc.len();
    let n = pile_total(deck);
    let sel = |i: int| deck.is_land(i);
    let b2 = binom(minus(n, s), d);
    let t = |h: Seq<nat>| hand_term(deck, goal, lo, hi, d, h);
    let kw = ways_in(dc, sel, lo, hi);
    let g = |h: Seq<nat>| b2 * kw(h);
    assert forall|h: Seq<nat>| h.len() == len && seq_total(h) == s implies #[trigger] t(h) == g(h) by {
        let wh = ways(dc, h);
        assert(hand_lands(deck, h) == sum_where(h, sel));
        if lo <= hand_lands(deck, h) <= hi {
            if dominates(dc, h) {
                let rem = seq_sub(dc, h);
                lemma_total_sub(dc, h);
                let dt = |e: Seq<nat>| draw_term(deck, goal, h, e);
                let we = |e: Seq<nat>| ways(rem, e);
                assert forall|e: Seq<nat>| e.len() == len && seq_total(e) == d implies #[trigger] dt(e)
                    == we(e) by {
                    if dominates(rem, e) {
                        let c = seq_add(h, e);
                        assert(dominates(dc, c)) by {
                            assert forall|i: int| 0 <= i < len implies #[trigger] dc[i] >= c[i] by {
                                assert(rem[i] >= e[i]);
                            }
                        }
                        assert(goal_holds(deck, goal, c));
                    } else {
                        let i = choose|i: int| 0 <= i < len && !(rem[i] >= e[i]);
                        lemma_ways_zero(rem, e, i);
                    }
                }
                lemma_comp_sum_eq(len, d, dt, we);
                lemma_ways_sum(rem, d);
                assert(seq_total(rem) == minus(n, s));
                assert(wh * b2 == b2 * wh) by (nonlinear_arith);
            } else {
                let i = choose|i: int| 0 <= i < len && !(dc[i] >= h[i]);
                lemma_ways_zero(dc, h, i);
                let fc = follow_count(deck, goal, h, d);
                assert(0 * fc == 0 && b2 * 0 == 0) by (nonlinear_arith);
            }
        } else {
            assert(b2 * 0 == 0) by (nonlinear_arith);
        }
    }
    lemma_comp_sum_eq(len, s, t, g);
    lemma_comp_sum_scale(len, s, kw, b2);
    lemma_ways_in(dc, sel, s, lo, hi);
    lemma_sum_where_split(dc, sel);
    deck.lemma_wf_total();
    assert(pile_lands(deck) == sum_where(dc, sel));
    let kc = comp_sum(len, s, kw);
    assert(b2 * kc == kc * b2) by (nonlinear_arith);
}

/// The chance of drawing exactly `drawn` out of `deck`, as the number of
/// ways of drawing it over the number of draws of as many cards.
pub fn draw_odds<P: Pile>(deck: &P, drawn: &P) -> (r: (u128, u128))
    requires
        deck.wf(),
        drawn.wf(),
        drawn.counts().len() == deck.counts().len(),
        binom(pile_total(*deck), pile_total(*drawn)) * (pile_total(*drawn) + 1) <= u128::MAX,
    ensures
        r.0 == ways(deck.counts(), drawn.counts()),
        r.1 == binom(pile_total(*deck), pile_total(*drawn)),
{
    let dv = counts_vec(deck);
    let hv = counts_vec(drawn);
    let n = total_of(deck);
    let k = total_of(drawn);
    let ghost b = binom(n as nat, k as nat);
    proof {
        assert(b * k <= b * (k + 1)) by (nonlinear_arith);
    }
    let total = ch_wide(n, k);
    let mut j: usize = 0;
    while j < hv.len()
        invariant
            nat_seq(dv@) == deck.counts(),
            nat_seq(hv@) == drawn.counts(),
            total == binom(pile_total(*deck), pile_total(*drawn)),
            dv.len() == hv.len(),
            j <= hv.len(),
            forall|t: int| 0 <= t < j ==> hv[t] <= dv[t],
        decreases hv.len() - j,
    {
        if hv[j] > dv[j] {
            proof {
                assert(nat_seq(hv@)[j as int] > nat_seq(dv@)[j as int]);
                lemma_ways_zero(deck.counts(), drawn.counts(), j as int);
            }
            return (0, total);
        }
        j = j + 1;
    }
    proof {
        let ds = deck.counts();
        let hs = drawn.counts();
        assert(dominates(ds, hs)) by {
            assert forall|t: int| 0 <= t < ds.len() implies #[trigger] ds[t] >= hs[t] by {
                assert(hv[t] <= dv[t]);
            }
        }
        lemma_comp_sum_term(ds.len(), k as nat, |h: Seq<nat>| ways(ds, h), hs);
        lemma_ways_sum(ds, k as nat);
        let w = ways(ds, hs);
        assert(w * (k + 1) <= b * (k + 1)) by (nonlinear_arith)
            requires
                w <= b,
        ;
        assert forall|t: int| 0 <= t < hv.len() implies hv[t] <= k by {
            lemma_sum_where_bound(hs, |x: int| true, t);
        }
    }
    (ways_of(&dv, &hv, k), total)
}

/// The chance of drawing exactly `l` lands and `s` other cards out of
/// `deck`, as the number of ways of drawing them over the number of draws
/// of `l + s` cards.
pub fn land_odds<P: Pile>(deck: &P, l: usize, s: usize) -> (r: (u128, u128))
    requires
        deck.wf(),
        l + s <= usize::MAX,
        binom(pile_total(*deck), (l + s) as nat) * (l + s + 1) <= u128::MAX,
    ensures
        r.0 == binom(pile_lands(*deck), l as nat) * binom(
            minus(pile_total(*deck), pile_lands(*deck)),
            s as nat,
        ),
        r.1 == binom(pile_total(*deck), (l + s) as nat),
{
    let dv = counts_vec(deck);
    let n = total_of(deck);
    let lands = lands_in(deck, &dv);
    proof {
        crate::pile::lemma_sum_where_le_total(deck.counts(), |i: int| deck.is_land(i));
    }
    let spells = n - lands;
    let ghost b = binom(n as nat, (l + s) as nat);
    let ghost bl = binom(lands as nat, l as nat);
    let ghost bs = binom(spells as nat, s as nat);
    proof {
        assert(b * (l + s) <= b * (l + s + 1)) by (nonlinear_arith);
    }
    let total = ch_wide(n, l + s);
    if l > lands {
        proof {
            crate::prob::lemma_binom_above(lands as nat, l as nat);
            assert(0 * bs == 0) by (nonlinear_arith);
        }
        return (0, total);
    }
    if s > spells {
        proof {
            crate::prob::lemma_binom_above(spells as nat, s as nat);
            assert(bl * 0 == 0) by (nonlinear_arith);
        }
        return (0, total);
    }
    proof {
        // one term of Vandermonde's identity
        lemma_vandermonde(lands as nat, spells as nat, (l + s) as nat);
        lemma_vandermonde_sum_grows(lands as nat, spells as nat, (l + s) as nat, l as nat + 1, (l + s) as nat + 1);
        lemma_vandermonde_sum_grows(lands as nat, spells as nat, (l + s) as nat, 0, l as nat);
        assert(((l + s) - l) as nat == s as nat);
        crate::prob::lemma_binom_positive(lands as nat, l as nat);
        crate::prob::lemma_binom_positive(spells as nat, s as nat);
        assert(bl * l <= b * (l + s + 1) && bs * s <= b * (l + s + 1) && bl * bs <= b)
            by (nonlinear_arith)
            requires
                bl >= 1,
                bs >= 1,
                bl * bs <= b,
        ;
    }
    let a = ch_wide(lands, l);
    let c = ch_wide(spells, s);
    (a * c, total)
}

/// The chance of reaching the goal over the mulligan process of `stages`,
/// largest hand first, as a numerator and a denominator: keep the hand and
/// go on to the goal, or redraw and go on with the next stages.
pub open spec fn success(stages: Seq<Stage>) -> (nat, nat)
    decreases stages.len(),
{
    if stages.len() == 0 {
        (0, 1)
    } else {
        let st = stages[0];
        let rest = success(stages.drop_first());
        let h = st.hands as nat;
        let k = st.kept as nat;
        let e = st.draws as nat;
        let c = st.cast as nat;
        (k * c * rest.1 + minus(h, k) * h * e * rest.0, h * h * e * rest.1)
    }
}

/// The chance of reaching the goal lies between zero and one, whenever
/// every stage has hands and draws, keeps at most its hands and reaches the
/// goal with at most its (hand, draw) pairs, as the stages of `turn_counts`
/// do.
pub proof fn lemma_success_bounds(stages: Seq<Stage>)
    requires
        forall|i: int| 0 <= i < stages.len() ==> 0 < #[trigger] stages[i].hands,
        forall|i: int| 0 <= i < stages.len() ==> 0 < #[trigger] stages[i].draws,
        forall|i: int| 0 <= i < stages.len() ==> #[trigger] stages[i].kept <= stages[i].hands,
        forall|i: int|
            0 <= i < stages.len() ==> #[trigger] stages[i].cast <= stages[i].hands * stages[i].draws,
    ensures
        success(stages).1 > 0,
        success(stages).0 <= success(stages).1,
    decreases stages.len(),
{
    if stages.len() > 0 {
        let rest = stages.drop_first();
        assert forall|i: int| 0 <= i < rest.len() implies rest[i] == stages[i + 1] by {
        }
        lemma_success_bounds(rest);
        let st = stages[0];
        let (n1, d1) = success(rest);
        let h = st.hands as nat;
        let k = st.kept as nat;
        let e = st.draws as nat;
        let c = st.cast as nat;
        let r = minus(h, k);
        assert(r + k == h);
        assert(h * h * e * d1 > 0) by (nonlinear_arith)
            requires
                h > 0,
                e > 0,
                d1 > 0,
        ;
        assert(k * c * d1 + r * h * e * n1 <= h * h * e * d1) by (nonlinear_arith)
            requires
                c <= h * e,
                n1 <= d1,
                r + k == h,
        ;
    }
}

/// When no stage reaches the goal with any (hand, draw) pair, the chance of
/// reaching it is zero.
pub proof fn lemma_success_zero(stages: Seq<Stage>)
    requires
        forall|i: int| 0 <= i < stages.len() ==> #[trigger] stages[i].cast == 0,
    ensures
        success(stages).0 == 0,
    decreases stages.len(),
{
    if stages.len() > 0 {
        let rest = stages.drop_first();
        assert forall|i: int| 0 <= i < rest.len() implies rest[i].cast == 0 by {
            assert(rest[i] == stages[i + 1]);
        }
        lemma_success_zero(rest);
        let st = stages[0];
        let (n1, d1) = success(rest);
        let h = st.hands as nat;
        let k = st.kept as nat;
        let e = st.draws as nat;
        let r = minus(h, k);
        assert(k * 0 * d1 + r * h * e * 0 == 0) by (nonlinear_arith);
    }
}

} // verus!
