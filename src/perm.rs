//! Enumeration of the sub-multisets of a given size of a multiset given by
//! its counts.
use vstd::prelude::*;
use crate::pile::{seq_total, nat_seq, dominates};
use crate::counting::{
    comp_sum, last_sum, push_fn, count_one, lemma_comp_sum_le, lemma_comp_sum_zero,
    lemma_compositions_count,
};
use crate::prob::binom;

verus! {

/// One when `h` takes at most `ns[j]` of each kind `j`, zero otherwise.
pub open spec fn fits(ns: Seq<nat>, h: Seq<nat>) -> nat {
    if dominates(ns, h) {
        1
    } else {
        0
    }
}

/// `x` to `fits` of `x` followed by `suffix`.
pub open spec fn fits_fn(ns: Seq<nat>, suffix: Seq<nat>) -> spec_fn(Seq<nat>) -> nat {
    |x: Seq<nat>| fits(ns, x + suffix)
}

/// `a` takes `k` items of a multiset with the counts `ns`.
pub open spec fn is_subset_of_size(ns: Seq<nat>, k: nat, a: Seq<usize>) -> bool {
    &&& a.len() == ns.len()
    &&& dominates(ns, nat_seq(a))
    &&& seq_total(nat_seq(a)) == k
}

/// The sub-multisets of `k` items of the multiset with the counts `ns`.
pub struct MultiSubSetIterator {
    ns: Vec<usize>,
    k: usize,
    items: Vec<Vec<usize>>,
    pos: usize,
}

proof fn lemma_total_prepend(x: nat, s: Seq<nat>)
    ensures
        seq_total(seq![x] + s) == x + seq_total(s),
    decreases s.len(),
{
    if s.len() == 0 {
        assert(seq![x] + s =~= seq![x]);
        assert(seq![x].drop_last() =~= Seq::<nat>::empty());
        assert(crate::pile::sum_where(seq![x], |i: int| true) == crate::pile::sum_where(
            Seq::<nat>::empty(),
            |i: int| true,
        ) + x);
    } else {
        lemma_total_prepend(x, s.drop_last());
        let t = seq![x] + s;
        assert(t.drop_last() =~= seq![x] + s.drop_last());
    }
}

/// Adds to `out`, in order, every way of completing the first `i` counts
/// of `a` with counts that add up to `k`, each at most the matching count
/// of `ns`.
fn collect(ns: &Vec<usize>, k0: usize, i: usize, k: usize, a: &mut Vec<usize>, out: &mut Vec<
    Vec<usize>,
>)
    requires
        old(a).len() == ns.len(),
        i <= ns.len(),
        forall|j: int| i <= j < ns.len() ==> old(a)[j] <= ns[j],
        seq_total(nat_seq(old(a)@).subrange(i as int, ns.len() as int)) + k == k0,
        forall|t: int|
            0 <= t < old(out).len() ==> is_subset_of_size(nat_seq(ns@), k0 as nat, #[trigger] old(out)[t]@),
    ensures
        final(a).len() == old(a).len(),
        forall|j: int| i <= j < final(a).len() ==> final(a)[j] == old(a)[j],
        final(out)@.subrange(0, old(out).len() as int) == old(out)@,
        final(out).len() == old(out).len() + comp_sum(
            i as nat,
            k as nat,
            fits_fn(nat_seq(ns@), nat_seq(old(a)@).subrange(i as int, ns.len() as int)),
        ),
        forall|t: int|
            0 <= t < final(out).len() ==> is_subset_of_size(nat_seq(ns@), k0 as nat, #[trigger] final(out)[t]@),
        forall|t: int, j: int|
            old(out).len() <= t < final(out).len() && i <= j < ns.len() ==> #[trigger] final(out)[t]@[j]
                == old(a)[j],
        forall|t1: int, t2: int|
            old(out).len() <= t1 < t2 < final(out).len() ==> #[trigger] final(out)[t1]@
                != #[trigger] final(out)[t2]@,
    decreases i,
{
    let len = ns.len();
    let ghost suffix = nat_seq(a@).subrange(i as int, len as int);
    let ghost f = fits_fn(nat_seq(ns@), suffix);
    if i == 0 {
        if k != 0 {
            return;
        }
        proof {
            assert(Seq::<nat>::empty() + suffix =~= nat_seq(a@));
            assert(suffix =~= nat_seq(a@));
            assert(dominates(nat_seq(ns@), nat_seq(a@))) by {
                assert forall|t: int| 0 <= t < len implies #[trigger] nat_seq(ns@)[t] >= nat_seq(a@)[t] by {
                }
            }
        }
        let item = crate::gen_pile::copy_vec(a);
        out.push(item);
        proof {
            assert(out@.subrange(0, out.len() - 1) =~= old(out)@);
        }
        return;
    }
    let ghost olda = *a;
    let ghost oldout = *out;
    let mut x: usize = 0;
    let top: usize = if k < ns[i - 1] { k } else { ns[i - 1] };
    loop
        invariant_except_break
            x <= top,
            forall|t: int| oldout.len() <= t < out.len() ==> #[trigger] out[t]@[i - 1] < x,
            out.len() == oldout.len() + last_sum(i as nat, k as nat, f, x as nat),
        invariant
            len == ns.len(),
            a.len() == len,
            0 < i <= len,
            top <= k,
            top <= ns[i - 1],
            olda.len() == len,
            forall|j: int| i <= j < len ==> a[j] == olda[j],
            forall|j: int| i <= j < len ==> olda[j] <= ns[j],
            suffix == nat_seq(olda@).subrange(i as int, len as int),
            f == fits_fn(nat_seq(ns@), suffix),
            seq_total(suffix) + k == k0,
            out@.subrange(0, oldout.len() as int) == oldout@,
            out.len() >= oldout.len(),
            forall|t: int|
                0 <= t < out.len() ==> is_subset_of_size(nat_seq(ns@), k0 as nat, #[trigger] out[t]@),
            forall|t: int, j: int|
                oldout.len() <= t < out.len() && i <= j < len ==> #[trigger] out[t]@[j] == olda[j],
            forall|t1: int, t2: int|
                oldout.len() <= t1 < t2 < out.len() ==> #[trigger] out[t1]@ != #[trigger] out[t2]@,
            forall|t: int| oldout.len() <= t < out.len() ==> #[trigger] out[t]@.len() == len,
        ensures
            out.len() == oldout.len() + last_sum(i as nat, k as nat, f, top as nat + 1),
        decreases top - x,
    {
        let ghost fx = push_fn(f, x as nat);
        a.set(i - 1, x);
        let ghost suffix2 = nat_seq(a@).subrange(i - 1, len as int);
        proof {
            assert(suffix.len() == len - i);
            assert forall|t: int| 0 <= t < suffix2.len() implies suffix2[t] == (seq![x as nat]
                + suffix)[t] by {
                if t > 0 {
                    assert(a[i - 1 + t] == olda[i - 1 + t]);
                }
            }
            assert(suffix2 =~= seq![x as nat] + suffix);
            lemma_total_prepend(x as nat, suffix);
            assert forall|h: Seq<nat>| #[trigger] fx(h) == fits_fn(nat_seq(ns@), suffix2)(h) by {
                assert(h.push(x as nat) + suffix =~= h + suffix2);
            }
            assert(fx =~= fits_fn(nat_seq(ns@), suffix2));
        }
        let ghost before = *out;
        let ghost a_before = *a;
        collect(ns, k0, i - 1, k - x, a, out);
        proof {
            assert(out@.subrange(0, oldout.len() as int) =~= before@.subrange(0, oldout.len() as int));
            assert forall|t: int| 0 <= t < before.len() implies #[trigger] out[t] == before[t] by {
                assert(out@.subrange(0, before.len() as int)[t] == before@[t]);
            }
            assert forall|t: int| before.len() <= t < out.len() implies #[trigger] out[t]@[i - 1]
                == x by {
                assert(out[t]@[i - 1] == a_before[i - 1]);
            }
            assert forall|t1: int, t2: int|
                oldout.len() <= t1 < t2 < out.len() implies #[trigger] out[t1]@ != #[trigger] out[t2]@ by {
                if t2 >= before.len() && t1 < before.len() {
                    assert(before[t1]@[i - 1] < x);
                    assert(out[t1]@[i - 1] != out[t2]@[i - 1]);
                }
            }
        }
        if x == top {
            break;
        }
        x = x + 1;
    }
    proof {
        // the counts above `top` take no item
        lemma_last_sum_rest_zero(ns@, i as nat, k as nat, suffix, (top + 1) as nat);
    }
}

/// Past the last count `top` that fits, the terms of `last_sum` are zero.
proof fn lemma_last_sum_rest_zero(ns: Seq<usize>, i: nat, k: nat, suffix: Seq<nat>, x: nat)
    requires
        0 < i <= ns.len(),
        suffix.len() == ns.len() - i,
        x <= k + 1,
        x > k || x > ns[i - 1],
    ensures
        last_sum(i, k, fits_fn(nat_seq(ns), suffix), x) == last_sum(
            i,
            k,
            fits_fn(nat_seq(ns), suffix),
            k + 1,
        ),
    decreases k + 1 - x,
{
    if x < k + 1 {
        let f = fits_fn(nat_seq(ns), suffix);
        let fx = push_fn(f, x);
        assert forall|h: Seq<nat>| h.len() == (i - 1) as nat && seq_total(h) == (k - x) as nat implies #[trigger] fx(
            h,
        ) == 0 by {
            let full = h.push(x) + suffix;
            assert(full[i - 1] == x);
            assert(!(nat_seq(ns)[i - 1] >= full[i - 1]));
        }
        lemma_comp_sum_zero((i - 1) as nat, (k - x) as nat, fx);
        lemma_last_sum_rest_zero(ns, i, k, suffix, x + 1);
    }
}

impl MultiSubSetIterator {
    /// The sub-multisets of `k` items of the multiset whose counts are `ns`.
    pub fn new(ns: &[usize], k: usize) -> (r: MultiSubSetIterator)
        ensures
            r.wf(),
            r.counts() == nat_seq(ns@),
            r.size() == k,
            r.remaining().len() == comp_sum(ns@.len(), k as nat, fits_fn(nat_seq(ns@), Seq::empty())),
            forall|t1: int, t2: int|
                0 <= t1 < t2 < r.remaining().len() ==> #[trigger] r.remaining()[t1]
                    != #[trigger] r.remaining()[t2],
    {
        let mut v: Vec<usize> = Vec::new();
        let mut a: Vec<usize> = Vec::new();
        let mut j: usize = 0;
        while j < ns.len()
            invariant
                j <= ns.len(),
                v@ == ns@.subrange(0, j as int),
                a.len() == j,
                forall|t: int| 0 <= t < j ==> a[t] == 0,
            decreases ns.len() - j,
        {
            v.push(ns[j]);
            a.push(0);
            j = j + 1;
            assert(v@ =~= ns@.subrange(0, j as int));
        }
        assert(v@ =~= ns@);
        let mut items: Vec<Vec<usize>> = Vec::new();
        let len = v.len();
        proof {
            assert(nat_seq(a@).subrange(len as int, len as int) =~= Seq::<nat>::empty());
        }
        collect(&v, k, len, k, &mut a, &mut items);
        let r = MultiSubSetIterator { ns: v, k, items, pos: 0 };
        assert forall|t1: int, t2: int|
            0 <= t1 < t2 < r.remaining().len() implies #[trigger] r.remaining()[t1]
                != #[trigger] r.remaining()[t2] by {
            assert(r.remaining()[t1] == r.items[t1]@);
            assert(r.remaining()[t2] == r.items[t2]@);
        }
        r
    }

    /// The counts of the multiset.
    pub closed spec fn counts(&self) -> Seq<nat> {
        nat_seq(self.ns@)
    }

    /// The size of the sub-multisets.
    pub closed spec fn size(&self) -> nat {
        self.k as nat
    }

    /// The sub-multisets still to come, in order.
    pub closed spec fn remaining(&self) -> Seq<Seq<usize>> {
        Seq::new((self.items.len() - self.pos) as nat, |t: int| self.items[self.pos + t]@)
    }

    pub closed spec fn wf(&self) -> bool {
        &&& self.pos <= self.items.len()
        &&& forall|t: int|
            0 <= t < self.items.len() ==> is_subset_of_size(
                nat_seq(self.ns@),
                self.k as nat,
                #[trigger] self.items[t]@,
            )
    }

    /// The next sub-multiset, if any is left.
    pub fn next(&mut self) -> (r: Option<Vec<usize>>)
        requires
            old(self).wf(),
        ensures
            final(self).wf(),
            final(self).counts() == old(self).counts(),
            final(self).size() == old(self).size(),
            old(self).remaining().len() == 0 ==> r.is_none() && final(self).remaining().len() == 0,
            old(self).remaining().len() > 0 ==> r.is_some() && r.unwrap()@ == old(
                self,
            ).remaining()[0] && final(self).remaining() == old(self).remaining().drop_first(),
            r.is_some() ==> is_subset_of_size(old(self).counts(), old(self).size(), r.unwrap()@),
    {
        if self.pos < self.items.len() {
            let item = crate::gen_pile::copy_vec(&self.items[self.pos]);
            self.pos = self.pos + 1;
            assert(self.remaining() =~= old(self).remaining().drop_first());
            Some(item)
        } else {
            None
        }
    }
}

/// The last position `t < i` where `nums` can still grow: where `nums[t]` is
/// below `mset[t + n - k]`; `-1` when there is none.
pub open spec fn grow_pos(mset: Seq<usize>, nums: Seq<usize>, i: int) -> int
    decreases i,
{
    if i <= 0 {
        -1
    } else if nums[i - 1] < mset[i - 1 + mset.len() - nums.len()] {
        i - 1
    } else {
        grow_pos(mset, nums, i - 1)
    }
}

/// The first position from `j` on where `mset` holds more than `v`.
pub open spec fn first_above(mset: Seq<usize>, v: usize, j: int) -> int
    decreases mset.len() - j,
{
    if j >= mset.len() || mset[j] > v {
        j
    } else {
        first_above(mset, v, j + 1)
    }
}

proof fn lemma_first_above(mset: Seq<usize>, v: usize, j: int, b: int)
    requires
        0 <= j <= b < mset.len(),
        mset[b] > v,
    ensures
        j <= first_above(mset, v, j) <= b,
        mset[first_above(mset, v, j)] > v,
        forall|t: int| j <= t < first_above(mset, v, j) ==> mset[t] <= v,
    decreases b - j,
{
    if mset[j] <= v {
        lemma_first_above(mset, v, j + 1, b);
    }
}

/// Moves `nums`, a choice of `k` items of the sorted multiset `mset`, to the
/// next choice: the last item that can grow takes the next larger value of
/// `mset`, and the items after it the values that follow. Returns `false`,
/// with `nums` back at the first choice `mset[0..k]`, when no item can grow.
pub fn mc_next(mset: &Vec<usize>, nums: &mut Vec<usize>) -> (r: bool)
    requires
        1 <= old(nums).len() <= mset.len(),
    ensures
        final(nums).len() == old(nums).len(),
        r == (grow_pos(mset@, old(nums)@, old(nums).len() as int) >= 0),
        ({
            let i = grow_pos(mset@, old(nums)@, old(nums).len() as int);
            let j = first_above(mset@, old(nums)@[i], 0);
            if i >= 0 {
                final(nums)@ == old(nums)@.subrange(0, i) + mset@.subrange(
                    j,
                    j + old(nums).len() - i,
                )
            } else {
                final(nums)@ == mset@.subrange(0, old(nums).len() as int)
            }
        }),
{
    let n = mset.len();
    let k = nums.len();
    let ghost old_nums = nums@;
    let mut i: usize = k;
    while i > 0
        invariant
            i <= k,
            k == nums.len(),
            n == mset.len(),
            1 <= k <= n,
            nums@ == old_nums,
            old_nums == old(nums)@,
            grow_pos(mset@, old_nums, k as int) == grow_pos(mset@, old_nums, i as int),
        decreases i,
    {
        i = i - 1;
        if nums[i] < mset[i + (n - k)] {
            let ghost v = nums@[i as int];
            proof {
                assert(grow_pos(mset@, old_nums, i as int + 1) == i);
                lemma_first_above(mset@, v, 0, i + (n - k));
            }
            let mut j: usize = 0;
            while mset[j] <= nums[i]
                invariant
                    nums@ == old_nums,
                    old_nums == old(nums)@,
                    grow_pos(mset@, old_nums, k as int) == i,
                    v == nums@[i as int],
                    n == mset.len(),
                    i < k,
                    k == nums.len(),
                    j <= first_above(mset@, v, 0),
                    first_above(mset@, v, 0) <= i + (n - k),
                    mset[first_above(mset@, v, 0)] > v,
                    forall|t: int| 0 <= t < first_above(mset@, v, 0) ==> mset[t] <= v,
                decreases first_above(mset@, v, 0) - j,
            {
                j = j + 1;
            }
            let ghost j0 = j as int;
            let jj = j;
            let mut l: usize = i;
            while l < k
                invariant
                    i <= l <= k,
                    k == nums.len(),
                    n == mset.len(),
                    j0 == first_above(mset@, v, 0),
                    jj == j0,
                    j0 <= i + (n - k),
                    nums@.subrange(0, i as int) == old_nums.subrange(0, i as int),
                    old_nums == old(nums)@,
                    grow_pos(mset@, old_nums, k as int) == i,
                    v == old_nums[i as int],
                    forall|t: int| i <= t < l ==> nums@[t] == mset@[j0 + t - i],
                decreases k - l,
            {
                nums.set(l, mset[jj + (l - i)]);
                l = l + 1;
                assert(nums@.subrange(0, i as int) =~= old_nums.subrange(0, i as int));
            }
            assert(nums@ =~= old_nums.subrange(0, i as int) + mset@.subrange(j0, j0 + k - i));
            return true;
        }
    }
    let mut t: usize = 0;
    while t < k
        invariant
            t <= k,
            k == nums.len(),
            k <= n,
            n == mset.len(),
            forall|x: int| 0 <= x < t ==> nums@[x] == mset@[x],
        decreases k - t,
    {
        nums.set(t, mset[t]);
        t = t + 1;
    }
    assert(nums@ =~= mset@.subrange(0, k as int));
    false
}

/// With at least `k` items of each of its `m >= 1` kinds, a multiset has
/// `C(k + m - 1, m - 1)` sub-multisets of `k` items: the count of distinct
/// ones that `MultiSubSetIterator::new` and `GenPile::subsets` hand out.
pub proof fn lemma_sub_multisets_count(ns: Seq<nat>, k: nat)
    requires
        ns.len() >= 1,
        forall|j: int| 0 <= j < ns.len() ==> ns[j] >= k,
    ensures
        comp_sum(ns.len(), k, fits_fn(ns, Seq::empty())) == binom(
            (k + ns.len() - 1) as nat,
            (ns.len() - 1) as nat,
        ),
{
    let f = fits_fn(ns, Seq::empty());
    let one = |h: Seq<nat>| count_one(h);
    assert forall|h: Seq<nat>| h.len() == ns.len() && seq_total(h) == k implies #[trigger] f(h)
        == one(h) by {
        assert(h + Seq::<nat>::empty() =~= h);
        assert forall|j: int| 0 <= j < ns.len() implies #[trigger] ns[j] >= h[j] by {
            crate::pile::lemma_sum_where_bound(h, |t: int| true, j);
        }
    }
    lemma_comp_sum_le(ns.len(), k, f, one);
    lemma_comp_sum_le(ns.len(), k, one, f);
    lemma_compositions_count(ns.len(), k);
}

} // verus!
