//! Reading mana costs written as symbols in braces, as in `{2}{W}{U}`.
use vstd::prelude::*;
use vstd::string::StringSliceAdditionalSpecFns;
use crate::mana::Mana;

verus! {

/// A decimal digit.
pub open spec fn is_digit(c: u8) -> bool {
    48 <= c <= 57
}

/// The end of the run of digits of `b` from `p` on.
pub open spec fn digits_end(b: Seq<u8>, p: int) -> int
    decreases b.len() - p,
{
    if p >= b.len() || !is_digit(b[p]) {
        p
    } else {
        digits_end(b, p + 1)
    }
}

/// The number written by the digits `b[s..e]`.
pub open spec fn digits_value(b: Seq<u8>, s: int, e: int) -> nat
    decreases e - s,
{
    if e <= s {
        0
    } else {
        digits_value(b, s, e - 1) * 10 + (b[e - 1] - 48) as nat
    }
}

/// The position of the mana letter `c` in the order `w, u, b, r, g, c, n, x`.
pub open spec fn letter_slot(c: u8) -> Option<int> {
    if c == 87 {
        Some(0)
    } else if c == 85 {
        Some(1)
    } else if c == 66 {
        Some(2)
    } else if c == 82 {
        Some(3)
    } else if c == 71 {
        Some(4)
    } else if c == 67 {
        Some(5)
    } else if c == 88 {
        Some(7)
    } else {
        None
    }
}

/// The symbol that starts at `p`, if one does: its end, its slot and its
/// amount. A symbol is `{` then a mana letter or a number then `}`; a
/// number too large for 32 bits counts zero.
pub open spec fn symbol_at(b: Seq<u8>, p: int) -> Option<(int, int, nat)> {
    if 0 <= p && p + 2 < b.len() && b[p] == 123 && letter_slot(b[p + 1]).is_some() && b[p + 2]
        == 125 {
        Some((p + 3, letter_slot(b[p + 1]).unwrap(), 1))
    } else if 0 <= p < b.len() && b[p] == 123 && digits_end(b, p + 1) > p + 1 && digits_end(b, p + 1)
        < b.len() && b[digits_end(b, p + 1)] == 125 {
        let v = digits_value(b, p + 1, digits_end(b, p + 1));
        Some((digits_end(b, p + 1) + 1, 6, if v <= u32::MAX { v } else { 0 }))
    } else {
        None
    }
}

/// The amounts, in the order `w, u, b, r, g, c, n, x`, of the symbols of
/// `b` from `p` on, each found at the leftmost place it can start after the
/// one before.
pub open spec fn cost_from(b: Seq<u8>, p: int) -> Seq<nat>
    decreases b.len() - p,
{
    if p >= b.len() {
        seq![0nat, 0, 0, 0, 0, 0, 0, 0]
    } else {
        match symbol_at(b, p) {
            Some((e, slot, v)) => {
                let rest = cost_from(b, e);
                rest.update(slot, rest[slot] + v)
            },
            None => cost_from(b, p + 1),
        }
    }
}

proof fn lemma_digits_end(b: Seq<u8>, p: int)
    requires
        0 <= p,
    ensures
        p <= digits_end(b, p),
        digits_end(b, p) <= b.len() || digits_end(b, p) == p,
        forall|q: int| p <= q < digits_end(b, p) ==> is_digit(b[q]),
        digits_end(b, p) < b.len() ==> !is_digit(b[digits_end(b, p)]),
    decreases b.len() - p,
{
    if p < b.len() && is_digit(b[p]) {
        lemma_digits_end(b, p + 1);
    }
}

proof fn lemma_cost_len(b: Seq<u8>, p: int)
    ensures
        cost_from(b, p).len() == 8,
    decreases b.len() - p,
{
    if p < b.len() {
        match symbol_at(b, p) {
            Some((e, slot, v)) => {
                lemma_digits_end(b, p + 1);
                lemma_cost_len(b, e);
            },
            None => lemma_cost_len(b, p + 1),
        }
    }
}

/// The symbol that starts at `p`, as `symbol_at` says.
fn read_symbol(b: &[u8], p: usize) -> (r: Option<(usize, usize, u32)>)
    requires
        p < b@.len(),
    ensures
        r matches Some((e, slot, v)) ==> symbol_at(b@, p as int) == Some(
            (e as int, slot as int, v as nat),
        ),
        r.is_none() ==> symbol_at(b@, p as int).is_none(),
{
    if b[p] != 123 {
        return None;
    }
    if b.len() - p > 2 && b[p + 2] == 125 {
        let c = b[p + 1];
        let slot: usize = if c == 87 {
            0
        } else if c == 85 {
            1
        } else if c == 66 {
            2
        } else if c == 82 {
            3
        } else if c == 71 {
            4
        } else if c == 67 {
            5
        } else if c == 88 {
            7
        } else {
            8
        };
        if slot < 8 {
            return Some((p + 3, slot, 1));
        }
    }
    let ghost bs = b@;
    proof {
        lemma_digits_end(bs, p as int + 1);
    }
    let mut q: usize = p + 1;
    let mut v: u64 = 0;
    let mut big = false;
    while q < b.len() && 48 <= b[q] && b[q] <= 57
        invariant
            bs == b@,
            p + 1 <= q <= b@.len(),
            digits_end(bs, p as int + 1) == digits_end(bs, q as int),
            big ==> digits_value(bs, p as int + 1, q as int) > u32::MAX,
            !big ==> v == digits_value(bs, p as int + 1, q as int) && v <= u32::MAX,
        decreases b@.len() - q,
    {
        if !big {
            let nv = v * 10 + (b[q] - 48) as u64;
            if nv > 0xffff_ffff {
                big = true;
            } else {
                v = nv;
            }
        } else {
            proof {
                let d = digits_value(bs, p as int + 1, q as int);
                assert(d * 10 + (bs[q as int] - 48) as nat >= d) by (nonlinear_arith)
                    requires
                        d >= 0,
                ;
            }
        }
        q = q + 1;
    }
    if q > p + 1 && q < b.len() && b[q] == 125 {
        Some((q + 1, 6, if big { 0 } else { v as u32 }))
    } else {
        None
    }
}

impl Mana {
    /// The mana cost written in `s`: every symbol in braces adds one mana of
    /// its letter (`W`, `U`, `B`, `R`, `G`, `C` or `X`) or its number of
    /// generic mana; any other text is passed over.
    pub fn parse(s: &str) -> (m: Mana)
        requires
            forall|i: int| 0 <= i < 8 ==> #[trigger] cost_from(s.spec_bytes(), 0)[i] <= u32::MAX,
        ensures
            m.amounts() =~= cost_from(s.spec_bytes(), 0).map_values(|v: nat| v as u32),
    {
        let b = s.as_bytes();
        let ghost bs = b@;
        let mut acc: [u32; 8] = [0, 0, 0, 0, 0, 0, 0, 0];
        let mut p: usize = 0;
        proof {
            lemma_cost_len(bs, 0);
            assert(acc@ =~= seq![0u32, 0, 0, 0, 0, 0, 0, 0]);
        }
        while p < b.len()
            invariant
                bs == b@,
                bs == s.spec_bytes(),
                p <= bs.len(),
                cost_from(bs, 0).len() == 8,
                forall|i: int| 0 <= i < 8 ==> #[trigger] cost_from(bs, 0)[i] <= u32::MAX,
                acc@.len() == 8,
                forall|i: int|
                    0 <= i < 8 ==> acc@[i] + #[trigger] cost_from(bs, p as int)[i] == cost_from(
                        bs,
                        0,
                    )[i],
            decreases bs.len() - p,
        {
            proof {
                lemma_cost_len(bs, p as int);
            }
            match read_symbol(b, p) {
                Some((e, slot, v)) => {
                    proof {
                        lemma_cost_len(bs, e as int);
                        assert(cost_from(bs, p as int) == cost_from(bs, e as int).update(
                            slot as int,
                            (cost_from(bs, e as int)[slot as int] + v) as nat,
                        ));
                        assert(cost_from(bs, p as int)[slot as int] == cost_from(bs, e as int)[slot as int]
                            + v);
                        assert(acc@[slot as int] + v <= cost_from(bs, 0)[slot as int]);
                    }
                    let ghost acc0 = acc@;
                    acc.set(slot, acc[slot] + v);
                    proof {
                        assert forall|i: int| 0 <= i < 8 implies acc@[i] + #[trigger] cost_from(
                            bs,
                            e as int,
                        )[i] == cost_from(bs, 0)[i] by {
                            assert(acc0[i] + cost_from(bs, p as int)[i] == cost_from(bs, 0)[i]);
                        }
                    }
                    p = e;
                },
                None => {
                    proof {
                        assert forall|i: int| 0 <= i < 8 implies acc@[i] + #[trigger] cost_from(
                            bs,
                            p as int + 1,
                        )[i] == cost_from(bs, 0)[i] by {
                            assert(acc@[i] + cost_from(bs, p as int)[i] == cost_from(bs, 0)[i]);
                        }
                    }
                    p = p + 1;
                },
            }
        }
        proof {
            assert(cost_from(bs, p as int) =~= seq![0nat, 0, 0, 0, 0, 0, 0, 0]);
        }
        Mana::new(acc[0], acc[1], acc[2], acc[3], acc[4], acc[5], acc[6], acc[7])
    }
}

} // verus!
