//! Mana written out as text.
use vstd::prelude::*;
use vstd::string::StringExecFns;
use crate::mana::Mana;

verus! {

/// The character of the decimal digit `d`.
pub open spec fn digit_char(d: nat) -> char {
    (48 + d) as char
}

/// `n` in decimal.
pub open spec fn decimal(n: nat) -> Seq<char>
    decreases n,
{
    if n < 10 {
        seq![digit_char(n)]
    } else {
        decimal(n / 10).push(digit_char(n % 10))
    }
}

/// `s` right-aligned in `w` characters: spaces in front up to `w`.
pub open spec fn pad(s: Seq<char>, w: nat) -> Seq<char> {
    if s.len() < w {
        Seq::new((w - s.len()) as nat, |i: int| ' ') + s
    } else {
        s
    }
}

/// `k` copies of `s`, one after the other.
pub open spec fn repeat(s: Seq<char>, k: nat) -> Seq<char>
    decreases k,
{
    if k == 0 {
        Seq::empty()
    } else {
        repeat(s, (k - 1) as nat) + s
    }
}

/// One field of the sources column: the amount in two places after a space
/// (but for the first field), then the letter; blank when there is none.
pub open spec fn src_field(v: nat, l: Seq<char>, spc: bool) -> Seq<char> {
    if v > 0 {
        (if spc {
            " "@
        } else {
            ""@
        }) + pad(decimal(v), 2) + l
    } else if spc {
        "    "@
    } else {
        "   "@
    }
}

fn digit_str(d: u32) -> (r: &'static str)
    requires
        d < 10,
    ensures
        r@ == seq![digit_char(d as nat)],
{
    proof {
        reveal_strlit("0");
        reveal_strlit("1");
        reveal_strlit("2");
        reveal_strlit("3");
        reveal_strlit("4");
        reveal_strlit("5");
        reveal_strlit("6");
        reveal_strlit("7");
        reveal_strlit("8");
        reveal_strlit("9");
    }
    match d {
        0 => "0",
        1 => "1",
        2 => "2",
        3 => "3",
        4 => "4",
        5 => "5",
        6 => "6",
        7 => "7",
        8 => "8",
        _ => "9",
    }
}

/// `n` in decimal.
pub fn decimal_string(n: u32) -> (r: String)
    ensures
        r@ == decimal(n as nat),
    decreases n,
{
    if n < 10 {
        String::from_str(digit_str(n))
    } else {
        let mut s = decimal_string(n / 10);
        s.append(digit_str(n % 10));
        s
    }
}

proof fn lemma_decimal_len(n: nat)
    ensures
        decimal(n).len() >= 1,
        n >= 10 ==> decimal(n).len() >= 2,
    decreases n,
{
    if n >= 10 {
        lemma_decimal_len(n / 10);
    }
}

/// Appends `v` right-aligned in two places.
fn append_pad2(s: &mut String, v: u32)
    ensures
        final(s)@ == old(s)@ + pad(decimal(v as nat), 2),
{
    proof {
        lemma_decimal_len(v as nat);
        reveal_strlit(" ");
    }
    if v < 10 {
        s.append(" ");
        assert(Seq::new(1, |i: int| ' ') =~= " "@);
    }
    let d = decimal_string(v);
    s.append(d.as_str());
    assert(s@ =~= old(s)@ + pad(decimal(v as nat), 2));
}

/// Appends `k` copies of `piece`.
fn append_repeat(s: &mut String, piece: &str, k: u32)
    ensures
        final(s)@ == old(s)@ + repeat(piece@, k as nat),
{
    let mut i: u32 = 0;
    while i < k
        invariant
            i <= k,
            s@ == old(s)@ + repeat(piece@, i as nat),
        decreases k - i,
    {
        s.append(piece);
        i = i + 1;
        assert(s@ =~= old(s)@ + repeat(piece@, i as nat));
    }
}

/// Appends a field of the sources column.
fn append_src_field(s: &mut String, v: u32, l: &str, spc: bool)
    ensures
        final(s)@ == old(s)@ + src_field(v as nat, l@, spc),
{
    proof {
        reveal_strlit(" ");
        reveal_strlit("");
        reveal_strlit("    ");
        reveal_strlit("   ");
    }
    if v > 0 {
        if spc {
            s.append(" ");
        }
        append_pad2(s, v);
        s.append(l);
        assert(s@ =~= old(s)@ + src_field(v as nat, l@, spc));
    } else if spc {
        s.append("    ");
    } else {
        s.append("   ");
    }
}

impl Mana {
    /// Every amount right-aligned in two places, in the order
    /// `w, u, b, r, g, c, n, x`: `( 1, 0, ...)`.
    pub fn show(&self) -> (r: String)
        ensures
            r@ == "("@ + pad(decimal(self.w as nat), 2) + ","@ + pad(decimal(self.u as nat), 2)
                + ","@ + pad(decimal(self.b as nat), 2) + ","@ + pad(decimal(self.r as nat), 2)
                + ","@ + pad(decimal(self.g as nat), 2) + ","@ + pad(decimal(self.c as nat), 2)
                + ","@ + pad(decimal(self.n as nat), 2) + ","@ + pad(decimal(self.x as nat), 2)
                + ")"@,
    {
        let mut s = String::from_str("(");
        append_pad2(&mut s, self.w);
        s.append(",");
        append_pad2(&mut s, self.u);
        s.append(",");
        append_pad2(&mut s, self.b);
        s.append(",");
        append_pad2(&mut s, self.r);
        s.append(",");
        append_pad2(&mut s, self.g);
        s.append(",");
        append_pad2(&mut s, self.c);
        s.append(",");
        append_pad2(&mut s, self.n);
        s.append(",");
        append_pad2(&mut s, self.x);
        s.append(")");
        s
    }

    /// The cost in the usual notation: the X symbols, the generic amount,
    /// then one letter per colored or colorless mana, as in `X2WWU`.
    pub fn pretty(&self) -> (r: String)
        ensures
            r@ == repeat("X"@, self.x as nat) + (if self.n > 0 {
                decimal(self.n as nat)
            } else {
                Seq::empty()
            }) + repeat("W"@, self.w as nat) + repeat("U"@, self.u as nat) + repeat(
                "B"@,
                self.b as nat,
            ) + repeat("R"@, self.r as nat) + repeat("G"@, self.g as nat) + repeat(
                "C"@,
                self.c as nat,
            ),
    {
        let mut s = String::new();
        append_repeat(&mut s, "X", self.x);
        if self.n > 0 {
            let d = decimal_string(self.n);
            s.append(d.as_str());
        }
        append_repeat(&mut s, "W", self.w);
        append_repeat(&mut s, "U", self.u);
        append_repeat(&mut s, "B", self.b);
        append_repeat(&mut s, "R", self.r);
        append_repeat(&mut s, "G", self.g);
        append_repeat(&mut s, "C", self.c);
        assert(s@ =~= repeat("X"@, self.x as nat) + (if self.n > 0 {
            decimal(self.n as nat)
        } else {
            Seq::empty()
        }) + repeat("W"@, self.w as nat) + repeat("U"@, self.u as nat) + repeat(
            "B"@,
            self.b as nat,
        ) + repeat("R"@, self.r as nat) + repeat("G"@, self.g as nat) + repeat(
            "C"@,
            self.c as nat,
        ));
        s
    }

    /// The sources column: for each of `W, U, B, R, G, C, N` with an
    /// amount, the amount in two places and the letter, in fields of fixed
    /// width.
    pub fn src(&self) -> (r: String)
        ensures
            r@ == src_field(self.w as nat, "W"@, false) + src_field(self.u as nat, "U"@, true)
                + src_field(self.b as nat, "B"@, true) + src_field(self.r as nat, "R"@, true)
                + src_field(self.g as nat, "G"@, true) + src_field(self.c as nat, "C"@, true)
                + src_field(self.n as nat, "N"@, true),
    {
        let mut s = String::new();
        append_src_field(&mut s, self.w, "W", false);
        append_src_field(&mut s, self.u, "U", true);
        append_src_field(&mut s, self.b, "B", true);
        append_src_field(&mut s, self.r, "R", true);
        append_src_field(&mut s, self.g, "G", true);
        append_src_field(&mut s, self.c, "C", true);
        append_src_field(&mut s, self.n, "N", true);
        assert(s@ =~= src_field(self.w as nat, "W"@, false) + src_field(self.u as nat, "U"@, true)
            + src_field(self.b as nat, "B"@, true) + src_field(self.r as nat, "R"@, true)
            + src_field(self.g as nat, "G"@, true) + src_field(self.c as nat, "C"@, true)
            + src_field(self.n as nat, "N"@, true));
        s
    }
}

/// The cost of a spell of `cmc` with `colored_mana` colored symbols: the
/// generic amount, if any, then one `C` per colored symbol, as in `2CC`.
pub fn pm(colored_mana: u32, cmc: u32) -> (r: String)
    requires
        colored_mana <= cmc,
    ensures
        r@ == (if cmc > colored_mana {
            decimal((cmc - colored_mana) as nat)
        } else {
            Seq::empty()
        }) + repeat("C"@, colored_mana as nat),
{
    let nc = cmc - colored_mana;
    let mut res = if nc > 0 { decimal_string(nc) } else { String::new() };
    append_repeat(&mut res, "C", colored_mana);
    res
}

/// The cost of a spell with `a` symbols of one color, `b` of another and
/// `c` generic: `c` if any, then `a` times `A` and `b` times `B`, as in `1AAB`.
pub fn pm2(a: u32, b: u32, c: u32) -> (r: String)
    ensures
        r@ == (if c > 0 {
            decimal(c as nat)
        } else {
            Seq::empty()
        }) + repeat("A"@, a as nat) + repeat("B"@, b as nat),
{
    let mut res = if c > 0 { decimal_string(c) } else { String::new() };
    append_repeat(&mut res, "A", a);
    append_repeat(&mut res, "B", b);
    res
}

} // verus!
