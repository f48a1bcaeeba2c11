//! Mana: amounts of each color, of colorless, of generic and of X mana.
use vstd::prelude::*;
use crate::colors::Color;

verus! {

#[derive(Debug, PartialEq, Eq, Copy, Clone, Structural)]
pub struct Mana {
    pub w: u32,
    pub u: u32,
    pub b: u32,
    pub r: u32,
    pub g: u32,
    /// colorless
    pub c: u32,
    /// generic
    pub n: u32,
    /// X, a value not yet chosen
    pub x: u32,
}

impl Mana {
    /// The amounts of `m` in the order `w, u, b, r, g, c, n, x`.
    pub open spec fn amounts(self) -> Seq<u32> {
        seq![self.w, self.u, self.b, self.r, self.g, self.c, self.n, self.x]
    }

    pub fn new(w: u32, u: u32, b: u32, r: u32, g: u32, c: u32, n: u32, x: u32) -> (m: Mana)
        ensures
            m == (Mana { w, u, b, r, g, c, n, x }),
    {
        Mana { w, u, b, r, g, c, n, x }
    }

    pub fn zero() -> (m: Mana)
        ensures
            m.amounts() == seq![0u32, 0, 0, 0, 0, 0, 0, 0],
    {
        Mana::new(0, 0, 0, 0, 0, 0, 0, 0)
    }

    pub fn w(n: u32) -> (m: Mana)
        ensures
            m == (Mana { w: n, ..Mana::zero_spec() }),
    {
        Mana::new(n, 0, 0, 0, 0, 0, 0, 0)
    }

    pub fn u(n: u32) -> (m: Mana)
        ensures
            m == (Mana { u: n, ..Mana::zero_spec() }),
    {
        Mana::new(0, n, 0, 0, 0, 0, 0, 0)
    }

    pub fn b(n: u32) -> (m: Mana)
        ensures
            m == (Mana { b: n, ..Mana::zero_spec() }),
    {
        Mana::new(0, 0, n, 0, 0, 0, 0, 0)
    }

    pub fn r(n: u32) -> (m: Mana)
        ensures
            m == (Mana { r: n, ..Mana::zero_spec() }),
    {
        Mana::new(0, 0, 0, n, 0, 0, 0, 0)
    }

    pub fn g(n: u32) -> (m: Mana)
        ensures
            m == (Mana { g: n, ..Mana::zero_spec() }),
    {
        Mana::new(0, 0, 0, 0, n, 0, 0, 0)
    }

    pub fn c(n: u32) -> (m: Mana)
        ensures
            m == (Mana { c: n, ..Mana::zero_spec() }),
    {
        Mana::new(0, 0, 0, 0, 0, n, 0, 0)
    }

    pub fn n(n: u32) -> (m: Mana)
        ensures
            m == (Mana { n: n, ..Mana::zero_spec() }),
    {
        Mana::new(0, 0, 0, 0, 0, 0, n, 0)
    }

    pub fn x(n: u32) -> (m: Mana)
        ensures
            m == (Mana { x: n, ..Mana::zero_spec() }),
    {
        Mana::new(0, 0, 0, 0, 0, 0, 0, n)
    }

    /// The amount-wise sum.
    pub open spec fn add_spec(self, o: Mana) -> Mana {
        Mana {
            w: (self.w + o.w) as u32,
            u: (self.u + o.u) as u32,
            b: (self.b + o.b) as u32,
            r: (self.r + o.r) as u32,
            g: (self.g + o.g) as u32,
            c: (self.c + o.c) as u32,
            n: (self.n + o.n) as u32,
            x: (self.x + o.x) as u32,
        }
    }

    /// No mana at all.
    pub open spec fn zero_spec() -> Mana {
        Mana { w: 0, u: 0, b: 0, r: 0, g: 0, c: 0, n: 0, x: 0 }
    }

    /// `self` with no mana of `color`.
    pub fn reset(&self, color: Color) -> (m: Mana)
        ensures
            m == match color {
                Color::W => Mana { w: 0, ..*self },
                Color::U => Mana { u: 0, ..*self },
                Color::B => Mana { b: 0, ..*self },
                Color::R => Mana { r: 0, ..*self },
                Color::G => Mana { g: 0, ..*self },
                Color::C => Mana { c: 0, ..*self },
            },
    {
        match color {
            Color::W => Mana::new(0, self.u, self.b, self.r, self.g, self.c, self.n, self.x),
            Color::U => Mana::new(self.w, 0, self.b, self.r, self.g, self.c, self.n, self.x),
            Color::B => Mana::new(self.w, self.u, 0, self.r, self.g, self.c, self.n, self.x),
            Color::R => Mana::new(self.w, self.u, self.b, 0, self.g, self.c, self.n, self.x),
            Color::G => Mana::new(self.w, self.u, self.b, self.r, 0, self.c, self.n, self.x),
            Color::C => Mana::new(self.w, self.u, self.b, self.r, self.g, 0, self.n, self.x),
        }
    }

    /// The amounts in the order `w, u, b, r, g, c, n, x`.
    pub fn as_vec(&self) -> (v: Vec<u32>)
        ensures
            v@ == self.amounts(),
    {
        let v = vec![self.w, self.u, self.b, self.r, self.g, self.c, self.n, self.x];
        assert(v@ =~= self.amounts());
        v
    }

    /// The converted mana cost: everything but X.
    pub fn cmc(&self) -> (r: u32)
        requires
            self.w + self.u + self.b + self.r + self.g + self.c + self.n <= u32::MAX,
        ensures
            r == self.w + self.u + self.b + self.r + self.g + self.c + self.n,
    {
        self.w + self.u + self.b + self.r + self.g + self.c + self.n
    }

    /// The amount-wise sum.
    pub fn add(self, o: Mana) -> (m: Mana)
        requires
            self.w + o.w <= u32::MAX,
            self.u + o.u <= u32::MAX,
            self.b + o.b <= u32::MAX,
            self.r + o.r <= u32::MAX,
            self.g + o.g <= u32::MAX,
            self.c + o.c <= u32::MAX,
            self.n + o.n <= u32::MAX,
            self.x + o.x <= u32::MAX,
        ensures
            m == self.add_spec(o),
            forall|i: int| 0 <= i < 8 ==> #[trigger] m.amounts()[i] == self.amounts()[i] + o.amounts()[i],
    {
        Mana::new(
            self.w + o.w,
            self.u + o.u,
            self.b + o.b,
            self.r + o.r,
            self.g + o.g,
            self.c + o.c,
            self.n + o.n,
            self.x + o.x,
        )
    }

    /// The amount-wise difference of the colors, colorless and generic
    /// mana; the X amounts add up.
    pub fn sub(self, o: Mana) -> (m: Mana)
        requires
            self.w >= o.w,
            self.u >= o.u,
            self.b >= o.b,
            self.r >= o.r,
            self.g >= o.g,
            self.c >= o.c,
            self.n >= o.n,
            self.x + o.x <= u32::MAX,
        ensures
            forall|i: int| 0 <= i < 7 ==> #[trigger] m.amounts()[i] == self.amounts()[i] - o.amounts()[i],
            m.x == self.x + o.x,
    {
        Mana::new(
            self.w - o.w,
            self.u - o.u,
            self.b - o.b,
            self.r - o.r,
            self.g - o.g,
            self.c - o.c,
            self.n - o.n,
            self.x + o.x,
        )
    }

    /// Every amount times `k`.
    pub fn mul(self, k: u32) -> (m: Mana)
        requires
            forall|i: int| 0 <= i < 8 ==> #[trigger] self.amounts()[i] * k <= u32::MAX,
        ensures
            forall|i: int| 0 <= i < 8 ==> #[trigger] m.amounts()[i] == self.amounts()[i] * k,
    {
        assert(self.amounts()[0] * k <= u32::MAX);
        assert(self.amounts()[1] * k <= u32::MAX);
        assert(self.amounts()[2] * k <= u32::MAX);
        assert(self.amounts()[3] * k <= u32::MAX);
        assert(self.amounts()[4] * k <= u32::MAX);
        assert(self.amounts()[5] * k <= u32::MAX);
        assert(self.amounts()[6] * k <= u32::MAX);
        assert(self.amounts()[7] * k <= u32::MAX);
        Mana::new(
            self.w * k,
            self.u * k,
            self.b * k,
            self.r * k,
            self.g * k,
            self.c * k,
            self.n * k,
            self.x * k,
        )
    }
}

/// The mana in `la` lands of one color, `lb` of another, `lab` of both and
/// `lx` of neither pays for `a` symbols of the first color, `b` of the
/// second and `x` generic: each color's own lands pay for it first, the
/// lands of both pay for what is left of the two colors, and any land still
/// untapped pays for the generic mana.
pub open spec fn can_pay(la: nat, lb: nat, lab: nat, lx: nat, a: nat, b: nat, x: nat) -> bool {
    let ra = if a > la { a - la } else { 0 };
    let rb = if b > lb { b - lb } else { 0 };
    let fa = if la > a { la - a } else { 0 };
    let fb = if lb > b { lb - b } else { 0 };
    ra + rb <= lab && x <= lx + fa + fb + (lab - (ra + rb))
}

/// Whether the lands pay for the spell, as `can_pay` says.
pub fn can_cast(la: usize, lb: usize, lab: usize, lx: usize, a: usize, b: usize, x: usize) -> (r:
    bool)
    requires
        la + lb + lab + lx <= usize::MAX,
        a + b <= usize::MAX,
    ensures
        r == can_pay(la as nat, lb as nat, lab as nat, lx as nat, a as nat, b as nat, x as nat),
{
    // tap for A
    let ta = if la < a { la } else { a };
    let (la, a) = (la - ta, a - ta);
    // tap for B
    let tb = if lb < b { lb } else { b };
    let (lb, b) = (lb - tb, b - tb);
    // tap for A or B
    let ab = a + b;
    let tab = if lab < ab { lab } else { ab };
    let (lab, ab) = (lab - tab, ab - tab);
    if ab > 0 {
        false
    } else {
        // tap for X
        x <= lx + la + lb + lab
    }
}

} // verus!
