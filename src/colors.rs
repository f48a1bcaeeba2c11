//! The colors of mana and the usual color pairs and triples.
use vstd::prelude::*;
use crate::mana::Mana;
use crate::text::str_eq;

verus! {

#[derive(Copy, Clone, Debug, PartialEq, Eq, PartialOrd, Ord, Structural)]
pub enum Color {
    W,
    U,
    B,
    R,
    G,
    C,
}

/// One mana of the color `c`.
pub open spec fn one(c: Color) -> Mana {
    let z = Mana::zero_spec();
    match c {
        Color::W => Mana { w: 1, ..z },
        Color::U => Mana { u: 1, ..z },
        Color::B => Mana { b: 1, ..z },
        Color::R => Mana { r: 1, ..z },
        Color::G => Mana { g: 1, ..z },
        Color::C => Mana { c: 1, ..z },
    }
}

/// One mana of each color of `cs`.
pub open spec fn sources(cs: Seq<Color>) -> Mana
    decreases cs.len(),
{
    if cs.len() == 0 {
        Mana::zero_spec()
    } else {
        sources(cs.drop_last()).add_spec(one(cs.last()))
    }
}

/// The color that the card database names `s`, if any.
pub open spec fn color_named(s: Seq<char>) -> Option<Color> {
    if s == "White"@ {
        Some(Color::W)
    } else if s == "Blue"@ {
        Some(Color::U)
    } else if s == "Black"@ {
        Some(Color::B)
    } else if s == "Red"@ {
        Some(Color::R)
    } else if s == "Green"@ {
        Some(Color::G)
    } else if s == "Colorless"@ {
        Some(Color::C)
    } else {
        None
    }
}

impl Color {
    /// The color named `c`, one of `White`, `Blue`, `Black`, `Red`, `Green`
    /// and `Colorless`.
    pub fn parse(c: &str) -> (r: Color)
        requires
            color_named(c@).is_some(),
        ensures
            color_named(c@) == Some(r),
    {
        if str_eq(c, "White") {
            Color::W
        } else if str_eq(c, "Blue") {
            Color::U
        } else if str_eq(c, "Black") {
            Color::B
        } else if str_eq(c, "Red") {
            Color::R
        } else if str_eq(c, "Green") {
            Color::G
        } else {
            Color::C
        }
    }

    /// One mana of this color.
    pub fn source(&self) -> (m: Mana)
        ensures
            m == one(*self),
    {
        match *self {
            Color::W => Mana::w(1),
            Color::U => Mana::u(1),
            Color::B => Mana::b(1),
            Color::R => Mana::r(1),
            Color::G => Mana::g(1),
            Color::C => Mana::c(1),
        }
    }
}

proof fn lemma_sources_2(a: Color, b: Color)
    ensures
        sources(seq![a, b]) == one(a).add_spec(one(b)),
{
    assert(seq![a, b].drop_last() =~= seq![a]);
    assert(seq![a].drop_last() =~= Seq::<Color>::empty());
    assert(sources(Seq::<Color>::empty()) == Mana::zero_spec());
    assert(sources(seq![a]) == sources(Seq::<Color>::empty()).add_spec(one(a)));
    assert(Mana::zero_spec().add_spec(one(a)) == one(a));
    assert(sources(seq![a, b]) == sources(seq![a]).add_spec(one(b)));
}

proof fn lemma_sources_3(a: Color, b: Color, c: Color)
    ensures
        sources(seq![a, b, c]) == one(a).add_spec(one(b)).add_spec(one(c)),
{
    assert(seq![a, b, c].drop_last() =~= seq![a, b]);
    lemma_sources_2(a, b);
}

/// Two colors that sit next to each other on the color wheel.
#[derive(Copy, Clone, Debug, PartialEq, Eq, PartialOrd, Ord, Structural)]
pub enum Allied {
    WU,
    UB,
    BR,
    RG,
    GW,
}

/// The two colors of an allied pair.
pub open spec fn allied_colors(a: Allied) -> Seq<Color> {
    match a {
        Allied::WU => seq![Color::W, Color::U],
        Allied::UB => seq![Color::U, Color::B],
        Allied::BR => seq![Color::B, Color::R],
        Allied::RG => seq![Color::R, Color::G],
        Allied::GW => seq![Color::G, Color::W],
    }
}

impl Allied {
    /// One mana of each of the two colors.
    pub fn source(&self) -> (m: Mana)
        ensures
            m == sources(allied_colors(*self)),
    {
        let (x, y) = match *self {
            Allied::WU => (Color::W, Color::U),
            Allied::UB => (Color::U, Color::B),
            Allied::BR => (Color::B, Color::R),
            Allied::RG => (Color::R, Color::G),
            Allied::GW => (Color::G, Color::W),
        };
        proof {
            lemma_sources_2(x, y);
            assert(allied_colors(*self) == seq![x, y]);
        }
        x.source().add(y.source())
    }
}

/// Two colors that sit across from each other on the color wheel.
#[derive(Copy, Clone, Debug, PartialEq, Eq, PartialOrd, Ord, Structural)]
pub enum Enemy {
    WB,
    UR,
    BG,
    RW,
    GU,
}

/// The two colors of an enemy pair.
pub open spec fn enemy_colors(e: Enemy) -> Seq<Color> {
    match e {
        Enemy::WB => seq![Color::W, Color::B],
        Enemy::UR => seq![Color::U, Color::R],
        Enemy::BG => seq![Color::B, Color::G],
        Enemy::RW => seq![Color::R, Color::W],
        Enemy::GU => seq![Color::G, Color::U],
    }
}

impl Enemy {
    /// One mana of each of the two colors.
    pub fn source(&self) -> (m: Mana)
        ensures
            m == sources(enemy_colors(*self)),
    {
        let (x, y) = match *self {
            Enemy::WB => (Color::W, Color::B),
            Enemy::UR => (Color::U, Color::R),
            Enemy::BG => (Color::B, Color::G),
            Enemy::RW => (Color::R, Color::W),
            Enemy::GU => (Color::G, Color::U),
        };
        proof {
            lemma_sources_2(x, y);
            assert(enemy_colors(*self) == seq![x, y]);
        }
        x.source().add(y.source())
    }
}

/// A pair of colors.
#[derive(Copy, Clone, Debug, PartialEq, Eq, PartialOrd, Ord, Structural)]
pub enum Dual {
    A(Allied),
    E(Enemy),
}

impl Dual {
    /// One mana of each of the two colors.
    pub fn source(&self) -> (m: Mana)
        ensures
            m == match *self {
                Dual::A(a) => sources(allied_colors(a)),
                Dual::E(e) => sources(enemy_colors(e)),
            },
    {
        match *self {
            Dual::A(a) => a.source(),
            Dual::E(e) => e.source(),
        }
    }
}

/// A color with its two allies.
#[derive(Copy, Clone, Debug, PartialEq, Eq, PartialOrd, Ord, Structural)]
pub enum Shard {
    WUR,
    UBG,
    BRW,
    RGU,
    GWB,
}

/// The three colors of a shard.
pub open spec fn shard_colors(s: Shard) -> Seq<Color> {
    match s {
        Shard::WUR => seq![Color::W, Color::U, Color::R],
        Shard::UBG => seq![Color::U, Color::B, Color::G],
        Shard::BRW => seq![Color::B, Color::R, Color::W],
        Shard::RGU => seq![Color::R, Color::G, Color::U],
        Shard::GWB => seq![Color::G, Color::W, Color::B],
    }
}

impl Shard {
    /// One mana of each of the three colors.
    pub fn source(&self) -> (m: Mana)
        ensures
            m == sources(shard_colors(*self)),
    {
        let (x, y, z) = match *self {
            Shard::WUR => (Color::W, Color::U, Color::R),
            Shard::UBG => (Color::U, Color::B, Color::G),
            Shard::BRW => (Color::B, Color::R, Color::W),
            Shard::RGU => (Color::R, Color::G, Color::U),
            Shard::GWB => (Color::G, Color::W, Color::B),
        };
        proof {
            lemma_sources_3(x, y, z);
            lemma_sources_2(x, y);
            assert(shard_colors(*self) == seq![x, y, z]);
        }
        x.source().add(y.source()).add(z.source())
    }
}

/// A color with its two enemies.
#[derive(Copy, Clone, Debug, PartialEq, Eq, PartialOrd, Ord, Structural)]
pub enum Wedge {
    WBR,
    URG,
    BGW,
    RWU,
    GUB,
}

/// The three colors of a wedge.
pub open spec fn wedge_colors(s: Wedge) -> Seq<Color> {
    match s {
        Wedge::WBR => seq![Color::W, Color::B, Color::R],
        Wedge::URG => seq![Color::U, Color::R, Color::G],
        Wedge::BGW => seq![Color::B, Color::G, Color::W],
        Wedge::RWU => seq![Color::R, Color::W, Color::U],
        Wedge::GUB => seq![Color::G, Color::U, Color::B],
    }
}

impl Wedge {
    /// One mana of each of the three colors.
    pub fn source(&self) -> (m: Mana)
        ensures
            m == sources(wedge_colors(*self)),
    {
        let (x, y, z) = match *self {
            Wedge::WBR => (Color::W, Color::B, Color::R),
            Wedge::URG => (Color::U, Color::R, Color::G),
            Wedge::BGW => (Color::B, Color::G, Color::W),
            Wedge::RWU => (Color::R, Color::W, Color::U),
            Wedge::GUB => (Color::G, Color::U, Color::B),
        };
        proof {
            lemma_sources_3(x, y, z);
            lemma_sources_2(x, y);
            assert(wedge_colors(*self) == seq![x, y, z]);
        }
        x.source().add(y.source()).add(z.source())
    }
}

} // verus!
