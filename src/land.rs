//! Land cards: their kinds, and the mana a deck's lands can make.
use vstd::prelude::*;
use crate::colors::{Color, one, sources};
use crate::mana::Mana;
use crate::text::str_eq;

verus! {

#[derive(Copy, Clone, Debug, PartialEq, Eq, PartialOrd, Ord, Structural)]
pub enum LandType {
    BasicLand,
    AlphaLand,
    TappedLand,
    UntappedLand,
    ShockLand,
    FastLand,
    Gates,
    ScryLand,
    RefuLand,
    FetchLand,
    TappedFetchLand,
    PainLand,
    WedgeLand,
    CheckLand,
    ManLand,
    StorageLand,
    FilterLand,
    LifeLand,
}

/// A land card of the database.
#[derive(Debug)]
pub struct LandCardInfo {
    pub name: String,
    pub short: String,
    pub cardtype: String,
    pub subtypes: Vec<String>,
    pub landtype: LandType,
    pub produces: Vec<Color>,
}

/// The land type of the basic land of a color.
pub open spec fn basic_name(c: Color) -> Seq<char> {
    match c {
        Color::W => "Plains"@,
        Color::U => "Island"@,
        Color::B => "Swamp"@,
        Color::R => "Mountain"@,
        Color::G => "Forest"@,
        Color::C => "Invalid"@,
    }
}

/// The land comes into play untapped.
pub open spec fn untapped_type(t: LandType) -> bool {
    match t {
        LandType::AlphaLand => true,
        LandType::BasicLand => true,
        LandType::ShockLand => true,
        LandType::Gates => false,
        LandType::ScryLand => false,
        LandType::RefuLand => false,
        LandType::FetchLand => true,
        LandType::FastLand => true,
        LandType::CheckLand => true,
        LandType::PainLand => true,
        LandType::WedgeLand => false,
        LandType::TappedLand => false,
        LandType::TappedFetchLand => false,
        LandType::UntappedLand => true,
        LandType::StorageLand => true,
        LandType::ManLand => false,
        LandType::FilterLand => true,
        LandType::LifeLand => false,
    }
}

/// `tgt` has the basic land type of one of the colors that `src` produces.
pub open spec fn has_basic_type_of(tgt: LandCardInfo, src: LandCardInfo) -> bool {
    exists|i: int, j: int|
        0 <= i < tgt.subtypes.len() && 0 <= j < src.produces.len() && #[trigger] tgt.subtypes[i]@
            == basic_name(#[trigger] src.produces[j])
}

/// The fetch land `src` can fetch the `n` copies of `tgt` for `color`.
pub open spec fn fetches(src: LandCardInfo, tgt: LandCardInfo, n: u32, color: Color) -> bool {
    &&& n > 0
    &&& tgt.produces@.contains(color)
    &&& has_basic_type_of(tgt, src)
}

/// Some land of the deck can be fetched by `src` for `color`.
pub open spec fn fetches_in(src: LandCardInfo, deck: Seq<(&LandCardInfo, u32)>, color: Color) -> bool {
    exists|k: int| 0 <= k < deck.len() && #[trigger] fetches(src, *deck[k].0, deck[k].1, color)
}

/// The colors of `cs`, in order, that `src` can fetch in the deck.
pub open spec fn fetched(src: LandCardInfo, deck: Seq<(&LandCardInfo, u32)>, cs: Seq<Color>) -> Seq<
    Color,
>
    decreases cs.len(),
{
    if cs.len() == 0 {
        Seq::empty()
    } else {
        let rest = fetched(src, deck, cs.drop_last());
        if fetches_in(src, deck, cs.last()) {
            rest.push(cs.last())
        } else {
            rest
        }
    }
}

/// The basic land type of a color.
fn basic(c: Color) -> (r: &'static str)
    ensures
        r@ == basic_name(c),
{
    match c {
        Color::W => "Plains",
        Color::U => "Island",
        Color::B => "Swamp",
        Color::R => "Mountain",
        Color::G => "Forest",
        Color::C => "Invalid",
    }
}

/// `cs` holds `c`.
fn holds_color(cs: &Vec<Color>, c: Color) -> (r: bool)
    ensures
        r == cs@.contains(c),
{
    let mut i: usize = 0;
    while i < cs.len()
        invariant
            i <= cs.len(),
            forall|j: int| 0 <= j < i ==> cs@[j] != c,
        decreases cs.len() - i,
    {
        if cs[i] == c {
            assert(cs@[i as int] == c);
            return true;
        }
        i = i + 1;
    }
    false
}

proof fn lemma_sources_push(cs: Seq<Color>, c: Color)
    ensures
        sources(cs.push(c)) == sources(cs).add_spec(one(c)),
{
    assert(cs.push(c).drop_last() =~= cs);
}

proof fn lemma_sources_bound(cs: Seq<Color>)
    ensures
        sources(cs).amounts().len() == 8,
        forall|i: int| 0 <= i < 8 ==> #[trigger] sources(cs).amounts()[i] <= cs.len(),
    decreases cs.len(),
{
    if cs.len() > 0 {
        lemma_sources_bound(cs.drop_last());
    }
}

impl LandCardInfo {
    pub fn show(&self) -> (r: String)
        ensures
            r@ == self.name@,
    {
        self.name.clone()
    }

    /// The land comes into play untapped.
    pub fn untapped(&self) -> (r: bool)
        ensures
            r == untapped_type(self.landtype),
    {
        match self.landtype {
            LandType::AlphaLand => true,
            LandType::BasicLand => true,
            LandType::ShockLand => true,
            LandType::Gates => false,
            LandType::ScryLand => false,
            LandType::RefuLand => false,
            LandType::FetchLand => true,
            LandType::FastLand => true,
            LandType::CheckLand => true,
            LandType::PainLand => true,
            LandType::WedgeLand => false,
            LandType::TappedLand => false,
            LandType::TappedFetchLand => false,
            LandType::UntappedLand => true,
            LandType::StorageLand => true,
            LandType::ManLand => false,
            LandType::FilterLand => true,
            LandType::LifeLand => false,
        }
    }

    /// `tgt` has the basic land type of one of the colors this land
    /// produces.
    fn basic_type_of(&self, tgt: &LandCardInfo) -> (r: bool)
        ensures
            r == has_basic_type_of(*tgt, *self),
    {
        let mut i: usize = 0;
        while i < tgt.subtypes.len()
            invariant
                i <= tgt.subtypes.len(),
                forall|a: int, b: int|
                    0 <= a < i && 0 <= b < self.produces.len() ==> #[trigger] tgt.subtypes[a]@
                        != basic_name(#[trigger] self.produces[b]),
            decreases tgt.subtypes.len() - i,
        {
            let mut j: usize = 0;
            while j < self.produces.len()
                invariant
                    i < tgt.subtypes.len(),
                    j <= self.produces.len(),
                    forall|a: int, b: int|
                        0 <= a < i && 0 <= b < self.produces.len() ==> #[trigger] tgt.subtypes[a]@
                            != basic_name(#[trigger] self.produces[b]),
                    forall|b: int|
                        0 <= b < j ==> tgt.subtypes[i as int]@ != basic_name(#[trigger] self.produces[b]),
                decreases self.produces.len() - j,
            {
                if str_eq(tgt.subtypes[i].as_str(), basic(self.produces[j])) {
                    return true;
                }
                j = j + 1;
            }
            i = i + 1;
        }
        false
    }

    /// Some land of the deck can be fetched by this one for `color`.
    fn fetches_color(&self, deck: &Vec<(&LandCardInfo, u32)>, color: Color) -> (r: bool)
        ensures
            r == fetches_in(*self, deck@, color),
    {
        let mut k: usize = 0;
        while k < deck.len()
            invariant
                k <= deck.len(),
                forall|t: int| 0 <= t < k ==> !#[trigger] fetches(*self, *deck@[t].0, deck@[t].1, color),
            decreases deck.len() - k,
        {
            let (tgt, n) = deck[k];
            if n > 0 && holds_color(&tgt.produces, color) && self.basic_type_of(tgt) {
                assert(fetches(*self, *deck@[k as int].0, deck@[k as int].1, color));
                return true;
            }
            k = k + 1;
        }
        false
    }

    /// The mana this land makes in `deck`. A fetch land makes each color
    /// of `U, W, B, R, G` that it can fetch a land of the deck for; another
    /// land makes one mana of each color it produces.
    pub fn source(&self, deck: &Vec<(&LandCardInfo, u32)>) -> (m: Mana)
        requires
            self.produces.len() <= u32::MAX,
        ensures
            m == if self.landtype == LandType::FetchLand || self.landtype
                == LandType::TappedFetchLand {
                sources(
                    fetched(*self, deck@, seq![Color::U, Color::W, Color::B, Color::R, Color::G]),
                )
            } else {
                sources(self.produces@)
            },
    {
        if self.landtype == LandType::FetchLand || self.landtype == LandType::TappedFetchLand {
            let colors = vec![Color::U, Color::W, Color::B, Color::R, Color::G];
            let ghost cs = seq![Color::U, Color::W, Color::B, Color::R, Color::G];
            assert(colors@ == cs);
            let mut acc = Mana::zero();
            let mut i: usize = 0;
            assert(cs.subrange(0, 0) =~= Seq::<Color>::empty());
            while i < colors.len()
                invariant
                    colors@ == cs,
                    cs == seq![Color::U, Color::W, Color::B, Color::R, Color::G],
                    i <= colors.len(),
                    acc == sources(fetched(*self, deck@, cs.subrange(0, i as int))),
                    fetched(*self, deck@, cs.subrange(0, i as int)).len() <= i,
                decreases colors.len() - i,
            {
                let ghost pre = cs.subrange(0, i as int);
                proof {
                    assert(cs.subrange(0, i as int + 1).drop_last() =~= pre);
                    lemma_sources_bound(fetched(*self, deck@, pre));
                    let sm = sources(fetched(*self, deck@, pre));
                    assert(sm.amounts()[0] <= 4 && sm.amounts()[1] <= 4 && sm.amounts()[2] <= 4
                        && sm.amounts()[3] <= 4 && sm.amounts()[4] <= 4 && sm.amounts()[5] <= 4
                        && sm.amounts()[6] <= 4 && sm.amounts()[7] <= 4);
                }
                let c = colors[i];
                if self.fetches_color(deck, c) {
                    let s = c.source();
                    proof {
                        lemma_sources_push(fetched(*self, deck@, pre), c);
                    }
                    acc = acc.add(s);
                }
                i = i + 1;
            }
            assert(cs.subrange(0, 5) =~= cs);
            acc
        } else {
            let mut acc = Mana::zero();
            let mut i: usize = 0;
            assert(self.produces@.subrange(0, 0) =~= Seq::<Color>::empty());
            while i < self.produces.len()
                invariant
                    i <= self.produces.len(),
                    self.produces.len() <= u32::MAX,
                    acc == sources(self.produces@.subrange(0, i as int)),
                decreases self.produces.len() - i,
            {
                let ghost pre = self.produces@.subrange(0, i as int);
                proof {
                    assert(self.produces@.subrange(0, i as int + 1) =~= pre.push(self.produces@[i as int]));
                    lemma_sources_bound(pre);
                    lemma_sources_push(pre, self.produces@[i as int]);
                }
                let s = self.produces[i].source();
                acc = acc.add(s);
                i = i + 1;
            }
            assert(self.produces@.subrange(0, i as int) =~= self.produces@);
            acc
        }
    }
}

} // verus!
