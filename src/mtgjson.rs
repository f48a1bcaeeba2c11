//! Card rarities, as the card database names them.
use vstd::prelude::*;
use vstd::string::StringExecFns;
use crate::text::str_eq;
use crate::mana::Mana;
use crate::colors::Color;

verus! {

/// An error of reading the card database.
#[derive(Debug, PartialEq, Eq)]
pub enum MtgError {
    /// A value the database should not hold.
    General(String),
}

#[derive(Debug, PartialEq, Eq, PartialOrd, Ord, Copy, Clone, Structural)]
pub enum Rarity {
    Mythic,
    Rare,
    Uncommon,
    Common,
    BasicLand,
    Special,
}

/// The rarity that the database names `s`, if any.
pub open spec fn rarity_named(s: Seq<char>) -> Option<Rarity> {
    if s == "Mythic Rare"@ {
        Some(Rarity::Mythic)
    } else if s == "Rare"@ {
        Some(Rarity::Rare)
    } else if s == "Uncommon"@ {
        Some(Rarity::Uncommon)
    } else if s == "Common"@ {
        Some(Rarity::Common)
    } else if s == "Special"@ {
        Some(Rarity::Special)
    } else if s == "Basic Land"@ {
        Some(Rarity::BasicLand)
    } else {
        None
    }
}

impl Rarity {
    /// The rarity named `s`; an error holding `s` for any other name.
    pub fn parse(s: &str) -> (r: Result<Rarity, MtgError>)
        ensures
            rarity_named(s@) matches Some(x) ==> r == Ok::<Rarity, MtgError>(x),
            rarity_named(s@).is_none() ==> (r matches Err(MtgError::General(t)) && t@ == s@),
    {
        if str_eq(s, "Mythic Rare") {
            Ok(Rarity::Mythic)
        } else if str_eq(s, "Rare") {
            Ok(Rarity::Rare)
        } else if str_eq(s, "Uncommon") {
            Ok(Rarity::Uncommon)
        } else if str_eq(s, "Common") {
            Ok(Rarity::Common)
        } else if str_eq(s, "Special") {
            Ok(Rarity::Special)
        } else if str_eq(s, "Basic Land") {
            Ok(Rarity::BasicLand)
        } else {
            Err(MtgError::General(String::from_str(s)))
        }
    }

    /// The one-letter code of the rarity.
    pub fn short(self) -> (r: &'static str)
        ensures
            r@ == match self {
                Rarity::Mythic => "M"@,
                Rarity::Rare => "R"@,
                Rarity::Uncommon => "U"@,
                Rarity::Common => "C"@,
                Rarity::Special => "S"@,
                Rarity::BasicLand => "L"@,
            },
    {
        match self {
            Rarity::Mythic => "M",
            Rarity::Rare => "R",
            Rarity::Uncommon => "U",
            Rarity::Common => "C",
            Rarity::Special => "S",
            Rarity::BasicLand => "L",
        }
    }
}

/// A card of the database.
#[derive(Debug, PartialEq, Eq, Clone)]
pub struct Card {
    pub card_name: String,
    pub mana_cost: Mana,
    pub colors: Vec<Color>,
    pub card_type: String,
    pub super_types: Vec<String>,
    pub card_types: Vec<String>,
    pub sub_types: Vec<String>,
    pub power: String,
    pub toughness: String,
    pub card_text: String,
    pub image_name: String,
    pub expansion: String,
    pub rarity: Rarity,
}

} // verus!
