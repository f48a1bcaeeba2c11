//! Exact combinatorics for the opening hands and draws of a card deck, under
//! a mulligan rule that redraws hands whose land count is out of range.
//!
//! - `prob`: integer power and binomial coefficients, with their identities.
//! - `pile`, `colored`, `dual`, `gen_pile`: piles, vectors of card counts
//!   per category, of three, five or any number of categories, with their
//!   arithmetic and the enumeration of all the piles of a given total.
//! - `counting`: sums over all the compositions of a number, and the number
//!   of ways of drawing a composition out of a deck.
//! - `perm`: the sub-multisets of a given size of a multiset.
//! - `turn`: the mulligan process, as exact counts of hands, kept hands,
//!   draws and (hand, draw) pairs that reach a goal; every probability of
//!   the process is a ratio of these counts.
//! - `colors`, `mana`, `mana_cost`, `mana_text`, `land`, `mtgjson`,
//!   `interval`, `text`: mana, colors, land cards and the other values the
//!   tables are made of.
use vstd::prelude::*;

pub mod prob;
pub mod pile;
pub mod colored;
pub mod dual;
pub mod gen_pile;
pub mod perm;
pub mod colors;
pub mod mana;
pub mod interval;
pub mod text;
pub mod mtgjson;
pub mod land;
pub mod mana_cost;
pub mod mana_text;
pub mod counting;
pub mod turn;

verus! {

} // verus!
