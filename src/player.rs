use vstd::prelude::*;
use crate::card::Card;

verus! {

/// A seat at the table: a name, a bankroll and the hole cards dealt.
pub struct Player {
    pub name: String,
    pub money: u32,
    pub hole_cards: Vec<Card>,
}

impl Player {
    /// A player is out of the game once the bankroll is empty.
    pub fn is_busted(&self) -> (r: bool)
        ensures
            r == (self.money == 0),
    {
        self.money == 0
    }
}

} // verus!
