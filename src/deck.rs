use vstd::prelude::*;
use crate::card::{Card, CardRank, CardSuit};

verus! {

/// The suit of the `i`-th block of thirteen cards in a fresh deck.
pub open spec fn suit_at(i: int) -> CardSuit {
    if i == 0 {
        CardSuit::Hearts
    } else if i == 1 {
        CardSuit::Spades
    } else if i == 2 {
        CardSuit::Clubs
    } else {
        CardSuit::Diamonds
    }
}

/// A fresh deck: for each suit in turn (Hearts, Spades, Clubs, Diamonds),
/// the thirteen ranks from Two to Ace.
pub open spec fn full_deck() -> Seq<Card> {
    Seq::new(52, |i: int| Card { suit: suit_at(i / 13), rank: rank_with_ord(i % 13) })
}

/// The rank whose ordinal is `i`.
pub open spec fn rank_with_ord(i: int) -> CardRank {
    choose|r: CardRank| r.ord() == i
}

fn suit_of(i: usize) -> (s: CardSuit)
    requires
        i < 4,
    ensures
        s == suit_at(i as int),
{
    if i == 0 {
        CardSuit::Hearts
    } else if i == 1 {
        CardSuit::Spades
    } else if i == 2 {
        CardSuit::Clubs
    } else {
        CardSuit::Diamonds
    }
}

/// A stack of cards; cards are drawn from the top, the end of the sequence.
pub struct Deck {
    cards: Vec<Card>,
}

impl View for Deck {
    type V = Seq<Card>;

    closed spec fn view(&self) -> Seq<Card> {
        self.cards@
    }
}

impl Deck {
    /// An empty deck.
    pub fn new() -> (d: Deck)
        ensures
            d@ == Seq::<Card>::empty(),
    {
        Deck { cards: Vec::new() }
    }

    /// Refills the deck with the 52 cards of a fresh deck, in order.
    pub fn reset(&mut self)
        ensures
            final(self)@ == full_deck(),
    {
        self.cards.clear();
        let mut s: usize = 0;
        while s < 4
            invariant
                s <= 4,
                self.cards@ == full_deck().take(s * 13),
            decreases 4 - s,
        {
            let mut r: usize = 0;
            while r < 13
                invariant
                    s < 4,
                    r <= 13,
                    self.cards@ == full_deck().take(s * 13 + r),
                decreases 13 - r,
            {
                let rank = CardRank::from_value(r as u8);
                let suit = suit_of(s);
                self.cards.push(Card { suit, rank });
                proof {
                    let i = s * 13 + r;
                    assert(i / 13 == s as int && i % 13 == r as int) by (nonlinear_arith)
                        requires
                            i == s * 13 + r,
                            r < 13,
                    ;
                    crate::card::lemma_ord_injective(rank, rank_with_ord(r as int));
                    assert(full_deck()[i] == Card { suit, rank });
                    assert(self.cards@ =~= full_deck().take(i + 1));
                }
                r += 1;
            }
            s += 1;
        }
        assert(full_deck().take(52) =~= full_deck());
    }

    /// Would put the deck in a random order; this deck keeps its order.
    pub fn shuffle(&mut self)
        ensures
            final(self)@ == old(self)@,
    {
    }

    /// Takes the top card, or `None` when the deck is empty.
    pub fn draw(&mut self) -> (r: Option<Card>)
        ensures
            old(self)@.len() == 0 ==> r is None && final(self)@ == old(self)@,
            old(self)@.len() > 0 ==> r == Some(old(self)@.last()) && final(self)@ == old(self)@.drop_last(),
    {
        self.cards.pop()
    }

    /// How many cards are left.
    pub fn len(&self) -> (n: usize)
        ensures
            n == self@.len(),
    {
        self.cards.len()
    }
}

} // verus!
