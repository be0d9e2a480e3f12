use vstd::prelude::*;
use vstd::string::*;

verus! {

/// The four suits. Suits carry no strength; they only matter for flushes.
#[derive(Clone, Copy, Debug, PartialEq, Eq, Structural)]
pub enum CardSuit {
    Spades,
    Hearts,
    Clubs,
    Diamonds,
}

/// The thirteen ranks, from Two (lowest) to Ace (highest).
#[derive(Clone, Copy, Debug, PartialEq, Eq, Structural)]
pub enum CardRank {
    Two,
    Three,
    Four,
    Five,
    Six,
    Seven,
    Eight,
    Nine,
    Ten,
    Jack,
    Queen,
    King,
    Ace,
}

impl CardRank {
    /// The rank's ordinal: Two is 0, Ace is 12.
    pub open spec fn ord(self) -> int {
        match self {
            CardRank::Two => 0,
            CardRank::Three => 1,
            CardRank::Four => 2,
            CardRank::Five => 3,
            CardRank::Six => 4,
            CardRank::Seven => 5,
            CardRank::Eight => 6,
            CardRank::Nine => 7,
            CardRank::Ten => 8,
            CardRank::Jack => 9,
            CardRank::Queen => 10,
            CardRank::King => 11,
            CardRank::Ace => 12,
        }
    }

    /// The ordinal of the rank, for arithmetic on runs.
    pub fn value(&self) -> (r: u8)
        ensures
            r as int == self.ord(),
    {
        match self {
            CardRank::Two => 0,
            CardRank::Three => 1,
            CardRank::Four => 2,
            CardRank::Five => 3,
            CardRank::Six => 4,
            CardRank::Seven => 5,
            CardRank::Eight => 6,
            CardRank::Nine => 7,
            CardRank::Ten => 8,
            CardRank::Jack => 9,
            CardRank::Queen => 10,
            CardRank::King => 11,
            CardRank::Ace => 12,
        }
    }
}

impl CardRank {
    /// The rank whose ordinal is `v`.
    pub fn from_value(v: u8) -> (r: CardRank)
        requires
            v < 13,
        ensures
            r.ord() == v as int,
    {
        match v {
            0 => CardRank::Two,
            1 => CardRank::Three,
            2 => CardRank::Four,
            3 => CardRank::Five,
            4 => CardRank::Six,
            5 => CardRank::Seven,
            6 => CardRank::Eight,
            7 => CardRank::Nine,
            8 => CardRank::Ten,
            9 => CardRank::Jack,
            10 => CardRank::Queen,
            11 => CardRank::King,
            _ => CardRank::Ace,
        }
    }
}

/// The symbol printed for a suit.
pub open spec fn suit_symbol(s: CardSuit) -> char {
    match s {
        CardSuit::Spades => '\u{2660}',
        CardSuit::Hearts => '\u{2665}',
        CardSuit::Clubs => '\u{2663}',
        CardSuit::Diamonds => '\u{2666}',
    }
}

impl CardSuit {
    /// The suit's symbol: spade, heart, club or diamond.
    pub fn symbol(&self) -> (r: &'static str)
        ensures
            r@ == seq![suit_symbol(*self)],
    {
        match self {
            CardSuit::Spades => {
                proof { reveal_strlit("\u{2660}"); }
                "\u{2660}"
            },
            CardSuit::Hearts => {
                proof { reveal_strlit("\u{2665}"); }
                "\u{2665}"
            },
            CardSuit::Clubs => {
                proof { reveal_strlit("\u{2663}"); }
                "\u{2663}"
            },
            CardSuit::Diamonds => {
                proof { reveal_strlit("\u{2666}"); }
                "\u{2666}"
            },
        }
    }
}

/// The label printed for a rank: its number, or J, Q, K, A.
pub open spec fn rank_label(r: CardRank) -> Seq<char> {
    match r {
        CardRank::Two => seq!['2'],
        CardRank::Three => seq!['3'],
        CardRank::Four => seq!['4'],
        CardRank::Five => seq!['5'],
        CardRank::Six => seq!['6'],
        CardRank::Seven => seq!['7'],
        CardRank::Eight => seq!['8'],
        CardRank::Nine => seq!['9'],
        CardRank::Ten => seq!['1', '0'],
        CardRank::Jack => seq!['J'],
        CardRank::Queen => seq!['Q'],
        CardRank::King => seq!['K'],
        CardRank::Ace => seq!['A'],
    }
}

impl CardRank {
    /// The rank's label.
    pub fn label(&self) -> (r: &'static str)
        ensures
            r@ == rank_label(*self),
    {
        match self {
            CardRank::Two => {
                proof { reveal_strlit("2"); }
                "2"
            },
            CardRank::Three => {
                proof { reveal_strlit("3"); }
                "3"
            },
            CardRank::Four => {
                proof { reveal_strlit("4"); }
                "4"
            },
            CardRank::Five => {
                proof { reveal_strlit("5"); }
                "5"
            },
            CardRank::Six => {
                proof { reveal_strlit("6"); }
                "6"
            },
            CardRank::Seven => {
                proof { reveal_strlit("7"); }
                "7"
            },
            CardRank::Eight => {
                proof { reveal_strlit("8"); }
                "8"
            },
            CardRank::Nine => {
                proof { reveal_strlit("9"); }
                "9"
            },
            CardRank::Ten => {
                proof { reveal_strlit("10"); }
                "10"
            },
            CardRank::Jack => {
                proof { reveal_strlit("J"); }
                "J"
            },
            CardRank::Queen => {
                proof { reveal_strlit("Q"); }
                "Q"
            },
            CardRank::King => {
                proof { reveal_strlit("K"); }
                "K"
            },
            CardRank::Ace => {
                proof { reveal_strlit("A"); }
                "A"
            },
        }
    }
}

/// Distinct ranks have distinct ordinals, all in `0..13`.
pub proof fn lemma_ord_injective(a: CardRank, b: CardRank)
    ensures
        0 <= a.ord() <= 12,
        a.ord() == b.ord() ==> a == b,
{
}

/// A playing card. Strength depends on the rank alone; `==` on cards
/// compares both suit and rank (the same physical card).
#[derive(Clone, Copy, Debug, PartialEq, Eq, Structural)]
pub struct Card {
    pub suit: CardSuit,
    pub rank: CardRank,
}

impl Card {
    pub fn new(suit: CardSuit, rank: CardRank) -> (r: Card)
        ensures
            r.suit == suit,
            r.rank == rank,
    {
        Card { suit, rank }
    }

    /// The card as text: suit symbol, a space, and the rank label
    /// right-aligned in two columns (`"\u{2665}  7"`, `"\u{2660} 10"`).
    pub fn text(&self) -> (r: String)
        ensures
            r@ == seq![suit_symbol(self.suit), ' '] + (if rank_label(self.rank).len() == 1 {
                seq![' ']
            } else {
                Seq::<char>::empty()
            }) + rank_label(self.rank),
    {
        let mut r = String::from_str(self.suit.symbol());
        proof { reveal_strlit(" "); }
        r.append(" ");
        if self.rank != CardRank::Ten {
            r.append(" ");
        }
        r.append(self.rank.label());
        r
    }

    /// True when both cards have the same rank, whatever their suits.
    pub fn same_rank(&self, other: &Card) -> (r: bool)
        ensures
            r == (self.rank == other.rank),
    {
        self.rank == other.rank
    }

    /// True when both cards have the same suit.
    pub fn same_suit(&self, other: &Card) -> (r: bool)
        ensures
            r == (self.suit == other.suit),
    {
        self.suit == other.suit
    }

    /// True when both cards are the same card: same suit and same rank.
    pub fn same_card(&self, other: &Card) -> (r: bool)
        ensures
            r == (self.suit == other.suit && self.rank == other.rank),
    {
        self.suit == other.suit && self.rank == other.rank
    }
}

} // verus!
