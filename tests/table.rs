use poker_hands::{Card, CardRank, CardSuit, Deck, Player};

#[test]
fn fresh_deck_holds_fifty_two_cards() {
    let mut deck = Deck::new();
    assert_eq!(deck.len(), 0);
    assert!(deck.draw().is_none());
    deck.reset();
    assert_eq!(deck.len(), 52);
    deck.shuffle();
    assert_eq!(deck.len(), 52);
    // Diamonds come last, so the Ace of Diamonds is on top.
    assert_eq!(deck.draw(), Some(Card { suit: CardSuit::Diamonds, rank: CardRank::Ace }));
    assert_eq!(deck.draw(), Some(Card { suit: CardSuit::Diamonds, rank: CardRank::King }));
    assert_eq!(deck.len(), 50);
    let mut last = None;
    while let Some(c) = deck.draw() {
        last = Some(c);
    }
    assert_eq!(last, Some(Card { suit: CardSuit::Hearts, rank: CardRank::Two }));
    deck.reset();
    assert_eq!(deck.len(), 52);
}

#[test]
fn busted_player() {
    let broke = Player { name: String::from("ann"), money: 0, hole_cards: Vec::new() };
    let flush = Player { name: String::from("bo"), money: 250, hole_cards: Vec::new() };
    assert!(broke.is_busted());
    assert!(!flush.is_busted());
}
