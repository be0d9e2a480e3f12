//! Poker hand evaluation: card model, five-card categorization, a total
//! order over hands, and best-hand selection from a larger pool.

pub mod card;
pub mod hand;
pub mod compare;
pub mod best;
pub mod deck;
pub mod player;
pub mod rules;

pub use card::{Card, CardRank, CardSuit};
pub use hand::{categorize, Hand, HandCategory};
pub use best::{best_hand, best_hand_using, form_best_hand};
pub use deck::Deck;
pub use player::Player;
