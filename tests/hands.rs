use poker_hands::{categorize, best_hand, best_hand_using, form_best_hand, Card, CardRank, CardSuit, Hand, HandCategory};
use poker_hands::CardRank::{Ace, Eight, Five, Four, Jack, King, Nine, Queen, Seven, Six, Ten, Three, Two};
use poker_hands::CardSuit::{Clubs, Diamonds, Hearts, Spades};
use poker_hands::HandCategory::{
    Flush, FourOfAKind, FullHouse, HighCard, Pair, RoyalFlush, Straight, StraightFlush, ThreeOfAKind, TwoPair,
};
use std::cmp::Ordering;

#[allow(non_snake_case)]
fn H(rank: CardRank) -> Card {
    Card { suit: Hearts, rank }
}

#[allow(non_snake_case)]
fn C(rank: CardRank) -> Card {
    Card { suit: Clubs, rank }
}

#[allow(non_snake_case)]
fn S(rank: CardRank) -> Card {
    Card { suit: Spades, rank }
}

#[allow(non_snake_case)]
fn D(rank: CardRank) -> Card {
    Card { suit: Diamonds, rank }
}

fn rank_seq(hand: &Hand) -> Vec<CardRank> {
    hand.cards.iter().map(|c| c.rank).collect()
}

#[test]
fn hand_categorization() {
    let hand = Hand::new([H(Jack), H(Ten), H(Ace), H(King), H(Queen)]);
    assert_eq!(hand.category, RoyalFlush);

    let hand = Hand::new([H(Three), H(Four), H(Five), H(Six), H(Seven)]);
    assert_eq!(hand.category, StraightFlush);

    let hand = Hand::new([H(Three), H(Two), H(Five), H(Ace), H(Seven)]);
    assert_eq!(hand.category, Flush);

    let hand = Hand::new([D(Two), H(Jack), C(Two), S(Two), H(Two)]);
    assert_eq!(hand.category, FourOfAKind);

    // Five-high straight.
    let hand = Hand::new([H(Ace), C(Four), S(Five), H(Three), H(Two)]);
    assert_eq!(hand.category, Straight);

    // Ace-high straight.
    let hand = Hand::new([H(Jack), H(Ten), H(Ace), S(Queen), C(King)]);
    assert_eq!(hand.category, Straight);

    // Eight-high straight.
    let hand = Hand::new([H(Eight), S(Six), H(Five), H(Four), C(Seven)]);
    assert_eq!(hand.category, Straight);

    let hand = Hand::new([H(Three), D(Four), S(Seven), C(Seven), H(Seven)]);
    assert_eq!(hand.category, ThreeOfAKind);

    let hand = Hand::new([H(Four), D(Four), S(Seven), C(Seven), H(Seven)]);
    assert_eq!(hand.category, FullHouse);

    let hand = Hand::new([H(Four), D(Five), S(Five), C(Jack), H(Jack)]);
    assert_eq!(hand.category, TwoPair);

    let hand = Hand::new([H(Four), D(Five), S(Nine), C(Jack), H(Jack)]);
    assert_eq!(hand.category, Pair);

    let hand = Hand::new([H(Four), D(Five), S(Nine), C(Jack), H(Two)]);
    assert_eq!(hand.category, HighCard);
}

#[test]
fn hand_comparison() {
    let king_high = Hand::new([H(Four), D(Five), S(Three), C(King), H(Two)]);
    let jack_high = Hand::new([H(Four), D(Five), S(Nine), C(Jack), H(Two)]);
    assert!(jack_high < king_high);
}

#[test]
fn straight_flush_significance_order() {
    let hand = Hand::new([H(Three), H(Four), H(Five), H(Six), H(Seven)]);
    assert_eq!(hand.category, StraightFlush);
    assert_eq!(hand.cards, [H(Seven), H(Six), H(Five), H(Four), H(Three)]);
}

#[test]
fn royal_flush_from_shuffled_cards() {
    let hand = Hand::new([H(Jack), H(Ten), H(Ace), H(King), H(Queen)]);
    assert_eq!(hand.category, RoyalFlush);
    assert_eq!(hand.cards, [H(Ace), H(King), H(Queen), H(Jack), H(Ten)]);
}

#[test]
fn four_twos_lead_the_jack() {
    let hand = Hand::new([D(Two), H(Jack), C(Two), S(Two), H(Two)]);
    assert_eq!(hand.category, FourOfAKind);
    assert_eq!(rank_seq(&hand), vec![Two, Two, Two, Two, Jack]);
    assert_eq!(hand.cards[4], H(Jack));
}

#[test]
fn full_house_beats_three_of_a_kind() {
    let three = Hand::new([H(Four), D(Five), S(Seven), C(Seven), H(Seven)]);
    let full = Hand::new([H(Four), D(Four), S(Seven), C(Seven), H(Seven)]);
    assert_eq!(three.category, ThreeOfAKind);
    assert_eq!(full.category, FullHouse);
    assert!(full > three);
    assert_eq!(full.compare(&three), Ordering::Greater);
    assert_eq!(rank_seq(&three), vec![Seven, Seven, Seven, Five, Four]);
    assert_eq!(rank_seq(&full), vec![Seven, Seven, Seven, Four, Four]);
}

#[test]
fn best_of_seven_is_ace_high_straight() {
    let pool = vec![H(Jack), H(Ten), H(Ace), S(Queen), C(King), D(Two), C(Three)];
    let best = best_hand(&pool).unwrap();
    assert_eq!(best.category, Straight);
    assert_eq!(best.cards, [H(Ace), C(King), S(Queen), H(Jack), H(Ten)]);
}

#[test]
fn best_hand_needs_five_cards() {
    assert!(best_hand(&vec![]).is_none());
    assert!(best_hand(&vec![H(Two), H(Three), H(Four), H(Five)]).is_none());
    let five = best_hand(&vec![H(Two), S(Two), H(Four), C(Nine), D(King)]).unwrap();
    assert_eq!(five.category, Pair);
    assert_eq!(rank_seq(&five), vec![Two, Two, King, Nine, Four]);
}

#[test]
fn best_hand_equals_maximum_of_all_subsets() {
    let pool = vec![H(Nine), S(Nine), C(Four), D(Four), H(King), H(Two), H(Seven)];
    let best = best_hand(&pool).unwrap();
    let mut max: Option<Hand> = None;
    for a in 0..7 {
        for b in a + 1..7 {
            for c in b + 1..7 {
                for d in c + 1..7 {
                    for e in d + 1..7 {
                        let h = Hand::new([pool[a], pool[b], pool[c], pool[d], pool[e]]);
                        max = match max {
                            Some(m) if m >= h => Some(m),
                            _ => Some(h),
                        };
                    }
                }
            }
        }
    }
    let max = max.unwrap();
    assert_eq!(best.compare(&max), Ordering::Equal);
    assert_eq!(best.category, TwoPair);
    assert_eq!(rank_seq(&best), vec![Nine, Nine, Four, Four, King]);
}

#[test]
fn wheel_loses_to_six_high_straight() {
    let wheel = Hand::new([H(Ace), C(Five), S(Four), D(Three), H(Two)]);
    let six_high = Hand::new([H(Two), C(Six), S(Five), D(Four), H(Three)]);
    assert_eq!(wheel.category, Straight);
    assert_eq!(six_high.category, Straight);
    assert_eq!(rank_seq(&wheel), vec![Five, Four, Three, Two, Ace]);
    assert!(wheel < six_high);
    let ace_high = Hand::new([H(Ace), C(King), S(Queen), D(Jack), H(Ten)]);
    assert!(wheel < ace_high);
}

#[test]
fn suited_wheel_is_straight_flush() {
    let hand = Hand::new([C(Two), C(Ace), C(Three), C(Five), C(Four)]);
    assert_eq!(hand.category, StraightFlush);
    assert_eq!(hand.cards, [C(Five), C(Four), C(Three), C(Two), C(Ace)]);
}

#[test]
fn flush_that_is_no_run() {
    let hand = Hand::new([D(King), D(Ten), D(Jack), D(Queen), D(Eight)]);
    assert_eq!(hand.category, Flush);
    let king_high_run = Hand::new([S(King), S(Ten), S(Jack), S(Queen), S(Nine)]);
    assert_eq!(king_high_run.category, StraightFlush);
}

#[test]
fn recategorizing_keeps_category_and_order() {
    let inputs = [
        [D(Two), H(Jack), C(Two), S(Two), H(Two)],
        [H(Ace), C(Four), S(Five), H(Three), H(Two)],
        [H(Four), D(Five), S(Five), C(Jack), H(Jack)],
        [H(Three), H(Two), H(Five), H(Ace), H(Seven)],
    ];
    for cards in inputs {
        let first = Hand::new(cards);
        let again = Hand::new(first.cards);
        assert_eq!(again.category, first.category);
        assert_eq!(rank_seq(&again), rank_seq(&first));
    }
}

#[test]
fn two_pair_ordered_by_lower_pair() {
    let jacks_and_fives = Hand::new([H(Four), D(Five), S(Five), C(Jack), H(Jack)]);
    let jacks_and_sixes = Hand::new([H(Two), D(Six), S(Six), C(Jack), D(Jack)]);
    assert_eq!(jacks_and_fives.category, TwoPair);
    assert_eq!(jacks_and_sixes.category, TwoPair);
    assert_eq!(rank_seq(&jacks_and_fives), vec![Jack, Jack, Five, Five, Four]);
    assert!(jacks_and_fives < jacks_and_sixes);
}

#[test]
fn same_ranks_other_suits_tie() {
    let a = Hand::new([H(Four), D(Five), S(Nine), C(Jack), H(Two)]);
    let b = Hand::new([S(Four), C(Five), D(Nine), H(Jack), C(Two)]);
    assert!(a == b);
    assert_eq!(a.compare(&b), Ordering::Equal);
    assert_eq!(a.partial_cmp(&b), Some(Ordering::Equal));
}

#[test]
fn category_outranks_card_ranks() {
    let low_quads = Hand::new([H(Two), D(Two), S(Two), C(Two), H(Three)]);
    let high_full = Hand::new([H(Ace), D(Ace), S(Ace), C(King), H(King)]);
    assert_eq!(low_quads.category, FourOfAKind);
    assert_eq!(high_full.category, FullHouse);
    assert!(low_quads > high_full);
    assert!(HandCategory::FourOfAKind > HandCategory::FullHouse);
}

#[test]
fn pair_and_high_card_orders() {
    let pair = Hand::new([H(Four), D(Jack), S(Nine), C(Five), H(Jack)]);
    assert_eq!(rank_seq(&pair), vec![Jack, Jack, Nine, Five, Four]);
    let high = Hand::new([H(Four), D(Five), S(Nine), C(Jack), H(Two)]);
    assert_eq!(rank_seq(&high), vec![Jack, Nine, Five, Four, Two]);
    let full = Hand::new([H(King), D(Two), S(Two), C(King), H(Two)]);
    assert_eq!(full.category, FullHouse);
    assert_eq!(rank_seq(&full), vec![Two, Two, Two, King, King]);
}

#[test]
fn hold_em_with_two_hole_cards() {
    let community = vec![H(Two), D(Seven), S(Nine), C(Jack), H(King)];
    let hole = vec![S(King), D(King)];
    let best = form_best_hand(&community, &hole).unwrap();
    assert_eq!(best.category, ThreeOfAKind);
    assert_eq!(rank_seq(&best), vec![King, King, King, Jack, Nine]);
    let one_hole = form_best_hand(&community, &vec![S(King)]).unwrap();
    assert_eq!(one_hole.category, Pair);
    assert_eq!(rank_seq(&one_hole), vec![King, King, Jack, Nine, Seven]);
    assert!(form_best_hand(&vec![H(Two), D(Seven)], &hole).is_none());
}

#[test]
fn must_use_hole_cards() {
    // Four hole cards, exactly two of which must play, as in Omaha.
    let community = vec![H(Ace), H(King), H(Queen), H(Jack), C(Two)];
    let hole = vec![H(Ten), S(Three), D(Four), C(Five)];
    let best = best_hand_using(&community, &hole, 2).unwrap();
    assert_eq!(best.category, RoyalFlush);
    let one = best_hand_using(&community, &hole, 1).unwrap();
    assert_eq!(one.category, RoyalFlush);
    assert!(best_hand_using(&community, &hole, 5).is_none());
    let none_used = best_hand_using(&community, &hole, 0).unwrap();
    assert_eq!(none_used.category, HighCard);
}

#[test]
fn card_model() {
    assert!(H(Seven).same_rank(&S(Seven)));
    assert!(!H(Seven).same_card(&S(Seven)));
    assert!(H(Seven).same_card(&Card::new(Hearts, Seven)));
    assert!(H(Seven).same_suit(&H(Two)));
    assert_eq!(Ace.value(), 12);
    assert_eq!(Two.value(), 0);
    assert_eq!(CardRank::from_value(8), Ten);
    assert_eq!(HandCategory::RoyalFlush.value(), 9);
    assert_eq!(CardSuit::Spades.symbol(), "\u{2660}");
}

#[test]
fn card_text() {
    assert_eq!(H(Seven).text(), "\u{2665}  7");
    assert_eq!(S(Ten).text(), "\u{2660} 10");
    assert_eq!(D(Queen).text(), "\u{2666}  Q");
    assert_eq!(Ten.label(), "10");
}

#[test]
fn categorize_returns_category_and_order() {
    let (category, cards) = categorize([H(Nine), S(King), D(Nine), C(King), H(Three)]);
    assert_eq!(category, TwoPair);
    assert_eq!(cards.iter().map(|c| c.rank).collect::<Vec<_>>(), vec![King, King, Nine, Nine, Three]);
    assert_eq!(cards[4], H(Three));
}

#[test]
fn five_cards_with_one_hole_card_form_a_hand() {
    let community = vec![H(Two), H(Seven), H(Nine), H(Jack)];
    let hole = vec![H(King)];
    let best = form_best_hand(&community, &hole).unwrap();
    assert_eq!(best.category, Flush);
    assert_eq!(rank_seq(&best), vec![King, Jack, Nine, Seven, Two]);
    assert!(form_best_hand(&community, &vec![]).is_none());
    let all_hole = form_best_hand(&vec![], &vec![H(Ace), H(King)]);
    assert!(all_hole.is_none());
}

#[test]
fn lower_pair_decides_before_kicker() {
    let fives_ace_kicker = Hand::new([H(Ace), D(Five), S(Five), C(Jack), H(Jack)]);
    let sixes_two_kicker = Hand::new([H(Two), D(Six), S(Six), C(Jack), D(Jack)]);
    assert_eq!(fives_ace_kicker.category, TwoPair);
    assert_eq!(sixes_two_kicker.category, TwoPair);
    assert!(fives_ace_kicker < sixes_two_kicker);
}
