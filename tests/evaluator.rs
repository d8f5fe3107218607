use rusty_poker::card::{Card, Rank, Suit};
use rusty_poker::deck::Deck;
use rusty_poker::evaluator::{
    cards_to_fixed_array, evaluate_score, get_hand_for_score, get_hand_score, score_to_hand, win_counts, Hand,
    KIND_WIDTH,
};

fn ids(cards: &[Card]) -> [u8; 7] {
    let mut arr = [255u8; 7];
    for (i, c) in cards.iter().enumerate() {
        arr[i] = u8::from(*c);
    }
    arr
}

fn c(suit: Suit, rank: Rank) -> Card {
    Card::new(suit, rank)
}

#[test]
fn tests_create_a_fixed_array_from_card_vec() {
    let arr = cards_to_fixed_array(&vec![
        Card::new(Suit::Heart, Rank::Two),
        Card::new(Suit::Heart, Rank::Three),
    ]);
    assert_eq!(arr, [0, 4, 255, 255, 255, 255, 255]);
}

#[test]
fn tests_create_a_fixed_array_too_many_elements() {
    let arr = cards_to_fixed_array(&vec![
        Card::new(Suit::Heart, Rank::Two),
        Card::new(Suit::Heart, Rank::Three),
        Card::new(Suit::Heart, Rank::Four),
        Card::new(Suit::Heart, Rank::Five),
        Card::new(Suit::Heart, Rank::Six),
        Card::new(Suit::Heart, Rank::Seven),
        Card::new(Suit::Heart, Rank::Eight),
        Card::new(Suit::Heart, Rank::Nine),
    ]);
    assert_eq!(arr, [0, 4, 8, 12, 16, 20, 24]);
}

#[test]
fn evaluator_identifies_each_kind() {
    let cases: Vec<(Vec<Card>, Hand)> = vec![
        (vec![c(Suit::Heart, Rank::Queen), c(Suit::Heart, Rank::King), c(Suit::Heart, Rank::Ace), c(Suit::Heart, Rank::Jack), c(Suit::Heart, Rank::Ten), c(Suit::Diamond, Rank::Four), c(Suit::Heart, Rank::Five)], Hand::StraightFlush),
        (vec![c(Suit::Diamond, Rank::Four), c(Suit::Heart, Rank::Four), c(Suit::Club, Rank::Four), c(Suit::Spade, Rank::Four), c(Suit::Diamond, Rank::Five), c(Suit::Spade, Rank::Nine), c(Suit::Club, Rank::Five)], Hand::FourOfAKind),
        (vec![c(Suit::Diamond, Rank::Four), c(Suit::Heart, Rank::Four), c(Suit::Club, Rank::Four), c(Suit::Spade, Rank::Seven), c(Suit::Diamond, Rank::Seven), c(Suit::Spade, Rank::Nine), c(Suit::Club, Rank::Five)], Hand::FullHouse),
        (vec![c(Suit::Heart, Rank::Two), c(Suit::Heart, Rank::Four), c(Suit::Heart, Rank::Six), c(Suit::Heart, Rank::Eight), c(Suit::Heart, Rank::Ten), c(Suit::Spade, Rank::Nine), c(Suit::Club, Rank::Five)], Hand::Flush),
        (vec![c(Suit::Diamond, Rank::Ace), c(Suit::Club, Rank::Two), c(Suit::Heart, Rank::Three), c(Suit::Spade, Rank::Four), c(Suit::Diamond, Rank::Five), c(Suit::Spade, Rank::Jack), c(Suit::Club, Rank::Nine)], Hand::Straight),
        (vec![c(Suit::Diamond, Rank::Queen), c(Suit::Club, Rank::Queen), c(Suit::Heart, Rank::Queen), c(Suit::Spade, Rank::Four), c(Suit::Diamond, Rank::Five), c(Suit::Spade, Rank::Eight), c(Suit::Club, Rank::Ten)], Hand::ThreeOfAKind),
        (vec![c(Suit::Diamond, Rank::Queen), c(Suit::Club, Rank::Queen), c(Suit::Heart, Rank::Jack), c(Suit::Spade, Rank::Jack), c(Suit::Club, Rank::Two), c(Suit::Diamond, Rank::Five), c(Suit::Spade, Rank::Eight)], Hand::TwoPairs),
        (vec![c(Suit::Diamond, Rank::King), c(Suit::Club, Rank::King), c(Suit::Spade, Rank::Jack), c(Suit::Heart, Rank::Nine), c(Suit::Club, Rank::Seven), c(Suit::Diamond, Rank::Five), c(Suit::Spade, Rank::Two)], Hand::Pair),
        (vec![c(Suit::Diamond, Rank::King), c(Suit::Club, Rank::Queen), c(Suit::Spade, Rank::Jack), c(Suit::Heart, Rank::Nine), c(Suit::Club, Rank::Seven), c(Suit::Diamond, Rank::Six), c(Suit::Spade, Rank::Five)], Hand::HighCard),
    ];
    for (cards, kind) in cases {
        assert_eq!(get_hand_for_score(evaluate_score(ids(&cards))), kind);
    }
}

#[test]
fn kickers_decide_within_a_kind() {
    let winner = [c(Suit::Diamond, Rank::Four), c(Suit::Heart, Rank::Four), c(Suit::Club, Rank::Four), c(Suit::Spade, Rank::Four), c(Suit::Club, Rank::Queen), c(Suit::Spade, Rank::Nine), c(Suit::Club, Rank::Five)];
    let mut loser = winner;
    loser[4] = c(Suit::Club, Rank::Jack);
    assert!(evaluate_score(ids(&winner)) > evaluate_score(ids(&loser)));
    let mut equal = winner;
    equal[6] = c(Suit::Club, Rank::Two);
    assert_eq!(evaluate_score(ids(&winner)), evaluate_score(ids(&equal)));

    let high = [c(Suit::Diamond, Rank::King), c(Suit::Club, Rank::Queen), c(Suit::Spade, Rank::Jack), c(Suit::Heart, Rank::Nine), c(Suit::Club, Rank::Eight), c(Suit::Diamond, Rank::Five), c(Suit::Spade, Rank::Four)];
    for i in 0..5 {
        let mut worse = high;
        worse[i] = c(Suit::Diamond, Rank::Two);
        assert!(evaluate_score(ids(&high)) > evaluate_score(ids(&worse)));
    }
}

#[test]
fn flush_kickers_order_lexicographically() {
    let a = [c(Suit::Heart, Rank::Ace), c(Suit::Heart, Rank::Two), c(Suit::Heart, Rank::Three), c(Suit::Heart, Rank::Four), c(Suit::Heart, Rank::Six), c(Suit::Club, Rank::Nine), c(Suit::Spade, Rank::Ten)];
    let b = [c(Suit::Heart, Rank::King), c(Suit::Heart, Rank::Queen), c(Suit::Heart, Rank::Jack), c(Suit::Heart, Rank::Nine), c(Suit::Heart, Rank::Seven), c(Suit::Club, Rank::Two), c(Suit::Spade, Rank::Three)];
    assert!(evaluate_score(ids(&a)) > evaluate_score(ids(&b)));
}

#[test]
fn score_ignores_card_order() {
    let cards = [c(Suit::Diamond, Rank::Queen), c(Suit::Club, Rank::Queen), c(Suit::Heart, Rank::Jack), c(Suit::Spade, Rank::Jack), c(Suit::Club, Rank::Two), c(Suit::Diamond, Rank::Five), c(Suit::Spade, Rank::Eight)];
    let base = evaluate_score(ids(&cards));
    let mut rotated = cards;
    rotated.rotate_left(3);
    assert_eq!(base, evaluate_score(ids(&rotated)));
    let mut reversed = cards;
    reversed.reverse();
    assert_eq!(base, evaluate_score(ids(&reversed)));
}

#[test]
fn exact_scores() {
    let royal = [c(Suit::Spade, Rank::Ten), c(Suit::Spade, Rank::Jack), c(Suit::Spade, Rank::Queen), c(Suit::Spade, Rank::King), c(Suit::Spade, Rank::Ace), c(Suit::Club, Rank::Two), c(Suit::Club, Rank::Three)];
    assert_eq!(evaluate_score(ids(&royal)), 9 * KIND_WIDTH + 12 * 28561);
    let pair = [c(Suit::Diamond, Rank::King), c(Suit::Club, Rank::King), c(Suit::Spade, Rank::Jack), c(Suit::Heart, Rank::Nine), c(Suit::Club, Rank::Seven), c(Suit::Diamond, Rank::Five), c(Suit::Spade, Rank::Two)];
    assert_eq!(evaluate_score(ids(&pair)), 2 * KIND_WIDTH + 11 * 28561 + 9 * 2197 + 7 * 169 + 5 * 13);
}

#[test]
fn fewer_than_five_cards_score_nothing() {
    let arr = [0u8, 4, 8, 255, 255, 255, 255];
    assert_eq!(evaluate_score(arr), 0);
    assert_eq!(score_to_hand(0), Hand::Invalid);
    assert_eq!(score_to_hand(10 * KIND_WIDTH), Hand::Invalid);
    let table = Deck::from_cards(&vec![c(Suit::Heart, Rank::Two), c(Suit::Heart, Rank::Three)]);
    assert_eq!(get_hand_score(&table, &Deck::new()), 0);
}

#[test]
fn hand_score_joins_board_and_hole_cards() {
    let table = Deck::from_cards(&vec![c(Suit::Heart, Rank::Ten), c(Suit::Heart, Rank::Jack), c(Suit::Heart, Rank::Queen), c(Suit::Club, Rank::Two), c(Suit::Diamond, Rank::Seven)]);
    let hand = Deck::from_cards(&vec![c(Suit::Heart, Rank::King), c(Suit::Heart, Rank::Ace)]);
    assert_eq!(get_hand_score(&table, &hand), 9 * KIND_WIDTH + 12 * 28561);
    assert_eq!(get_hand_for_score(get_hand_score(&table, &Deck::new())), Hand::HighCard);
}

#[test]
fn royal_flush_wins_every_game() {
    let table = Deck::from_cards(&vec![c(Suit::Heart, Rank::Ten), c(Suit::Heart, Rank::Jack), c(Suit::Heart, Rank::Queen), c(Suit::Club, Rank::Two), c(Suit::Diamond, Rank::Seven)]);
    let hand = Deck::from_cards(&vec![c(Suit::Heart, Rank::King), c(Suit::Heart, Rank::Ace)]);
    let (wins, games) = win_counts(&table, &hand);
    assert_eq!(games, 45 * 44);
    assert_eq!(wins, games);
}

#[test]
fn royal_flush_wins_every_game_with_a_card_to_come() {
    let table = Deck::from_cards(&vec![c(Suit::Heart, Rank::Ten), c(Suit::Heart, Rank::Jack), c(Suit::Heart, Rank::Queen), c(Suit::Club, Rank::Two)]);
    let hand = Deck::from_cards(&vec![c(Suit::Heart, Rank::King), c(Suit::Heart, Rank::Ace)]);
    let (wins, games) = win_counts(&table, &hand);
    assert_eq!(games, 46 * 45 * 44);
    assert_eq!(wins, games);
}

#[test]
fn weak_hand_loses_some_games() {
    let table = Deck::from_cards(&vec![c(Suit::Heart, Rank::Ten), c(Suit::Club, Rank::Jack), c(Suit::Diamond, Rank::Queen), c(Suit::Club, Rank::Four), c(Suit::Diamond, Rank::Seven)]);
    let hand = Deck::from_cards(&vec![c(Suit::Spade, Rank::Two), c(Suit::Heart, Rank::Three)]);
    let (wins, games) = win_counts(&table, &hand);
    assert_eq!(games, 1980);
    assert!(wins < games);
}

#[test]
fn malformed_arrays_are_incomplete_hands() {
    let royal_with_gaps = [32u8, 36, 40, 44, 48, 255, 255];
    assert_eq!(evaluate_score(royal_with_gaps), 0);
    assert_eq!(score_to_hand(evaluate_score(royal_with_gaps)), Hand::Invalid);
    let duplicated = [32u8, 36, 40, 44, 48, 0, 0];
    assert_eq!(evaluate_score(duplicated), 0);
    let valid = [32u8, 36, 40, 44, 48, 0, 1];
    assert_eq!(score_to_hand(evaluate_score(valid)), Hand::StraightFlush);
}
