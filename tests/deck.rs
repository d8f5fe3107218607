use rusty_poker::card::{Card, Rank, Suit};
use rusty_poker::deck::Deck;

#[test]
fn adding_card_to_deck() {
    let mut deck = Deck::new();
    deck.add_card(Card::try_from(8).unwrap());
    assert_eq!(deck.value, 1 << 8);
}

#[test]
fn adding_multiple_cards_to_deck() {
    let mut deck = Deck::new();
    deck.add_card(Card::try_from(8).unwrap());
    deck.add_card(Card::try_from(50).unwrap());
    assert_eq!(deck.value, (1 << 8) | (1 << 50));
}

#[test]
fn adding_same_cards_to_deck() {
    let mut deck = Deck::new();
    deck.add_card(Card::try_from(8).unwrap());
    deck.add_card(Card::try_from(8).unwrap());
    assert_eq!(deck.value, (1 << 8));
}

#[test]
fn removing_card_from_deck() {
    let mut deck = Deck::new();
    deck.value = (1 << 5) | (1 << 8);
    deck.remove_card(Card::try_from(5).unwrap());
    assert_eq!(deck.value, (1 << 8));
}

#[test]
fn has_card_returns_true() {
    let mut deck = Deck::new();
    deck.value = 1 << 5;
    assert!(deck.has_card(Card::try_from(5).unwrap()));
}

#[test]
fn has_card_returns_false() {
    let deck = Deck::new();
    assert!(!deck.has_card(Card::try_from(5).unwrap()));
}

#[test]
fn deck_addition() {
    let mut deck_a = Deck::new();
    deck_a.add_card(Card::try_from(8).unwrap());
    let mut deck_b = Deck::new();
    deck_b.add_card(Card::try_from(16).unwrap());

    let combined_deck = deck_a + deck_b;
    assert_eq!(combined_deck.value, (1 << 8 | 1 << 16));
}

#[test]
fn deck_addition_with_overlap() {
    let mut deck_a = Deck::new();
    deck_a.add_card(Card::try_from(8).unwrap());
    let mut deck_b = Deck::new();
    deck_b.add_card(Card::try_from(8).unwrap());

    let combined_deck = deck_a + deck_b;
    assert_eq!(combined_deck.value, 1 << 8);
}

#[test]
fn create_from_cards() {
    let cards = vec![Card::try_from(8).unwrap(), Card::try_from(18).unwrap()];
    let deck = Deck::from_cards(&cards);
    assert_eq!(deck.value, (1 << 8) | (1 << 18));
}

#[test]
fn add_then_has_then_remove() {
    let mut deck = Deck::new();
    let card = Card::new(Suit::Club, Rank::King);
    deck.add_card(card);
    assert!(deck.has_card(card));
    deck.add_card(card);
    assert!(deck.has_card(card));
    deck.remove_card(card);
    assert!(!deck.has_card(card));
    deck.remove_card(card);
    assert!(!deck.has_card(card));
}

#[test]
fn cards_listed_by_suit_then_rank() {
    let deck = Deck::from_cards(&vec![
        Card::new(Suit::Club, Rank::Two),
        Card::new(Suit::Heart, Rank::Ace),
        Card::new(Suit::Heart, Rank::Three),
    ]);
    assert_eq!(
        deck.get_cards(),
        vec![
            Card::new(Suit::Heart, Rank::Three),
            Card::new(Suit::Heart, Rank::Ace),
            Card::new(Suit::Club, Rank::Two),
        ]
    );
    assert_eq!(deck.len(), 3);
}

#[test]
fn full_deck_has_everything_available_nothing() {
    let full = Deck::full_deck();
    assert_eq!(full.get_cards().len(), 52);
    assert_eq!(full.get_available_cards().len(), 0);
    assert_eq!(Deck::new().get_available_cards().len(), 52);
    assert_eq!(full.len(), 52);
}
