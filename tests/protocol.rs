use rusty_poker::evaluator::{evaluate_two_plus_two, two_plus_two_kind, Hand};
use rusty_poker::game::BettingAction;
use rusty_poker::protocol::parse_action;

#[test]
fn parses_each_action() {
    assert_eq!(BettingAction::Raise(250), parse_action(b"raise 250"));
    assert_eq!(BettingAction::Raise(7), parse_action(b"raise +7"));
    assert_eq!(BettingAction::AllIn, parse_action(b"allin"));
    assert_eq!(BettingAction::Call, parse_action(b"call"));
    assert_eq!(BettingAction::Fold, parse_action(b"fold"));
    assert_eq!(BettingAction::Call, parse_action(b"call now"));
    assert_eq!(BettingAction::Raise(4294967295), parse_action(b"raise 4294967295 chips"));
}

#[test]
fn malformed_requests_fold() {
    assert_eq!(BettingAction::Fold, parse_action(b""));
    assert_eq!(BettingAction::Fold, parse_action(b"raise"));
    assert_eq!(BettingAction::Fold, parse_action(b"raise "));
    assert_eq!(BettingAction::Fold, parse_action(b"raise ten"));
    assert_eq!(BettingAction::Fold, parse_action(b"raise 4294967296"));
    assert_eq!(BettingAction::Fold, parse_action(b"raise +"));
    assert_eq!(BettingAction::Fold, parse_action(b"RAISE 10"));
    assert_eq!(BettingAction::Fold, parse_action(b"check"));
    assert_eq!(BettingAction::Fold, parse_action(b" call"));
}

#[test]
fn table_walk_follows_the_entries() {
    let table: Vec<u32> = (0..120).collect();
    assert_eq!(Some(60), evaluate_two_plus_two(&table, [0; 7]));
    assert_eq!(Some(67), evaluate_two_plus_two(&table, [1; 7]));
    let short: Vec<u32> = (0..10).collect();
    assert_eq!(None, evaluate_two_plus_two(&short, [0; 7]));
}

#[test]
fn table_scores_name_their_kind() {
    assert_eq!(Hand::StraightFlush, two_plus_two_kind(9 << 12 | 5));
    assert_eq!(Hand::Pair, two_plus_two_kind(2 << 12));
    assert_eq!(Hand::Invalid, two_plus_two_kind(12 << 12));
    assert_eq!(Hand::FullHouse, Hand::from(7u8));
    assert_eq!(Hand::Invalid, Hand::from(0u8));
}
