use rusty_poker::deck::Deck;
use rusty_poker::card::{Card, Rank, Suit};
use rusty_poker::game::{BettingAction, GameState, Phase, PlayerState};
use rusty_poker::player::{BasicPlayer, CallingPlayer, Player, TerminalPlayer};

fn state(phase: Phase, wallet: u32, value_to_call: u32, total_pot: u32) -> GameState {
    GameState {
        total_pot,
        table: Deck::new(),
        phase,
        players: vec![PlayerState { is_folded: false, wallet, money_on_table: 0 }],
        current_player_index: Some(0),
        dealer_index: 0,
        hand: Deck::new(),
        wallet,
        value_to_call,
    }
}

#[test]
fn calling_player_calls_or_goes_all_in() {
    let p = CallingPlayer { id: 1 };
    assert_eq!(BettingAction::Call, p.request_action(state(Phase::Flop, 500, 100, 200)));
    assert_eq!(BettingAction::AllIn, p.request_action(state(Phase::Flop, 100, 100, 200)));
}

#[test]
fn terminal_bets_map_to_actions() {
    let info = state(Phase::Flop, 500, 100, 200);
    assert_eq!(None, TerminalPlayer::action_for_bet(&info, 600));
    assert_eq!(Some(BettingAction::AllIn), TerminalPlayer::action_for_bet(&info, 500));
    assert_eq!(Some(BettingAction::Raise(150)), TerminalPlayer::action_for_bet(&info, 250));
    assert_eq!(Some(BettingAction::Fold), TerminalPlayer::action_for_bet(&info, 0));
    assert_eq!(Some(BettingAction::Call), TerminalPlayer::action_for_bet(&info, 100));
    let free = state(Phase::Flop, 500, 0, 200);
    assert_eq!(Some(BettingAction::Call), TerminalPlayer::action_for_bet(&free, 0));
}

#[test]
fn basic_player_follows_its_odds() {
    let p = BasicPlayer { id: 2 };
    let info = state(Phase::Flop, 1000, 100, 300);
    assert_eq!(BettingAction::Raise(200), p.decide(&info, 80));
    assert_eq!(BettingAction::Call, p.decide(&info, 60));
    assert_eq!(BettingAction::Fold, p.decide(&info, 40));
    let poor = state(Phase::Flop, 250, 100, 300);
    assert_eq!(BettingAction::AllIn, p.decide(&poor, 80));
    let pre = state(Phase::PreFlop, 1000, 0, 30);
    assert_eq!(BettingAction::Call, p.decide(&pre, 10));
    let pre_owing = state(Phase::PreFlop, 1000, 20, 30);
    assert_eq!(BettingAction::Call, p.decide(&pre_owing, 30));
    assert_eq!(BettingAction::Fold, p.decide(&pre_owing, 10));
    assert_eq!(BettingAction::Raise(10), p.decide(&pre_owing, 70));
    assert_eq!(BettingAction::Fold, p.decide(&state(Phase::Showdown, 1000, 0, 30), 99));
}

#[test]
fn board_odds_need_a_flop() {
    let hand = Deck::from_cards(&vec![Card::new(Suit::Heart, Rank::King), Card::new(Suit::Heart, Rank::Ace)]);
    assert_eq!(None, BasicPlayer::board_odds(&Deck::new(), &hand));
    let table = Deck::from_cards(&vec![
        Card::new(Suit::Heart, Rank::Ten),
        Card::new(Suit::Heart, Rank::Jack),
        Card::new(Suit::Heart, Rank::Queen),
        Card::new(Suit::Club, Rank::Two),
        Card::new(Suit::Diamond, Rank::Seven),
    ]);
    assert_eq!(Some(100), BasicPlayer::board_odds(&table, &hand));
}
