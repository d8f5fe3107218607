use vstd::prelude::*;
use crate::game::{BettingAction, GameState, Phase};
use crate::deck::Deck;
use crate::evaluator::{tally, win_counts};
use crate::hand::{num_cards, card_count};

verus! {

/// A participant that decides what to do from what it sees of the game.
pub trait Player {
    fn request_action(&self, info: GameState) -> BettingAction;
}

/// A player that always calls, going all in when calling takes its wallet.
pub struct CallingPlayer {
    pub id: u8,
}

impl CallingPlayer {
    pub fn decide(&self, info: &GameState) -> (r: BettingAction)
        ensures
            r == if info.wallet > info.value_to_call {
                BettingAction::Call
            } else {
                BettingAction::AllIn
            },
    {
        if info.wallet > info.value_to_call {
            BettingAction::Call
        } else {
            BettingAction::AllIn
        }
    }
}

impl Player for CallingPlayer {
    fn request_action(&self, info: GameState) -> BettingAction {
        self.decide(&info)
    }
}

/// What a bot that bets `amount` in all does: all in when that is more
/// than its wallet, a raise by the rest when it is more than the call,
/// else a call.
pub open spec fn raise_or_call(info: GameState, amount: int) -> BettingAction {
    if amount > info.wallet {
        BettingAction::AllIn
    } else if amount > info.value_to_call {
        BettingAction::Raise((amount - info.value_to_call) as u32)
    } else {
        BettingAction::Call
    }
}

/// The bot's rule, given its chance of winning in percent: before the flop
/// it bets the pot above 60, checks when it can, calls above 20 and else
/// folds; after the flop it bets the pot above 70, calls above 50 and else
/// folds; there is no betting in the other phases, where it folds.
pub open spec fn basic_rule(info: GameState, odds_percent: int) -> BettingAction {
    match info.phase {
        Phase::PreFlop => if odds_percent > 60 {
            raise_or_call(info, info.total_pot as int)
        } else if info.value_to_call == 0 {
            raise_or_call(info, 0)
        } else if odds_percent > 20 {
            raise_or_call(info, info.value_to_call as int)
        } else {
            BettingAction::Fold
        },
        Phase::Flop | Phase::Turn | Phase::River => if odds_percent > 70 {
            raise_or_call(info, info.total_pot as int)
        } else if odds_percent > 50 {
            raise_or_call(info, info.value_to_call as int)
        } else {
            BettingAction::Fold
        },
        _ => BettingAction::Fold,
    }
}

/// A bot that bets by its chance of winning.
pub struct BasicPlayer {
    pub id: u8,
}

fn raise_or_call_exec(info: &GameState, amount: u32) -> (r: BettingAction)
    ensures
        r == raise_or_call(*info, amount as int),
{
    if amount > info.wallet {
        BettingAction::AllIn
    } else if amount > info.value_to_call {
        BettingAction::Raise(amount - info.value_to_call)
    } else {
        BettingAction::Call
    }
}

impl BasicPlayer {
    /// The action for the given chance of winning, in percent.
    pub fn decide(&self, info: &GameState, odds_percent: u32) -> (r: BettingAction)
        ensures
            r == basic_rule(*info, odds_percent as int),
    {
        match info.phase {
            Phase::PreFlop => {
                if odds_percent > 60 {
                    raise_or_call_exec(info, info.total_pot)
                } else if info.value_to_call == 0 {
                    raise_or_call_exec(info, 0)
                } else if odds_percent > 20 {
                    raise_or_call_exec(info, info.value_to_call)
                } else {
                    BettingAction::Fold
                }
            },
            Phase::Flop | Phase::Turn | Phase::River => {
                if odds_percent > 70 {
                    raise_or_call_exec(info, info.total_pot)
                } else if odds_percent > 50 {
                    raise_or_call_exec(info, info.value_to_call)
                } else {
                    BettingAction::Fold
                }
            },
            _ => BettingAction::Fold,
        }
    }

    /// The chance in percent, rounded down, that the hole cards win against
    /// one opponent, counted over every completion of a board that holds at
    /// least three cards; none for a smaller board, where the count is too
    /// large to run.
    pub fn board_odds(table: &Deck, hand: &Deck) -> (r: Option<u32>)
        ensures
            num_cards(table@) < 3 || num_cards(table@) > 5 ==> r.is_none(),
            3 <= num_cards(table@) <= 5 ==> {
                let t = tally(table@, hand@, (5 - num_cards(table@)) as nat);
                r == if t.1 == 0 {
                    Some(0u32)
                } else {
                    Some((t.0 * 100 / t.1) as u32)
                }
            },
    {
        let on_table = card_count(table);
        if on_table < 3 || on_table > 5 {
            return None;
        }
        let (wins, games) = win_counts(table, hand);
        proof {
            crate::evaluator::lemma_tally_bounds(table@, hand@, (5 - num_cards(table@)) as nat);
            crate::evaluator::lemma_cap((5 - num_cards(table@)) as nat);
        }
        if games == 0 {
            return Some(0);
        }
        proof {
            let w = wins as int;
            let g = games as int;
            assert(w * 100 / g <= 100) by (nonlinear_arith)
                requires
                    0 <= w <= g,
                    g > 0,
            ;
            assert(w * 100 <= u64::MAX) by (nonlinear_arith)
                requires
                    0 <= w <= 2704 * 380204032,
            ;
        }
        Some((wins * 100 / games) as u32)
    }
}

/// A person at a terminal, who answers with the total to bet.
pub struct TerminalPlayer {}

impl TerminalPlayer {
    /// The action for a typed total `bet_amount`: none when it is more than
    /// the wallet (ask again); all in when it is the whole wallet; a raise by
    /// what passes the call; a fold for 0 when there is something to call;
    /// else a call.
    pub fn action_for_bet(info: &GameState, bet_amount: u32) -> (r: Option<BettingAction>)
        ensures
            r == if bet_amount > info.wallet {
                None
            } else if bet_amount == info.wallet {
                Some(BettingAction::AllIn)
            } else if bet_amount > info.value_to_call {
                Some(BettingAction::Raise((bet_amount - info.value_to_call) as u32))
            } else if bet_amount == 0 && info.value_to_call > 0 {
                Some(BettingAction::Fold)
            } else {
                Some(BettingAction::Call)
            },
    {
        if bet_amount > info.wallet {
            None
        } else if bet_amount == info.wallet {
            Some(BettingAction::AllIn)
        } else if bet_amount > info.value_to_call {
            Some(BettingAction::Raise(bet_amount - info.value_to_call))
        } else if bet_amount == 0 && info.value_to_call > 0 {
            Some(BettingAction::Fold)
        } else {
            Some(BettingAction::Call)
        }
    }
}

} // verus!
