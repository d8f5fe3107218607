use vstd::prelude::*;
use crate::card::Card;
use crate::deck::{
    Deck,
    all_ids,
    listed,
    listing_id,
    lemma_listed_members,
    lemma_listed_nonempty,
    lemma_listing_position,
    lemma_card_set_finite,
    lemma_num_cards_len,
    lemma_zero_deck,
};
use crate::betting_round::{
    next_able,
    wrap,
    BettingRound,
    PlayerBet,
    BettingAction as RoundAction,
    able,
    able_count,
    share,
    share_sum,
    lemma_able_count_pos,
    lemma_share_sum_bound,
    lemma_remaining_zero,
};
use crate::evaluator::{get_hand_score, hand_score};
use crate::hand::card_count;

verus! {

/// The phases of one hand.
#[derive(Debug, Clone, Copy, PartialEq, Eq, Structural)]
pub enum Phase {
    Init,
    PreFlop,
    Flop,
    Turn,
    River,
    Showdown,
}

/// What a player asks to do on its turn.
#[derive(Debug, Clone, Copy, PartialEq, Eq, Structural)]
pub enum BettingAction {
    Call,
    Fold,
    /// Raise by this much on top of what calling takes.
    Raise(u32),
    AllIn,
}

/// A seat at the table: the player's id, hole cards and wallet.
#[derive(Debug, Clone, Copy, PartialEq, Eq, Structural)]
pub struct Seat {
    pub player_index: u8,
    pub hand: Deck,
    pub wallet: u32,
}

/// What everyone may see of a seat.
#[derive(Debug, Clone, Copy, PartialEq, Eq, Structural)]
pub struct PlayerState {
    pub is_folded: bool,
    pub wallet: u32,
    pub money_on_table: u32,
}

/// What a player sees of the game: the table for all, and the hole cards,
/// wallet and amount to call of the player who asks.
#[derive(Debug, Clone)]
pub struct GameState {
    pub total_pot: u32,
    pub table: Deck,
    pub phase: Phase,
    pub players: Vec<PlayerState>,
    pub current_player_index: Option<u8>,
    pub dealer_index: u8,
    pub hand: Deck,
    pub wallet: u32,
    pub value_to_call: u32,
}

/// One table of hold'em, hand after hand.
pub struct Game {
    pub phase: Phase,
    /// The cards not dealt yet in this hand.
    pub available_cards: Deck,
    /// The board.
    pub table: Deck,
    pub betting_round: BettingRound,
    /// The dealer's position among the active seats.
    pub dealer_index: u8,
    pub blind: u32,
    /// The seats still playing, by player id.
    pub active_seats: Vec<Seat>,
}

/// The money in the first `n` seats' wallets.
pub open spec fn wallet_sum(seats: Seq<Seat>, n: int) -> int
    decreases n,
{
    if n <= 0 {
        0
    } else {
        wallet_sum(seats, n - 1) + seats[n - 1].wallet
    }
}

pub proof fn lemma_wallet_sum_update(seats: Seq<Seat>, n: int, i: int, s: Seat)
    requires
        0 <= n <= seats.len(),
        0 <= i < seats.len(),
    ensures
        wallet_sum(seats.update(i, s), n) == wallet_sum(seats, n) + if i < n {
            s.wallet - seats[i].wallet
        } else {
            0int
        },
    decreases n,
{
    if n > 0 {
        lemma_wallet_sum_update(seats, n - 1, i, s);
    }
}

pub proof fn lemma_wallet_sum_bound(seats: Seq<Seat>, n: int, i: int)
    requires
        0 <= i < n <= seats.len(),
    ensures
        seats[i].wallet <= wallet_sum(seats, n),
    decreases n,
{
    lemma_wallet_sum_nonneg(seats, n - 1);
    if i < n - 1 {
        lemma_wallet_sum_bound(seats, n - 1, i);
    }
}

pub proof fn lemma_wallet_sum_nonneg(seats: Seq<Seat>, n: int)
    requires
        n <= seats.len(),
    ensures
        wallet_sum(seats, n) >= 0,
    decreases n,
{
    if n > 0 {
        lemma_wallet_sum_nonneg(seats, n - 1);
    }
}

/// The round action that a player's request comes to, given what the seat
/// must add to call and what its wallet holds: a raise or a call that would
/// take the whole wallet or more becomes an all-in, a raise by nothing is a
/// call, and a raise is passed on as the seat's whole addition.
pub open spec fn normalized(action: BettingAction, to_call: int, wallet: u32) -> RoundAction {
    match action {
        BettingAction::Raise(amount) => if to_call + amount >= wallet {
            RoundAction::AllIn(wallet)
        } else if amount == 0 {
            RoundAction::Call
        } else {
            RoundAction::Raise((to_call + amount) as u32)
        },
        BettingAction::Call => if to_call >= wallet {
            RoundAction::AllIn(wallet)
        } else {
            RoundAction::Call
        },
        BettingAction::AllIn => RoundAction::AllIn(wallet),
        BettingAction::Fold => RoundAction::Fold,
    }
}

#[verifier::external_type_specification]
#[verifier::external_body]
pub struct ExThreadRng(rand::rngs::ThreadRng);

/// Relies on rand::thread_rng: the random number generator of this thread.
#[verifier::external_body]
fn thread_rng() -> rand::rngs::ThreadRng {
    rand::thread_rng()
}

/// Relies on rand::Rng::gen_range: a number drawn from `0..n`, a range that
/// gen_range requires to be non-empty.
#[verifier::external_body]
fn gen_below(rng: &mut rand::rngs::ThreadRng, n: usize) -> (r: usize)
    requires
        n > 0,
    ensures
        r < n,
{
    rand::Rng::gen_range(rng, 0..n)
}

/// The number of hole cards that the first `n` seats hold.
pub open spec fn hands_total(seats: Seq<Seat>, n: int) -> int
    decreases n,
{
    if n <= 0 {
        0
    } else {
        hands_total(seats, n - 1) + seats[n - 1].hand@.len()
    }
}

/// The 52 cards are split between the undealt ones, the board and the
/// hands, each hand holding at most two.
pub open spec fn cards_ok(seats: Seq<Seat>, available: Set<int>, table: Set<int>) -> bool {
    &&& available.subset_of(all_ids())
    &&& table.subset_of(all_ids())
    &&& available.disjoint(table)
    &&& forall|i: int|
        0 <= i < seats.len() ==> (#[trigger] seats[i]).hand@.subset_of(all_ids()) && seats[i].hand@.disjoint(
            available,
        ) && seats[i].hand@.disjoint(table) && seats[i].hand@.len() <= 2
    &&& forall|i: int, j: int|
        0 <= i < seats.len() && 0 <= j < seats.len() && i != j ==> (#[trigger] seats[i]).hand@.disjoint(
            (#[trigger] seats[j]).hand@,
        )
    &&& available.len() + table.len() + hands_total(seats, seats.len() as int) == 52
}

pub proof fn lemma_hands_total_same(a: Seq<Seat>, b: Seq<Seat>, n: int)
    requires
        n <= a.len(),
        n <= b.len(),
        forall|j: int| 0 <= j < n ==> (#[trigger] b[j]).hand == a[j].hand,
    ensures
        hands_total(a, n) == hands_total(b, n),
    decreases n,
{
    if n > 0 {
        lemma_hands_total_same(a, b, n - 1);
    }
}

pub proof fn lemma_hands_total_update(seats: Seq<Seat>, n: int, i: int, s: Seat)
    requires
        0 <= n <= seats.len(),
        0 <= i < seats.len(),
    ensures
        hands_total(seats.update(i, s), n) == hands_total(seats, n) + if i < n {
            s.hand@.len() - seats[i].hand@.len()
        } else {
            0int
        },
    decreases n,
{
    if n > 0 {
        lemma_hands_total_update(seats, n - 1, i, s);
    }
}

pub proof fn lemma_hands_total_bound(seats: Seq<Seat>, n: int)
    requires
        0 <= n <= seats.len(),
        forall|i: int| 0 <= i < seats.len() ==> (#[trigger] seats[i]).hand@.len() <= 2,
    ensures
        hands_total(seats, n) <= 2 * n,
    decreases n,
{
    if n > 0 {
        lemma_hands_total_bound(seats, n - 1);
    }
}

/// Seats with the same hole cards keep the cards split the same way.
pub proof fn lemma_same_hands(a: Seq<Seat>, b: Seq<Seat>, available: Set<int>, table: Set<int>)
    requires
        a.len() == b.len(),
        forall|j: int| 0 <= j < a.len() ==> (#[trigger] b[j]).hand == a[j].hand,
        cards_ok(a, available, table),
    ensures
        cards_ok(b, available, table),
{
    lemma_hands_total_same(a, b, a.len() as int);
    assert forall|i: int| 0 <= i < b.len() implies (#[trigger] b[i]).hand@.subset_of(all_ids())
        && b[i].hand@.disjoint(available) && b[i].hand@.disjoint(table) && b[i].hand@.len() <= 2 by {
        assert(b[i].hand == a[i].hand);
    }
    assert forall|i: int, j: int| 0 <= i < b.len() && 0 <= j < b.len() && i != j implies (#[trigger] b[i]).hand@.disjoint(
        (#[trigger] b[j]).hand@,
    ) by {
        assert(b[i].hand == a[i].hand);
        assert(b[j].hand == a[j].hand);
        assert(a[i].hand@.disjoint(a[j].hand@));
    }
}

/// Empty hands, an empty board and a full set of undealt cards.
pub proof fn lemma_fresh_cards(seats: Seq<Seat>, n: int)
    requires
        0 <= n <= seats.len(),
        forall|i: int| 0 <= i < seats.len() ==> (#[trigger] seats[i]).hand@ == Set::<int>::empty(),
    ensures
        hands_total(seats, n) == 0,
        n == seats.len() ==> cards_ok(seats, all_ids(), Set::<int>::empty()),
    decreases n,
{
    if n > 0 {
        lemma_fresh_cards(seats, n - 1);
        assert(seats[n - 1].hand@.len() == 0);
    }
    if n == seats.len() {
        vstd::set_lib::lemma_int_range(0, 52);
        assert(all_ids() =~= vstd::set_lib::set_int_range(0, 52));
        assert forall|i: int, j: int| 0 <= i < seats.len() && 0 <= j < seats.len() && i != j implies (#[trigger] seats[i]).hand@.disjoint(
            (#[trigger] seats[j]).hand@,
        ) by {
            assert(seats[i].hand@ == Set::<int>::empty());
        }
        assert forall|i: int| 0 <= i < seats.len() implies (#[trigger] seats[i]).hand@.subset_of(all_ids())
            && seats[i].hand@.disjoint(all_ids()) && seats[i].hand@.disjoint(Set::<int>::empty())
            && seats[i].hand@.len() <= 2 by {
            assert(seats[i].hand@ == Set::<int>::empty());
        }
    }
}

/// Draws a card at random from `available` and takes it out; none only if
/// `available` holds no card.
fn draw_card(available: &mut Deck) -> (r: Option<Card>)
    ensures
        r is Some ==> old(available)@.contains(r->Some_0.id()) && 0 <= r->Some_0.id() < 52
            && final(available)@ == old(available)@.remove(r->Some_0.id()),
        r is None ==> *final(available) == *old(available) && forall|x: int|
            0 <= x < 52 ==> !old(available)@.contains(x),
{
    let cards = available.get_cards();
    if cards.len() == 0 {
        proof {
            assert forall|x: int| 0 <= x < 52 implies !old(available)@.contains(x) by {
                if old(available)@.contains(x) {
                    lemma_listing_position(x);
                    lemma_listed_nonempty(old(available)@, 52, (x % 4) * 13 + x / 4);
                }
            }
        }
        return None;
    }
    let mut rng = thread_rng();
    let index = gen_below(&mut rng, cards.len());
    let card = cards[index];
    proof {
        lemma_listed_members(old(available)@, 52);
        assert(old(available)@.contains(cards@[index as int].id()));
    }
    available.remove_card(card);
    Some(card)
}

/// Moving an undealt card to the board keeps the cards split.
pub proof fn lemma_move_to_table(seats: Seq<Seat>, available: Set<int>, table: Set<int>, c: int)
    requires
        cards_ok(seats, available, table),
        available.contains(c),
    ensures
        cards_ok(seats, available.remove(c), table.insert(c)),
{
    lemma_card_set_finite(available);
    lemma_card_set_finite(table);
    assert forall|i: int| 0 <= i < seats.len() implies (#[trigger] seats[i]).hand@.subset_of(all_ids())
        && seats[i].hand@.disjoint(available.remove(c)) && seats[i].hand@.disjoint(table.insert(c))
        && seats[i].hand@.len() <= 2 by {
        assert(seats[i].hand@.disjoint(available));
    }
}

/// Moving an undealt card into a hand of at most one card keeps the cards split.
pub proof fn lemma_move_to_hand(seats: Seq<Seat>, available: Set<int>, table: Set<int>, c: int, k: int, s: Seat)
    requires
        cards_ok(seats, available, table),
        available.contains(c),
        0 <= k < seats.len(),
        seats[k].hand@.len() <= 1,
        s.hand@ == seats[k].hand@.insert(c),
    ensures
        cards_ok(seats.update(k, s), available.remove(c), table),
        s.hand@.len() == seats[k].hand@.len() + 1,
{
    let b = seats.update(k, s);
    lemma_card_set_finite(available);
    lemma_card_set_finite(seats[k].hand@);
    assert(!seats[k].hand@.contains(c)) by {
        assert(seats[k].hand@.disjoint(available));
    }
    lemma_hands_total_update(seats, seats.len() as int, k, s);
    assert forall|i: int| 0 <= i < b.len() implies (#[trigger] b[i]).hand@.subset_of(all_ids()) && b[i].hand@.disjoint(
        available.remove(c),
    ) && b[i].hand@.disjoint(table) && b[i].hand@.len() <= 2 by {
        assert(seats[i].hand@.disjoint(available));
        assert(seats[i].hand@.disjoint(table));
        assert(available.disjoint(table));
    }
    assert forall|i: int, j: int| 0 <= i < b.len() && 0 <= j < b.len() && i != j implies (#[trigger] b[i]).hand@.disjoint(
        (#[trigger] b[j]).hand@,
    ) by {
        assert(seats[i].hand@.disjoint(seats[j].hand@));
        assert(seats[i].hand@.disjoint(available));
        assert(seats[j].hand@.disjoint(available));
    }
}

/// The smaller of two integers.
pub open spec fn min_int(a: int, b: int) -> int {
    if a <= b {
        a
    } else {
        b
    }
}

/// How far seat `i` comes after seat `d` going round `n` seats.
pub open spec fn offset_from(i: int, d: int, n: int) -> int {
    if i >= d {
        i - d
    } else {
        i + n - d
    }
}

/// A seat with its hole cards cleared.
pub open spec fn cleared(s: Seat) -> Seat {
    Seat { hand: Deck { value: 0 }, ..s }
}

/// The first `n` seats whose wallets hold at least the blind, hole cards
/// cleared, in order.
pub open spec fn kept(seats: Seq<Seat>, blind: u32, n: int) -> Seq<Seat>
    decreases n,
{
    if n <= 0 {
        Seq::empty()
    } else if seats[n - 1].wallet >= blind {
        kept(seats, blind, n - 1).push(cleared(seats[n - 1]))
    } else {
        kept(seats, blind, n - 1)
    }
}

/// The first seat whose wallet holds at least the blind after seat `d`,
/// looking at offsets from `k` on and going round the table back to `d`
/// itself; `d` if there is none.
pub open spec fn next_eligible(seats: Seq<Seat>, blind: u32, d: int, k: int) -> int
    decreases seats.len() + 1 - k,
{
    if k > seats.len() || k < 1 {
        d
    } else if seats[wrap(d + k, seats.len() as int)].wallet >= blind {
        crate::betting_round::wrap(d + k, seats.len() as int)
    } else {
        next_eligible(seats, blind, d, k + 1)
    }
}

/// The score of a seat at showdown: its best hand with the board, or 0 once
/// it has folded.
pub open spec fn seat_score(table: Set<int>, seat: Seat, folded: bool) -> int {
    if folded {
        0
    } else {
        hand_score(table.union(seat.hand@))
    }
}

/// The highest of the first `n` scores; 0 if there are none.
pub open spec fn best_of(scores: Seq<u32>, n: int) -> int
    decreases n,
{
    if n <= 0 {
        0
    } else if scores[n - 1] as int > best_of(scores, n - 1) {
        scores[n - 1] as int
    } else {
        best_of(scores, n - 1)
    }
}

/// The positions among the first `n` whose score is `best`, in order.
pub open spec fn holders_of(scores: Seq<u32>, best: int, n: int) -> Seq<usize>
    decreases n,
{
    if n <= 0 {
        Seq::empty()
    } else if scores[n - 1] as int == best {
        holders_of(scores, best, n - 1).push((n - 1) as usize)
    } else {
        holders_of(scores, best, n - 1)
    }
}

/// The seats' scores at showdown against the board `table`.
pub open spec fn showdown_scores(table: Set<int>, seats: Seq<Seat>, bets: Seq<crate::betting_round::PlayerBet>) -> Seq<u32> {
    Seq::new(seats.len(), |i: int| seat_score(table, seats[i], bets[i].is_folded) as u32)
}

/// The seats whose score at showdown is the best, in order.
pub open spec fn showdown_winners(table: Set<int>, seats: Seq<Seat>, bets: Seq<crate::betting_round::PlayerBet>) -> Seq<usize> {
    let scores = showdown_scores(table, seats, bets);
    holders_of(scores, best_of(scores, seats.len() as int), seats.len() as int)
}

/// The number of the first `n` seats whose wallet holds at least the blind.
pub open spec fn eligible_count(seats: Seq<Seat>, blind: u32, n: int) -> int
    decreases n,
{
    if n <= 0 {
        0
    } else {
        eligible_count(seats, blind, n - 1) + if seats[n - 1].wallet >= blind { 1int } else { 0int }
    }
}

pub proof fn lemma_kept(seats: Seq<Seat>, blind: u32, n: int)
    requires
        0 <= n <= seats.len(),
    ensures
        kept(seats, blind, n).len() == eligible_count(seats, blind, n),
        wallet_sum(kept(seats, blind, n), kept(seats, blind, n).len() as int) <= wallet_sum(seats, n),
        0 <= eligible_count(seats, blind, n) <= n,
    decreases n,
{
    if n > 0 {
        lemma_kept(seats, blind, n - 1);
        let k = kept(seats, blind, n - 1);
        if seats[n - 1].wallet >= blind {
            lemma_wallet_sum_same(k, k.push(cleared(seats[n - 1])), k.len() as int);
        }
    }
}

pub proof fn lemma_next_eligible(seats: Seq<Seat>, blind: u32, d: int, k: int, j: int)
    requires
        0 <= d < seats.len(),
        1 <= k <= j <= seats.len(),
        seats[wrap(d + j, seats.len() as int)].wallet >= blind,
    ensures
        0 <= next_eligible(seats, blind, d, k) < seats.len(),
        seats[next_eligible(seats, blind, d, k)].wallet >= blind,
    decreases j - k,
{
    if seats[wrap(d + k, seats.len() as int)].wallet < blind {
        lemma_next_eligible(seats, blind, d, k + 1, j);
    }
}

pub proof fn lemma_next_eligible_skips(seats: Seq<Seat>, blind: u32, d: int, k: int, j: int) -> (m: int)
    requires
        0 <= d < seats.len(),
        1 <= k <= j <= seats.len(),
        seats[wrap(d + j, seats.len() as int)].wallet >= blind,
    ensures
        k <= m <= j,
        next_eligible(seats, blind, d, k) == wrap(d + m, seats.len() as int),
        forall|q: int| k <= q < m ==> (#[trigger] seats[wrap(d + q, seats.len() as int)]).wallet < blind,
    decreases j - k,
{
    if seats[wrap(d + k, seats.len() as int)].wallet >= blind {
        k
    } else {
        lemma_next_eligible_skips(seats, blind, d, k + 1, j)
    }
}

/// The dealer moves to the first seat after the old dealer, going round the
/// table, whose wallet holds the blind: every seat passed on the way cannot
/// pay it, and the new dealer can.
pub proof fn lemma_dealer_rotation(seats: Seq<Seat>, blind: u32, d: int)
    requires
        0 <= d < seats.len(),
        eligible_count(seats, blind, seats.len() as int) >= 1,
    ensures
        ({
            let e = next_eligible(seats, blind, d, 1);
            &&& 0 <= e < seats.len()
            &&& seats[e].wallet >= blind
            &&& forall|q: int|
                1 <= q < (if e == d { seats.len() as int } else { offset_from(e, d, seats.len() as int) })
                    ==> (#[trigger] seats[wrap(d + q, seats.len() as int)]).wallet < blind
        }),
{
    let n = seats.len() as int;
    let w = lemma_eligible_witness(seats, blind, n);
    let j = if w > d { w - d } else { w + n - d };
    assert(wrap(d + j, n) == w);
    lemma_next_eligible(seats, blind, d, 1, j);
    let m = lemma_next_eligible_skips(seats, blind, d, 1, j);
    assert(1 <= m <= n && next_eligible(seats, blind, d, 1) == wrap(d + m, n));
}

pub proof fn lemma_eligible_witness(seats: Seq<Seat>, blind: u32, n: int) -> (i: int)
    requires
        0 <= n <= seats.len(),
        eligible_count(seats, blind, n) > 0,
    ensures
        0 <= i < n,
        seats[i].wallet >= blind,
    decreases n,
{
    if seats[n - 1].wallet >= blind {
        n - 1
    } else {
        lemma_eligible_witness(seats, blind, n - 1)
    }
}

pub proof fn lemma_holders(scores: Seq<u32>, best: int, n: int)
    requires
        0 <= n <= scores.len(),
        scores.len() <= 255,
    ensures
        forall|k: int| 0 <= k < holders_of(scores, best, n).len() ==> #[trigger] holders_of(scores, best, n)[k] < n,
        holders_of(scores, best, n).no_duplicates(),
    decreases n,
{
    if n > 0 {
        lemma_holders(scores, best, n - 1);
        let h = holders_of(scores, best, n - 1);
        if scores[n - 1] as int == best {
            assert forall|k: int| 0 <= k < h.len() implies #[trigger] h.push((n - 1) as usize)[k] != (n - 1) as usize by {
                assert(h[k] < n - 1);
            }
        }
    }
}

pub proof fn lemma_wallet_sum_credit(a: Seq<Seat>, b: Seq<Seat>, bets: Seq<crate::betting_round::PlayerBet>, winners: Seq<usize>, m: int)
    requires
        0 <= m <= a.len(),
        a.len() == b.len(),
        forall|j: int| 0 <= j < m ==> (#[trigger] b[j]).wallet == a[j].wallet + share(bets, winners, j, 0),
    ensures
        wallet_sum(b, m) == wallet_sum(a, m) + share_sum(bets, winners, m, 0),
    decreases m,
{
    if m > 0 {
        lemma_wallet_sum_credit(a, b, bets, winners, m - 1);
    }
}

pub proof fn lemma_share_sum_parts(bets: Seq<crate::betting_round::PlayerBet>, winners: Seq<usize>, m: int, i: int)
    requires
        0 <= i < m <= bets.len(),
        forall|k: int| 0 <= k < winners.len() ==> #[trigger] winners[k] < bets.len(),
    ensures
        share(bets, winners, i, 0) <= share_sum(bets, winners, m, 0),
        share_sum(bets, winners, i, 0) + share(bets, winners, i, 0) <= share_sum(bets, winners, m, 0),
    decreases m,
{
    crate::betting_round::lemma_share_bound(bets, winners, m - 1, 0);
    if i < m - 1 {
        lemma_share_sum_parts(bets, winners, m - 1, i);
    } else {
        lemma_share_sum_nonneg(bets, winners, m - 1);
    }
}

pub proof fn lemma_share_sum_nonneg(bets: Seq<crate::betting_round::PlayerBet>, winners: Seq<usize>, m: int)
    requires
        0 <= m <= bets.len(),
        forall|k: int| 0 <= k < winners.len() ==> #[trigger] winners[k] < bets.len(),
    ensures
        share_sum(bets, winners, m, 0) >= 0,
    decreases m,
{
    if m > 0 {
        lemma_share_sum_nonneg(bets, winners, m - 1);
        crate::betting_round::lemma_share_bound(bets, winners, m - 1, 0);
    }
}

impl Game {
    /// Well-formed: between 2 and 255 seats, a betting round sized to them,
    /// the dealer a seat, player ids increasing, and all the money, wallets
    /// and the pot of a hand under way, fitting a `u32`.
    pub open spec fn wf(&self) -> bool {
        &&& 2 <= self.active_seats@.len() <= 255
        &&& self.betting_round.wf()
        &&& self.betting_round.n() == self.active_seats@.len()
        &&& self.dealer_index < self.active_seats@.len()
        &&& self.blind >= 2
        &&& cards_ok(self.active_seats@, self.available_cards@, self.table@)
        &&& forall|i: int, j: int|
            0 <= i < j < self.active_seats@.len() ==> (#[trigger] self.active_seats@[i]).player_index
                < (#[trigger] self.active_seats@[j]).player_index
        &&& self.money() <= u32::MAX
    }

    /// The money in the wallets, and in the pot while a hand is under way.
    pub open spec fn money(&self) -> int {
        wallet_sum(self.active_seats@, self.active_seats@.len() as int) + if self.phase == Phase::Init {
            0
        } else {
            self.betting_round.pot()
        }
    }

    /// The money in the wallets and in the pot.
    pub open spec fn hand_money(&self) -> int {
        wallet_sum(self.active_seats@, self.active_seats@.len() as int) + self.betting_round.pot()
    }

    /// The position of the seat whose turn it is, while betting is open.
    pub open spec fn current_seat(&self) -> Option<int> {
        if self.phase == Phase::Init || self.phase == Phase::Showdown || self.betting_round.is_complete {
            None
        } else {
            Some(self.betting_round.current_player_index as int)
        }
    }

    /// A game of `num_players` seats, each with `initial_wallet`, before the
    /// first hand; the blind is 20.
    pub fn create(num_players: u8, initial_wallet: u32) -> (r: Game)
        requires
            num_players >= 2,
            num_players * initial_wallet <= u32::MAX,
        ensures
            r.wf(),
            r.phase == Phase::Init,
            r.table@ == Set::<int>::empty(),
            r.available_cards@ == all_ids(),
            r.dealer_index == num_players - 1,
            r.blind == 20,
            r.active_seats@.len() == num_players,
            r.betting_round.n() == num_players,
            r.betting_round.current_bet == 0,
            r.betting_round.current_player_index == 0,
            r.betting_round.final_player_index == num_players - 1,
            !r.betting_round.is_complete,
            forall|i: int|
                0 <= i < num_players ==> #[trigger] r.betting_round.player_bets@[i] == (PlayerBet {
                    money_in_pot: 0,
                    money_on_table: 0,
                    is_folded: false,
                    is_all_in: false,
                }),
            forall|i: int|
                0 <= i < num_players ==> #[trigger] r.active_seats@[i] == (Seat {
                    player_index: i as u8,
                    hand: Deck { value: 0 },
                    wallet: initial_wallet,
                }),
    {
        let mut active_seats: Vec<Seat> = Vec::new();
        for player_index in 0..num_players
            invariant
                active_seats@.len() == player_index,
                forall|i: int|
                    0 <= i < player_index ==> #[trigger] active_seats@[i] == (Seat {
                        player_index: i as u8,
                        hand: Deck { value: 0 },
                        wallet: initial_wallet,
                    }),
                wallet_sum(active_seats@, player_index as int) == player_index * initial_wallet,
        {
            let ghost before = active_seats@;
            active_seats.push(Seat { player_index, hand: Deck::new(), wallet: initial_wallet });
            proof {
                lemma_wallet_sum_same(before, active_seats@, player_index as int);
                assert((player_index + 1) * initial_wallet == player_index * initial_wallet + initial_wallet)
                    by (nonlinear_arith);
            }
        }
        proof {
            lemma_zero_deck();
            assert forall|i: int| 0 <= i < active_seats@.len() implies (#[trigger] active_seats@[i]).hand@
                == Set::<int>::empty() by {}
            lemma_fresh_cards(active_seats@, num_players as int);
        }
        Game {
            phase: Phase::Init,
            available_cards: Deck::full_deck(),
            table: Deck::new(),
            dealer_index: num_players - 1,
            blind: 20,
            active_seats,
            betting_round: BettingRound::create_for_players(num_players),
        }
    }

    fn get_current_seat(&self) -> (r: Option<usize>)
        requires
            self.wf(),
        ensures
            r is Some <==> self.current_seat() is Some,
            r is Some ==> r->Some_0 as int == self.current_seat()->Some_0,
    {
        if self.phase == Phase::Init || self.phase == Phase::Showdown || self.betting_round.is_complete() {
            None
        } else {
            Some(self.betting_round.get_current_player_index() as usize)
        }
    }

    /// The id of the player whose turn it is; none between betting streets.
    pub fn get_current_player_index(&self) -> (r: Option<u8>)
        requires
            self.wf(),
        ensures
            r == match self.current_seat() {
                Some(i) => Some(self.active_seats@[i].player_index),
                None => None::<u8>,
            },
    {
        match self.get_current_seat() {
            Some(i) => Some(self.active_seats[i].player_index),
            None => None,
        }
    }

    /// Carries out what the player whose turn it is asked for, after turning
    /// it into a round action (see `normalized`). Refused, with nothing
    /// changed, when it is nobody's turn.
    pub fn action_current_player(&mut self, action: BettingAction) -> (r: Result<(), &'static str>)
        requires
            old(self).wf(),
        ensures
            final(self).wf(),
            old(self).current_seat() is None ==> r == Err::<(), &'static str>(
                "This is not the right time to bet.",
            ) && *final(self) == *old(self),
            old(self).current_seat() is Some ==> r is Ok && old(self).bet_placed(*final(self), action),
    {
        let seat = self.get_current_seat();
        if seat.is_none() {
            return Err("This is not the right time to bet.");
        }
        self.bet_for_current_player(action);
        Ok(())
    }

    /// `next` is this game once the seat to act has made the request.
    pub open spec fn bet_placed(&self, next: Game, action: BettingAction) -> bool {
        let i = self.betting_round.current_player_index as int;
        let seat = self.active_seats@[i];
        let to_call = self.betting_round.current_bet - self.betting_round.player_bets@[i].money_on_table;
        let a = normalized(action, to_call, seat.wallet);
        &&& self.betting_round.acted_round(next.betting_round, a)
        &&& next.active_seats@ == self.active_seats@.update(
            i,
            Seat { wallet: (seat.wallet - self.betting_round.cost(a)) as u32, ..seat },
        )
        &&& next.phase == self.phase
        &&& next.table == self.table
        &&& next.available_cards == self.available_cards
        &&& next.dealer_index == self.dealer_index
        &&& next.blind == self.blind
    }

    fn bet_for_current_player(&mut self, action: BettingAction)
        requires
            old(self).wf(),
            !old(self).betting_round.is_complete,
            old(self).hand_money() <= u32::MAX,
        ensures
            final(self).wf(),
            old(self).bet_placed(*final(self), action),
            final(self).hand_money() <= u32::MAX,
            final(self).betting_round.pot() == old(self).betting_round.pot() + old(self).betting_round.cost(
                normalized(
                    action,
                    old(self).betting_round.current_bet - old(self).betting_round.player_bets@[old(
                        self,
                    ).betting_round.current_player_index as int].money_on_table,
                    old(self).active_seats@[old(self).betting_round.current_player_index as int].wallet,
                ),
            ),
    {
        let player_index = self.betting_round.get_current_player_index();
        let i = player_index as usize;
        let seat = self.active_seats[i];
        let money_to_call = self.betting_round.get_player_money_to_call(player_index);
        let ghost n = self.active_seats@.len() as int;
        let betting_action = match action {
            BettingAction::Raise(amount) => {
                if money_to_call as u64 + amount as u64 >= seat.wallet as u64 {
                    RoundAction::AllIn(seat.wallet)
                } else if amount == 0 {
                    RoundAction::Call
                } else {
                    RoundAction::Raise(money_to_call + amount)
                }
            },
            BettingAction::Call => {
                if money_to_call >= seat.wallet {
                    RoundAction::AllIn(seat.wallet)
                } else {
                    RoundAction::Call
                }
            },
            BettingAction::AllIn => RoundAction::AllIn(seat.wallet),
            BettingAction::Fold => RoundAction::Fold,
        };
        assert(betting_action == normalized(action, money_to_call as int, seat.wallet));
        proof {
            lemma_wallet_sum_bound(self.active_seats@, n, i as int);
        }
        let ghost old_round = self.betting_round;
        let new_money = match self.betting_round.action_current_player(betting_action) {
            Ok(v) => v,
            Err(_) => 0,
        };
        let new_seat = Seat { wallet: seat.wallet - new_money, ..seat };
        proof {
            lemma_wallet_sum_update(self.active_seats@, n, i as int, new_seat);
            crate::betting_round::lemma_pot_sum_update(
                old_round.player_bets@,
                n,
                i as int,
                old_round.acted_bet(betting_action),
            );
        }
        let ghost before = self.active_seats@;
        self.active_seats.set(i, new_seat);
        proof {
            lemma_same_hands(before, self.active_seats@, self.available_cards@, self.table@);
            assert forall|a: int, b: int|
                0 <= a < b < self.active_seats@.len() implies (#[trigger] self.active_seats@[a]).player_index
                < (#[trigger] self.active_seats@[b]).player_index by {
                assert(before[a].player_index < before[b].player_index);
            }
        }
    }

    /// What a player sees of the game; `player_index` names the player who
    /// asks, if any, whose hole cards, wallet and amount to call are shown.
    pub fn get_state(&self, player_index: Option<u8>) -> (r: GameState)
        requires
            self.wf(),
        ensures
            r.total_pot == self.betting_round.pot(),
            r.table == self.table,
            r.phase == self.phase,
            r.players@.len() == self.active_seats@.len(),
            forall|i: int|
                0 <= i < self.active_seats@.len() ==> #[trigger] r.players@[i] == (PlayerState {
                    is_folded: self.betting_round.player_bets@[i].is_folded,
                    wallet: self.active_seats@[i].wallet,
                    money_on_table: self.betting_round.player_bets@[i].money_on_table,
                }),
            r.current_player_index == match self.current_seat() {
                Some(i) => Some(self.active_seats@[i].player_index),
                None => None::<u8>,
            },
            r.dealer_index == self.active_seats@[self.dealer_index as int].player_index,
            match self.seat_of(player_index) {
                Some(i) => r.hand == self.active_seats@[i].hand && r.wallet == self.active_seats@[i].wallet
                    && r.value_to_call == self.betting_round.current_bet
                    - self.betting_round.player_bets@[i].money_on_table,
                None => r.hand@ == Set::<int>::empty() && r.wallet == 0 && r.value_to_call == 0,
            },
    {
        let mut players: Vec<PlayerState> = Vec::new();
        let n = self.active_seats.len();
        for idx in 0..n
            invariant
                self.wf(),
                n == self.active_seats@.len(),
                players@.len() == idx,
                forall|i: int|
                    0 <= i < idx ==> #[trigger] players@[i] == (PlayerState {
                        is_folded: self.betting_round.player_bets@[i].is_folded,
                        wallet: self.active_seats@[i].wallet,
                        money_on_table: self.betting_round.player_bets@[i].money_on_table,
                    }),
        {
            let b = self.betting_round.player_bets[idx];
            players.push(
                PlayerState {
                    is_folded: b.is_folded,
                    wallet: self.active_seats[idx].wallet,
                    money_on_table: b.money_on_table,
                },
            );
        }
        let seat_index = self.find_seat(player_index);
        let (hand, wallet, value_to_call) = match seat_index {
            Some(i) => (
                self.active_seats[i].hand,
                self.active_seats[i].wallet,
                self.betting_round.get_player_money_to_call(i as u8),
            ),
            None => (Deck::new(), 0, 0),
        };
        GameState {
            total_pot: self.betting_round.get_pot(),
            table: self.table,
            phase: self.phase,
            players,
            current_player_index: self.get_current_player_index(),
            dealer_index: self.active_seats[self.dealer_index as usize].player_index,
            hand,
            wallet,
            value_to_call,
        }
    }

    /// The position of the active seat of the given player, if any.
    pub open spec fn seat_of(&self, player_index: Option<u8>) -> Option<int> {
        match player_index {
            Some(p) => if exists|i: int| 0 <= i < self.active_seats@.len() && self.active_seats@[i].player_index == p {
                Some(choose|i: int| 0 <= i < self.active_seats@.len() && self.active_seats@[i].player_index == p)
            } else {
                None
            },
            None => None,
        }
    }

    fn find_seat(&self, player_index: Option<u8>) -> (r: Option<usize>)
        requires
            self.wf(),
        ensures
            r is Some <==> self.seat_of(player_index) is Some,
            r is Some ==> r->Some_0 as int == self.seat_of(player_index)->Some_0,
    {
        match player_index {
            None => None,
            Some(p) => {
                let n = self.active_seats.len();
                for i in 0..n
                    invariant
                        self.wf(),
                        n == self.active_seats@.len(),
                        player_index == Some(p),
                        forall|j: int| 0 <= j < i ==> #[trigger] self.active_seats@[j].player_index != p,
                {
                    if self.active_seats[i].player_index == p {
                        proof {
                            assert(0 <= i < self.active_seats@.len() && self.active_seats@[i as int].player_index == p);
                            assert(exists|j: int| 0 <= j < self.active_seats@.len() && self.active_seats@[j].player_index == p);
                            let c = choose|j: int| 0 <= j < self.active_seats@.len() && self.active_seats@[j].player_index == p;
                            if c != i {
                                if c < i {
                                    assert(self.active_seats@[c].player_index < self.active_seats@[i as int].player_index);
                                } else {
                                    assert(self.active_seats@[i as int].player_index < self.active_seats@[c].player_index);
                                }
                            }
                            assert(c == i);
                            assert(player_index == Some(p));
                            assert(self.seat_of(player_index) == Some(c));
                        }
                        return Some(i);
                    }
                }
                None
            },
        }
    }
}

pub proof fn lemma_wallet_sum_same(a: Seq<Seat>, b: Seq<Seat>, n: int)
    requires
        n <= a.len(),
        n <= b.len(),
        forall|j: int| 0 <= j < n ==> (#[trigger] a[j]).wallet == b[j].wallet,
    ensures
        wallet_sum(a, n) == wallet_sum(b, n),
    decreases n,
{
    if n > 0 {
        lemma_wallet_sum_same(a, b, n - 1);
    }
}

impl Game {
    /// Deals `num_cards` cards from the undealt ones to the board, as long as
    /// there are any.
    fn deal_cards_to_table(&mut self, num_cards: u8)
        requires
            old(self).wf(),
        ensures
            final(self).wf(),
            final(self).table@.union(final(self).available_cards@) == old(self).table@.union(
                old(self).available_cards@,
            ),
            old(self).table@.subset_of(final(self).table@),
            final(self).available_cards@.subset_of(old(self).available_cards@),
            final(self).table@.len() == old(self).table@.len() + min_int(
                num_cards as int,
                old(self).available_cards@.len() as int,
            ),
            final(self).active_seats == old(self).active_seats,
            final(self).betting_round == old(self).betting_round,
            final(self).phase == old(self).phase,
            final(self).dealer_index == old(self).dealer_index,
            final(self).blind == old(self).blind,
    {
        let ghost l0 = self.available_cards@.len() as int;
        let ghost t0 = self.table@.len() as int;
        for k in 0..num_cards
            invariant
                self.wf(),
                self.table@.union(self.available_cards@) == old(self).table@.union(old(self).available_cards@),
                old(self).table@.subset_of(self.table@),
                self.available_cards@.subset_of(old(self).available_cards@),
                l0 == old(self).available_cards@.len(),
                t0 == old(self).table@.len(),
                self.table@.len() == t0 + min_int(k as int, l0),
                self.available_cards@.len() == l0 - min_int(k as int, l0),
                self.active_seats == old(self).active_seats,
                self.betting_round == old(self).betting_round,
                self.phase == old(self).phase,
                self.dealer_index == old(self).dealer_index,
                self.blind == old(self).blind,
        {
            let ghost t = self.table@;
            let ghost a = self.available_cards@;
            proof {
                lemma_card_set_finite(a);
                lemma_card_set_finite(t);
            }
            match draw_card(&mut self.available_cards) {
                Some(card) => {
                    self.table.add_card(card);
                    proof {
                        lemma_move_to_table(self.active_seats@, a, t, card.id());
                        assert(self.table@.union(self.available_cards@) =~= t.union(a));
                        assert(!t.contains(card.id()));
                    }
                },
                None => {
                    proof {
                        assert(a =~= Set::<int>::empty());
                    }
                },
            }
        }
    }

    /// Deals two hole cards to each seat, one at a time, starting with the
    /// dealer; every seat gets both when there are cards enough.
    fn deal_cards_to_players(&mut self)
        requires
            old(self).wf(),
            forall|i: int| 0 <= i < old(self).active_seats@.len() ==> (#[trigger] old(self).active_seats@[i]).hand@
                == Set::<int>::empty(),
        ensures
            final(self).wf(),
            final(self).active_seats@.len() == old(self).active_seats@.len(),
            forall|i: int|
                0 <= i < old(self).active_seats@.len() ==> (#[trigger] final(self).active_seats@[i]).player_index
                    == old(self).active_seats@[i].player_index && final(self).active_seats@[i].wallet
                    == old(self).active_seats@[i].wallet,
            2 * old(self).active_seats@.len() <= old(self).available_cards@.len() ==> forall|i: int|
                0 <= i < old(self).active_seats@.len() ==> (#[trigger] final(self).active_seats@[i]).hand@.len() == 2,
            final(self).table == old(self).table,
            final(self).betting_round == old(self).betting_round,
            final(self).phase == old(self).phase,
            final(self).dealer_index == old(self).dealer_index,
            final(self).blind == old(self).blind,
    {
        let n = self.active_seats.len();
        let d = self.dealer_index as usize;
        let ghost l0 = self.available_cards@.len() as int;
        let ghost enough = 2 * n <= l0;
        proof {
            assert forall|i: int| 0 <= i < n implies (#[trigger] self.active_seats@[i]).hand@.len() == 0 by {
                assert(self.active_seats@[i].hand@ == Set::<int>::empty());
            }
        }
        for round in 0..2u8
            invariant
                self.wf(),
                n == self.active_seats@.len(),
                d == self.dealer_index,
                l0 == old(self).available_cards@.len(),
                enough == (2 * n <= l0),
                forall|i: int|
                    0 <= i < n ==> (#[trigger] self.active_seats@[i]).player_index
                        == old(self).active_seats@[i].player_index && self.active_seats@[i].wallet
                        == old(self).active_seats@[i].wallet,
                forall|i: int| 0 <= i < n ==> (#[trigger] self.active_seats@[i]).hand@.len() <= round,
                enough ==> forall|i: int| 0 <= i < n ==> (#[trigger] self.active_seats@[i]).hand@.len() == round,
                enough ==> self.available_cards@.len() == l0 - (if round == 0 { 0 } else if round == 1 { n as int } else { 2 * n }),
                self.table == old(self).table,
                self.betting_round == old(self).betting_round,
                self.phase == old(self).phase,
                self.dealer_index == old(self).dealer_index,
                self.blind == old(self).blind,
        {
            for pnum in 0..n
                invariant
                    self.wf(),
                    n == self.active_seats@.len(),
                    d == self.dealer_index,
                    d < n,
                    round < 2,
                    l0 == old(self).available_cards@.len(),
                    enough == (2 * n <= l0),
                    forall|i: int|
                        0 <= i < n ==> (#[trigger] self.active_seats@[i]).player_index
                            == old(self).active_seats@[i].player_index && self.active_seats@[i].wallet
                            == old(self).active_seats@[i].wallet,
                    forall|i: int|
                        0 <= i < n ==> (#[trigger] self.active_seats@[i]).hand@.len() <= round + if offset_from(
                            i,
                            d as int,
                            n as int,
                        ) < pnum {
                            1int
                        } else {
                            0int
                        },
                    enough ==> forall|i: int|
                        0 <= i < n ==> (#[trigger] self.active_seats@[i]).hand@.len() == round + if offset_from(
                            i,
                            d as int,
                            n as int,
                        ) < pnum {
                            1int
                        } else {
                            0int
                        },
                    enough ==> self.available_cards@.len() == l0 - (if round == 0 { 0 } else { n as int }) - pnum,
                    self.table == old(self).table,
                    self.betting_round == old(self).betting_round,
                    self.phase == old(self).phase,
                    self.dealer_index == old(self).dealer_index,
                    self.blind == old(self).blind,
            {
                let x = d + pnum;
                let idx = if x >= n { x - n } else { x };
                assert(offset_from(idx as int, d as int, n as int) == pnum);
                let ghost a = self.available_cards@;
                let ghost before = self.active_seats@;
                proof {
                    lemma_card_set_finite(a);
                }
                match draw_card(&mut self.available_cards) {
                    Some(card) => {
                        let mut seat = self.active_seats[idx];
                        seat.hand.add_card(card);
                        self.active_seats.set(idx, seat);
                        proof {
                            lemma_move_to_hand(before, a, self.table@, card.id(), idx as int, seat);
                            lemma_wallet_sum_same(before, self.active_seats@, n as int);
                            assert forall|i: int, j: int|
                                0 <= i < j < self.active_seats@.len() implies (#[trigger] self.active_seats@[i]).player_index
                                < (#[trigger] self.active_seats@[j]).player_index by {
                                assert(before[i].player_index < before[j].player_index);
                            }
                            assert forall|i: int| 0 <= i < n && i != idx implies (#[trigger] self.active_seats@[i]) == before[i] by {}
                        }
                    },
                    None => {
                        proof {
                            assert(a =~= Set::<int>::empty());
                        }
                    },
                }
            }
            proof {
                assert forall|i: int| 0 <= i < n implies offset_from(i, d as int, n as int) < n by {}
            }
        }
    }

    fn next_eligible_seat(&self) -> (r: usize)
        requires
            self.wf(),
            eligible_count(self.active_seats@, self.blind, self.active_seats@.len() as int) > 0,
        ensures
            r == next_eligible(self.active_seats@, self.blind, self.dealer_index as int, 1),
            r < self.active_seats@.len(),
            self.active_seats@[r as int].wallet >= self.blind,
    {
        let n = self.active_seats.len();
        let d = self.dealer_index as usize;
        proof {
            let w = lemma_eligible_witness(self.active_seats@, self.blind, n as int);
            let j = if w > d { w - d } else { w + n - d };
            assert(crate::betting_round::wrap(d + j, n as int) == w);
            lemma_next_eligible(self.active_seats@, self.blind, d as int, 1, j);
        }
        let mut k: usize = 1;
        while k <= n
            invariant
                self.wf(),
                n == self.active_seats@.len(),
                d == self.dealer_index,
                1 <= k <= n + 1,
                next_eligible(self.active_seats@, self.blind, d as int, k as int) == next_eligible(
                    self.active_seats@,
                    self.blind,
                    d as int,
                    1,
                ),
                0 <= next_eligible(self.active_seats@, self.blind, d as int, 1) < n,
                self.active_seats@[next_eligible(self.active_seats@, self.blind, d as int, 1)].wallet >= self.blind,
            decreases n + 1 - k,
        {
            let x = d + k;
            let idx = if x >= n { x - n } else { x };
            if self.active_seats[idx].wallet >= self.blind {
                return idx;
            }
            k = k + 1;
        }
        d
    }

    /// The blinds of a new hand: the seat after the dealer has half the
    /// blind on the table, the one after it twice that, every other seat
    /// nothing; the current bet is the big blind, betting is open and the turn
    /// is with the first seat able to bet from three seats after the dealer.
    pub open spec fn blinds_posted(&self) -> bool {
        let n = self.active_seats@.len() as int;
        let d = self.dealer_index as int;
        let sb = (d + 1) % n;
        let bb = wrap(sb + 1, n);
        let h = self.blind / 2;
        &&& self.betting_round.player_bets@[sb].money_on_table == h
        &&& self.betting_round.player_bets@[bb].money_on_table == 2 * h
        &&& forall|i: int|
            0 <= i < n && i != sb && i != bb ==> #[trigger] self.betting_round.player_bets@[i].money_on_table == 0
        &&& self.betting_round.current_bet == 2 * h
        &&& !self.betting_round.is_complete
        &&& self.betting_round.current_player_index == next_able(self.betting_round.player_bets@, (d + 3) % n, 0)
    }

    /// Starts a hand: clears the board and the hole cards, drops the seats
    /// that cannot pay the blind, moves the dealer to the next seat that can,
    /// and posts the blinds.
    fn init_round(&mut self)
        requires
            old(self).wf(),
            old(self).phase == Phase::Init,
            eligible_count(old(self).active_seats@, old(self).blind, old(self).active_seats@.len() as int) >= 2,
        ensures
            final(self).wf(),
            final(self).phase == Phase::Init,
            final(self).hand_money() <= u32::MAX,
            final(self).betting_round.pot() == 3 * (old(self).blind / 2),
            final(self).blinds_posted(),
            final(self).table@ == Set::<int>::empty(),
            final(self).available_cards@ == all_ids(),
            forall|i: int| 0 <= i < final(self).active_seats@.len() ==> (#[trigger] final(self).active_seats@[i]).hand@
                == Set::<int>::empty(),
            final(self).blind == old(self).blind,
            final(self).active_seats@.len() == kept(
                old(self).active_seats@,
                old(self).blind,
                old(self).active_seats@.len() as int,
            ).len(),
            forall|i: int|
                0 <= i < final(self).active_seats@.len() ==> (#[trigger] final(self).active_seats@[i]).player_index
                    == kept(old(self).active_seats@, old(self).blind, old(self).active_seats@.len() as int)[i].player_index,
            final(self).active_seats@[final(self).dealer_index as int].player_index == old(self).active_seats@[next_eligible(
                old(self).active_seats@,
                old(self).blind,
                old(self).dealer_index as int,
                1,
            )].player_index,
    {
        let ghost old_seats = self.active_seats@;
        let n = self.active_seats.len();
        let chosen = self.next_eligible_seat();
        let blind = self.blind;
        let mut seats: Vec<Seat> = Vec::new();
        let mut new_dealer: usize = 0;
        for j in 0..n
            invariant
                n == old_seats.len(),
                2 <= n <= 255,
                old_seats == self.active_seats@,
                blind == self.blind,
                chosen < n,
                old_seats[chosen as int].wallet >= blind,
                forall|a: int, b: int|
                    0 <= a < b < n ==> (#[trigger] old_seats[a]).player_index < (#[trigger] old_seats[b]).player_index,
                seats@ == kept(old_seats, blind, j as int),
                j > chosen ==> new_dealer < seats@.len() && seats@[new_dealer as int] == cleared(old_seats[chosen as int]),
                forall|a: int, m: int|
                    0 <= a < seats@.len() && j <= m < n ==> (#[trigger] seats@[a]).player_index
                        < (#[trigger] old_seats[m]).player_index,
                forall|a: int, b: int|
                    0 <= a < b < seats@.len() ==> (#[trigger] seats@[a]).player_index < (#[trigger] seats@[b]).player_index,
                forall|a: int| 0 <= a < seats@.len() ==> (#[trigger] seats@[a]).wallet >= blind,
                forall|a: int| 0 <= a < seats@.len() ==> (#[trigger] seats@[a]).hand@ == Set::<int>::empty(),
        {
            let s = self.active_seats[j];
            if s.wallet >= blind {
                if j == chosen {
                    new_dealer = seats.len();
                }
                seats.push(Seat { player_index: s.player_index, hand: Deck::new(), wallet: s.wallet });
            }
        }
        proof {
            lemma_kept(old_seats, blind, n as int);
            assert(new_dealer < seats@.len());
        }
        let count = seats.len();
        self.active_seats = seats;
        self.dealer_index = new_dealer as u8;
        self.available_cards = Deck::full_deck();
        self.table = Deck::new();
        self.betting_round = BettingRound::create_for_players(count as u8);
        proof {
            lemma_fresh_cards(self.active_seats@, count as int);
            crate::betting_round::lemma_pot_sum_zero(self.betting_round.player_bets@, count as int);
            assert(able(self.betting_round.player_bets@[0]));
        }
        self.betting_round.set_new_start_position((new_dealer + 1) as u8);
        let ghost seats_fresh = self.active_seats@;
        let ghost nn = count as int;
        let ghost c = self.betting_round.current_player_index as int;
        let ghost fresh = self.betting_round.player_bets@;
        proof {
            vstd::arithmetic::div_mod::lemma_mod_pos_bound(new_dealer as int + 1, nn);
            let x = (new_dealer as int + 1) % nn;
            assert(able(fresh[wrap(x + 0, nn)]));
            assert(c == x);
            let c1 = crate::betting_round::wrap(c + nn - 1, nn);
            assert(able(fresh[c1]));
            assert(crate::betting_round::prev_able(fresh, c, 1) == c1);
            assert(self.active_seats@[c].wallet >= blind);
        }
        let half = self.blind / 2;
        self.bet_for_current_player(BettingAction::Raise(half));
        let ghost c2 = crate::betting_round::wrap(c + 1, nn);
        proof {
            let bets1 = self.betting_round.player_bets@;
            assert(bets1[c2] == fresh[c2]);
            assert(able(bets1[c2]));
            assert(self.betting_round.current_player_index == c2);
            assert(self.active_seats@[c2].wallet >= blind);
            assert(self.betting_round.pot() == half);
        }
        self.bet_for_current_player(BettingAction::Raise(half));
        proof {
            assert(able(self.betting_round.player_bets@[c]));
            assert(self.betting_round.pot() == 3 * half);
            assert forall|i: int| 0 <= i < self.active_seats@.len() implies (#[trigger] self.active_seats@[i]).hand@
                == Set::<int>::empty() by {
                assert(self.active_seats@[i].hand == seats_fresh[i].hand);
            }
        }
        let ghost bets2 = self.betting_round.player_bets@;
        let x = new_dealer + 3;
        let start = (x % count) as u8;
        proof {
            vstd::arithmetic::div_mod::lemma_mod_pos_bound(x as int, nn);
            vstd::arithmetic::div_mod::lemma_small_mod(start as nat, nn as nat);
            assert(bets2[c].money_on_table == half);
            assert(bets2[c2].money_on_table == 2 * half);
            assert forall|i: int| 0 <= i < nn && i != c && i != c2 implies #[trigger] bets2[i].money_on_table == 0 by {
                assert(bets2[i] == fresh[i]);
            }
        }
        self.betting_round.set_new_start_position(start);
    }

    /// Scores each seat that has not folded against the board, finds the
    /// best score, and pays each seat its part of the pot for the seats with
    /// that score (see `share`).
    pub fn finalize(&mut self)
        requires
            old(self).wf(),
            old(self).hand_money() <= u32::MAX,
        ensures
            final(self).active_seats@.len() == old(self).active_seats@.len(),
            forall|i: int|
                0 <= i < old(self).active_seats@.len() ==> #[trigger] final(self).active_seats@[i] == (Seat {
                    wallet: (old(self).active_seats@[i].wallet + share(
                        old(self).betting_round.player_bets@,
                        showdown_winners(old(self).table@, old(self).active_seats@, old(self).betting_round.player_bets@),
                        i,
                        0,
                    )) as u32,
                    ..old(self).active_seats@[i]
                }),
            wallet_sum(final(self).active_seats@, final(self).active_seats@.len() as int) <= u32::MAX,
            final(self).phase == old(self).phase,
            final(self).table == old(self).table,
            final(self).available_cards == old(self).available_cards,
            final(self).betting_round == old(self).betting_round,
            final(self).dealer_index == old(self).dealer_index,
            final(self).blind == old(self).blind,
    {
        let n = self.active_seats.len();
        let ghost old_seats = self.active_seats@;
        let ghost bets = self.betting_round.player_bets@;
        let ghost spec_scores = showdown_scores(self.table@, old_seats, bets);
        let mut scores: Vec<u32> = Vec::new();
        for i in 0..n
            invariant
                self.wf(),
                n == self.active_seats@.len(),
                old_seats == self.active_seats@,
                bets == self.betting_round.player_bets@,
                spec_scores == showdown_scores(self.table@, old_seats, bets),
                scores@.len() == i,
                forall|j: int| 0 <= j < i ==> #[trigger] scores@[j] == spec_scores[j],
        {
            let score = if self.betting_round.player_bets[i].is_folded {
                0
            } else {
                get_hand_score(&self.table, &self.active_seats[i].hand)
            };
            scores.push(score);
        }
        assert(scores@ =~= spec_scores);
        let mut winning_score: u32 = 0;
        for i in 0..n
            invariant
                n == scores@.len(),
                winning_score as int == best_of(scores@, i as int),
        {
            if scores[i] > winning_score {
                winning_score = scores[i];
            }
        }
        let mut winning_indexes: Vec<usize> = Vec::new();
        for i in 0..n
            invariant
                n == scores@.len(),
                winning_indexes@ == holders_of(scores@, winning_score as int, i as int),
        {
            if scores[i] == winning_score {
                winning_indexes.push(i);
            }
        }
        proof {
            lemma_holders(scores@, winning_score as int, n as int);
        }
        let ghost winners = winning_indexes@;
        let pot_splits = self.betting_round.get_pot_split(winning_indexes);
        proof {
            lemma_share_sum_bound(bets, winners, 0);
            lemma_remaining_zero(bets, n as int);
            lemma_share_sum_nonneg(bets, winners, n as int);
        }
        for i in 0..n
            invariant
                n == self.active_seats@.len(),
                n == old_seats.len(),
                n == bets.len(),
                pot_splits@.len() == n,
                forall|j: int| 0 <= j < n ==> #[trigger] pot_splits@[j] == share(bets, winners, j, 0),
                forall|k: int| 0 <= k < winners.len() ==> #[trigger] winners[k] < n,
                wallet_sum(old_seats, n as int) + share_sum(bets, winners, n as int, 0) <= u32::MAX,
                forall|j: int|
                    0 <= j < n ==> #[trigger] self.active_seats@[j] == if j < i {
                        Seat { wallet: (old_seats[j].wallet + share(bets, winners, j, 0)) as u32, ..old_seats[j] }
                    } else {
                        old_seats[j]
                    },
                self.phase == old(self).phase,
                self.table == old(self).table,
                self.available_cards == old(self).available_cards,
                self.betting_round == old(self).betting_round,
                self.dealer_index == old(self).dealer_index,
                self.blind == old(self).blind,
        {
            proof {
                lemma_wallet_sum_bound(old_seats, n as int, i as int);
                lemma_share_sum_parts(bets, winners, n as int, i as int);
            }
            let mut seat = self.active_seats[i];
            seat.wallet = seat.wallet + pot_splits[i];
            self.active_seats.set(i, seat);
        }
        proof {
            assert forall|j: int| 0 <= j < n implies (#[trigger] self.active_seats@[j]).wallet == old_seats[j].wallet
                + share(bets, winners, j, 0) by {
                lemma_wallet_sum_bound(old_seats, n as int, j);
                lemma_share_sum_parts(bets, winners, n as int, j);
                crate::betting_round::lemma_share_bound(bets, winners, j, 0);
                assert(self.active_seats@[j] == Seat {
                    wallet: (old_seats[j].wallet + share(bets, winners, j, 0)) as u32,
                    ..old_seats[j]
                });
                assert(old_seats[j].wallet + share(bets, winners, j, 0) <= u32::MAX);
            }
            lemma_wallet_sum_credit(old_seats, self.active_seats@, bets, winners, n as int);
        }
    }

    /// The number of seats whose wallet holds at least the blind.
    fn count_eligible(&self) -> (r: usize)
        requires
            self.active_seats@.len() <= 255,
        ensures
            r as int == eligible_count(self.active_seats@, self.blind, self.active_seats@.len() as int),
    {
        let mut count: usize = 0;
        for i in 0..self.active_seats.len()
            invariant
                self.active_seats@.len() <= 255,
                count as int == eligible_count(self.active_seats@, self.blind, i as int),
                count <= i,
        {
            if self.active_seats[i].wallet >= self.blind {
                count = count + 1;
            }
        }
        count
    }

    /// Resets the betting for the next street and deals `num_cards` to the board.
    fn next_street(&mut self, num_cards: u8)
        requires
            old(self).wf(),
            old(self).phase != Phase::Init,
            able_count(old(self).betting_round.player_bets@, old(self).betting_round.n()) > 0,
        ensures
            final(self).wf(),
            final(self).phase == old(self).phase,
            old(self).street_dealt(*final(self), num_cards as int),
            final(self).betting_round.current_player_index == next_able(
                final(self).betting_round.player_bets@,
                wrap(old(self).betting_round.current_player_index + 1, old(self).betting_round.n()),
                0,
            ),
    {
        proof {
            let w = lemma_able_count_pos(self.betting_round.player_bets@, self.betting_round.n());
        }
        let ghost before = self.betting_round.pot();
        self.betting_round.reset_for_next_phase();
        proof {
            crate::betting_round::lemma_pot_sum_same(
                old(self).betting_round.player_bets@,
                self.betting_round.player_bets@,
                self.betting_round.n(),
            );
        }
        self.deal_cards_to_table(num_cards);
        proof {
            let n = self.active_seats@.len() as int;
            lemma_hands_total_bound(old(self).active_seats@, n);
            lemma_card_set_finite(old(self).table@);
            lemma_card_set_finite(old(self).available_cards@);
        }
    }

    /// `next` is this game once a new street has started and `k` board
    /// cards have been dealt: every seat's bet on the table is back to 0 and
    /// betting is open; the board grows by `k` undealt cards, or by all that
    /// are left; the seats are unchanged.
    pub open spec fn street_dealt(&self, next: Game, k: int) -> bool {
        let n = self.active_seats@.len() as int;
        &&& next.betting_round.player_bets@.len() == n
        &&& forall|i: int|
            0 <= i < n ==> #[trigger] next.betting_round.player_bets@[i] == (PlayerBet {
                money_on_table: 0,
                ..self.betting_round.player_bets@[i]
            })
        &&& next.betting_round.current_bet == 0
        &&& !next.betting_round.is_complete
        &&& self.table@.subset_of(next.table@)
        &&& next.table@.subset_of(self.table@.union(self.available_cards@))
        &&& next.table@.len() == self.table@.len() + min_int(k, self.available_cards@.len() as int)
        &&& self.table@.len() + k + 2 * n <= 52 ==> next.table@.len() == self.table@.len() + k
        &&& next.active_seats == self.active_seats
        &&& next.dealer_index == self.dealer_index
        &&& next.blind == self.blind
    }

    /// Moves the hand on by one step, when nobody is to act.
    ///
    /// From `Init` a new hand starts (hole cards dealt, blinds posted) and
    /// the phase is `PreFlop`; from `PreFlop`, `Flop` and `Turn` the next
    /// street starts with three, one and one board cards, while two seats or
    /// more can still bet, and otherwise the hand goes to `Showdown`; `River`
    /// goes to `Showdown`; at `Showdown` the board is completed, the pot paid
    /// out, and the phase is `Init` again. Returns the new phase, or none when
    /// fewer than two seats can pay the blind.
    pub fn advance(&mut self) -> (r: Option<Phase>)
        requires
            old(self).wf(),
        ensures
            final(self).wf(),
            old(self).current_seat() is Some ==> r == Some(old(self).phase) && *final(self) == *old(self),
            old(self).current_seat() is None ==> match old(self).phase {
                Phase::Init => if eligible_count(
                    old(self).active_seats@,
                    old(self).blind,
                    old(self).active_seats@.len() as int,
                ) < 2 {
                    r.is_none() && *final(self) == *old(self)
                } else {
                    let k = kept(old(self).active_seats@, old(self).blind, old(self).active_seats@.len() as int);
                    &&& r == Some(Phase::PreFlop)
                    &&& final(self).phase == Phase::PreFlop
                    &&& final(self).betting_round.pot() == 3 * (old(self).blind / 2)
                    &&& final(self).blinds_posted()
                    &&& 2 * k.len() <= 52 ==> forall|i: int|
                        0 <= i < k.len() ==> (#[trigger] final(self).active_seats@[i]).hand@.len() == 2
                    &&& final(self).table@ == Set::<int>::empty()
                    &&& final(self).active_seats@.len() == k.len()
                    &&& forall|i: int|
                        0 <= i < k.len() ==> (#[trigger] final(self).active_seats@[i]).player_index
                            == k[i].player_index
                    &&& final(self).active_seats@[final(self).dealer_index as int].player_index
                        == old(self).active_seats@[next_eligible(
                        old(self).active_seats@,
                        old(self).blind,
                        old(self).dealer_index as int,
                        1,
                    )].player_index
                },
                Phase::PreFlop => old(self).next_street_taken(*final(self), r, Phase::Flop, 3),
                Phase::Flop => old(self).next_street_taken(*final(self), r, Phase::Turn, 1),
                Phase::Turn => old(self).next_street_taken(*final(self), r, Phase::River, 1),
                Phase::River => r == Some(Phase::Showdown) && *final(self) == (Game {
                    phase: Phase::Showdown,
                    ..*old(self)
                }),
                Phase::Showdown => {
                    &&& final(self).phase == Phase::Init
                    &&& old(self).table@.subset_of(final(self).table@)
                    &&& old(self).table@.len() < 5 && old(self).table@.len() + old(self).available_cards@.len() >= 5
                        ==> final(self).table@.len() == 5
                    &&& old(self).table@.len() < 5 && 2 * old(self).active_seats@.len() + 5 <= 52
                        ==> final(self).table@.len() == 5
                    &&& final(self).active_seats@.len() == old(self).active_seats@.len()
                    &&& forall|i: int|
                        0 <= i < old(self).active_seats@.len() ==> #[trigger] final(self).active_seats@[i] == (Seat {
                            wallet: (old(self).active_seats@[i].wallet + share(
                                old(self).betting_round.player_bets@,
                                showdown_winners(
                                    final(self).table@,
                                    old(self).active_seats@,
                                    old(self).betting_round.player_bets@,
                                ),
                                i,
                                0,
                            )) as u32,
                            ..old(self).active_seats@[i]
                        })
                    &&& (r.is_none() <==> eligible_count(
                        final(self).active_seats@,
                        final(self).blind,
                        final(self).active_seats@.len() as int,
                    ) < 2)
                    &&& r.is_some() ==> r == Some(Phase::Init)
                },
            },
    {
        if self.get_current_seat().is_some() {
            return Some(self.phase);
        }
        match self.phase {
            Phase::Init => {
                if self.count_eligible() < 2 {
                    return None;
                }
                self.init_round();
                proof {
                    vstd::set_lib::lemma_int_range(0, 52);
                    assert(all_ids() =~= vstd::set_lib::set_int_range(0, 52));
                }
                let ghost dealt_from = self.active_seats@;
                self.deal_cards_to_players();
                proof {
                    lemma_wallet_sum_same(dealt_from, self.active_seats@, dealt_from.len() as int);
                }
                self.phase = Phase::PreFlop;
            },
            Phase::PreFlop => {
                if self.betting_round.get_num_players_able_to_bets() > 1 {
                    self.next_street(3);
                    proof {
                        let c = self.betting_round.current_player_index as int;
                        assert(able(self.betting_round.player_bets@[c]));
                    }
                    self.betting_round.set_new_start_position(self.dealer_index + 1);
                    self.phase = Phase::Flop;
                } else {
                    self.phase = Phase::Showdown;
                }
            },
            Phase::Flop => {
                if self.betting_round.get_num_players_able_to_bets() > 1 {
                    self.next_street(1);
                    self.phase = Phase::Turn;
                } else {
                    self.phase = Phase::Showdown;
                }
            },
            Phase::Turn => {
                if self.betting_round.get_num_players_able_to_bets() > 1 {
                    self.next_street(1);
                    self.phase = Phase::River;
                } else {
                    self.phase = Phase::Showdown;
                }
            },
            Phase::River => {
                self.phase = Phase::Showdown;
            },
            Phase::Showdown => {
                let cards_on_table = self.table.len();
                proof {
                    lemma_num_cards_len(self.table);
                    lemma_card_set_finite(self.available_cards@);
                    lemma_hands_total_bound(self.active_seats@, self.active_seats@.len() as int);
                }
                if cards_on_table < 5 {
                    self.deal_cards_to_table(5 - cards_on_table);
                }
                let ghost paid_from = self.active_seats@;
                self.finalize();
                self.phase = Phase::Init;
                proof {
                    assert forall|i: int, j: int|
                        0 <= i < j < self.active_seats@.len() implies (#[trigger] self.active_seats@[i]).player_index
                        < (#[trigger] self.active_seats@[j]).player_index by {
                        assert(paid_from[i].player_index < paid_from[j].player_index);
                    }
                    lemma_same_hands(paid_from, self.active_seats@, self.available_cards@, self.table@);
                }
                if self.count_eligible() < 2 {
                    return None;
                }
            },
        }
        Some(self.phase)
    }

    /// `next` and `r` are what a betting street's end gives: while two seats
    /// or more can bet, the street `street` starts with `k` new board cards
    /// (the flop with the seat after the dealer to act first); else the hand
    /// goes to showdown with nothing else changed.
    pub open spec fn next_street_taken(&self, next: Game, r: Option<Phase>, street: Phase, k: int) -> bool {
        &&& able_count(self.betting_round.player_bets@, self.betting_round.n()) > 1 ==> {
            &&& r == Some(street)
            &&& next.phase == street
            &&& self.street_dealt(next, k)
            &&& next.betting_round.current_player_index == if street == Phase::Flop {
                next_able(
                    next.betting_round.player_bets@,
                    (self.dealer_index + 1) as int % self.active_seats@.len() as int,
                    0,
                )
            } else {
                next_able(
                    next.betting_round.player_bets@,
                    wrap(self.betting_round.current_player_index + 1, self.betting_round.n()),
                    0,
                )
            }
        }
        &&& able_count(self.betting_round.player_bets@, self.betting_round.n()) <= 1 ==> r == Some(
            Phase::Showdown,
        ) && next == (Game { phase: Phase::Showdown, ..*self })
    }
}

} // verus!
