use vstd::prelude::*;

verus! {

/// What a seat does on its turn, with the money it commits.
#[derive(Debug, Clone, Copy, PartialEq, Eq, Structural)]
pub enum BettingAction {
    Fold,
    /// Matches the current bet.
    Call,
    /// Puts this much more on the table; the seat's total must reach the current bet.
    Raise(u32),
    /// Puts the seat's whole remaining wallet, this much, on the table.
    AllIn(u32),
}

/// One seat's part in a betting round.
#[derive(Debug, Clone, Copy, PartialEq, Eq, Structural)]
pub struct PlayerBet {
    /// Money the seat has put into the pot over the whole hand.
    pub money_in_pot: u32,
    /// Money the seat has put on the table on the current street.
    pub money_on_table: u32,
    pub is_folded: bool,
    pub is_all_in: bool,
}

pub open spec fn able(b: PlayerBet) -> bool {
    !b.is_folded && !b.is_all_in
}

impl PlayerBet {
    /// Whether the seat can still act: it has neither folded nor gone all in.
    pub fn is_able_to_bet(&self) -> (r: bool)
        ensures
            r == able(*self),
    {
        !self.is_folded && !self.is_all_in
    }
}

/// `x` brought back into `[0, n)`, for `0 <= x < 2 * n`.
pub open spec fn wrap(x: int, n: int) -> int {
    if x >= n {
        x - n
    } else {
        x
    }
}

/// The first seat able to bet at or after `start`, looking at offsets from
/// `k` on and going round the table; `start` if none is.
pub open spec fn next_able(bets: Seq<PlayerBet>, start: int, k: int) -> int
    decreases bets.len() - k,
{
    if k >= bets.len() || k < 0 {
        start
    } else if able(bets[wrap(start + k, bets.len() as int)]) {
        wrap(start + k, bets.len() as int)
    } else {
        next_able(bets, start, k + 1)
    }
}

/// The last seat able to bet before `start`, looking back by offsets from
/// `k` on and going round the table; `start` if none is.
pub open spec fn prev_able(bets: Seq<PlayerBet>, start: int, k: int) -> int
    decreases bets.len() + 1 - k,
{
    if k > bets.len() || k < 1 {
        start
    } else if able(bets[wrap(start + bets.len() - k, bets.len() as int)]) {
        wrap(start + bets.len() - k, bets.len() as int)
    } else {
        prev_able(bets, start, k + 1)
    }
}

/// The number of seats among the first `n` that are able to bet.
pub open spec fn able_count(bets: Seq<PlayerBet>, n: int) -> int
    decreases n,
{
    if n <= 0 {
        0
    } else {
        able_count(bets, n - 1) + if able(bets[n - 1]) { 1int } else { 0int }
    }
}

/// The money in the pot from the first `n` seats.
pub open spec fn pot_sum(bets: Seq<PlayerBet>, n: int) -> int
    decreases n,
{
    if n <= 0 {
        0
    } else {
        pot_sum(bets, n - 1) + bets[n - 1].money_in_pot
    }
}

/// The indexes of the first `n` seats that have not folded, in order.
pub open spec fn unfolded(bets: Seq<PlayerBet>, n: int) -> Seq<u8>
    decreases n,
{
    if n <= 0 {
        Seq::empty()
    } else if !bets[n - 1].is_folded {
        unfolded(bets, n - 1).push((n - 1) as u8)
    } else {
        unfolded(bets, n - 1)
    }
}


/// The smallest contribution among the first `n` seats above `prev`;
/// `2^32`, above every `u32`, when there is none.
pub open spec fn min_above(bets: Seq<PlayerBet>, prev: int, n: int) -> int
    decreases n,
{
    if n <= 0 {
        0x1_0000_0000
    } else {
        let m = min_above(bets, prev, n - 1);
        let v = bets[n - 1].money_in_pot as int;
        if v > prev && v < m {
            v
        } else {
            m
        }
    }
}

/// The number of seats among the first `n` whose contribution reaches `level`.
pub open spec fn reaching(bets: Seq<PlayerBet>, level: int, n: int) -> int
    decreases n,
{
    if n <= 0 {
        0
    } else {
        reaching(bets, level, n - 1) + if bets[n - 1].money_in_pot >= level { 1int } else { 0int }
    }
}

/// The number of the first `k` winners whose contribution reaches `level`.
pub open spec fn winners_reaching(bets: Seq<PlayerBet>, winners: Seq<usize>, level: int, k: int) -> int
    decreases k,
{
    if k <= 0 {
        0
    } else {
        winners_reaching(bets, winners, level, k - 1) + if bets[winners[k - 1] as int].money_in_pot
            >= level {
            1int
        } else {
            0int
        }
    }
}

/// The money above `prev` that the seats have put in.
pub open spec fn remaining(bets: Seq<PlayerBet>, prev: int, n: int) -> int
    decreases n,
{
    if n <= 0 {
        0
    } else {
        remaining(bets, prev, n - 1) + if bets[n - 1].money_in_pot > prev {
            bets[n - 1].money_in_pot - prev
        } else {
            0
        }
    }
}

/// Whether seat `i` is among the winners.
pub open spec fn is_winner(winners: Seq<usize>, i: int) -> bool {
    exists|k: int| 0 <= k < winners.len() && winners[k] as int == i
}

/// What seat `i` wins of the pot above contribution level `prev`.
///
/// The distinct contribution levels are taken from low to high. The slice
/// of a level is its height above the one below times the number of seats
/// whose contribution reaches it; it is shared evenly, rounding down, among
/// the winners whose contribution reaches it. What rounding leaves over goes
/// to nobody.
pub open spec fn share(bets: Seq<PlayerBet>, winners: Seq<usize>, i: int, prev: int) -> int
    decreases 0x1_0000_0000 - prev,
{
    let n = bets.len() as int;
    let level = min_above(bets, prev, n);
    if level > u32::MAX || level <= prev {
        0
    } else {
        (if is_winner(winners, i) && bets[i].money_in_pot >= level {
            reaching(bets, level, n) * (level - prev) / winners_reaching(
                bets,
                winners,
                level,
                winners.len() as int,
            )
        } else {
            0
        }) + share(bets, winners, i, level)
    }
}

pub proof fn lemma_min_above(bets: Seq<PlayerBet>, prev: int, n: int)
    requires
        0 <= n <= bets.len(),
        prev < 0x1_0000_0000,
    ensures
        forall|j: int| 0 <= j < n && bets[j].money_in_pot > prev ==> bets[j].money_in_pot >= min_above(bets, prev, n),
        min_above(bets, prev, n) > prev,
        min_above(bets, prev, n) <= u32::MAX ==> exists|j: int|
            0 <= j < n && bets[j].money_in_pot == min_above(bets, prev, n),
    decreases n,
{
    if n > 0 {
        lemma_min_above(bets, prev, n - 1);
        let m = min_above(bets, prev, n - 1);
        let v = bets[n - 1].money_in_pot as int;
        if v > prev && v < m {
        } else if m <= u32::MAX {
            let j = choose|j: int| 0 <= j < n - 1 && bets[j].money_in_pot == m;
            assert(0 <= j < n && bets[j].money_in_pot == min_above(bets, prev, n));
        }
    }
}

pub proof fn lemma_remaining_step(bets: Seq<PlayerBet>, prev: int, level: int, n: int)
    requires
        0 <= n <= bets.len(),
        prev < level,
        forall|j: int| 0 <= j < bets.len() && bets[j].money_in_pot > prev ==> bets[j].money_in_pot >= level,
    ensures
        remaining(bets, prev, n) == reaching(bets, level, n) * (level - prev) + remaining(bets, level, n),
    decreases n,
{
    if n > 0 {
        lemma_remaining_step(bets, prev, level, n - 1);
        let a = reaching(bets, level, n - 1);
        let x = if bets[n - 1].money_in_pot >= level { 1int } else { 0int };
        assert(reaching(bets, level, n) == a + x);
        assert((a + x) * (level - prev) == a * (level - prev) + x * (level - prev)) by (nonlinear_arith);
    }
}

pub proof fn lemma_remaining_mono(bets: Seq<PlayerBet>, prev: int, n: int)
    requires
        0 <= n <= bets.len(),
        prev >= 0,
    ensures
        remaining(bets, prev, n) <= remaining(bets, 0, n),
    decreases n,
{
    if n > 0 {
        lemma_remaining_mono(bets, prev, n - 1);
    }
}

pub proof fn lemma_remaining_nonneg(bets: Seq<PlayerBet>, prev: int, n: int)
    requires
        0 <= n <= bets.len(),
    ensures
        remaining(bets, prev, n) >= 0,
    decreases n,
{
    if n > 0 {
        lemma_remaining_nonneg(bets, prev, n - 1);
    }
}

pub proof fn lemma_remaining_zero(bets: Seq<PlayerBet>, n: int)
    requires
        0 <= n <= bets.len(),
    ensures
        remaining(bets, 0, n) == pot_sum(bets, n),
    decreases n,
{
    if n > 0 {
        lemma_remaining_zero(bets, n - 1);
    }
}

pub proof fn lemma_winners_reaching_pos(bets: Seq<PlayerBet>, winners: Seq<usize>, level: int, k: int, m: int)
    requires
        0 <= m < k <= winners.len(),
        0 <= winners[m] < bets.len(),
        bets[winners[m] as int].money_in_pot >= level,
    ensures
        winners_reaching(bets, winners, level, k) >= 1,
    decreases k,
{
    if m < k - 1 {
        lemma_winners_reaching_pos(bets, winners, level, k - 1, m);
    }
    lemma_winners_reaching_nonneg(bets, winners, level, k - 1);
}

pub proof fn lemma_winners_reaching_nonneg(bets: Seq<PlayerBet>, winners: Seq<usize>, level: int, k: int)
    requires
        k <= winners.len(),
    ensures
        winners_reaching(bets, winners, level, k) >= 0,
    decreases k,
{
    if k > 0 {
        lemma_winners_reaching_nonneg(bets, winners, level, k - 1);
    }
}

pub proof fn lemma_reaching_bounds(bets: Seq<PlayerBet>, level: int, n: int)
    requires
        0 <= n <= bets.len(),
    ensures
        0 <= reaching(bets, level, n) <= n,
    decreases n,
{
    if n > 0 {
        lemma_reaching_bounds(bets, level, n - 1);
    }
}

/// A seat never wins more than the money above `prev`.
pub proof fn lemma_share_bound(bets: Seq<PlayerBet>, winners: Seq<usize>, i: int, prev: int)
    requires
        0 <= i < bets.len(),
        forall|k: int| 0 <= k < winners.len() ==> #[trigger] winners[k] < bets.len(),
    ensures
        0 <= share(bets, winners, i, prev) <= remaining(bets, prev, bets.len() as int),
    decreases 0x1_0000_0000 - prev,
{
    let n = bets.len() as int;
    let level = min_above(bets, prev, n);
    lemma_remaining_nonneg(bets, prev, n);
    if level > u32::MAX || level <= prev {
    } else {
        lemma_min_above(bets, prev, n);
        lemma_remaining_step(bets, prev, level, n);
        lemma_share_bound(bets, winners, i, level);
        lemma_reaching_bounds(bets, level, n);
        let slice = reaching(bets, level, n) * (level - prev);
        assert(reaching(bets, level, n) * (level - prev) >= 0) by (nonlinear_arith)
            requires
                reaching(bets, level, n) >= 0,
                level > prev,
        ;
        if is_winner(winners, i) && bets[i].money_in_pot >= level {
            let m = choose|m: int| 0 <= m < winners.len() && winners[m] as int == i;
            lemma_winners_reaching_pos(bets, winners, level, winners.len() as int, m);
            let k = winners_reaching(bets, winners, level, winners.len() as int);
            assert(slice / k <= slice && slice / k >= 0) by (nonlinear_arith)
                requires
                    k >= 1,
                    slice >= 0,
            ;
        }
    }
}

/// The winnings of the first `m` seats above level `prev`.
pub open spec fn share_sum(bets: Seq<PlayerBet>, winners: Seq<usize>, m: int, prev: int) -> int
    decreases m,
{
    if m <= 0 {
        0
    } else {
        share_sum(bets, winners, m - 1, prev) + share(bets, winners, m - 1, prev)
    }
}

/// The number of the first `m` seats that are among the first `k` winners
/// and whose contribution reaches `level`.
pub open spec fn win_count(bets: Seq<PlayerBet>, winners: Seq<usize>, k: int, level: int, m: int) -> int
    decreases m,
{
    if m <= 0 {
        0
    } else {
        win_count(bets, winners, k, level, m - 1) + if is_winner(winners.subrange(0, k), m - 1)
            && bets[m - 1].money_in_pot >= level {
            1int
        } else {
            0int
        }
    }
}

pub proof fn lemma_win_count_step(bets: Seq<PlayerBet>, winners: Seq<usize>, k: int, level: int, m: int)
    requires
        0 <= k < winners.len(),
        0 <= m <= bets.len(),
    ensures
        win_count(bets, winners, k + 1, level, m) <= win_count(bets, winners, k, level, m) + if winners[k] < m
            && bets[winners[k] as int].money_in_pot >= level {
            1int
        } else {
            0int
        },
        win_count(bets, winners, k, level, m) >= 0,
    decreases m,
{
    if m > 0 {
        lemma_win_count_step(bets, winners, k, level, m - 1);
        let i = m - 1;
        if is_winner(winners.subrange(0, k + 1), i) && !is_winner(winners.subrange(0, k), i) {
            let j = choose|j: int| 0 <= j < k + 1 && #[trigger] winners.subrange(0, k + 1)[j] as int == i;
            if j < k {
                assert(winners.subrange(0, k)[j] == winners.subrange(0, k + 1)[j]);
            }
            assert(winners[k] as int == i);
        }
        if is_winner(winners.subrange(0, k), i) {
            let j = choose|j: int| 0 <= j < k && #[trigger] winners.subrange(0, k)[j] as int == i;
            assert(winners.subrange(0, k + 1)[j] == winners.subrange(0, k)[j]);
        }
    }
}

pub proof fn lemma_win_count_bound(bets: Seq<PlayerBet>, winners: Seq<usize>, k: int, level: int)
    requires
        0 <= k <= winners.len(),
    ensures
        win_count(bets, winners, k, level, bets.len() as int) <= winners_reaching(bets, winners, level, k),
    decreases k,
{
    if k == 0 {
        lemma_win_count_zero(bets, winners, level, bets.len() as int);
    } else {
        lemma_win_count_bound(bets, winners, k - 1, level);
        lemma_win_count_step(bets, winners, k - 1, level, bets.len() as int);
    }
}

pub proof fn lemma_win_count_nonneg(bets: Seq<PlayerBet>, winners: Seq<usize>, k: int, level: int, m: int)
    ensures
        win_count(bets, winners, k, level, m) >= 0,
    decreases m,
{
    if m > 0 {
        lemma_win_count_nonneg(bets, winners, k, level, m - 1);
    }
}

pub proof fn lemma_win_count_zero(bets: Seq<PlayerBet>, winners: Seq<usize>, level: int, m: int)
    requires
        m <= bets.len(),
    ensures
        win_count(bets, winners, 0, level, m) == 0,
    decreases m,
{
    if m > 0 {
        lemma_win_count_zero(bets, winners, level, m - 1);
    }
}

pub proof fn lemma_share_sum_level(bets: Seq<PlayerBet>, winners: Seq<usize>, prev: int, m: int)
    requires
        0 <= m <= bets.len(),
        prev < min_above(bets, prev, bets.len() as int) <= u32::MAX,
    ensures
        ({
            let level = min_above(bets, prev, bets.len() as int);
            let q = reaching(bets, level, bets.len() as int) * (level - prev) / winners_reaching(
                bets,
                winners,
                level,
                winners.len() as int,
            );
            share_sum(bets, winners, m, prev) == win_count(bets, winners, winners.len() as int, level, m) * q
                + share_sum(bets, winners, m, level)
        }),
    decreases m,
{
    if m > 0 {
        lemma_share_sum_level(bets, winners, prev, m - 1);
        let level = min_above(bets, prev, bets.len() as int);
        let q = reaching(bets, level, bets.len() as int) * (level - prev) / winners_reaching(
            bets,
            winners,
            level,
            winners.len() as int,
        );
        assert(winners.subrange(0, winners.len() as int) =~= winners);
        let c = win_count(bets, winners, winners.len() as int, level, m - 1);
        assert((c + 1) * q == c * q + q) by (nonlinear_arith);
    }
}

/// The winnings of all seats together never exceed the money above `prev`.
pub proof fn lemma_share_sum_bound(bets: Seq<PlayerBet>, winners: Seq<usize>, prev: int)
    requires
        forall|k: int| 0 <= k < winners.len() ==> #[trigger] winners[k] < bets.len(),
    ensures
        share_sum(bets, winners, bets.len() as int, prev) <= remaining(bets, prev, bets.len() as int),
    decreases 0x1_0000_0000 - prev,
{
    let n = bets.len() as int;
    let level = min_above(bets, prev, n);
    lemma_remaining_nonneg(bets, prev, n);
    if level > u32::MAX || level <= prev {
        lemma_share_sum_none(bets, winners, prev, n);
    } else {
        lemma_min_above(bets, prev, n);
        lemma_remaining_step(bets, prev, level, n);
        lemma_share_sum_bound(bets, winners, level);
        lemma_share_sum_level(bets, winners, prev, n);
        lemma_reaching_bounds(bets, level, n);
        lemma_win_count_bound(bets, winners, winners.len() as int, level);
        lemma_win_count_nonneg(bets, winners, winners.len() as int, level, n);
        lemma_winners_reaching_nonneg(bets, winners, level, winners.len() as int);
        let slice = reaching(bets, level, n) * (level - prev);
        let k = winners_reaching(bets, winners, level, winners.len() as int);
        let w = win_count(bets, winners, winners.len() as int, level, n);
        assert(reaching(bets, level, n) * (level - prev) >= 0) by (nonlinear_arith)
            requires
                reaching(bets, level, n) >= 0,
                level > prev,
        ;
        if winners.len() > 0 {
            lemma_win_count_step(bets, winners, winners.len() - 1, level, n);
        } else {
            lemma_win_count_zero(bets, winners, level, n);
            assert(winners.subrange(0, 0) =~= winners);
        }
        assert(w * (slice / k) <= slice) by (nonlinear_arith)
            requires
                0 <= w <= k,
                slice >= 0,
        ;
    }
}

pub proof fn lemma_share_sum_none(bets: Seq<PlayerBet>, winners: Seq<usize>, prev: int, m: int)
    requires
        0 <= m <= bets.len(),
        min_above(bets, prev, bets.len() as int) > u32::MAX || min_above(bets, prev, bets.len() as int) <= prev,
    ensures
        share_sum(bets, winners, m, prev) == 0,
    decreases m,
{
    if m > 0 {
        lemma_share_sum_none(bets, winners, prev, m - 1);
    }
}

pub proof fn lemma_next_able(bets: Seq<PlayerBet>, start: int, k: int, j: int)
    requires
        0 <= start < bets.len(),
        0 <= k <= j < bets.len(),
        able(bets[wrap(start + j, bets.len() as int)]),
    ensures
        0 <= next_able(bets, start, k) < bets.len(),
        able(bets[next_able(bets, start, k)]),
    decreases j - k,
{
    if !able(bets[wrap(start + k, bets.len() as int)]) {
        lemma_next_able(bets, start, k + 1, j);
    }
}

pub proof fn lemma_prev_able(bets: Seq<PlayerBet>, start: int, k: int, j: int)
    requires
        0 <= start < bets.len(),
        1 <= k <= j <= bets.len(),
        able(bets[wrap(start + bets.len() - j, bets.len() as int)]),
    ensures
        0 <= prev_able(bets, start, k) < bets.len(),
        able(bets[prev_able(bets, start, k)]),
    decreases j - k,
{
    if !able(bets[wrap(start + bets.len() - k, bets.len() as int)]) {
        lemma_prev_able(bets, start, k + 1, j);
    }
}

/// Some seat able to bet makes both searches land on a seat able to bet.
pub proof fn lemma_able_found(bets: Seq<PlayerBet>, start: int, i: int)
    requires
        0 <= start < bets.len(),
        0 <= i < bets.len(),
        able(bets[i]),
    ensures
        0 <= next_able(bets, start, 0) < bets.len(),
        able(bets[next_able(bets, start, 0)]),
        0 <= prev_able(bets, start, 1) < bets.len(),
        able(bets[prev_able(bets, start, 1)]),
{
    let n = bets.len() as int;
    let j = if i >= start { i - start } else { i + n - start };
    assert(wrap(start + j, n) == i);
    lemma_next_able(bets, start, 0, j);
    let jj = if start >= i { start - i } else { start + n - i };
    if jj == 0 {
        assert(wrap(start + n - n, n) == i);
        lemma_prev_able(bets, start, 1, n);
    } else {
        assert(wrap(start + n - jj, n) == i);
        lemma_prev_able(bets, start, 1, jj);
    }
}

pub proof fn lemma_able_count_pos(bets: Seq<PlayerBet>, n: int) -> (i: int)
    requires
        0 <= n <= bets.len(),
        able_count(bets, n) > 0,
    ensures
        0 <= i < n,
        able(bets[i]),
    decreases n,
{
    if able(bets[n - 1]) {
        n - 1
    } else {
        lemma_able_count_pos(bets, n - 1)
    }
}

pub proof fn lemma_able_count_bounds(bets: Seq<PlayerBet>, n: int)
    requires
        0 <= n <= bets.len(),
    ensures
        0 <= able_count(bets, n) <= n,
    decreases n,
{
    if n > 0 {
        lemma_able_count_bounds(bets, n - 1);
    }
}

pub proof fn lemma_pot_sum_update(bets: Seq<PlayerBet>, n: int, i: int, b: PlayerBet)
    requires
        0 <= n <= bets.len(),
        0 <= i < bets.len(),
    ensures
        pot_sum(bets.update(i, b), n) == pot_sum(bets, n) + if i < n {
            b.money_in_pot - bets[i].money_in_pot
        } else {
            0int
        },
    decreases n,
{
    if n > 0 {
        lemma_pot_sum_update(bets, n - 1, i, b);
    }
}

pub proof fn lemma_pot_sum_bounds(bets: Seq<PlayerBet>, n: int, i: int)
    requires
        0 <= i < n <= bets.len(),
    ensures
        bets[i].money_in_pot <= pot_sum(bets, n),
    decreases n,
{
    if i < n - 1 {
        lemma_pot_sum_bounds(bets, n - 1, i);
    }
    lemma_pot_sum_nonneg(bets, n - 1);
}

pub proof fn lemma_pot_sum_zero(bets: Seq<PlayerBet>, n: int)
    requires
        n <= bets.len(),
        forall|j: int| 0 <= j < n ==> (#[trigger] bets[j]).money_in_pot == 0,
    ensures
        pot_sum(bets, n) == 0,
    decreases n,
{
    if n > 0 {
        lemma_pot_sum_zero(bets, n - 1);
    }
}

pub proof fn lemma_pot_sum_same(a: Seq<PlayerBet>, b: Seq<PlayerBet>, n: int)
    requires
        n <= a.len(),
        n <= b.len(),
        forall|j: int| 0 <= j < n ==> (#[trigger] a[j]).money_in_pot == b[j].money_in_pot,
    ensures
        pot_sum(a, n) == pot_sum(b, n),
    decreases n,
{
    if n > 0 {
        lemma_pot_sum_same(a, b, n - 1);
    }
}

pub proof fn lemma_pot_sum_mono(bets: Seq<PlayerBet>, m: int, n: int)
    requires
        0 <= m <= n <= bets.len(),
    ensures
        pot_sum(bets, m) <= pot_sum(bets, n),
    decreases n - m,
{
    if m < n {
        lemma_pot_sum_mono(bets, m, n - 1);
    }
}

pub proof fn lemma_pot_sum_nonneg(bets: Seq<PlayerBet>, n: int)
    requires
        n <= bets.len(),
    ensures
        pot_sum(bets, n) >= 0,
    decreases n,
{
    if n > 0 {
        lemma_pot_sum_nonneg(bets, n - 1);
    }
}

/// The betting on one street, with what each seat has put in over the hand.
pub struct BettingRound {
    /// The highest amount any seat has on the table on this street.
    pub current_bet: u32,
    pub player_bets: Vec<PlayerBet>,
    pub current_player_index: u8,
    /// The seat whose action, unless someone raises, ends the street.
    pub final_player_index: u8,
    pub is_complete: bool,
}

impl BettingRound {
    pub open spec fn n(&self) -> int {
        self.player_bets@.len() as int
    }

    /// The money in the pot.
    pub open spec fn pot(&self) -> int {
        pot_sum(self.player_bets@, self.n())
    }

    /// Well-formed: the seats fit the `u8` indexes, the pointers are seats, no
    /// seat has more on the table than the current bet or than it has in the
    /// pot, the pot fits a `u32`, and while betting is open both the seat to
    /// act and the closing seat are able to bet.
    pub open spec fn wf(&self) -> bool {
        &&& self.sized()
        &&& self.current_player_index < self.n()
        &&& self.final_player_index < self.n()
        &&& forall|i: int|
            0 <= i < self.n() ==> #[trigger] self.player_bets@[i].money_on_table <= self.current_bet
                && self.player_bets@[i].money_on_table <= self.player_bets@[i].money_in_pot
        &&& self.pot() <= u32::MAX
        &&& !self.is_complete ==> able(self.player_bets@[self.current_player_index as int])
            && able(self.player_bets@[self.final_player_index as int])
    }

    /// Between 2 and 255 seats, so that a `u8` indexes them.
    pub open spec fn sized(&self) -> bool {
        2 <= self.n() <= 255
    }

    /// The current bet after the action.
    pub open spec fn bet_after(&self, action: BettingAction) -> u32 {
        let on_table = self.player_bets@[self.current_player_index as int].money_on_table;
        match action {
            BettingAction::Raise(bet) => (on_table + bet) as u32,
            BettingAction::AllIn(amount) => if on_table + amount > self.current_bet {
                (on_table + amount) as u32
            } else {
                self.current_bet
            },
            _ => self.current_bet,
        }
    }

    /// Whether some seat can still bet.
    pub open spec fn someone_able(&self) -> bool {
        exists|i: int| 0 <= i < self.n() && able(#[trigger] self.player_bets@[i])
    }

    /// The money that an action that is carried out moves from the seat's
    /// wallet to the table.
    pub open spec fn cost(&self, action: BettingAction) -> int {
        match action {
            BettingAction::Fold => 0,
            BettingAction::Call => self.current_bet - self.player_bets@[self.current_player_index as int].money_on_table,
            BettingAction::Raise(bet) => bet as int,
            BettingAction::AllIn(amount) => amount as int,
        }
    }

    /// What the acting seat's record becomes after the action.
    pub open spec fn acted_bet(&self, action: BettingAction) -> PlayerBet {
        let b = self.player_bets@[self.current_player_index as int];
        PlayerBet {
            money_in_pot: (b.money_in_pot + self.cost(action)) as u32,
            money_on_table: (b.money_on_table + self.cost(action)) as u32,
            is_folded: b.is_folded || action == BettingAction::Fold,
            is_all_in: b.is_all_in || action is AllIn,
        }
    }

    /// Whether the action raises the current bet, so that the closing seat
    /// becomes the one before the actor.
    pub open spec fn reopens(&self, action: BettingAction) -> bool {
        match action {
            BettingAction::Raise(_) => true,
            BettingAction::AllIn(amount) => self.player_bets@[self.current_player_index as int].money_on_table
                + amount > self.current_bet,
            _ => false,
        }
    }

    /// A raise that would leave the seat below the current bet.
    pub open spec fn raise_too_small(&self, action: BettingAction) -> bool {
        match action {
            BettingAction::Raise(bet) => self.player_bets@[self.current_player_index as int].money_on_table + bet
                < self.current_bet,
            _ => false,
        }
    }

    /// The seat that closes the street once the seat to act has carried out
    /// the action.
    pub open spec fn closing_after(&self, action: BettingAction) -> int {
        if self.reopens(action) {
            prev_able(self.player_bets@, self.current_player_index as int, 1)
        } else {
            self.final_player_index as int
        }
    }

    /// `next` is this round once the seat to act has carried out the action.
    pub open spec fn acted_round(&self, next: BettingRound, action: BettingAction) -> bool {
        let c = self.current_player_index as int;
        let closing = self.closing_after(action);
        &&& next.player_bets@ == self.player_bets@.update(c, self.acted_bet(action))
        &&& next.current_bet == self.bet_after(action)
        &&& next.final_player_index == closing
        &&& next.is_complete == (c == closing || (action == BettingAction::Fold && able_count(
            next.player_bets@,
            next.n(),
        ) < 2))
        &&& next.current_player_index == if c == closing {
            c
        } else {
            next_able(next.player_bets@, wrap(c + 1, self.n()), 0)
        }
    }

    /// A round for `players` seats: nobody has bet, seat 0 acts first and the
    /// last seat closes the street.
    pub fn create_for_players(players: u8) -> (r: BettingRound)
        requires
            players >= 2,
        ensures
            r.wf(),
            r.n() == players,
            r.current_bet == 0,
            r.current_player_index == 0,
            r.final_player_index == players - 1,
            !r.is_complete,
            forall|i: int|
                0 <= i < players ==> #[trigger] r.player_bets@[i] == (PlayerBet {
                    money_in_pot: 0,
                    money_on_table: 0,
                    is_folded: false,
                    is_all_in: false,
                }),
    {
        let mut player_bets: Vec<PlayerBet> = Vec::new();
        for i in 0..players
            invariant
                player_bets@.len() == i,
                forall|j: int|
                    0 <= j < i ==> #[trigger] player_bets@[j] == (PlayerBet {
                        money_in_pot: 0,
                        money_on_table: 0,
                        is_folded: false,
                        is_all_in: false,
                    }),
        {
            player_bets.push(
                PlayerBet { money_in_pot: 0, money_on_table: 0, is_folded: false, is_all_in: false },
            );
        }
        proof {
            lemma_pot_sum_zero(player_bets@, players as int);
        }
        BettingRound {
            current_bet: 0,
            player_bets,
            current_player_index: 0,
            final_player_index: players - 1,
            is_complete: false,
        }
    }

    /// Starts the next street: nothing on the table, betting open again, and
    /// the turn with the first seat able to bet after the one that held it.
    pub fn reset_for_next_phase(&mut self)
        requires
            old(self).wf(),
            old(self).someone_able(),
        ensures
            final(self).wf(),
            final(self).n() == old(self).n(),
            final(self).current_bet == 0,
            !final(self).is_complete,
            forall|i: int|
                0 <= i < old(self).n() ==> #[trigger] final(self).player_bets@[i] == (PlayerBet {
                    money_on_table: 0,
                    ..old(self).player_bets@[i]
                }),
            final(self).current_player_index == next_able(
                final(self).player_bets@,
                wrap(old(self).current_player_index + 1, old(self).n()),
                0,
            ),
            final(self).final_player_index == prev_able(
                final(self).player_bets@,
                final(self).current_player_index as int,
                1,
            ),
    {
        self.current_bet = 0;
        let n = self.player_bets.len();
        let ghost old_bets = self.player_bets@;
        for i in 0..n
            invariant
                n == self.player_bets@.len(),
                n == old_bets.len(),
                self.current_bet == 0,
                self.current_player_index == old(self).current_player_index,
                self.final_player_index == old(self).final_player_index,
                self.is_complete == old(self).is_complete,
                forall|j: int|
                    0 <= j < n ==> #[trigger] self.player_bets@[j] == (PlayerBet {
                        money_on_table: if j < i { 0 } else { old_bets[j].money_on_table },
                        ..old_bets[j]
                    }),
        {
            let mut b = self.player_bets[i];
            assert(b == old_bets[i as int]);
            b.money_on_table = 0;
            assert(b == (PlayerBet { money_on_table: 0, ..old_bets[i as int] }));
            self.player_bets.set(i, b);
            assert(self.player_bets@[i as int] == b);
            assert(self.player_bets@[i as int] == (PlayerBet { money_on_table: 0, ..old_bets[i as int] }));
        }
        proof {
            lemma_pot_sum_same(old_bets, self.player_bets@, n as int);
            let w = choose|i: int| 0 <= i < old_bets.len() && able(#[trigger] old_bets[i]);
            assert(able(self.player_bets@[w]));
            assert(self.player_bets@[w].money_on_table == 0);
        }
        let next = self.current_player_index as usize + 1;
        let start = if next >= n { 0 } else { next as u8 };
        proof {
            vstd::arithmetic::div_mod::lemma_small_mod(start as nat, n as nat);
        }
        self.set_new_start_position(start);
        self.is_complete = false;
    }

    fn get_prev_active_index(&self, start_index: u8) -> (r: u8)
        requires
            self.sized(),
            start_index < self.n(),
            self.someone_able(),
        ensures
            r == prev_able(self.player_bets@, start_index as int, 1),
            r < self.n(),
            able(self.player_bets@[r as int]),
    {
        let n = self.player_bets.len();
        proof {
            let w = choose|i: int| 0 <= i < self.n() && able(#[trigger] self.player_bets@[i]);
            lemma_able_found(self.player_bets@, start_index as int, w);
        }
        let mut k: usize = 1;
        while k <= n
            invariant
                self.sized(),
                n == self.n(),
                1 <= k <= n + 1,
                start_index < n,
                prev_able(self.player_bets@, start_index as int, k as int) == prev_able(
                    self.player_bets@,
                    start_index as int,
                    1,
                ),
                0 <= prev_able(self.player_bets@, start_index as int, 1) < n,
                able(self.player_bets@[prev_able(self.player_bets@, start_index as int, 1)]),
            decreases n + 1 - k,
        {
            let x = start_index as usize + n - k;
            let idx = if x >= n { x - n } else { x };
            if self.player_bets[idx].is_able_to_bet() {
                return idx as u8;
            }
            k = k + 1;
        }
        start_index
    }

    fn first_able_from(&self, start: usize) -> (r: usize)
        requires
            self.sized(),
            start < self.n(),
            self.someone_able(),
        ensures
            r == next_able(self.player_bets@, start as int, 0),
            r < self.n(),
            able(self.player_bets@[r as int]),
    {
        let n = self.player_bets.len();
        proof {
            let w = choose|i: int| 0 <= i < self.n() && able(#[trigger] self.player_bets@[i]);
            lemma_able_found(self.player_bets@, start as int, w);
        }
        let mut k: usize = 0;
        while k < n
            invariant
                self.sized(),
                n == self.n(),
                0 <= k <= n,
                start < n,
                next_able(self.player_bets@, start as int, k as int) == next_able(self.player_bets@, start as int, 0),
                0 <= next_able(self.player_bets@, start as int, 0) < n,
                able(self.player_bets@[next_able(self.player_bets@, start as int, 0)]),
            decreases n - k,
        {
            let x = start + k;
            let idx = if x >= n { x - n } else { x };
            if self.player_bets[idx].is_able_to_bet() {
                return idx;
            }
            k = k + 1;
        }
        start
    }

    /// Puts the turn with the first seat able to bet from `start_index` on
    /// (taken round the table), and makes the one before it close the street.
    pub fn set_new_start_position(&mut self, start_index: u8)
        requires
            old(self).wf(),
            old(self).someone_able(),
        ensures
            final(self).wf(),
            final(self).current_player_index == next_able(
                old(self).player_bets@,
                start_index as int % old(self).n(),
                0,
            ),
            final(self).final_player_index == prev_able(
                old(self).player_bets@,
                final(self).current_player_index as int,
                1,
            ),
            able(final(self).player_bets@[final(self).current_player_index as int]),
            able(final(self).player_bets@[final(self).final_player_index as int]),
            final(self).player_bets == old(self).player_bets,
            final(self).current_bet == old(self).current_bet,
            final(self).is_complete == old(self).is_complete,
    {
        let n = self.player_bets.len();
        let start = (start_index as usize) % n;
        let next_index = self.first_able_from(start);
        self.current_player_index = next_index as u8;
        self.final_player_index = self.get_prev_active_index(next_index as u8);
    }

    /// Carries out the action of the seat whose turn it is and returns the
    /// money it moves from that seat's wallet.
    ///
    /// A fold takes nothing; a call brings the seat up to the current bet; a
    /// raise of `bet` adds `bet` and sets the current bet to the seat's new
    /// total; an all-in adds its amount and raises the current bet only if it
    /// goes past it. A raise, or an all-in past the current bet, makes the seat
    /// able to bet before the actor the one that closes the street. The street
    /// ends when the closing seat has acted, or when a fold leaves fewer than
    /// two seats able to bet; else the turn passes to the next seat able to
    /// bet. Acting after the street has ended, or raising to less than the
    /// current bet, is refused and changes nothing.
    pub fn action_current_player(&mut self, action: BettingAction) -> (r: Result<u32, &'static str>)
        requires
            old(self).wf(),
            !old(self).is_complete ==> old(self).pot() + old(self).cost(action) <= u32::MAX,
        ensures
            final(self).wf(),
            final(self).n() == old(self).n(),
            old(self).is_complete ==> r == Err::<u32, &'static str>("Betting has concluded.")
                && *final(self) == *old(self),
            !old(self).is_complete && old(self).raise_too_small(action) ==> r == Err::<
                u32,
                &'static str,
            >("Raise must be greater than current bet") && *final(self) == *old(self),
            !old(self).is_complete && !old(self).raise_too_small(action) ==> r == Ok::<u32, &'static str>(
                old(self).cost(action) as u32,
            ) && old(self).acted_round(*final(self), action)
                && final(self).pot() == old(self).pot() + old(self).cost(action),
    {
        if self.is_complete {
            return Err("Betting has concluded.");
        }
        let n = self.player_bets.len();
        let c = self.current_player_index as usize;
        let ghost old_bets = self.player_bets@;
        let ghost g_cost = self.cost(action);
        let ghost g_acted = self.acted_bet(action);
        let ghost g_bet_after = self.bet_after(action);
        let ghost g_reopens = self.reopens(action);
        let previous_player_index = self.get_prev_active_index(self.current_player_index);
        let mut player = self.player_bets[c];
        proof {
            lemma_pot_sum_bounds(old_bets, n as int, c as int);
        }
        let mut value_to_subtract: u32 = 0;
        match action {
            BettingAction::Fold => {
                player.is_folded = true;
            },
            BettingAction::Call => {
                value_to_subtract = self.current_bet - player.money_on_table;
                player.money_on_table = self.current_bet;
                player.money_in_pot = player.money_in_pot + value_to_subtract;
            },
            BettingAction::Raise(bet) => {
                if player.money_on_table + bet < self.current_bet {
                    return Err("Raise must be greater than current bet");
                }
                value_to_subtract = bet;
                player.money_on_table = player.money_on_table + bet;
                player.money_in_pot = player.money_in_pot + bet;
                self.current_bet = player.money_on_table;
                self.final_player_index = previous_player_index;
            },
            BettingAction::AllIn(remaining_amount) => {
                value_to_subtract = remaining_amount;
                player.money_on_table = player.money_on_table + remaining_amount;
                player.money_in_pot = player.money_in_pot + remaining_amount;
                player.is_all_in = true;
                if player.money_on_table > self.current_bet {
                    self.current_bet = player.money_on_table;
                    self.final_player_index = previous_player_index;
                }
            },
        }
        assert(player == g_acted);
        self.player_bets.set(c, player);
        proof {
            lemma_pot_sum_update(old_bets, n as int, c as int, player);
            assert forall|i: int| 0 <= i < n implies #[trigger] self.player_bets@[i].money_on_table
                <= self.current_bet && self.player_bets@[i].money_on_table
                <= self.player_bets@[i].money_in_pot by {
                if i != c {
                    assert(self.player_bets@[i] == old_bets[i]);
                }
            }
        }
        if action == BettingAction::Fold {
            if self.get_num_players_able_to_bets() < 2 {
                self.is_complete = true;
            }
        }
        if c == self.final_player_index as usize {
            self.is_complete = true;
            return Ok(value_to_subtract);
        }
        let ghost f = self.final_player_index as int;
        assert(self.player_bets@[f] == old_bets[f]);
        assert(able(self.player_bets@[f]));
        let next = c + 1;
        let start = if next >= n { 0 } else { next };
        self.current_player_index = self.first_able_from(start) as u8;
        Ok(value_to_subtract)
    }

    /// Whether betting on this street has ended.
    pub fn is_complete(&self) -> (r: bool)
        ensures
            r == self.is_complete,
    {
        self.is_complete
    }

    /// The seat whose turn it is.
    pub fn get_current_player_index(&self) -> (r: u8)
        ensures
            r == self.current_player_index,
    {
        self.current_player_index
    }

    /// What each seat has on the table on this street.
    pub fn get_player_bets(&self) -> (r: Vec<u32>)
        ensures
            r@.len() == self.n(),
            forall|i: int| 0 <= i < self.n() ==> #[trigger] r@[i] == self.player_bets@[i].money_on_table,
    {
        let mut v: Vec<u32> = Vec::new();
        for i in 0..self.player_bets.len()
            invariant
                v@.len() == i,
                forall|j: int| 0 <= j < i ==> #[trigger] v@[j] == self.player_bets@[j].money_on_table,
        {
            v.push(self.player_bets[i].money_on_table);
        }
        v
    }

    /// The number of seats that can still act.
    pub fn get_num_players_able_to_bets(&self) -> (r: u8)
        requires
            self.n() <= 255,
        ensures
            r as int == able_count(self.player_bets@, self.n()),
    {
        let mut count: u8 = 0;
        for i in 0..self.player_bets.len()
            invariant
                self.n() <= 255,
                count as int == able_count(self.player_bets@, i as int),
        {
            proof {
                lemma_able_count_bounds(self.player_bets@, i as int);
            }
            if self.player_bets[i].is_able_to_bet() {
                count = count + 1;
            }
        }
        count
    }

    /// What the seat whose turn it is must add to match the current bet.
    pub fn get_current_player_money_to_call(&self) -> (r: u32)
        requires
            self.wf(),
        ensures
            r == self.current_bet - self.player_bets@[self.current_player_index as int].money_on_table,
    {
        self.get_player_money_to_call(self.current_player_index)
    }

    /// What the seat must add to match the current bet.
    pub fn get_player_money_to_call(&self, index: u8) -> (r: u32)
        requires
            self.wf(),
            index < self.n(),
        ensures
            r == self.current_bet - self.player_bets@[index as int].money_on_table,
    {
        self.current_bet - self.player_bets[index as usize].money_on_table
    }

    /// How many turns separate the seat to act from the closing seat, both
    /// counted; none once the street has ended.
    pub fn get_num_players_to_act(&self) -> (r: u8)
        requires
            self.wf(),
        ensures
            r == if self.is_complete {
                0
            } else if self.final_player_index >= self.current_player_index {
                self.final_player_index - self.current_player_index + 1
            } else {
                self.current_player_index - self.final_player_index + 1
            },
    {
        if self.is_complete {
            0
        } else if self.final_player_index >= self.current_player_index {
            self.final_player_index - self.current_player_index + 1
        } else {
            self.current_player_index - self.final_player_index + 1
        }
    }

    /// The seats that have not folded, in order.
    pub fn get_unfolded_player_indexes(&self) -> (r: Vec<u8>)
        requires
            self.n() <= 255,
        ensures
            r@ == unfolded(self.player_bets@, self.n()),
    {
        let mut v: Vec<u8> = Vec::new();
        for i in 0..self.player_bets.len()
            invariant
                self.n() <= 255,
                v@ == unfolded(self.player_bets@, i as int),
        {
            if !self.player_bets[i].is_folded {
                v.push(i as u8);
            }
        }
        v
    }

    /// The money in the pot.
    pub fn get_pot(&self) -> (r: u32)
        requires
            self.pot() <= u32::MAX,
        ensures
            r == self.pot(),
    {
        let mut sum: u32 = 0;
        for i in 0..self.player_bets.len()
            invariant
                pot_sum(self.player_bets@, self.n()) <= u32::MAX,
                sum == pot_sum(self.player_bets@, i as int),
        {
            proof {
                lemma_pot_sum_mono(self.player_bets@, i + 1, self.n());
            }
            sum = sum + self.player_bets[i].money_in_pot;
        }
        sum
    }

    /// What each seat has put into the pot over the hand.
    pub fn get_player_money_in_pot(&self) -> (r: Vec<u32>)
        ensures
            r@.len() == self.n(),
            forall|i: int| 0 <= i < self.n() ==> #[trigger] r@[i] == self.player_bets@[i].money_in_pot,
    {
        let mut v: Vec<u32> = Vec::new();
        for i in 0..self.player_bets.len()
            invariant
                v@.len() == i,
                forall|j: int| 0 <= j < i ==> #[trigger] v@[j] == self.player_bets@[j].money_in_pot,
        {
            v.push(self.player_bets[i].money_in_pot);
        }
        v
    }

    /// The smallest contribution above `prev`, if there is one.
    fn next_level(&self, prev: u32) -> (r: (bool, u32))
        ensures
            r.0 == (min_above(self.player_bets@, prev as int, self.n()) <= u32::MAX),
            r.0 ==> r.1 == min_above(self.player_bets@, prev as int, self.n()),
    {
        let mut found = false;
        let mut level: u32 = 0;
        for j in 0..self.player_bets.len()
            invariant
                found == (min_above(self.player_bets@, prev as int, j as int) <= u32::MAX),
                found ==> level == min_above(self.player_bets@, prev as int, j as int),
        {
            let v = self.player_bets[j].money_in_pot;
            if v > prev && (!found || v < level) {
                found = true;
                level = v;
            }
        }
        (found, level)
    }

    /// Splits the pot among the winning seats, level by level of what the
    /// seats have put in; each seat's part is `share` of it.
    pub fn get_pot_split(&self, winning_indexes: Vec<usize>) -> (r: Vec<u32>)
        requires
            self.wf(),
            forall|k: int| 0 <= k < winning_indexes@.len() ==> #[trigger] winning_indexes@[k] < self.n(),
            winning_indexes@.no_duplicates(),
        ensures
            r@.len() == self.n(),
            forall|i: int| 0 <= i < self.n() ==> #[trigger] r@[i] == share(self.player_bets@, winning_indexes@, i, 0),
    {
        let ghost bets = self.player_bets@;
        let ghost winners = winning_indexes@;
        let n = self.player_bets.len();
        let mut pot_split: Vec<u32> = Vec::new();
        for i in 0..n
            invariant
                pot_split@.len() == i,
                forall|j: int| 0 <= j < i ==> #[trigger] pot_split@[j] == 0,
        {
            pot_split.push(0);
        }
        proof {
            lemma_remaining_zero(bets, n as int);
            assert forall|i: int| 0 <= i < n implies share(bets, winners, i, 0) <= u32::MAX by {
                lemma_share_bound(bets, winners, i, 0);
            }
        }
        let mut prev: u32 = 0;
        let (mut found, mut level) = self.next_level(prev);
        while found
            invariant
                self.wf(),
                bets == self.player_bets@,
                winners == winning_indexes@,
                n == self.n(),
                forall|k: int| 0 <= k < winners.len() ==> #[trigger] winners[k] < n,
                winners.no_duplicates(),
                pot_split@.len() == n,
                forall|i: int| 0 <= i < n ==> share(bets, winners, i, 0) <= u32::MAX,
                forall|i: int|
                    0 <= i < n ==> #[trigger] pot_split@[i] + share(bets, winners, i, prev as int)
                        == share(bets, winners, i, 0),
                found == (min_above(bets, prev as int, n as int) <= u32::MAX),
                found ==> level == min_above(bets, prev as int, n as int),
            decreases 0x1_0000_0000 - prev,
        {
            proof {
                lemma_min_above(bets, prev as int, n as int);
                lemma_remaining_step(bets, prev as int, level as int, n as int);
                lemma_remaining_nonneg(bets, level as int, n as int);
                lemma_remaining_zero(bets, n as int);
                lemma_remaining_mono(bets, prev as int, n as int);
            }
            let mut count: u64 = 0;
            for j in 0..n
                invariant
                    n == self.n(),
                    n <= 255,
                    count == reaching(bets, level as int, j as int),
                    bets == self.player_bets@,
            {
                proof {
                    lemma_reaching_bounds(bets, level as int, j as int);
                }
                if self.player_bets[j].money_in_pot >= level {
                    count = count + 1;
                }
            }
            proof {
                lemma_reaching_bounds(bets, level as int, n as int);
                assert(count * ((level - prev) as int) <= 255 * 0xffff_ffff) by (nonlinear_arith)
                    requires
                        count <= 255,
                        0 <= level - prev <= 0xffff_ffff,
                ;
            }
            let pot_size: u64 = count * ((level - prev) as u64);
            let mut eligible: u64 = 0;
            for k in 0..winning_indexes.len()
                invariant
                    winners == winning_indexes@,
                    forall|k: int| 0 <= k < winners.len() ==> #[trigger] winners[k] < n,
                    n == self.n(),
                    bets == self.player_bets@,
                    eligible == winners_reaching(bets, winners, level as int, k as int),
                    eligible <= k,
            {
                if self.player_bets[winning_indexes[k]].money_in_pot >= level {
                    eligible = eligible + 1;
                }
            }
            proof {
                assert forall|i: int| 0 <= i < n implies share(bets, winners, i, level as int) >= 0 by {
                    lemma_share_bound(bets, winners, i, level as int);
                }
            }
            let ghost before = pot_split@;
            for k in 0..winning_indexes.len()
                invariant
                    winners == winning_indexes@,
                    forall|k: int| 0 <= k < winners.len() ==> #[trigger] winners[k] < n,
                    winners.no_duplicates(),
                    n == self.n(),
                    bets == self.player_bets@,
                    pot_split@.len() == n,
                    eligible == winners_reaching(bets, winners, level as int, winners.len() as int),
                    pot_size == reaching(bets, level as int, n as int) * (level - prev),
                    forall|i: int|
                        0 <= i < n ==> #[trigger] pot_split@[i] == before[i] + if is_winner(winners.subrange(0, k as int), i) && bets[i].money_in_pot >= level {
                            pot_size / eligible
                        } else {
                            0
                        },
                    forall|i: int|
                        0 <= i < n ==> before[i] + share(bets, winners, i, prev as int)
                            == share(bets, winners, i, 0),
                    forall|i: int| 0 <= i < n ==> share(bets, winners, i, 0) <= u32::MAX,
                    forall|i: int| 0 <= i < n ==> share(bets, winners, i, prev as int) == (if is_winner(winners, i) && bets[i].money_in_pot >= level {
                        pot_size / eligible
                    } else {
                        0
                    }) + share(bets, winners, i, level as int),
                    forall|i: int| 0 <= i < n ==> share(bets, winners, i, level as int) >= 0,
            {
                let w = winning_indexes[k];
                proof {
                    assert forall|i: int| 0 <= i < n && i != w implies #[trigger] is_winner(winners.subrange(0, k + 1), i)
                        == is_winner(winners.subrange(0, k as int), i) by {
                        if is_winner(winners.subrange(0, k + 1), i) {
                            let m = choose|m: int| 0 <= m < k + 1 && #[trigger] winners.subrange(0, k + 1)[m] as int == i;
                            assert(winners.subrange(0, k as int)[m] == winners.subrange(0, k + 1)[m]);
                        }
                        if is_winner(winners.subrange(0, k as int), i) {
                            let m = choose|m: int| 0 <= m < k && #[trigger] winners.subrange(0, k as int)[m] as int == i;
                            assert(winners.subrange(0, k as int)[m] == winners.subrange(0, k + 1)[m]);
                        }
                    }
                    assert(winners.subrange(0, k + 1)[k as int] == w);
                    assert(is_winner(winners.subrange(0, k + 1), w as int));
                    assert(!is_winner(winners.subrange(0, k as int), w as int)) by {
                        if is_winner(winners.subrange(0, k as int), w as int) {
                            let m = choose|m: int| 0 <= m < k && #[trigger] winners.subrange(0, k as int)[m] as int == w as int;
                            assert(winners[m] == winners[k as int]);
                        }
                    }
                    assert(is_winner(winners, w as int)) by {
                        assert(winners[k as int] == w);
                    }
                }
                let ghost prior = pot_split@;
                if self.player_bets[w].money_in_pot >= level {
                    proof {
                        lemma_winners_reaching_pos(bets, winners, level as int, winners.len() as int, k as int);
                        let wi = w as int;
                        assert(pot_split@[wi] == before[wi]);
                        assert(before[wi] + share(bets, winners, wi, prev as int) == share(bets, winners, wi, 0));
                        assert(share(bets, winners, wi, 0) <= u32::MAX);
                        assert(share(bets, winners, wi, level as int) >= 0);
                        assert(share(bets, winners, wi, prev as int) == pot_size / eligible + share(
                            bets,
                            winners,
                            wi,
                            level as int,
                        ));
                    }
                    let part = pot_size / eligible;
                    pot_split.set(w, pot_split[w] + part as u32);
                }
                proof {
                    assert forall|i: int| 0 <= i < n implies #[trigger] pot_split@[i] == before[i] + if is_winner(
                        winners.subrange(0, k + 1),
                        i,
                    ) && bets[i].money_in_pot >= level {
                        pot_size / eligible
                    } else {
                        0
                    } by {
                        assert(prior[i] == before[i] + if is_winner(winners.subrange(0, k as int), i)
                            && bets[i].money_in_pot >= level {
                            pot_size / eligible
                        } else {
                            0
                        });
                        if i != w as int {
                            assert(pot_split@[i] == prior[i]);
                        }
                    }
                }
            }
            proof {
                assert forall|i: int| 0 <= i < n implies #[trigger] pot_split@[i] + share(bets, winners, i, level as int)
                    == share(bets, winners, i, 0) by {
                    assert(winners.subrange(0, winners.len() as int) =~= winners);
                    assert(is_winner(winners.subrange(0, winners.len() as int), i) == is_winner(winners, i));
                }
            }
            prev = level;
            let next = self.next_level(prev);
            found = next.0;
            level = next.1;
        }
        proof {
            assert forall|i: int| 0 <= i < n implies #[trigger] pot_split@[i] == share(bets, winners, i, 0) by {
                assert(share(bets, winners, i, prev as int) == 0);
            }
        }
        pot_split
    }
}

} // verus!
