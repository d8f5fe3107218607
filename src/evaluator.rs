use vstd::prelude::*;
use crate::card::{Card, Rank};
use crate::deck::{
    Deck,
    listed,
    listing_id,
    all_ids,
    count_below,
    lemma_listed_members,
    lemma_listing_position,
    lemma_card_set_finite,
    lemma_count_below_len,
};
use crate::hand::{
    HandRank,
    evaluate_deck,
    hand_rank,
    num_cards,
    card_count,
    has,
    total,
    rank_count,
    straight_flush_high,
    straight_high,
    straight_from,
    suit_ranks_pred,
    lemma_total_nonneg,
    lemma_straight_from_bound,
};
use crate::card::card_id;

verus! {

/// The kind of hand that a score stands for.
#[derive(Debug, Clone, Copy, PartialEq, Eq, Structural)]
pub enum Hand {
    Invalid,
    HighCard,
    Pair,
    TwoPairs,
    ThreeOfAKind,
    Straight,
    Flush,
    FullHouse,
    FourOfAKind,
    StraightFlush,
}

/// The width of the score range of each kind of hand: `13^5`.
pub const KIND_WIDTH: u32 = 371293;

/// Five rank indexes read as the digits of a number in base 13, the first
/// one weighing most.
pub open spec fn digits(a: int, b: int, c: int, d: int, e: int) -> int {
    a * 28561 + b * 2197 + c * 169 + d * 13 + e
}

pub open spec fn ix(r: Rank) -> int {
    r.spec_index()
}

/// The score of a hand: its kind times `KIND_WIDTH`, plus the ranks that
/// break ties within the kind as base-13 digits. A higher score is a better
/// hand, and equal scores are exact ties.
pub open spec fn score_of(h: HandRank) -> int {
    match h {
        HandRank::RoyalFlush => 9 * 371293 + digits(12, 0, 0, 0, 0),
        HandRank::StraightFlush { high_card } => 9 * 371293 + digits(ix(high_card), 0, 0, 0, 0),
        HandRank::FourOfAKind { value, kicker } => 8 * 371293 + digits(ix(value), ix(kicker), 0, 0, 0),
        HandRank::FullHouse { three_value, two_value } => 7 * 371293 + digits(
            ix(three_value),
            ix(two_value),
            0,
            0,
            0,
        ),
        HandRank::Flush { values } => 6 * 371293 + digits(
            ix(values[0]),
            ix(values[1]),
            ix(values[2]),
            ix(values[3]),
            ix(values[4]),
        ),
        HandRank::Straight { high_card } => 5 * 371293 + digits(ix(high_card), 0, 0, 0, 0),
        HandRank::ThreeOfAKind { value, kickers } => 4 * 371293 + digits(
            ix(value),
            ix(kickers[0]),
            ix(kickers[1]),
            0,
            0,
        ),
        HandRank::TwoPairs { high_value, second_value, kicker } => 3 * 371293 + digits(
            ix(high_value),
            ix(second_value),
            ix(kicker),
            0,
            0,
        ),
        HandRank::OnePair { value, kickers } => 2 * 371293 + digits(
            ix(value),
            ix(kickers[0]),
            ix(kickers[1]),
            ix(kickers[2]),
            0,
        ),
        HandRank::HighCard { values } => 371293 + digits(
            ix(values[0]),
            ix(values[1]),
            ix(values[2]),
            ix(values[3]),
            ix(values[4]),
        ),
    }
}

/// The score of the best hand in a set of cards; 0, the score of no hand,
/// when the set holds fewer than five cards.
pub open spec fn hand_score(s: Set<int>) -> int {
    if num_cards(s) < 5 {
        0
    } else {
        score_of(hand_rank(s))
    }
}

/// The kind of hand with index `k`: 1 for a high card up to 9 for a
/// straight flush; any other index is `Invalid`.
pub open spec fn hand_of_kind(k: int) -> Hand {
    if k == 1 {
        Hand::HighCard
    } else if k == 2 {
        Hand::Pair
    } else if k == 3 {
        Hand::TwoPairs
    } else if k == 4 {
        Hand::ThreeOfAKind
    } else if k == 5 {
        Hand::Straight
    } else if k == 6 {
        Hand::Flush
    } else if k == 7 {
        Hand::FullHouse
    } else if k == 8 {
        Hand::FourOfAKind
    } else if k == 9 {
        Hand::StraightFlush
    } else {
        Hand::Invalid
    }
}

/// The kind of hand whose score range holds `score`.
pub open spec fn kind_of(score: int) -> Hand {
    hand_of_kind(score / 371293)
}

/// The kind of hand with index `value`.
pub fn hand_from_kind(value: u8) -> (r: Hand)
    ensures
        r == hand_of_kind(value as int),
{
    if value == 1 {
        Hand::HighCard
    } else if value == 2 {
        Hand::Pair
    } else if value == 3 {
        Hand::TwoPairs
    } else if value == 4 {
        Hand::ThreeOfAKind
    } else if value == 5 {
        Hand::Straight
    } else if value == 6 {
        Hand::Flush
    } else if value == 7 {
        Hand::FullHouse
    } else if value == 8 {
        Hand::FourOfAKind
    } else if value == 9 {
        Hand::StraightFlush
    } else {
        Hand::Invalid
    }
}

impl From<u8> for Hand {
    fn from(value: u8) -> (r: Hand) {
        hand_from_kind(value)
    }
}

impl vstd::std_specs::convert::FromSpecImpl<u8> for Hand {
    open spec fn obeys_from_spec() -> bool {
        true
    }

    open spec fn from_spec(v: u8) -> Hand {
        hand_of_kind(v as int)
    }
}

/// The score of the royal flush, the highest there is.
pub open spec fn top_score() -> int {
    9 * 371293 + digits(12, 0, 0, 0, 0)
}

pub proof fn lemma_digits_bounds(a: int, b: int, c: int, d: int, e: int)
    requires
        0 <= a <= 12,
        0 <= b <= 12,
        0 <= c <= 12,
        0 <= d <= 12,
        0 <= e <= 12,
    ensures
        0 <= digits(a, b, c, d, e) < 371293,
        digits(a, b, c, d, e) <= digits(12, 0, 0, 0, 0) || a == 12,
{
    assert(0 <= digits(a, b, c, d, e) < 371293) by (nonlinear_arith)
        requires
            0 <= a <= 12,
            0 <= b <= 12,
            0 <= c <= 12,
            0 <= d <= 12,
            0 <= e <= 12,
    ;
    assert(a <= 11 ==> digits(a, b, c, d, e) <= digits(12, 0, 0, 0, 0)) by (nonlinear_arith)
        requires
            0 <= a <= 12,
            0 <= b <= 12,
            0 <= c <= 12,
            0 <= d <= 12,
            0 <= e <= 12,
    ;
}

/// Every hand scores within its kind's range, and none above the royal flush.
pub proof fn lemma_kind(k: int, d: int)
    requires
        1 <= k <= 9,
        0 <= d < 371293,
    ensures
        (k * 371293 + d) / 371293 == k,
        hand_of_kind((k * 371293 + d) / 371293) != Hand::Invalid,
{
    vstd::arithmetic::div_mod::lemma_fundamental_div_mod_converse(k * 371293 + d, 371293, k, d);
}

#[verifier::rlimit(50)]
pub proof fn lemma_score_bounds(h: HandRank)
    ensures
        371293 <= score_of(h) <= top_score(),
        kind_of(score_of(h)) != Hand::Invalid,
{
    match h {
        HandRank::RoyalFlush => {
            lemma_digits_bounds(12, 0, 0, 0, 0);
            lemma_kind(9, digits(12, 0, 0, 0, 0));
        },
        HandRank::StraightFlush { high_card } => {
            lemma_digits_bounds(ix(high_card), 0, 0, 0, 0);
            lemma_kind(9, digits(ix(high_card), 0, 0, 0, 0));
        },
        HandRank::FourOfAKind { value, kicker } => {
            lemma_digits_bounds(ix(value), ix(kicker), 0, 0, 0);
            lemma_kind(8, digits(ix(value), ix(kicker), 0, 0, 0));
        },
        HandRank::FullHouse { three_value, two_value } => {
            lemma_digits_bounds(ix(three_value), ix(two_value), 0, 0, 0);
            lemma_kind(7, digits(ix(three_value), ix(two_value), 0, 0, 0));
        },
        HandRank::Flush { values } => {
            lemma_digits_bounds(ix(values[0]), ix(values[1]), ix(values[2]), ix(values[3]), ix(values[4]));
            lemma_kind(6, digits(ix(values[0]), ix(values[1]), ix(values[2]), ix(values[3]), ix(values[4])));
        },
        HandRank::Straight { high_card } => {
            lemma_digits_bounds(ix(high_card), 0, 0, 0, 0);
            lemma_kind(5, digits(ix(high_card), 0, 0, 0, 0));
        },
        HandRank::ThreeOfAKind { value, kickers } => {
            lemma_digits_bounds(ix(value), ix(kickers[0]), ix(kickers[1]), 0, 0);
            lemma_kind(4, digits(ix(value), ix(kickers[0]), ix(kickers[1]), 0, 0));
        },
        HandRank::TwoPairs { high_value, second_value, kicker } => {
            lemma_digits_bounds(ix(high_value), ix(second_value), ix(kicker), 0, 0);
            lemma_kind(3, digits(ix(high_value), ix(second_value), ix(kicker), 0, 0));
        },
        HandRank::OnePair { value, kickers } => {
            lemma_digits_bounds(ix(value), ix(kickers[0]), ix(kickers[1]), ix(kickers[2]), 0);
            lemma_kind(2, digits(ix(value), ix(kickers[0]), ix(kickers[1]), ix(kickers[2]), 0));
        },
        HandRank::HighCard { values } => {
            lemma_digits_bounds(ix(values[0]), ix(values[1]), ix(values[2]), ix(values[3]), ix(values[4]));
            lemma_kind(1, digits(ix(values[0]), ix(values[1]), ix(values[2]), ix(values[3]), ix(values[4])));
        },
    }
}

fn digits_of(a: Rank, b: Rank, c: Rank, d: Rank, e: Rank) -> (r: u32)
    ensures
        r as int == digits(ix(a), ix(b), ix(c), ix(d), ix(e)),
{
    proof {
        lemma_digits_bounds(ix(a), ix(b), ix(c), ix(d), ix(e));
    }
    a.index() as u32 * 28561 + b.index() as u32 * 2197 + c.index() as u32 * 169 + d.index() as u32 * 13
        + e.index() as u32
}

impl HandRank {
    /// The hand's score.
    pub fn score(&self) -> (r: u32)
        ensures
            r as int == score_of(*self),
    {
        proof {
            lemma_score_bounds(*self);
        }
        let two = Rank::Two;
        match *self {
            HandRank::RoyalFlush => 9 * KIND_WIDTH + digits_of(Rank::Ace, two, two, two, two),
            HandRank::StraightFlush { high_card } => 9 * KIND_WIDTH + digits_of(high_card, two, two, two, two),
            HandRank::FourOfAKind { value, kicker } => 8 * KIND_WIDTH + digits_of(value, kicker, two, two, two),
            HandRank::FullHouse { three_value, two_value } => 7 * KIND_WIDTH + digits_of(
                three_value,
                two_value,
                two,
                two,
                two,
            ),
            HandRank::Flush { values } => 6 * KIND_WIDTH + digits_of(
                values[0],
                values[1],
                values[2],
                values[3],
                values[4],
            ),
            HandRank::Straight { high_card } => 5 * KIND_WIDTH + digits_of(high_card, two, two, two, two),
            HandRank::ThreeOfAKind { value, kickers } => 4 * KIND_WIDTH + digits_of(
                value,
                kickers[0],
                kickers[1],
                two,
                two,
            ),
            HandRank::TwoPairs { high_value, second_value, kicker } => 3 * KIND_WIDTH + digits_of(
                high_value,
                second_value,
                kicker,
                two,
                two,
            ),
            HandRank::OnePair { value, kickers } => 2 * KIND_WIDTH + digits_of(
                value,
                kickers[0],
                kickers[1],
                kickers[2],
                two,
            ),
            HandRank::HighCard { values } => KIND_WIDTH + digits_of(
                values[0],
                values[1],
                values[2],
                values[3],
                values[4],
            ),
        }
    }
}

/// The kind of hand whose score range holds `score`; `Invalid` for a score
/// that no hand has.
pub fn score_to_hand(score: u32) -> (r: Hand)
    ensures
        r == kind_of(score as int),
{
    let k = score / KIND_WIDTH;
    if k > 9 {
        Hand::Invalid
    } else {
        hand_from_kind(k as u8)
    }
}

/// The kind of hand that a score stands for.
pub fn get_hand_for_score(score: u32) -> (r: Hand)
    ensures
        r == kind_of(score as int),
{
    score_to_hand(score)
}

/// The score of the best hand in the deck; 0 if it holds fewer than five cards.
pub fn deck_score(deck: &Deck) -> (r: u32)
    ensures
        r as int == hand_score(deck@),
{
    if card_count(deck) < 5 {
        return 0;
    }
    evaluate_deck(deck).score()
}

/// The score of the best hand in the board and the hole cards together.
pub fn get_hand_score(table: &Deck, hand: &Deck) -> (r: u32)
    ensures
        r as int == hand_score(table@.union(hand@)),
{
    let combined = table.union(*hand);
    deck_score(&combined)
}

/// The ids among `cards` that name a card; others mark an absent card.
pub open spec fn ids_to_set(cards: Seq<u8>) -> Set<int> {
    Set::new(|i: int| 0 <= i < 52 && cards.contains(i as u8))
}

/// Whether the seven ids name seven different cards.
pub open spec fn seven_distinct_valid(cards: Seq<u8>) -> bool {
    &&& forall|i: int| 0 <= i < cards.len() ==> #[trigger] cards[i] < 52
    &&& forall|i: int, j: int| 0 <= i < j < cards.len() ==> #[trigger] cards[i] != #[trigger] cards[j]
}

/// The score of seven card ids, or 0 when they do not name seven different cards.
pub open spec fn seven_score(cards: Seq<u8>) -> int {
    if seven_distinct_valid(cards) {
        hand_score(ids_to_set(cards))
    } else {
        0
    }
}

/// The score of seven card ids; 0, the score of an incomplete hand, unless
/// they name seven different cards (an id from 52 up marks an absent card).
pub fn evaluate_score(cards: [u8; 7]) -> (r: u32)
    ensures
        r as int == seven_score(cards@),
{
    let mut i: usize = 0;
    while i < 7
        invariant
            i <= 7,
            forall|a: int| 0 <= a < i ==> #[trigger] cards@[a] < 52,
            forall|a: int, b: int| 0 <= a < b < i ==> #[trigger] cards@[a] != #[trigger] cards@[b],
        decreases 7 - i,
    {
        if cards[i] >= 52 {
            return 0;
        }
        let mut j: usize = 0;
        while j < i
            invariant
                j <= i < 7,
                forall|b: int| 0 <= b < j ==> #[trigger] cards@[b] != cards@[i as int],
            decreases i - j,
        {
            if cards[j] == cards[i] {
                return 0;
            }
            j = j + 1;
        }
        i = i + 1;
    }
    let mut deck = Deck::new();
    for k in 0..7usize
        invariant
            deck@ == Set::new(|i: int| 0 <= i < 52 && cards@.subrange(0, k as int).contains(i as u8)),
    {
        let ghost before = deck@;
        if cards[k] < 52 {
            deck.add_id(cards[k]);
        }
        proof {
            assert forall|i: int| deck@.contains(i) == (0 <= i < 52 && cards@.subrange(0, k + 1).contains(i as u8)) by {
                let sub = cards@.subrange(0, k as int);
                let sub1 = cards@.subrange(0, k + 1);
                assert(sub1 == sub.push(cards@[k as int]));
                assert(sub1[k as int] == cards@[k as int]);
                if 0 <= i < 52 && i == cards@[k as int] as int {
                    assert(sub1.contains(i as u8));
                }
                if 0 <= i < 52 && sub1.contains(i as u8) {
                    let m = choose|m: int| 0 <= m < sub1.len() && sub1[m] == i as u8;
                    if m < k {
                        assert(sub[m] == i as u8);
                    }
                }
                if 0 <= i < 52 && sub.contains(i as u8) {
                    let m = choose|m: int| 0 <= m < sub.len() && sub[m] == i as u8;
                    assert(sub1[m] == i as u8);
                }
            }
            assert(deck@ =~= Set::new(|i: int| 0 <= i < 52 && cards@.subrange(0, k + 1).contains(i as u8)));
        }
    }
    assert(cards@.subrange(0, 7) =~= cards@);
    assert(deck@ =~= ids_to_set(cards@));
    deck_score(&deck)
}

pub proof fn lemma_valid_carries(a: Seq<u8>, b: Seq<u8>)
    requires
        a.to_multiset() == b.to_multiset(),
        seven_distinct_valid(a),
    ensures
        seven_distinct_valid(b),
{
    broadcast use vstd::seq_lib::group_to_multiset_ensures;

    assert(a.no_duplicates()) by {
        assert forall|i: int, j: int| 0 <= i < a.len() && 0 <= j < a.len() && i != j implies a[i] != a[j] by {
            if i < j {
                assert(a[i] != a[j]);
            } else {
                assert(a[j] != a[i]);
            }
        }
    }
    a.lemma_multiset_has_no_duplicates();
    b.lemma_multiset_has_no_duplicates_conv();
    assert forall|i: int| 0 <= i < b.len() implies #[trigger] b[i] < 52 by {
        assert(b.contains(b[i]));
        assert(b.to_multiset().count(b[i]) > 0);
        assert(a.contains(b[i]));
    }
}

/// Scoring seven card ids does not depend on their order: any two
/// arrangements of the same ids score the same.
pub proof fn lemma_score_order_free(a: Seq<u8>, b: Seq<u8>)
    requires
        a.len() == 7,
        b.len() == 7,
        a.to_multiset() == b.to_multiset(),
    ensures
        seven_score(a) == seven_score(b),
{
    broadcast use vstd::seq_lib::group_to_multiset_ensures;

    if seven_distinct_valid(a) {
        lemma_valid_carries(a, b);
    }
    if seven_distinct_valid(b) {
        lemma_valid_carries(b, a);
    }
    assert forall|i: int| #[trigger] ids_to_set(a).contains(i) == ids_to_set(b).contains(i) by {
        assert(a.contains(i as u8) == (a.to_multiset().count(i as u8) > 0));
        assert(b.contains(i as u8) == (b.to_multiset().count(i as u8) > 0));
    }
    assert(ids_to_set(a) =~= ids_to_set(b));
}

/// The ids of the first seven cards, padded with 255 for absent cards.
pub fn cards_to_fixed_array(cards: &Vec<Card>) -> (r: [u8; 7])
    ensures
        forall|k: int|
            0 <= k < 7 ==> #[trigger] r@[k] as int == if k < cards@.len() {
                cards@[k].id()
            } else {
                255
            },
{
    let mut arr: [u8; 7] = [255, 255, 255, 255, 255, 255, 255];
    let n = if cards.len() < 7 { cards.len() } else { 7 };
    for k in 0..n
        invariant
            n <= 7,
            n <= cards@.len(),
            n == cards@.len() || n == 7,
            forall|j: int|
                0 <= j < 7 ==> #[trigger] arr@[j] as int == if j < k {
                    cards@[j].id()
                } else {
                    255
                },
    {
        arr[k] = cards[k].to_id();
    }
    arr
}


/// The cards that neither the board nor the hole cards hold, in listing order.
pub open spec fn unseen(table: Set<int>, player: Set<int>) -> Seq<Card> {
    listed(table.union(player).complement(), 52)
}

/// Wins and games over opponent hands made of `c1` and each card of
/// `avail[0..j]` other than `c1`; a tie counts as a win.
pub open spec fn pair_tally(table: Set<int>, hero: int, avail: Seq<Card>, c1: Card, j: int) -> (int, int)
    decreases j,
{
    if j <= 0 {
        (0, 0)
    } else {
        let t = pair_tally(table, hero, avail, c1, j - 1);
        let c2 = avail[j - 1];
        if c2 == c1 {
            t
        } else {
            let opp = hand_score(table.insert(c1.id()).insert(c2.id()));
            (t.0 + if hero >= opp { 1int } else { 0int }, t.1 + 1)
        }
    }
}

/// Wins and games over opponent hands whose first card is one of `avail[0..i]`.
pub open spec fn end_tally_over(table: Set<int>, hero: int, avail: Seq<Card>, i: int) -> (int, int)
    decreases i,
{
    if i <= 0 {
        (0, 0)
    } else {
        let a = end_tally_over(table, hero, avail, i - 1);
        let b = pair_tally(table, hero, avail, avail[i - 1], avail.len() as int);
        (a.0 + b.0, a.1 + b.1)
    }
}

/// With the board complete: wins and games over every ordered pair of
/// distinct unseen cards as the one opponent's hole cards.
pub open spec fn end_tally(table: Set<int>, player: Set<int>) -> (int, int) {
    let avail = unseen(table, player);
    end_tally_over(table, hand_score(table.union(player)), avail, avail.len() as int)
}

/// Wins and games over the deals whose next board card is one of
/// `avail[0..i]`, with `need` board cards still to come.
pub open spec fn deal_tally(table: Set<int>, player: Set<int>, need: nat, avail: Seq<Card>, i: int) -> (int, int)
    decreases need, i,
{
    if i <= 0 || need == 0 {
        (0, 0)
    } else {
        let a = deal_tally(table, player, need, avail, i - 1);
        let t2 = table.insert(avail[i - 1].id());
        let b = if need == 1 {
            end_tally(t2, player)
        } else {
            deal_tally(t2, player, (need - 1) as nat, unseen(t2, player), unseen(t2, player).len() as int)
        };
        (a.0 + b.0, a.1 + b.1)
    }
}

/// Wins and games over every way of dealing the `need` missing board cards
/// one at a time, and then every opponent hand.
pub open spec fn tally(table: Set<int>, player: Set<int>, need: nat) -> (int, int) {
    if need == 0 {
        end_tally(table, player)
    } else {
        deal_tally(table, player, need, unseen(table, player), unseen(table, player).len() as int)
    }
}

/// A bound on the games counted with `need` board cards to deal.
pub open spec fn cap(need: nat) -> int
    decreases need,
{
    if need == 0 {
        2704
    } else {
        52 * cap((need - 1) as nat)
    }
}

pub proof fn lemma_cap(need: nat)
    requires
        need <= 5,
    ensures
        2704 <= cap(need) <= 2704 * 380204032,
{
    if need <= 4 {
        lemma_cap_exact(need);
    } else {
        lemma_cap_exact(4);
        assert(cap(5) == 52 * cap(4));
    }
}

pub proof fn lemma_cap_exact(need: nat)
    requires
        need <= 4,
    ensures
        cap(need) == if need == 0 {
            2704
        } else if need == 1 {
            2704 * 52
        } else if need == 2 {
            2704 * 2704
        } else if need == 3 {
            2704 * 140608
        } else {
            2704 * 7311616
        },
    decreases need,
{
    if need > 0 {
        lemma_cap_exact((need - 1) as nat);
    }
}

pub proof fn lemma_listed_len(s: Set<int>, n: int)
    requires
        n >= 0,
    ensures
        listed(s, n).len() <= n,
    decreases n,
{
    if n > 0 {
        lemma_listed_len(s, n - 1);
    }
}

pub proof fn lemma_pair_tally(table: Set<int>, hero: int, avail: Seq<Card>, c1: Card, j: int)
    requires
        0 <= j <= avail.len(),
    ensures
        0 <= pair_tally(table, hero, avail, c1, j).0 <= pair_tally(table, hero, avail, c1, j).1 <= j,
    decreases j,
{
    if j > 0 {
        lemma_pair_tally(table, hero, avail, c1, j - 1);
    }
}

pub proof fn lemma_end_tally_over(table: Set<int>, hero: int, avail: Seq<Card>, i: int)
    requires
        0 <= i <= avail.len(),
    ensures
        0 <= end_tally_over(table, hero, avail, i).0 <= end_tally_over(table, hero, avail, i).1 <= i
            * avail.len(),
    decreases i,
{
    if i > 0 {
        lemma_end_tally_over(table, hero, avail, i - 1);
        lemma_pair_tally(table, hero, avail, avail[i - 1], avail.len() as int);
        assert((i - 1) * avail.len() + avail.len() == i * avail.len()) by (nonlinear_arith);
    }
}

pub proof fn lemma_end_tally(table: Set<int>, player: Set<int>)
    ensures
        0 <= end_tally(table, player).0 <= end_tally(table, player).1 <= 2704,
{
    let avail = unseen(table, player);
    lemma_listed_len(table.union(player).complement(), 52);
    lemma_end_tally_over(table, hand_score(table.union(player)), avail, avail.len() as int);
    assert(avail.len() * avail.len() <= 2704) by (nonlinear_arith)
        requires
            avail.len() <= 52,
    ;
}

pub proof fn lemma_deal_tally(table: Set<int>, player: Set<int>, need: nat, avail: Seq<Card>, i: int)
    requires
        1 <= need,
        0 <= i <= avail.len(),
        avail.len() <= 52,
    ensures
        0 <= deal_tally(table, player, need, avail, i).0 <= deal_tally(table, player, need, avail, i).1 <= i
            * cap((need - 1) as nat),
    decreases need, i,
{
    if i > 0 {
        lemma_deal_tally(table, player, need, avail, i - 1);
        let t2 = table.insert(avail[i - 1].id());
        if need == 1 {
            lemma_end_tally(t2, player);
        } else {
            let av2 = unseen(t2, player);
            lemma_listed_len(t2.union(player).complement(), 52);
            lemma_deal_tally(t2, player, (need - 1) as nat, av2, av2.len() as int);
            lemma_cap_pos((need - 2) as nat);
            assert(cap((need - 1) as nat) == 52 * cap((need - 2) as nat));
            assert(av2.len() * cap((need - 2) as nat) <= 52 * cap((need - 2) as nat)) by (nonlinear_arith)
                requires
                    av2.len() <= 52,
                    cap((need - 2) as nat) >= 0,
            ;
        }
        assert((i - 1) * cap((need - 1) as nat) + cap((need - 1) as nat) == i * cap((need - 1) as nat))
            by (nonlinear_arith);
    }
}

pub proof fn lemma_cap_pos(need: nat)
    ensures
        cap(need) >= 0,
    decreases need,
{
    if need > 0 {
        lemma_cap_pos((need - 1) as nat);
    }
}

/// Wins and games with the board complete, over every opponent hand.
fn iterate_end_game(table: &Deck, player: &Deck) -> (r: (u64, u64))
    ensures
        r.0 as int == end_tally(table@, player@).0,
        r.1 as int == end_tally(table@, player@).1,
{
    let used_cards = table.union(*player);
    let available_cards = used_cards.get_available_cards();
    let player_score = deck_score(&used_cards);
    let ghost avail = available_cards@;
    let ghost hero = player_score as int;
    let n = available_cards.len();
    proof {
        lemma_listed_len(table@.union(player@).complement(), 52);
    }
    let mut wins: u64 = 0;
    let mut games: u64 = 0;
    for i in 0..n
        invariant
            n == avail.len(),
            n <= 52,
            avail == available_cards@,
            hero == player_score as int,
            wins as int == end_tally_over(table@, hero, avail, i as int).0,
            games as int == end_tally_over(table@, hero, avail, i as int).1,
    {
        proof {
            lemma_end_tally_over(table@, hero, avail, i as int);
            assert(i * n <= 52 * 52) by (nonlinear_arith)
                requires
                    i <= n,
                    n <= 52,
            ;
        }
        let c1 = available_cards[i];
        let mut row_wins: u64 = 0;
        let mut row_games: u64 = 0;
        for j in 0..n
            invariant
                n == avail.len(),
                n <= 52,
                avail == available_cards@,
                c1 == avail[i as int],
                hero == player_score as int,
                row_wins as int == pair_tally(table@, hero, avail, c1, j as int).0,
                row_games as int == pair_tally(table@, hero, avail, c1, j as int).1,
        {
            proof {
                lemma_pair_tally(table@, hero, avail, c1, j as int);
            }
            let c2 = available_cards[j];
            if c1 != c2 {
                let mut opponent_hand = *table;
                opponent_hand.add_card(c1);
                opponent_hand.add_card(c2);
                let opponent_score = deck_score(&opponent_hand);
                row_games = row_games + 1;
                if player_score >= opponent_score {
                    row_wins = row_wins + 1;
                }
            }
        }
        proof {
            lemma_pair_tally(table@, hero, avail, c1, n as int);
        }
        wins = wins + row_wins;
        games = games + row_games;
    }
    (wins, games)
}

/// Wins and games over every way of dealing the `need` missing board cards
/// and then every opponent hand.
fn iterate_games(table: &Deck, player: &Deck, need: u8) -> (r: (u64, u64))
    requires
        1 <= need <= 5,
    ensures
        r.0 as int == tally(table@, player@, need as nat).0,
        r.1 as int == tally(table@, player@, need as nat).1,
        r.1 <= cap(need as nat),
    decreases need,
{
    let used_cards = table.union(*player);
    let available_cards = used_cards.get_available_cards();
    let ghost avail = available_cards@;
    let n = available_cards.len();
    proof {
        lemma_listed_len(table@.union(player@).complement(), 52);
        lemma_deal_tally(table@, player@, need as nat, avail, n as int);
        lemma_cap(need as nat);
        lemma_cap((need - 1) as nat);
        assert(n * cap((need - 1) as nat) <= 52 * cap((need - 1) as nat)) by (nonlinear_arith)
            requires
                n <= 52,
                cap((need - 1) as nat) >= 0,
        ;
    }
    let mut wins: u64 = 0;
    let mut games: u64 = 0;
    for i in 0..n
        invariant
            n == avail.len(),
            n <= 52,
            1 <= need <= 5,
            avail == available_cards@,
            avail == unseen(table@, player@),
            wins as int == deal_tally(table@, player@, need as nat, avail, i as int).0,
            games as int == deal_tally(table@, player@, need as nat, avail, i as int).1,
            cap(need as nat) <= 2704 * 380204032,
    {
        proof {
            lemma_deal_tally(table@, player@, need as nat, avail, i + 1);
            lemma_cap_pos((need - 1) as nat);
            assert((i + 1) * cap((need - 1) as nat) <= 52 * cap((need - 1) as nat)) by (nonlinear_arith)
                requires
                    i + 1 <= 52,
                    cap((need - 1) as nat) >= 0,
            ;
        }
        let mut new_table_value = *table;
        new_table_value.add_card(available_cards[i]);
        let sub = if need > 1 {
            iterate_games(&new_table_value, player, need - 1)
        } else {
            iterate_end_game(&new_table_value, player)
        };
        wins = wins + sub.0;
        games = games + sub.1;
    }
    proof {
        lemma_deal_tally(table@, player@, need as nat, avail, n as int);
    }
    (wins, games)
}

/// Wins and games for the hole cards against one opponent, over every way
/// of completing the board and every opponent hand; the board holds at most
/// five cards. A tie counts as a win. The win probability is the first
/// number over the second.
pub fn win_counts(table: &Deck, hand: &Deck) -> (r: (u64, u64))
    requires
        num_cards(table@) <= 5,
    ensures
        r.0 as int == tally(table@, hand@, (5 - num_cards(table@)) as nat).0,
        r.1 as int == tally(table@, hand@, (5 - num_cards(table@)) as nat).1,
{
    let on_table = card_count(table);
    if on_table >= 5 {
        iterate_end_game(table, hand)
    } else {
        iterate_games(table, hand, 5 - on_table)
    }
}


/// Whether the set holds the ten to the ace of suit `su`.
pub open spec fn holds_royal_flush(s: Set<int>, su: int) -> bool {
    forall|r: int| 8 <= r <= 12 ==> #[trigger] has(s, r, su)
}

pub proof fn lemma_hand_score_max(s: Set<int>)
    ensures
        0 <= hand_score(s) <= top_score(),
{
    if num_cards(s) >= 5 {
        lemma_score_bounds(hand_rank(s));
    }
}

pub proof fn lemma_royal_score(s: Set<int>, su: int)
    requires
        0 <= su < 4,
        holds_royal_flush(s, su),
    ensures
        hand_score(s) == top_score(),
{
    assert(has(s, 8, su) && has(s, 9, su) && has(s, 10, su) && has(s, 11, su) && has(s, 12, su));
    lemma_total_nonneg(s, 7);
    assert(rank_count(s, 8) >= 1 && rank_count(s, 9) >= 1 && rank_count(s, 10) >= 1 && rank_count(s, 11) >= 1
        && rank_count(s, 12) >= 1);
    assert(total(s, 8) == total(s, 7) + rank_count(s, 8));
    assert(total(s, 9) == total(s, 8) + rank_count(s, 9));
    assert(total(s, 10) == total(s, 9) + rank_count(s, 10));
    assert(total(s, 11) == total(s, 10) + rank_count(s, 11));
    assert(total(s, 12) == total(s, 11) + rank_count(s, 12));
    assert(total(s, 12) == total(s, 7) + rank_count(s, 8) + rank_count(s, 9) + rank_count(s, 10)
        + rank_count(s, 11) + rank_count(s, 12));
    let p = suit_ranks_pred(s, su);
    assert(straight_from(p, 12) == 12);
    lemma_straight_from_bound(suit_ranks_pred(s, 0), 12);
    lemma_straight_from_bound(suit_ranks_pred(s, 1), 12);
    lemma_straight_from_bound(suit_ranks_pred(s, 2), 12);
    lemma_straight_from_bound(suit_ranks_pred(s, 3), 12);
    assert(straight_flush_high(s) == 12);
}

pub proof fn lemma_pair_all_win(table: Set<int>, avail: Seq<Card>, c1: Card, j: int)
    ensures
        pair_tally(table, top_score(), avail, c1, j).0 == pair_tally(table, top_score(), avail, c1, j).1,
    decreases j,
{
    if j > 0 {
        lemma_pair_all_win(table, avail, c1, j - 1);
        let c2 = avail[j - 1];
        lemma_hand_score_max(table.insert(c1.id()).insert(c2.id()));
    }
}

pub proof fn lemma_end_all_win(table: Set<int>, avail: Seq<Card>, i: int)
    ensures
        end_tally_over(table, top_score(), avail, i).0 == end_tally_over(table, top_score(), avail, i).1,
    decreases i,
{
    if i > 0 {
        lemma_end_all_win(table, avail, i - 1);
        lemma_pair_all_win(table, avail, avail[i - 1], avail.len() as int);
    }
}

pub proof fn lemma_deal_all_win(table: Set<int>, player: Set<int>, need: nat, avail: Seq<Card>, i: int, su: int)
    requires
        0 <= su < 4,
        holds_royal_flush(table.union(player), su),
    ensures
        deal_tally(table, player, need, avail, i).0 == deal_tally(table, player, need, avail, i).1,
    decreases need, i,
{
    if i > 0 && need > 0 {
        lemma_deal_all_win(table, player, need, avail, i - 1, su);
        let t2 = table.insert(avail[i - 1].id());
        assert(holds_royal_flush(t2.union(player), su)) by {
            assert forall|r: int| 8 <= r <= 12 implies #[trigger] has(t2.union(player), r, su) by {
                assert(has(table.union(player), r, su));
            }
        }
        if need == 1 {
            lemma_royal_score(t2.union(player), su);
            lemma_end_all_win(t2, unseen(t2, player), unseen(t2, player).len() as int);
        } else {
            lemma_deal_all_win(t2, player, (need - 1) as nat, unseen(t2, player), unseen(t2, player).len() as int, su);
        }
    }
}

/// When the hole cards and the board already make a royal flush, every
/// completion of the board and every opponent hand count as a win: the win
/// count equals the game count, a win probability of one.
pub proof fn lemma_royal_flush_wins_all(table: Set<int>, player: Set<int>, need: nat, su: int)
    requires
        0 <= su < 4,
        holds_royal_flush(table.union(player), su),
    ensures
        tally(table, player, need).0 == tally(table, player, need).1,
{
    if need == 0 {
        lemma_royal_score(table.union(player), su);
        lemma_end_all_win(table, unseen(table, player), unseen(table, player).len() as int);
    } else {
        lemma_deal_all_win(table, player, need, unseen(table, player), unseen(table, player).len() as int, su);
    }
}


/// Wins never exceed games, and games stay within `cap`.
pub proof fn lemma_tally_bounds(table: Set<int>, player: Set<int>, need: nat)
    requires
        need <= 5,
    ensures
        0 <= tally(table, player, need).0 <= tally(table, player, need).1 <= cap(need),
{
    if need == 0 {
        lemma_end_tally(table, player);
    } else {
        let avail = unseen(table, player);
        lemma_listed_len(table.union(player).complement(), 52);
        lemma_deal_tally(table, player, need, avail, avail.len() as int);
        lemma_cap_pos((need - 1) as nat);
        assert(avail.len() * cap((need - 1) as nat) <= 52 * cap((need - 1) as nat)) by (nonlinear_arith)
            requires
                avail.len() <= 52,
                cap((need - 1) as nat) >= 0,
        ;
    }
}


/// The entry that a walk through a transition table reaches: from entry
/// `p`, card `i` leads to the entry stored at `p + id + 1`; none if the walk
/// leaves the table.
pub open spec fn walk(table: Seq<u32>, cards: Seq<u8>, i: int, p: int) -> Option<int>
    decreases 7 - i,
{
    if i >= 7 {
        Some(p)
    } else if 0 <= p + cards[i] + 1 < table.len() {
        walk(table, cards, i + 1, table[p + cards[i] + 1] as int)
    } else {
        None
    }
}

/// Scores seven card ids with a transition table, starting from entry 53
/// and taking one lookup per card; none if the walk leaves the table.
pub fn evaluate_two_plus_two(table: &Vec<u32>, cards: [u8; 7]) -> (r: Option<u32>)
    ensures
        match walk(table@, cards@, 0, 53) {
            Some(v) => r == Some(v as u32),
            None => r is None,
        },
{
    let mut p: u32 = 53;
    let mut i: usize = 0;
    while i < 7
        invariant
            i <= 7,
            walk(table@, cards@, i as int, p as int) == walk(table@, cards@, 0, 53),
        decreases 7 - i,
    {
        let idx = p as u64 + cards[i] as u64 + 1;
        if idx >= table.len() as u64 {
            return None;
        }
        p = table[idx as usize];
        i = i + 1;
    }
    Some(p)
}

/// The kind of hand of a transition-table score: its bits 12 to 15.
pub fn two_plus_two_kind(score: u32) -> (r: Hand)
    ensures
        r == hand_of_kind(((score >> 12u32) & 0xFu32) as int),
{
    let kind = (score >> 12) & 0xF;
    assert(kind <= 15) by (bit_vector)
        requires
            kind == (score >> 12u32) & 0xFu32,
    ;
    hand_from_kind(kind as u8)
}


/// Counting by ranks counts the ids below four past the rank.
pub proof fn lemma_total_ids(s: Set<int>, r: int)
    requires
        -1 <= r <= 12,
    ensures
        total(s, r) == count_below(s, 4 * (r + 1)),
    decreases r + 1,
{
    if r >= 0 {
        lemma_total_ids(s, r - 1);
        let b = 4 * r;
        assert(count_below(s, b + 1) == count_below(s, b) + (if s.contains(b) { 1int } else { 0int }));
        assert(count_below(s, b + 2) == count_below(s, b + 1) + (if s.contains(b + 1) { 1int } else { 0int }));
        assert(count_below(s, b + 3) == count_below(s, b + 2) + (if s.contains(b + 2) { 1int } else { 0int }));
        assert(count_below(s, b + 4) == count_below(s, b + 3) + (if s.contains(b + 3) { 1int } else { 0int }));
        assert(4 * (r + 1) == b + 4);
    }
}

/// For a set of card ids, `num_cards` is its size.
pub proof fn lemma_num_cards_is_len(s: Set<int>)
    requires
        s.subset_of(all_ids()),
    ensures
        num_cards(s) == s.len(),
        s.finite(),
{
    lemma_total_ids(s, 12);
    lemma_count_below_len(s, 52);
    assert(s.intersect(vstd::set_lib::set_int_range(0, 52)) =~= s);
    lemma_card_set_finite(s);
}

/// The card with id `x` of a set is listed.
pub proof fn lemma_listed_has(s: Set<int>, n: int, p: int) -> (k: int)
    requires
        0 <= p < n <= 52,
        s.contains(listing_id(p)),
    ensures
        0 <= k < listed(s, n).len(),
        listed(s, n)[k] == Card::spec_from_id(listing_id(p)),
    decreases n,
{
    if p < n - 1 {
        let k = lemma_listed_has(s, n - 1, p);
        if s.contains(listing_id(n - 1)) {
            assert(listed(s, n) == listed(s, n - 1).push(Card::spec_from_id(listing_id(n - 1))));
        }
        k
    } else {
        listed(s, n - 1).len() as int
    }
}

pub proof fn lemma_pair_tally_mono(table: Set<int>, hero: int, avail: Seq<Card>, c1: Card, j: int, m: int)
    requires
        0 <= m < j <= avail.len(),
        avail[m] != c1,
    ensures
        pair_tally(table, hero, avail, c1, j).1 >= 1,
    decreases j,
{
    lemma_pair_tally(table, hero, avail, c1, j - 1);
    if m < j - 1 {
        lemma_pair_tally_mono(table, hero, avail, c1, j - 1, m);
    }
}

pub proof fn lemma_end_tally_over_mono(table: Set<int>, hero: int, avail: Seq<Card>, i: int)
    requires
        1 <= i <= avail.len(),
    ensures
        end_tally_over(table, hero, avail, i).1 >= pair_tally(table, hero, avail, avail[0], avail.len() as int).1,
    decreases i,
{
    if i > 1 {
        lemma_end_tally_over_mono(table, hero, avail, i - 1);
        lemma_pair_tally(table, hero, avail, avail[i - 1], avail.len() as int);
    } else {
        assert(end_tally_over(table, hero, avail, 0) == (0int, 0int));
    }
}

/// Two different ids outside a set of at most 50 card ids.
pub proof fn lemma_two_unseen(used: Set<int>) -> (r: (int, int))
    requires
        used.subset_of(all_ids()),
        used.len() <= 50,
    ensures
        0 <= r.0 < 52,
        0 <= r.1 < 52,
        r.0 != r.1,
        !used.contains(r.0),
        !used.contains(r.1),
{
    lemma_card_set_finite(used);
    let rest = all_ids().difference(used);
    vstd::set_lib::lemma_int_range(0, 52);
    assert(all_ids() =~= vstd::set_lib::set_int_range(0, 52));
    vstd::set_lib::lemma_set_difference_len(all_ids(), used);
    assert(all_ids().intersect(used) =~= used);
    assert(rest.len() >= 2);
    let x = rest.choose();
    assert(rest.contains(x)) by {
        vstd::set_lib::lemma_set_empty_equivalency_len(rest);
    }
    let rest2 = rest.remove(x);
    assert(rest2.len() >= 1);
    let y = rest2.choose();
    assert(rest2.contains(y)) by {
        vstd::set_lib::lemma_set_empty_equivalency_len(rest2);
    }
    (x, y)
}

/// With at most 50 cards seen and the board complete, at least one game is counted.
pub proof fn lemma_end_tally_some(table: Set<int>, player: Set<int>)
    requires
        table.union(player).subset_of(all_ids()),
        table.union(player).len() <= 50,
    ensures
        end_tally(table, player).1 >= 1,
{
    let used = table.union(player);
    let (x, y) = lemma_two_unseen(used);
    let avail = unseen(table, player);
    lemma_listing_position(x);
    lemma_listing_position(y);
    let kx = lemma_listed_has(used.complement(), 52, (x % 4) * 13 + x / 4);
    let ky = lemma_listed_has(used.complement(), 52, (y % 4) * 13 + y / 4);
    lemma_listed_members(used.complement(), 52);
    let hero = hand_score(used);
    let c0 = avail[0];
    if c0 != avail[kx] {
        lemma_pair_tally_mono(table, hero, avail, c0, avail.len() as int, kx);
    } else {
        assert(avail[kx].id() == x);
        assert(avail[ky].id() == y);
        lemma_pair_tally_mono(table, hero, avail, c0, avail.len() as int, ky);
    }
    lemma_end_tally_over_mono(table, hero, avail, avail.len() as int);
}

pub proof fn lemma_deal_tally_some(table: Set<int>, player: Set<int>, need: nat, avail: Seq<Card>, i: int)
    requires
        1 <= need <= 5,
        1 <= i <= avail.len() <= 52,
        avail == unseen(table, player),
        table.union(player).subset_of(all_ids()),
        table.union(player).len() + need <= 50,
    ensures
        deal_tally(table, player, need, avail, i).1 >= 1,
    decreases need, i,
{
    lemma_listed_members(table.union(player).complement(), 52);
    if i > 1 {
        lemma_deal_tally_some(table, player, need, avail, i - 1);
        let t2 = table.insert(avail[i - 1].id());
        if need == 1 {
            lemma_end_tally(t2, player);
        } else {
            let av2 = unseen(t2, player);
            lemma_listed_len(t2.union(player).complement(), 52);
            lemma_deal_tally(t2, player, (need - 1) as nat, av2, av2.len() as int);
        }
    } else {
        assert(deal_tally(table, player, need, avail, 0) == (0int, 0int));
        let c = avail[0].id();
        let t2 = table.insert(c);
        lemma_card_set_finite(table.union(player));
        assert(t2.union(player) =~= table.union(player).insert(c));
        assert(!table.union(player).contains(c));
        if need == 1 {
            lemma_end_tally_some(t2, player);
        } else {
            let used2 = t2.union(player);
            let (x, y) = lemma_two_unseen(used2);
            lemma_listing_position(x);
            let kx = lemma_listed_has(used2.complement(), 52, (x % 4) * 13 + x / 4);
            let av2 = unseen(t2, player);
            lemma_listed_len(used2.complement(), 52);
            lemma_deal_tally_some(t2, player, (need - 1) as nat, av2, av2.len() as int);
        }
    }
}

/// When the hole cards and a board of up to five cards, seven cards at most
/// in all, already make a royal flush, at least one game is counted and
/// every one is a win: the win probability is exactly one.
pub proof fn lemma_royal_flush_certain(table: Set<int>, player: Set<int>, su: int)
    requires
        0 <= su < 4,
        holds_royal_flush(table.union(player), su),
        table.subset_of(all_ids()),
        player.subset_of(all_ids()),
        table.len() <= 5,
        table.len() + player.len() <= 7,
    ensures
        ({
            let t = tally(table, player, (5 - num_cards(table)) as nat);
            t.0 == t.1 && t.1 >= 1
        }),
{
    lemma_num_cards_is_len(table);
    lemma_card_set_finite(player);
    vstd::set_lib::lemma_len_union(table, player);
    let need = (5 - num_cards(table)) as nat;
    lemma_royal_flush_wins_all(table, player, need, su);
    if need == 0 {
        lemma_end_tally_some(table, player);
    } else {
        let used = table.union(player);
        let (x, y) = lemma_two_unseen(used);
        lemma_listing_position(x);
        let kx = lemma_listed_has(used.complement(), 52, (x % 4) * 13 + x / 4);
        lemma_listed_len(used.complement(), 52);
        lemma_deal_tally_some(table, player, need, unseen(table, player), unseen(table, player).len() as int);
    }
}

} // verus!
