use vstd::prelude::*;
use crate::card::{Card, Rank, Suit, card_id};
use crate::deck::{Deck, count_below};

verus! {

/// The best five-card hand that a set of cards holds, with what breaks ties
/// within its kind, highest first.
#[derive(Debug, Clone, Copy, PartialEq, Eq)]
pub enum HandRank {
    RoyalFlush,
    StraightFlush { high_card: Rank },
    FourOfAKind { value: Rank, kicker: Rank },
    FullHouse { three_value: Rank, two_value: Rank },
    Flush { values: [Rank; 5] },
    Straight { high_card: Rank },
    ThreeOfAKind { value: Rank, kickers: [Rank; 2] },
    TwoPairs { high_value: Rank, second_value: Rank, kicker: Rank },
    OnePair { value: Rank, kickers: [Rank; 3] },
    HighCard { values: [Rank; 5] },
}

/// Whether the set holds the card of rank index `r` and suit index `su`.
pub open spec fn has(s: Set<int>, r: int, su: int) -> bool {
    s.contains(card_id(r, su))
}

/// How many cards of rank index `r` the set holds.
pub open spec fn rank_count(s: Set<int>, r: int) -> int {
    (if has(s, r, 0) { 1int } else { 0int }) + (if has(s, r, 1) { 1int } else { 0int }) + (if has(
        s,
        r,
        2,
    ) {
        1int
    } else {
        0int
    }) + (if has(s, r, 3) { 1int } else { 0int })
}

/// How many cards of ranks `0..=r` the set holds.
pub open spec fn total(s: Set<int>, r: int) -> int
    decreases r + 1,
{
    if r < 0 {
        0
    } else {
        total(s, r - 1) + rank_count(s, r)
    }
}

/// How many cards of suit `su` and of ranks `0..=r` the set holds.
pub open spec fn suit_count(s: Set<int>, su: int, r: int) -> int
    decreases r + 1,
{
    if r < 0 {
        0
    } else {
        suit_count(s, su, r - 1) + if has(s, r, su) { 1int } else { 0int }
    }
}

/// The number of cards in the set.
pub open spec fn num_cards(s: Set<int>) -> int {
    total(s, 12)
}

/// Whether bit `r` of a rank mask is set.
pub open spec fn mask_has(m: u16, r: int) -> bool {
    (m >> (r as u16)) & 1u16 == 1u16
}

/// The ranks that a mask marks.
pub open spec fn mask_ranks(m: u16) -> spec_fn(int) -> bool {
    |r: int| 0 <= r < 13 && mask_has(m, r)
}

/// The ranks of the suit's cards in the set.
pub open spec fn suit_ranks_pred(s: Set<int>, su: int) -> spec_fn(int) -> bool {
    |r: int| 0 <= r < 13 && has(s, r, su)
}

/// The ranks of the set's cards.
pub open spec fn ranks_pred(s: Set<int>) -> spec_fn(int) -> bool {
    |r: int| 0 <= r < 13 && rank_count(s, r) > 0
}

/// Five ranks in a row up to `high`; below the Two comes the Ace.
pub open spec fn straight_at(p: spec_fn(int) -> bool, high: int) -> bool {
    &&& p(high)
    &&& p(high - 1)
    &&& p(high - 2)
    &&& p(high - 3)
    &&& if high == 3 {
        p(12)
    } else {
        p(high - 4)
    }
}

/// The highest `r` in `3..=top` that ends a straight; -1 if none does.
pub open spec fn straight_from(p: spec_fn(int) -> bool, top: int) -> int
    decreases top,
{
    if top < 3 {
        -1
    } else if straight_at(p, top) {
        top
    } else {
        straight_from(p, top - 1)
    }
}

/// The high card of the best straight among the ranks; -1 if there is none.
pub open spec fn straight_high(p: spec_fn(int) -> bool) -> int {
    straight_from(p, 12)
}

pub open spec fn max_int(a: int, b: int) -> int {
    if a >= b {
        a
    } else {
        b
    }
}

/// The high card of the best straight flush; -1 if there is none.
pub open spec fn straight_flush_high(s: Set<int>) -> int {
    max_int(
        max_int(straight_high(suit_ranks_pred(s, 0)), straight_high(suit_ranks_pred(s, 1))),
        max_int(straight_high(suit_ranks_pred(s, 2)), straight_high(suit_ranks_pred(s, 3))),
    )
}

/// The highest rank in `0..=r`, other than `excl`, of which the set holds at
/// least `k` cards; -1 if there is none.
pub open spec fn top_with(s: Set<int>, k: int, excl: int, r: int) -> int
    decreases r + 1,
{
    if r < 0 {
        -1
    } else if r != excl && rank_count(s, r) >= k {
        r
    } else {
        top_with(s, k, excl, r - 1)
    }
}

/// The first suit with five cards or more in the set; -1 if there is none.
pub open spec fn flush_suit(s: Set<int>) -> int {
    if suit_count(s, 0, 12) >= 5 {
        0
    } else if suit_count(s, 1, 12) >= 5 {
        1
    } else if suit_count(s, 2, 12) >= 5 {
        2
    } else if suit_count(s, 3, 12) >= 5 {
        3
    } else {
        -1
    }
}

/// The ranks of the set's cards of ranks `0..=r`, one entry per card, highest
/// first, leaving out ranks `e1` and `e2`.
pub open spec fn kickers(s: Set<int>, e1: int, e2: int, r: int) -> Seq<Rank>
    decreases r + 1,
{
    if r < 0 {
        Seq::empty()
    } else if r == e1 || r == e2 {
        kickers(s, e1, e2, r - 1)
    } else {
        Seq::new(rank_count(s, r) as nat, |i: int| Rank::spec_from_index(r)) + kickers(s, e1, e2, r - 1)
    }
}

/// The ranks of the set's cards of suit `su` and of ranks `0..=r`, highest first.
pub open spec fn suit_ranks(s: Set<int>, su: int, r: int) -> Seq<Rank>
    decreases r + 1,
{
    if r < 0 {
        Seq::empty()
    } else if has(s, r, su) {
        seq![Rank::spec_from_index(r)] + suit_ranks(s, su, r - 1)
    } else {
        suit_ranks(s, su, r - 1)
    }
}

/// The best hand that a set of at least five cards holds, by the usual
/// order of kinds: straight flush, four of a kind, full house, flush,
/// straight, three of a kind, two pairs, one pair, high card.
pub open spec fn hand_rank(s: Set<int>) -> HandRank {
    let sf = straight_flush_high(s);
    let quad = top_with(s, 4, -1, 12);
    let trips = top_with(s, 3, -1, 12);
    let over_trips = top_with(s, 2, trips, 12);
    let fs = flush_suit(s);
    let st = straight_high(ranks_pred(s));
    let pair = top_with(s, 2, -1, 12);
    let second = top_with(s, 2, pair, 12);
    if sf == 12 {
        HandRank::RoyalFlush
    } else if sf >= 0 {
        HandRank::StraightFlush { high_card: Rank::spec_from_index(sf) }
    } else if quad >= 0 {
        HandRank::FourOfAKind { value: Rank::spec_from_index(quad), kicker: kickers(s, quad, -1, 12)[0] }
    } else if trips >= 0 && over_trips >= 0 {
        HandRank::FullHouse {
            three_value: Rank::spec_from_index(trips),
            two_value: Rank::spec_from_index(over_trips),
        }
    } else if fs >= 0 {
        let v = suit_ranks(s, fs, 12);
        HandRank::Flush { values: [v[0], v[1], v[2], v[3], v[4]] }
    } else if st >= 0 {
        HandRank::Straight { high_card: Rank::spec_from_index(st) }
    } else if trips >= 0 {
        let k = kickers(s, trips, -1, 12);
        HandRank::ThreeOfAKind { value: Rank::spec_from_index(trips), kickers: [k[0], k[1]] }
    } else if pair >= 0 && second >= 0 {
        HandRank::TwoPairs {
            high_value: Rank::spec_from_index(pair),
            second_value: Rank::spec_from_index(second),
            kicker: kickers(s, pair, second, 12)[0],
        }
    } else if pair >= 0 {
        let k = kickers(s, pair, -1, 12);
        HandRank::OnePair { value: Rank::spec_from_index(pair), kickers: [k[0], k[1], k[2]] }
    } else {
        let k = kickers(s, -1, -1, 12);
        HandRank::HighCard { values: [k[0], k[1], k[2], k[3], k[4]] }
    }
}


pub proof fn lemma_mask_set(m: u16, r: u16, x: u16)
    requires
        r < 16,
        x < 16,
    ensures
        mask_has(m | (1u16 << r), x as int) == (x == r || mask_has(m, x as int)),
{
    assert(((m | (1u16 << r)) >> x) & 1u16 == 1u16 <==> (x == r || (m >> x) & 1u16 == 1u16))
        by (bit_vector)
        requires
            r < 16,
            x < 16,
    ;
}

pub proof fn lemma_mask_empty(x: u16)
    requires
        x < 16,
    ensures
        !mask_has(0u16, x as int),
{
    assert((0u16 >> x) & 1u16 != 1u16) by (bit_vector);
}

pub proof fn lemma_total_nonneg(s: Set<int>, r: int)
    ensures
        total(s, r) >= 0,
    decreases r + 1,
{
    if r >= 0 {
        lemma_total_nonneg(s, r - 1);
    }
}

pub proof fn lemma_kickers_len(s: Set<int>, e1: int, e2: int, r: int)
    requires
        e1 != e2 || e1 < 0,
    ensures
        kickers(s, e1, e2, r).len() == total(s, r) - (if 0 <= e1 <= r { rank_count(s, e1) } else { 0 }) - (
        if 0 <= e2 <= r && e2 != e1 {
            rank_count(s, e2)
        } else {
            0
        }),
    decreases r + 1,
{
    if r >= 0 {
        lemma_kickers_len(s, e1, e2, r - 1);
    }
}

pub proof fn lemma_suit_ranks_len(s: Set<int>, su: int, r: int)
    ensures
        suit_ranks(s, su, r).len() == suit_count(s, su, r),
    decreases r + 1,
{
    if r >= 0 {
        lemma_suit_ranks_len(s, su, r - 1);
    }
}

pub proof fn lemma_top_with(s: Set<int>, k: int, excl: int, r: int)
    requires
        r >= -1,
    ensures
        -1 <= top_with(s, k, excl, r) <= r,
        top_with(s, k, excl, r) >= 0 ==> top_with(s, k, excl, r) != excl && rank_count(
            s,
            top_with(s, k, excl, r),
        ) >= k,
        top_with(s, k, excl, r) < 0 ==> forall|x: int| 0 <= x <= r && x != excl ==> rank_count(s, x) < k,
    decreases r + 1,
{
    if r >= 0 {
        lemma_top_with(s, k, excl, r - 1);
    }
}

pub proof fn lemma_straight_from_bound(p: spec_fn(int) -> bool, top: int)
    ensures
        straight_from(p, top) == -1 || (3 <= straight_from(p, top) <= top && straight_at(p, straight_from(p, top))),
    decreases top,
{
    if top >= 3 && !straight_at(p, top) {
        lemma_straight_from_bound(p, top - 1);
    }
}

/// How many cards of rank `r` the deck holds.
fn rank_count_of(deck: &Deck, r: u8) -> (c: u8)
    requires
        r < 13,
    ensures
        c as int == rank_count(deck@, r as int),
{
    let a: u8 = if deck.has_id(r * 4) { 1 } else { 0 };
    let b: u8 = if deck.has_id(r * 4 + 1) { 1 } else { 0 };
    let c: u8 = if deck.has_id(r * 4 + 2) { 1 } else { 0 };
    let d: u8 = if deck.has_id(r * 4 + 3) { 1 } else { 0 };
    a + b + c + d
}

/// How many cards of suit `su` the deck holds.
fn get_suit_count(deck: &Deck, su: u8) -> (c: u8)
    requires
        su < 4,
    ensures
        c as int == suit_count(deck@, su as int, 12),
{
    let mut c: u8 = 0;
    for r in 0..13u8
        invariant
            su < 4,
            c <= r,
            c as int == suit_count(deck@, su as int, r - 1),
    {
        if deck.has_id(r * 4 + su) {
            c = c + 1;
        }
    }
    c
}

/// The rank mask of the deck's cards of suit `su`.
fn suit_mask(deck: &Deck, su: u8) -> (m: u16)
    requires
        su < 4,
    ensures
        forall|r: int| 0 <= r < 13 ==> mask_has(m, r) == has(deck@, r, su as int),
{
    let mut m: u16 = 0;
    proof {
        assert forall|x: int| 0 <= x < 13 implies !mask_has(0u16, x) by {
            lemma_mask_empty(x as u16);
        }
    }
    for r in 0..13u8
        invariant
            su < 4,
            forall|x: int| 0 <= x < 13 ==> mask_has(m, x) == (x < r && has(deck@, x, su as int)),
    {
        if deck.has_id(r * 4 + su) {
            let ghost before = m;
            m = m | (1u16 << (r as u16));
            proof {
                assert forall|x: int| 0 <= x < 13 implies mask_has(m, x) == (x < r + 1 && has(deck@, x, su as int)) by {
                    lemma_mask_set(before, r as u16, x as u16);
                }
            }
        }
    }
    m
}

/// The high card of the best straight among the ranks that the mask
/// marks; a Two counts as the card above an Ace.
pub fn get_straight_high_card(val: u16) -> (r: Option<Rank>)
    ensures
        straight_high(mask_ranks(val)) >= 0 ==> r == Some(Rank::spec_from_index(straight_high(mask_ranks(val)))),
        straight_high(mask_ranks(val)) < 0 ==> r.is_none(),
{
    let ghost p = mask_ranks(val);
    let mut top: u8 = 12;
    while top >= 3
        invariant
            top <= 12,
            p == mask_ranks(val),
            straight_from(p, top as int) == straight_from(p, 12),
        decreases top,
    {
        let a = (val >> (top as u16)) & 1 == 1;
        let b = (val >> ((top - 1) as u16)) & 1 == 1;
        let c = (val >> ((top - 2) as u16)) & 1 == 1;
        let d = (val >> ((top - 3) as u16)) & 1 == 1;
        let low: u8 = if top == 3 { 12 } else { top - 4 };
        let e = (val >> (low as u16)) & 1 == 1;
        assert(straight_at(p, top as int) == (a && b && c && d && e));
        if a && b && c && d && e {
            return Some(Rank::from_index(top));
        }
        if top == 3 {
            assert(straight_from(p, 2) == -1);
            return None;
        }
        top = top - 1;
    }
    None
}


/// The number of cards of each rank, Two first.
fn get_face_count(deck: &Deck) -> (v: Vec<u8>)
    ensures
        v@.len() == 13,
        forall|r: int| 0 <= r < 13 ==> #[trigger] v@[r] as int == rank_count(deck@, r),
{
    let mut v: Vec<u8> = Vec::new();
    for r in 0..13u8
        invariant
            v@.len() == r,
            forall|x: int| 0 <= x < r ==> #[trigger] v@[x] as int == rank_count(deck@, x),
    {
        v.push(rank_count_of(deck, r));
    }
    v
}

/// The highest rank, other than `excl`, of which the deck holds at least
/// `k` cards; -1 if there is none.
fn top_rank_with(deck: &Deck, counts: &Vec<u8>, k: u8, excl: i8) -> (r: i8)
    requires
        counts@.len() == 13,
        forall|x: int| 0 <= x < 13 ==> #[trigger] counts@[x] as int == rank_count(deck@, x),
    ensures
        r as int == top_with(deck@, k as int, excl as int, 12),
{
    let mut r: i8 = 12;
    while r >= 0
        invariant
            -1 <= r <= 12,
            counts@.len() == 13,
            forall|x: int| 0 <= x < 13 ==> #[trigger] counts@[x] as int == rank_count(deck@, x),
            top_with(deck@, k as int, excl as int, r as int) == top_with(deck@, k as int, excl as int, 12),
        decreases r + 1,
    {
        if r != excl && counts[r as usize] >= k {
            return r;
        }
        r = r - 1;
    }
    -1
}

/// The ranks of the deck's cards, one entry per card, highest first,
/// leaving out ranks `e1` and `e2`.
pub fn get_kickers(deck: &Deck, counts: &Vec<u8>, e1: i8, e2: i8) -> (v: Vec<Rank>)
    requires
        counts@.len() == 13,
        forall|x: int| 0 <= x < 13 ==> #[trigger] counts@[x] as int == rank_count(deck@, x),
    ensures
        v@ == kickers(deck@, e1 as int, e2 as int, 12),
{
    let ghost s = deck@;
    let mut v: Vec<Rank> = Vec::new();
    let mut r: i8 = 12;
    while r >= 0
        invariant
            -1 <= r <= 12,
            counts@.len() == 13,
            s == deck@,
            forall|x: int| 0 <= x < 13 ==> #[trigger] counts@[x] as int == rank_count(s, x),
            v@ + kickers(s, e1 as int, e2 as int, r as int) == kickers(s, e1 as int, e2 as int, 12),
        decreases r + 1,
    {
        if r != e1 && r != e2 {
            let c = counts[r as usize];
            let rank = Rank::from_index(r as u8);
            let ghost v0 = v@;
            let ghost block = Seq::new(rank_count(s, r as int) as nat, |i: int| Rank::spec_from_index(r as int));
            for j in 0..c
                invariant
                    v@ == v0 + Seq::new(j as nat, |i: int| Rank::spec_from_index(r as int)),
                    rank == Rank::spec_from_index(r as int),
            {
                v.push(rank);
                assert(v@ =~= v0 + Seq::new((j + 1) as nat, |i: int| Rank::spec_from_index(r as int)));
            }
            assert(v@ == v0 + block);
            assert(v0 + kickers(s, e1 as int, e2 as int, r as int) =~= v@ + kickers(s, e1 as int, e2 as int, r - 1));
        }
        r = r - 1;
    }
    assert(v@ + kickers(s, e1 as int, e2 as int, -1) =~= v@);
    v
}

/// The ranks of the deck's cards of suit `su`, highest first.
fn get_suit_ranks(deck: &Deck, su: u8) -> (v: Vec<Rank>)
    requires
        su < 4,
    ensures
        v@ == suit_ranks(deck@, su as int, 12),
{
    let ghost s = deck@;
    let mut v: Vec<Rank> = Vec::new();
    let mut r: i8 = 12;
    while r >= 0
        invariant
            -1 <= r <= 12,
            su < 4,
            s == deck@,
            v@ + suit_ranks(s, su as int, r as int) == suit_ranks(s, su as int, 12),
        decreases r + 1,
    {
        let ghost v0 = v@;
        let id: u8 = (r as u8) * 4 + su;
        assert(id as int == card_id(r as int, su as int));
        let present = deck.has_id(id);
        assert(present == has(s, r as int, su as int));
        if present {
            v.push(Rank::from_index(r as u8));
            assert(suit_ranks(s, su as int, r as int) == seq![Rank::spec_from_index(r as int)] + suit_ranks(
                s,
                su as int,
                r - 1,
            ));
            assert(v0 + suit_ranks(s, su as int, r as int) =~= v@ + suit_ranks(s, su as int, r - 1));
        } else {
            assert(suit_ranks(s, su as int, r as int) == suit_ranks(s, su as int, r - 1));
        }
        r = r - 1;
    }
    assert(v@ + suit_ranks(s, su as int, -1) =~= v@);
    v
}

/// The high card of the best straight flush in the deck; -1 if none.
fn straight_flush_high_card(deck: &Deck) -> (r: i8)
    ensures
        r as int == straight_flush_high(deck@),
{
    let mut best: i8 = -1;
    let ghost s = deck@;
    for su in 0..4u8
        invariant
            best as int == if su == 0 {
                -1
            } else if su == 1 {
                max_int(-1, straight_high(suit_ranks_pred(s, 0)))
            } else if su == 2 {
                max_int(max_int(-1, straight_high(suit_ranks_pred(s, 0))), straight_high(suit_ranks_pred(s, 1)))
            } else if su == 3 {
                max_int(
                    max_int(max_int(-1, straight_high(suit_ranks_pred(s, 0))), straight_high(suit_ranks_pred(s, 1))),
                    straight_high(suit_ranks_pred(s, 2)),
                )
            } else {
                max_int(
                    max_int(
                        max_int(max_int(-1, straight_high(suit_ranks_pred(s, 0))), straight_high(suit_ranks_pred(s, 1))),
                        straight_high(suit_ranks_pred(s, 2)),
                    ),
                    straight_high(suit_ranks_pred(s, 3)),
                )
            },
            -1 <= best <= 12,
            s == deck@,
    {
        let m = suit_mask(deck, su);
        assert forall|x: int| #[trigger] mask_ranks(m)(x) == suit_ranks_pred(s, su as int)(x) by {
            if 0 <= x < 13 {
                assert(mask_has(m, x) == has(s, x, su as int));
            }
        }
        assert(mask_ranks(m) =~= suit_ranks_pred(s, su as int));
        proof {
            lemma_straight_from_bound(suit_ranks_pred(s, su as int), 12);
        }
        match get_straight_high_card(m) {
            Some(rank) => {
                let h = rank.index() as i8;
                if h > best {
                    best = h;
                }
            },
            None => {},
        }
    }
    proof {
        let a = straight_high(suit_ranks_pred(s, 0));
        let b = straight_high(suit_ranks_pred(s, 1));
        let c = straight_high(suit_ranks_pred(s, 2));
        let d = straight_high(suit_ranks_pred(s, 3));
        lemma_straight_from_bound(suit_ranks_pred(s, 0), 12);
        lemma_straight_from_bound(suit_ranks_pred(s, 1), 12);
        lemma_straight_from_bound(suit_ranks_pred(s, 2), 12);
        lemma_straight_from_bound(suit_ranks_pred(s, 3), 12);
        assert(max_int(max_int(max_int(max_int(-1, a), b), c), d) == max_int(max_int(a, b), max_int(c, d)));
    }
    best
}


/// The mask of the ranks that the deck holds a card of.
fn rank_mask(deck: &Deck, counts: &Vec<u8>) -> (m: u16)
    requires
        counts@.len() == 13,
        forall|x: int| 0 <= x < 13 ==> #[trigger] counts@[x] as int == rank_count(deck@, x),
    ensures
        mask_ranks(m) == ranks_pred(deck@),
{
    let mut m: u16 = 0;
    proof {
        assert forall|x: int| 0 <= x < 13 implies !mask_has(0u16, x) by {
            lemma_mask_empty(x as u16);
        }
    }
    for r in 0..13u8
        invariant
            counts@.len() == 13,
            forall|x: int| 0 <= x < 13 ==> #[trigger] counts@[x] as int == rank_count(deck@, x),
            forall|x: int| 0 <= x < 13 ==> mask_has(m, x) == (x < r && rank_count(deck@, x) > 0),
    {
        if counts[r as usize] > 0 {
            let ghost before = m;
            m = m | (1u16 << (r as u16));
            proof {
                assert forall|x: int| 0 <= x < 13 implies mask_has(m, x) == (x < r + 1 && rank_count(deck@, x) > 0) by {
                    lemma_mask_set(before, r as u16, x as u16);
                }
            }
        }
    }
    assert forall|x: int| #[trigger] mask_ranks(m)(x) == ranks_pred(deck@)(x) by {
        if 0 <= x < 13 {
            assert(mask_has(m, x) == (rank_count(deck@, x) > 0));
        }
    }
    assert(mask_ranks(m) =~= ranks_pred(deck@));
    m
}

/// The best hand that the deck holds; it must hold five cards or more.
pub fn evaluate_deck(deck: &Deck) -> (r: HandRank)
    requires
        num_cards(deck@) >= 5,
    ensures
        r == hand_rank(deck@),
{
    let ghost s = deck@;
    let counts = get_face_count(deck);
    let sf = straight_flush_high_card(deck);
    proof {
        lemma_straight_from_bound(suit_ranks_pred(s, 0), 12);
        lemma_straight_from_bound(suit_ranks_pred(s, 1), 12);
        lemma_straight_from_bound(suit_ranks_pred(s, 2), 12);
        lemma_straight_from_bound(suit_ranks_pred(s, 3), 12);
    }
    if sf == 12 {
        return HandRank::RoyalFlush;
    }
    if sf >= 0 {
        return HandRank::StraightFlush { high_card: Rank::from_index(sf as u8) };
    }
    let quad = top_rank_with(deck, &counts, 4, -1);
    proof {
        lemma_top_with(s, 4, -1, 12);
    }
    if quad >= 0 {
        proof {
            lemma_kickers_len(s, quad as int, -1, 12);
        }
        let k = get_kickers(deck, &counts, quad, -1);
        return HandRank::FourOfAKind { value: Rank::from_index(quad as u8), kicker: k[0] };
    }
    let trips = top_rank_with(deck, &counts, 3, -1);
    let over_trips = top_rank_with(deck, &counts, 2, trips);
    proof {
        lemma_top_with(s, 3, -1, 12);
        lemma_top_with(s, 2, trips as int, 12);
    }
    if trips >= 0 && over_trips >= 0 {
        return HandRank::FullHouse {
            three_value: Rank::from_index(trips as u8),
            two_value: Rank::from_index(over_trips as u8),
        };
    }
    let c0 = get_suit_count(deck, 0);
    let c1 = get_suit_count(deck, 1);
    let c2 = get_suit_count(deck, 2);
    let c3 = get_suit_count(deck, 3);
    let fs: i8 = if c0 >= 5 {
        0
    } else if c1 >= 5 {
        1
    } else if c2 >= 5 {
        2
    } else if c3 >= 5 {
        3
    } else {
        -1
    };
    if fs >= 0 {
        proof {
            lemma_suit_ranks_len(s, fs as int, 12);
        }
        let v = get_suit_ranks(deck, fs as u8);
        return HandRank::Flush { values: [v[0], v[1], v[2], v[3], v[4]] };
    }
    let m = rank_mask(deck, &counts);
    match get_straight_high_card(m) {
        Some(high_card) => {
            return HandRank::Straight { high_card };
        },
        None => {},
    }
    if trips >= 0 {
        proof {
            lemma_kickers_len(s, trips as int, -1, 12);
        }
        let k = get_kickers(deck, &counts, trips, -1);
        return HandRank::ThreeOfAKind { value: Rank::from_index(trips as u8), kickers: [k[0], k[1]] };
    }
    let pair = top_rank_with(deck, &counts, 2, -1);
    let second = top_rank_with(deck, &counts, 2, pair);
    proof {
        lemma_top_with(s, 2, -1, 12);
        lemma_top_with(s, 2, pair as int, 12);
    }
    if pair >= 0 && second >= 0 {
        proof {
            lemma_kickers_len(s, pair as int, second as int, 12);
        }
        let k = get_kickers(deck, &counts, pair, second);
        return HandRank::TwoPairs {
            high_value: Rank::from_index(pair as u8),
            second_value: Rank::from_index(second as u8),
            kicker: k[0],
        };
    }
    if pair >= 0 {
        proof {
            lemma_kickers_len(s, pair as int, -1, 12);
        }
        let k = get_kickers(deck, &counts, pair, -1);
        return HandRank::OnePair { value: Rank::from_index(pair as u8), kickers: [k[0], k[1], k[2]] };
    }
    proof {
        lemma_kickers_len(s, -1, -1, 12);
    }
    let k = get_kickers(deck, &counts, -1, -1);
    HandRank::HighCard { values: [k[0], k[1], k[2], k[3], k[4]] }
}


/// The number of cards in the deck, counted rank by rank.
pub fn card_count(deck: &Deck) -> (n: u8)
    ensures
        n as int == num_cards(deck@),
{
    let mut n: u8 = 0;
    for r in 0..13u8
        invariant
            n as int == total(deck@, r - 1),
            n <= 4 * r,
    {
        let c = rank_count_of(deck, r);
        n = n + c;
    }
    n
}

} // verus!
