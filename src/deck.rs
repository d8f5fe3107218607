use vstd::prelude::*;
use crate::card::{Card, Rank, Suit, card_id};

verus! {

/// Whether bit `i` of `v` is set.
pub open spec fn bit_set(v: u64, i: int) -> bool {
    (v >> (i as u64)) & 1u64 == 1u64
}

/// The card ids in `[0, n)` that the set holds, counted.
pub open spec fn count_below(s: Set<int>, n: int) -> int
    decreases n,
{
    if n <= 0 {
        0
    } else {
        count_below(s, n - 1) + if s.contains(n - 1) { 1int } else { 0int }
    }
}

/// The id of the card at listing position `p`: suits in order, ranks in
/// order within a suit.
pub open spec fn listing_id(p: int) -> int {
    card_id(p % 13, p / 13)
}

/// The cards of the first `n` listing positions whose ids the set holds,
/// in listing order.
pub open spec fn listed(s: Set<int>, n: int) -> Seq<Card>
    decreases n,
{
    if n <= 0 {
        Seq::empty()
    } else if s.contains(listing_id(n - 1)) {
        listed(s, n - 1).push(Card::spec_from_id(listing_id(n - 1)))
    } else {
        listed(s, n - 1)
    }
}

/// The ids of the 52 cards.
pub open spec fn all_ids() -> Set<int> {
    Set::new(|i: int| 0 <= i < 52)
}

pub proof fn lemma_bit_or_single(v: u64, k: u64, i: u64)
    requires
        k < 64,
        i < 64,
    ensures
        bit_set(v | (1u64 << k), i as int) == (i == k || bit_set(v, i as int)),
{
    assert(((v | (1u64 << k)) >> i) & 1u64 == 1u64 <==> (i == k || (v >> i) & 1u64 == 1u64))
        by (bit_vector)
        requires
            k < 64,
            i < 64,
    ;
}

pub proof fn lemma_bit_clear_single(v: u64, k: u64, i: u64)
    requires
        k < 64,
        i < 64,
    ensures
        bit_set(v & !(1u64 << k), i as int) == (i != k && bit_set(v, i as int)),
{
    assert(((v & !(1u64 << k)) >> i) & 1u64 == 1u64 <==> (i != k && (v >> i) & 1u64 == 1u64))
        by (bit_vector)
        requires
            k < 64,
            i < 64,
    ;
}

pub proof fn lemma_bit_test(v: u64, k: u64)
    requires
        k < 64,
    ensures
        (v & (1u64 << k) > 0) == bit_set(v, k as int),
{
    assert((v & (1u64 << k) > 0) <==> (v >> k) & 1u64 == 1u64) by (bit_vector)
        requires
            k < 64,
    ;
}

pub proof fn lemma_bit_union(a: u64, b: u64, i: u64)
    requires
        i < 64,
    ensures
        bit_set(a | b, i as int) == (bit_set(a, i as int) || bit_set(b, i as int)),
{
    assert(((a | b) >> i) & 1u64 == 1u64 <==> ((a >> i) & 1u64 == 1u64 || (b >> i) & 1u64 == 1u64))
        by (bit_vector)
        requires
            i < 64,
    ;
}

pub proof fn lemma_bits_of_constants(i: u64)
    requires
        i < 64,
    ensures
        !bit_set(0u64, i as int),
        bit_set(0x000F_FFFF_FFFF_FFFFu64, i as int) == (i < 52),
{
    assert((0u64 >> i) & 1u64 != 1u64) by (bit_vector);
    assert((0x000F_FFFF_FFFF_FFFFu64 >> i) & 1u64 == 1u64 <==> i < 52) by (bit_vector)
        requires
            i < 64,
    ;
}

/// A set of cards, one bit per card id.
#[derive(Debug, Clone, Copy, PartialEq, Eq, Structural)]
pub struct Deck {
    pub value: u64,
}

impl View for Deck {
    type V = Set<int>;

    /// The ids whose bits are set.
    open spec fn view(&self) -> Set<int> {
        Set::new(|i: int| 0 <= i < 64 && bit_set(self.value, i))
    }
}

impl Deck {
    /// Whether the deck holds the card.
    pub open spec fn holds(self, c: Card) -> bool {
        self@.contains(c.id())
    }

    /// The number of cards in the deck.
    pub open spec fn num_cards(self) -> int {
        count_below(self@, 52)
    }

    /// The empty deck.
    pub fn new() -> (r: Deck)
        ensures
            r@ == Set::<int>::empty(),
            r.value == 0,
    {
        let r = Deck { value: 0 };
        proof {
            assert forall|i: int| 0 <= i < 64 implies !bit_set(0u64, i) by {
                lemma_bits_of_constants(i as u64);
            }
            assert(r@ =~= Set::<int>::empty());
        }
        r
    }

    /// The deck of all 52 cards.
    pub fn full_deck() -> (r: Deck)
        ensures
            r@ == all_ids(),
    {
        let r = Deck { value: 0x000F_FFFF_FFFF_FFFF };
        proof {
            assert forall|i: int| 0 <= i < 64 implies bit_set(r.value, i) == (i < 52) by {
                lemma_bits_of_constants(i as u64);
            }
            assert(r@ =~= all_ids());
        }
        r
    }

    /// The deck of the given cards.
    pub fn from_cards(cards: &Vec<Card>) -> (r: Deck)
        ensures
            r@ == Set::new(|i: int| exists|k: int| 0 <= k < cards@.len() && cards@[k].id() == i),
    {
        let mut d = Deck::new();
        for j in 0..cards.len()
            invariant
                d@ == Set::new(|i: int| exists|k: int| 0 <= k < j && cards@[k].id() == i),
        {
            let ghost before = d@;
            d.add_card(cards[j]);
            proof {
                assert forall|i: int| d@.contains(i) == (exists|k: int| 0 <= k < j + 1 && cards@[k].id() == i) by {
                    if d@.contains(i) && i != cards@[j as int].id() {
                        assert(before.contains(i));
                    }
                }
                assert(d@ =~= Set::new(|i: int| exists|k: int| 0 <= k < j + 1 && cards@[k].id() == i));
            }
        }
        d
    }

    /// Adds a card; adding one that is there already changes nothing.
    pub fn add_card(&mut self, card: Card)
        ensures
            final(self)@ == old(self)@.insert(card.id()),
    {
        self.add_id(card.to_id());
    }

    /// Adds the card with the given id.
    pub fn add_id(&mut self, id: u8)
        requires
            id < 64,
        ensures
            final(self)@ == old(self)@.insert(id as int),
    {
        let k = id as u64;
        let old_value = self.value;
        self.value = self.value | (1u64 << k);
        proof {
            assert forall|i: int| 0 <= i < 64 implies bit_set(self.value, i) == (i == k || bit_set(old_value, i)) by {
                lemma_bit_or_single(old_value, k, i as u64);
            }
            lemma_bit_or_single(old_value, k, k);
            assert(self@ =~= old(self)@.insert(id as int));
        }
    }

    /// Removes a card; removing one that is not there changes nothing.
    pub fn remove_card(&mut self, card: Card)
        ensures
            final(self)@ == old(self)@.remove(card.id()),
    {
        let k = card.to_id() as u64;
        let old_value = self.value;
        self.value = self.value & !(1u64 << k);
        proof {
            assert forall|i: int| 0 <= i < 64 implies bit_set(self.value, i) == (i != k && bit_set(old_value, i)) by {
                lemma_bit_clear_single(old_value, k, i as u64);
            }
            assert(self@ =~= old(self)@.remove(card.id()));
        }
    }

    /// Whether the deck holds the card.
    pub fn has_card(&self, card: Card) -> (r: bool)
        ensures
            r == self.holds(card),
    {
        self.has_id(card.to_id())
    }

    /// Whether the deck holds the card with the given id.
    pub fn has_id(&self, id: u8) -> (r: bool)
        requires
            id < 64,
        ensures
            r == self@.contains(id as int),
    {
        proof {
            lemma_bit_test(self.value, id as u64);
        }
        self.value & (1u64 << (id as u64)) > 0
    }

    /// The union of two decks.
    pub fn union(self, other: Deck) -> (r: Deck)
        ensures
            r@ == self@.union(other@),
            r == (Deck { value: self.value | other.value }),
    {
        let r = Deck { value: self.value | other.value };
        proof {
            assert forall|i: int| 0 <= i < 64 implies bit_set(r.value, i) == (bit_set(self.value, i) || bit_set(other.value, i)) by {
                lemma_bit_union(self.value, other.value, i as u64);
            }
            assert(r@ =~= self@.union(other@));
        }
        r
    }

    /// The cards of the deck, by suit and then by rank.
    pub fn get_cards(&self) -> (r: Vec<Card>)
        ensures
            r@ == listed(self@, 52),
    {
        self.list(true)
    }

    /// The cards that the deck does not hold, by suit and then by rank.
    pub fn get_available_cards(&self) -> (r: Vec<Card>)
        ensures
            r@ == listed(self@.complement(), 52),
    {
        self.list(false)
    }

    fn list(&self, present: bool) -> (r: Vec<Card>)
        ensures
            present ==> r@ == listed(self@, 52),
            !present ==> r@ == listed(self@.complement(), 52),
    {
        let ghost s = if present { self@ } else { self@.complement() };
        let mut cards: Vec<Card> = Vec::new();
        for p in 0..52u8
            invariant
                s == if present { self@ } else { self@.complement() },
                cards@ == listed(s, p as int),
        {
            let si = p / 13;
            let ri = p % 13;
            let id = ri * 4 + si;
            assert(listing_id(p as int) == id as int);
            if self.has_id(id) == present {
                let c = Card::new(Suit::from_index(si), Rank::from_index(ri));
                assert(c == Card::spec_from_id(id as int));
                cards.push(c);
            }
        }
        cards
    }

    /// The number of cards in the deck.
    pub fn len(&self) -> (r: u8)
        ensures
            r as int == self.num_cards(),
    {
        let mut n: u8 = 0;
        for id in 0..52u8
            invariant
                n as int == count_below(self@, id as int),
                n <= id,
        {
            if self.has_id(id) {
                n = n + 1;
            }
        }
        n
    }
}

impl core::ops::Add for Deck {
    type Output = Deck;

    fn add(self, other: Deck) -> (r: Deck) {
        self.union(other)
    }
}

impl vstd::std_specs::ops::AddSpecImpl for Deck {
    open spec fn obeys_add_spec() -> bool {
        true
    }

    open spec fn add_req(self, rhs: Deck) -> bool {
        true
    }

    open spec fn add_spec(self, rhs: Deck) -> Deck {
        Deck { value: self.value | rhs.value }
    }
}


/// A card just added is in the deck; added and then removed, it is not.
pub proof fn lemma_add_remove_membership(d: Deck, c: Card)
    ensures
        d@.insert(c.id()).contains(c.id()),
        !d@.insert(c.id()).remove(c.id()).contains(c.id()),
{
}


pub proof fn lemma_rank_roundtrip(r: int)
    requires
        0 <= r < 13,
    ensures
        Rank::spec_from_index(r).spec_index() == r,
{
}

pub proof fn lemma_suit_roundtrip(su: int)
    requires
        0 <= su < 4,
    ensures
        Suit::spec_from_index(su).spec_index() == su,
{
}

pub proof fn lemma_listing_id(p: int)
    requires
        0 <= p < 52,
    ensures
        0 <= listing_id(p) < 52,
        Card::spec_from_id(listing_id(p)).id() == listing_id(p),
{
    let r = p % 13;
    let su = p / 13;
    let id = listing_id(p);
    assert(id == r * 4 + su);
    assert(id / 4 == r && id % 4 == su);
    lemma_rank_roundtrip(r);
    lemma_suit_roundtrip(su);
}

/// Every card listed is one that the set holds.
pub proof fn lemma_listed_members(s: Set<int>, n: int)
    requires
        0 <= n <= 52,
    ensures
        forall|k: int|
            0 <= k < listed(s, n).len() ==> s.contains(#[trigger] listed(s, n)[k].id()) && 0 <= listed(
                s,
                n,
            )[k].id() < 52,
    decreases n,
{
    if n > 0 {
        lemma_listed_members(s, n - 1);
        lemma_listing_id(n - 1);
        let prev = listed(s, n - 1);
        assert forall|k: int| 0 <= k < listed(s, n).len() implies s.contains(#[trigger] listed(s, n)[k].id())
            && 0 <= listed(s, n)[k].id() < 52 by {
            if k < prev.len() {
                assert(listed(s, n)[k] == prev[k]);
            }
        }
    }
}


/// A set of card ids is finite, with at most 52 members.
pub proof fn lemma_card_set_finite(s: Set<int>)
    requires
        s.subset_of(all_ids()),
    ensures
        s.finite(),
        s.len() <= 52,
{
    vstd::set_lib::lemma_int_range(0, 52);
    assert(all_ids() =~= vstd::set_lib::set_int_range(0, 52));
    vstd::set_lib::lemma_len_subset(s, all_ids());
}

/// Counting the ids below 52 counts a set of card ids.
pub proof fn lemma_count_below_len(s: Set<int>, n: int)
    requires
        0 <= n <= 52,
        s.subset_of(all_ids()),
    ensures
        count_below(s, n) == s.intersect(vstd::set_lib::set_int_range(0, n)).len(),
        s.intersect(vstd::set_lib::set_int_range(0, n)).finite(),
    decreases n,
{
    let part = s.intersect(vstd::set_lib::set_int_range(0, n));
    lemma_card_set_finite(s);
    vstd::set_lib::lemma_len_intersect(s, vstd::set_lib::set_int_range(0, n));
    if n == 0 {
        assert(part =~= Set::<int>::empty());
    } else {
        lemma_count_below_len(s, n - 1);
        let before = s.intersect(vstd::set_lib::set_int_range(0, n - 1));
        if s.contains(n - 1) {
            assert(part =~= before.insert(n - 1));
        } else {
            assert(part =~= before);
        }
    }
}

/// For a set of card ids, `num_cards` is its size.
pub proof fn lemma_num_cards_len(d: Deck)
    requires
        d@.subset_of(all_ids()),
    ensures
        d.num_cards() == d@.len(),
        d@.finite(),
{
    lemma_count_below_len(d@, 52);
    assert(d@.intersect(vstd::set_lib::set_int_range(0, 52)) =~= d@);
    lemma_card_set_finite(d@);
}

/// A set that holds the id at listing position `p < n` lists some card.
pub proof fn lemma_listed_nonempty(s: Set<int>, n: int, p: int)
    requires
        0 <= p < n,
        s.contains(listing_id(p)),
    ensures
        listed(s, n).len() > 0,
    decreases n,
{
    if p < n - 1 {
        lemma_listed_nonempty(s, n - 1, p);
    }
}

/// The listing position of each card id.
pub proof fn lemma_listing_position(x: int)
    requires
        0 <= x < 52,
    ensures
        0 <= (x % 4) * 13 + x / 4 < 52,
        listing_id((x % 4) * 13 + x / 4) == x,
{
    let p = (x % 4) * 13 + x / 4;
    assert(p % 13 == x / 4 && p / 13 == x % 4);
}

/// The empty bit mask is the empty deck.
pub proof fn lemma_zero_deck()
    ensures
        (Deck { value: 0 })@ == Set::<int>::empty(),
{
    assert forall|i: int| 0 <= i < 64 implies !bit_set(0u64, i) by {
        lemma_bits_of_constants(i as u64);
    }
    assert((Deck { value: 0 })@ =~= Set::<int>::empty());
}

} // verus!
