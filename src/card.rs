use vstd::prelude::*;
use vstd::string::*;

verus! {

/// The four suits. Their index (0 to 3) is the low part of a card's id.
#[derive(Debug, Clone, Copy, PartialEq, Eq, Structural)]
pub enum Suit {
    Heart,
    Diamond,
    Spade,
    Club,
}

/// The thirteen ranks, from Two (index 0) up to Ace (index 12).
#[derive(Debug, Clone, Copy, PartialEq, Eq, Structural)]
pub enum Rank {
    Two,
    Three,
    Four,
    Five,
    Six,
    Seven,
    Eight,
    Nine,
    Ten,
    Jack,
    Queen,
    King,
    Ace,
}

/// Another name for a rank, as hand evaluation speaks of face values.
pub type FaceValue = Rank;

impl Suit {
    pub open spec fn spec_index(self) -> int {
        match self {
            Suit::Heart => 0,
            Suit::Diamond => 1,
            Suit::Spade => 2,
            Suit::Club => 3,
        }
    }

    pub fn index(self) -> (r: u8)
        ensures
            r as int == self.spec_index(),
            r < 4,
    {
        match self {
            Suit::Heart => 0,
            Suit::Diamond => 1,
            Suit::Spade => 2,
            Suit::Club => 3,
        }
    }

    pub open spec fn spec_from_index(i: int) -> Suit {
        if i == 0 {
            Suit::Heart
        } else if i == 1 {
            Suit::Diamond
        } else if i == 2 {
            Suit::Spade
        } else {
            Suit::Club
        }
    }

    /// The suit with index `i`.
    pub fn from_index(i: u8) -> (r: Suit)
        requires
            i < 4,
        ensures
            r == Suit::spec_from_index(i as int),
            r.spec_index() == i as int,
    {
        if i == 0 {
            Suit::Heart
        } else if i == 1 {
            Suit::Diamond
        } else if i == 2 {
            Suit::Spade
        } else {
            Suit::Club
        }
    }

    pub open spec fn label(self) -> Seq<char> {
        match self {
            Suit::Heart => "♥"@,
            Suit::Diamond => "♦"@,
            Suit::Spade => "♠"@,
            Suit::Club => "♣"@,
        }
    }

    /// The suit's symbol.
    pub fn symbol(self) -> (r: &'static str)
        ensures
            r@ == self.label(),
    {
        match self {
            Suit::Heart => "♥",
            Suit::Diamond => "♦",
            Suit::Spade => "♠",
            Suit::Club => "♣",
        }
    }
}

impl Rank {
    pub open spec fn spec_index(self) -> int {
        match self {
            Rank::Two => 0,
            Rank::Three => 1,
            Rank::Four => 2,
            Rank::Five => 3,
            Rank::Six => 4,
            Rank::Seven => 5,
            Rank::Eight => 6,
            Rank::Nine => 7,
            Rank::Ten => 8,
            Rank::Jack => 9,
            Rank::Queen => 10,
            Rank::King => 11,
            Rank::Ace => 12,
        }
    }

    pub fn index(self) -> (r: u8)
        ensures
            r as int == self.spec_index(),
            r < 13,
    {
        match self {
            Rank::Two => 0,
            Rank::Three => 1,
            Rank::Four => 2,
            Rank::Five => 3,
            Rank::Six => 4,
            Rank::Seven => 5,
            Rank::Eight => 6,
            Rank::Nine => 7,
            Rank::Ten => 8,
            Rank::Jack => 9,
            Rank::Queen => 10,
            Rank::King => 11,
            Rank::Ace => 12,
        }
    }

    pub open spec fn spec_from_index(i: int) -> Rank {
        if i == 0 {
            Rank::Two
        } else if i == 1 {
            Rank::Three
        } else if i == 2 {
            Rank::Four
        } else if i == 3 {
            Rank::Five
        } else if i == 4 {
            Rank::Six
        } else if i == 5 {
            Rank::Seven
        } else if i == 6 {
            Rank::Eight
        } else if i == 7 {
            Rank::Nine
        } else if i == 8 {
            Rank::Ten
        } else if i == 9 {
            Rank::Jack
        } else if i == 10 {
            Rank::Queen
        } else if i == 11 {
            Rank::King
        } else {
            Rank::Ace
        }
    }

    /// The rank with index `i`.
    pub fn from_index(i: u8) -> (r: Rank)
        requires
            i < 13,
        ensures
            r == Rank::spec_from_index(i as int),
            r.spec_index() == i as int,
    {
        if i == 0 {
            Rank::Two
        } else if i == 1 {
            Rank::Three
        } else if i == 2 {
            Rank::Four
        } else if i == 3 {
            Rank::Five
        } else if i == 4 {
            Rank::Six
        } else if i == 5 {
            Rank::Seven
        } else if i == 6 {
            Rank::Eight
        } else if i == 7 {
            Rank::Nine
        } else if i == 8 {
            Rank::Ten
        } else if i == 9 {
            Rank::Jack
        } else if i == 10 {
            Rank::Queen
        } else if i == 11 {
            Rank::King
        } else {
            Rank::Ace
        }
    }

    pub open spec fn label(self) -> Seq<char> {
        match self {
            Rank::Two => "2"@,
            Rank::Three => "3"@,
            Rank::Four => "4"@,
            Rank::Five => "5"@,
            Rank::Six => "6"@,
            Rank::Seven => "7"@,
            Rank::Eight => "8"@,
            Rank::Nine => "9"@,
            Rank::Ten => "10"@,
            Rank::Jack => "J"@,
            Rank::Queen => "Q"@,
            Rank::King => "K"@,
            Rank::Ace => "A"@,
        }
    }

    /// The rank's label: its digits, or the initial of a court card or ace.
    pub fn symbol(self) -> (r: &'static str)
        ensures
            r@ == self.label(),
    {
        match self {
            Rank::Two => "2",
            Rank::Three => "3",
            Rank::Four => "4",
            Rank::Five => "5",
            Rank::Six => "6",
            Rank::Seven => "7",
            Rank::Eight => "8",
            Rank::Nine => "9",
            Rank::Ten => "10",
            Rank::Jack => "J",
            Rank::Queen => "Q",
            Rank::King => "K",
            Rank::Ace => "A",
        }
    }
}

/// One of the 52 playing cards.
#[derive(Debug, Clone, Copy, PartialEq, Eq, Structural)]
pub struct Card {
    pub suit: Suit,
    pub rank: Rank,
}

/// The rank index of a card id.
pub open spec fn id_rank(id: int) -> int {
    id / 4
}

/// The suit index of a card id.
pub open spec fn id_suit(id: int) -> int {
    id % 4
}

/// The card id of a rank index and a suit index.
pub open spec fn card_id(rank: int, suit: int) -> int {
    rank * 4 + suit
}

impl Card {
    /// The canonical id: four times the rank index plus the suit index.
    pub open spec fn id(self) -> int {
        card_id(self.rank.spec_index(), self.suit.spec_index())
    }

    pub open spec fn spec_from_id(id: int) -> Card {
        Card { suit: Suit::spec_from_index(id_suit(id)), rank: Rank::spec_from_index(id_rank(id)) }
    }

    pub fn new(suit: Suit, rank: Rank) -> (r: Card)
        ensures
            r.suit == suit,
            r.rank == rank,
    {
        Card { rank, suit }
    }

    /// The canonical id of the card, in `0..52`.
    pub fn to_id(self) -> (r: u8)
        ensures
            r as int == self.id(),
            r < 52,
    {
        self.rank.index() * 4 + self.suit.index()
    }

    /// The card with the given id; ids from 52 up are refused.
    pub fn try_from(num_value: u8) -> (r: Result<Card, &'static str>)
        ensures
            num_value < 52 ==> r == Ok::<Card, &'static str>(Card::spec_from_id(num_value as int)),
            num_value < 52 ==> r->Ok_0.id() == num_value as int,
            num_value >= 52 ==> r == Err::<Card, &'static str>("Bad card value"),
    {
        if num_value >= 52 {
            return Err("Bad card value");
        }
        let suit = Suit::from_index(num_value % 4);
        let rank = Rank::from_index(num_value / 4);
        Ok(Card { suit, rank })
    }

    /// The card written as its suit symbol followed by its rank label.
    pub fn to_string(&self) -> (r: String)
        ensures
            r@ == self.suit.label() + self.rank.label(),
    {
        let s = String::from_str(self.suit.symbol());
        s.concat(self.rank.symbol())
    }
}

impl From<Card> for u8 {
    fn from(item: Card) -> (r: u8) {
        item.to_id()
    }
}

impl vstd::std_specs::convert::FromSpecImpl<Card> for u8 {
    open spec fn obeys_from_spec() -> bool {
        true
    }

    open spec fn from_spec(v: Card) -> u8 {
        v.id() as u8
    }
}

} // verus!
