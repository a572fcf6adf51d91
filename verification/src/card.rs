//! Cards, suits and the deck.

use vstd::prelude::*;

verus! {

/// The four suits of the standard deck.
#[derive(Clone, Copy, Debug, PartialEq, Eq, Structural)]
pub enum Suit {
    Spades,
    Hearts,
    Diamonds,
    Clubs,
}

/// Number of suits in the deck.
pub const NUM_SUITS: usize = 4;

/// Highest rank (kings).
pub const RANK_MAX: u8 = 13;

/// Number of cards in the deck.
pub const DECK_SIZE: usize = 52;

/// Cards of this rank or higher are monsters.
pub const MONSTER_RANK_START: u8 = 10;

/// A playing card; ranks run from 1 (ace) to 13 (king).
#[derive(Clone, Copy, Debug, PartialEq, Eq, Structural)]
pub struct Card {
    pub rank: u8,
    pub suit: Suit,
}

/// Whether a card is a monster: a ten or a face card.
pub open spec fn spec_is_monster(c: Card) -> bool {
    c.rank >= MONSTER_RANK_START
}

impl Card {
    pub fn is_monster(self) -> (res: bool)
        ensures
            res == spec_is_monster(self),
    {
        self.rank >= MONSTER_RANK_START
    }
}

/// The suit at position `i` of [`Suit::all`].
pub open spec fn suit_at(i: int) -> Suit {
    if i == 0 {
        Suit::Spades
    } else if i == 1 {
        Suit::Hearts
    } else if i == 2 {
        Suit::Diamonds
    } else {
        Suit::Clubs
    }
}

impl Suit {
    /// Every suit, each once.
    pub fn all() -> (res: [Suit; 4])
        ensures
            forall|i: int| 0 <= i < 4 ==> res@[i] == suit_at(i),
    {
        [Suit::Spades, Suit::Hearts, Suit::Diamonds, Suit::Clubs]
    }
}

/// The deck in order: aces first, then twos and so on up to the kings, each
/// rank in the order of [`Suit::all`].
pub open spec fn full_deck() -> Seq<Card> {
    Seq::new(DECK_SIZE as nat, |i: int| Card { rank: (i / 4 + 1) as u8, suit: suit_at(i % 4) })
}

} // verus!
