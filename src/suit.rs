//! The four suits of cards: Spades, Clubs, Diamonds and Hearts.

use vstd::prelude::*;

verus! {

/// The four suits a card can have, ordered by value.
#[derive(Clone, Copy, PartialEq, Eq, Structural, Hash, Debug, PartialOrd, Ord)]
pub enum Suit {
    Spades,
    Clubs,
    Diamonds,
    Hearts,
}

impl Suit {
    /// Position of the suit in the order Spades, Clubs, Diamonds, Hearts.
    pub open spec fn index_of(self) -> int {
        match self {
            Suit::Spades => 0,
            Suit::Clubs => 1,
            Suit::Diamonds => 2,
            Suit::Hearts => 3,
        }
    }

    /// The suit at a position of the order Spades, Clubs, Diamonds, Hearts.
    pub open spec fn at(i: int) -> Suit {
        if i == 0 {
            Suit::Spades
        } else if i == 1 {
            Suit::Clubs
        } else if i == 2 {
            Suit::Diamonds
        } else {
            Suit::Hearts
        }
    }

    pub fn index(&self) -> (r: usize)
        ensures
            r == self.index_of(),
            r < 4,
    {
        match self {
            Suit::Spades => 0,
            Suit::Clubs => 1,
            Suit::Diamonds => 2,
            Suit::Hearts => 3,
        }
    }

    pub fn from_index(i: usize) -> (r: Suit)
        requires
            i < 4,
        ensures
            r == Suit::at(i as int),
            r.index_of() == i,
    {
        if i == 0 {
            Suit::Spades
        } else if i == 1 {
            Suit::Clubs
        } else if i == 2 {
            Suit::Diamonds
        } else {
            Suit::Hearts
        }
    }

    /// All four suits, in order.
    pub fn iterator() -> (r: Vec<Suit>)
        ensures
            r@ == seq![Suit::Spades, Suit::Clubs, Suit::Diamonds, Suit::Hearts],
            forall|i: int| 0 <= i < 4 ==> (#[trigger] r@[i]).index_of() == i,
    {
        vec![Suit::Spades, Suit::Clubs, Suit::Diamonds, Suit::Hearts]
    }
}

/// Position and suit correspond one to one.
pub proof fn lemma_suit_index(s: Suit)
    ensures
        0 <= s.index_of() < 4,
        Suit::at(s.index_of()) == s,
{
}

} // verus!
