//! A playing card: a suit and a number, with the orderings used in play.

use vstd::prelude::*;
use crate::suit::Suit;
use std::cmp::Ordering;

verus! {

/// A playing card. Numbers run from 1 to 13, where 1 is the Ace, which is
/// worth more than any other number.
#[derive(Clone, Copy, PartialEq, Eq, Structural, Hash, Debug)]
pub struct Card {
    pub suit: Suit,
    pub number: u8,
}

/// The value of a card number: the Ace counts 14, any other number itself.
pub open spec fn score_of(number: u8) -> int {
    if number == 1 {
        14
    } else {
        number as int
    }
}

/// Order of two integers.
pub open spec fn cmp_int(a: int, b: int) -> Ordering {
    if a < b {
        Ordering::Less
    } else if a == b {
        Ordering::Equal
    } else {
        Ordering::Greater
    }
}

/// Which card wins on the table, `a` having been played before `b`.
pub open spec fn winning_spec(a: Card, b: Card, trump: Suit) -> Ordering {
    if a.suit == b.suit {
        cmp_int(a.score_spec(), b.score_spec())
    } else if a.suit == trump {
        Ordering::Greater
    } else if b.suit == trump {
        Ordering::Less
    } else {
        Ordering::Greater
    }
}

/// Which card is worth more to the player holding both.
pub open spec fn higher_spec(a: Card, b: Card, trump: Suit) -> Ordering {
    if a.suit != b.suit && a.suit != trump && b.suit != trump {
        cmp_int(a.score_spec(), b.score_spec())
    } else {
        winning_spec(a, b, trump)
    }
}

/// Storage order: by suit first, then by score.
pub open spec fn storage_cmp(a: Card, b: Card) -> Ordering {
    if a.suit != b.suit {
        cmp_int(a.suit.index_of(), b.suit.index_of())
    } else {
        cmp_int(a.score_spec(), b.score_spec())
    }
}

impl Card {
    pub open spec fn score_spec(self) -> int {
        score_of(self.number)
    }

    /// A card number lies in 1..=13.
    pub open spec fn wf(self) -> bool {
        1 <= self.number <= 13
    }

    /// A key whose integer order is the storage order of cards.
    pub open spec fn key_spec(self) -> int {
        self.suit.index_of() * 15 + self.score_spec()
    }

    /// Returns the value of the number of this card, so that Ace > King > ...
    pub fn score(&self) -> (r: u32)
        ensures
            r == self.score_spec(),
    {
        if self.number == 1 {
            14
        } else {
            self.number as u32
        }
    }

    /// Determine which card wins when comparing them on a table.
    pub fn winning(&self, other: &Card, trump: &Suit) -> (r: Ordering)
        ensures
            r == winning_spec(*self, *other, *trump),
    {
        if self.suit == other.suit {
            let a = self.score();
            let b = other.score();
            if a < b {
                Ordering::Less
            } else if a == b {
                Ordering::Equal
            } else {
                Ordering::Greater
            }
        } else if self.suit == *trump {
            Ordering::Greater
        } else if other.suit == *trump {
            Ordering::Less
        } else {
            Ordering::Greater
        }
    }

    /// Determine which card has a higher value to the player.
    pub fn higher(&self, other: &Card, trump: &Suit) -> (r: Ordering)
        ensures
            r == higher_spec(*self, *other, *trump),
    {
        if self.suit != other.suit && self.suit != *trump && other.suit != *trump {
            let a = self.score();
            let b = other.score();
            if a < b {
                Ordering::Less
            } else if a == b {
                Ordering::Equal
            } else {
                Ordering::Greater
            }
        } else {
            self.winning(other, trump)
        }
    }

    /// Sort key: ascending keys give the storage order.
    pub fn key(&self) -> (r: u32)
        ensures
            r == self.key_spec(),
    {
        (self.suit.index() as u32) * 15 + self.score()
    }

    /// Storage order of two cards: by suit first, then by score.
    pub fn storage_order(&self, other: &Card) -> (r: Ordering)
        ensures
            r == storage_cmp(*self, *other),
    {
        let a = self.suit.index();
        let b = other.suit.index();
        if a != b {
            if a < b {
                Ordering::Less
            } else {
                Ordering::Greater
            }
        } else {
            let x = self.score();
            let y = other.score();
            if x < y {
                Ordering::Less
            } else if x == y {
                Ordering::Equal
            } else {
                Ordering::Greater
            }
        }
    }
}

impl PartialOrd for Card {
    fn partial_cmp(&self, other: &Card) -> (r: Option<Ordering>) {
        Some(self.storage_order(other))
    }
}

impl vstd::std_specs::cmp::PartialOrdSpecImpl for Card {
    open spec fn obeys_partial_cmp_spec() -> bool {
        true
    }

    open spec fn partial_cmp_spec(&self, other: &Card) -> Option<Ordering> {
        Some(storage_cmp(*self, *other))
    }
}

impl Default for Card {
    fn default() -> (r: Card)
        ensures
            r == (Card { suit: Suit::Hearts, number: 1 }),
    {
        Card { suit: Suit::Hearts, number: 1 }
    }
}

/// Between cards of one suit, the table comparison is the score comparison,
/// and an Ace scores 14 whatever its suit.
pub proof fn lemma_same_suit_winning_follows_score(a: Card, b: Card, trump: Suit)
    requires
        a.suit == b.suit,
    ensures
        winning_spec(a, b, trump) == cmp_int(a.score_spec(), b.score_spec()),
        a.number == 1 ==> a.score_spec() == 14,
        b.number == 1 ==> b.score_spec() == 14,
{
}

/// Of two cards of different suits neither of which is trump, the one played
/// first wins; a trump beats a non-trump card whatever the ranks.
pub proof fn lemma_first_played_dominates(a: Card, b: Card, trump: Suit)
    requires
        a.suit != b.suit,
    ensures
        a.suit != trump && b.suit != trump ==> winning_spec(a, b, trump) == Ordering::Greater
            && winning_spec(b, a, trump) == Ordering::Greater,
        a.suit == trump ==> winning_spec(a, b, trump) == Ordering::Greater
            && winning_spec(b, a, trump) == Ordering::Less,
        b.suit == trump ==> winning_spec(a, b, trump) == Ordering::Less
            && winning_spec(b, a, trump) == Ordering::Greater,
{
}

} // verus!
