//! The observation a learning agent makes of the game, the abstract actions
//! it chooses from, and the bids of the (not yet played) bidding phase.

use vstd::prelude::*;
use crate::suit::Suit;
use std::cmp::Ordering;

verus! {

/// What the player to move observes.
#[derive(Clone, Copy, PartialEq, Eq, Hash, Debug, PartialOrd, Ord)]
pub struct GameState {
    /// can this player follow the current table?
    pub can_follow: bool,
    /// does this player have a winning card compared to the current table?
    pub have_higher: bool,
    /// the position of the suit led, -1 on an empty table
    pub first_suit: i8,
    /// of which suits does this player hold the highest card left?
    pub has_highest: [bool; 4],
    /// does this player have any trumps left?
    pub have_trump: bool,
    /// how many cards does this player have left? (kept at 0)
    pub nb_cards: u8,
    /// how many players failed to follow each suit, two bits per suit
    pub nb_out_of: u8,
}

/// The moves an agent chooses from. A move names a way of choosing a card
/// rather than a card, which keeps the state-action space small.
#[derive(Clone, Copy, PartialEq, Eq, Structural, Hash, Debug, PartialOrd, Ord)]
pub enum Action {
    /// play the lowest card you can, of this suit if possible
    PlayWorst(Suit),
    /// play a higher card, but the lowest you can
    RaiseLow,
    /// play a higher card, the highest you can
    RaiseHigh,
    /// play the highest trump card you can
    TrumpHigh,
    /// play the lowest trump card you can
    TrumpLow,
    /// play the highest card you can, of this suit if possible
    PlayBest(Suit),
    /// lead with a card known to be the best one of its suit
    ComeBest,
}

impl Default for Action {
    fn default() -> (r: Action)
        ensures
            r == Action::PlayWorst(Suit::Clubs),
    {
        Action::PlayWorst(Suit::Clubs)
    }
}

/// The observation of the bidding phase.
#[derive(Clone, Copy, PartialEq, Eq, Structural, Hash, Debug, PartialOrd, Ord)]
pub struct BidState {}

/// The bids a player can choose from.
#[derive(Clone, Copy, PartialEq, Eq, Structural, Hash, Debug)]
pub enum Bid {
    /// don't join or start a contract
    Pass,
    /// only the player left of the dealer: wait and decide to accept or not
    Wait,
    /// start a contract of 8 or more in a suit, with a partner
    Propose(Suit),
    /// accept an open contract
    Accept(Suit, u8),
    /// go solo, only if no others are left to accept or when others passed
    Solo(Suit, u8),
    /// get no tricks, put away one card
    SmallMisery,
    /// get no tricks with all cards
    LargeMisery,
    /// get no tricks with open cards
    OpenMisery,
    /// 9 or more tricks solo, only as a first bid
    Abondance(Suit, u8),
    /// 13 tricks solo, only as a first bid
    SoloSlim(Suit),
    /// accepted with at least 11 tricks bid; the proposer continues to bid
    PassParole,
    /// three or four aces dealt to one player
    Trull,
}

impl Default for Bid {
    fn default() -> (r: Bid)
        ensures
            r == Bid::Pass,
    {
        Bid::Pass
    }
}

/// The rank of a bid; -1 for the bids that do not compete.
pub open spec fn bid_value(b: Bid) -> int {
    match b {
        Bid::Accept(_, n) => if n == 8 { 0 } else if n == 9 { 2 } else if n == 10 { 4 } else if n == 11 { 6 }
            else if n == 12 { 8 } else if n == 13 { 10 } else { -1 },
        Bid::Solo(_, n) => if n == 5 { 1 } else if n == 6 { 3 } else if n == 7 { 5 } else if n == 8 { 9 } else { -1 },
        Bid::SmallMisery => 7,
        Bid::Abondance(_, n) => if n == 9 { 11 } else if n == 10 { 14 } else if n == 11 { 15 } else if n == 12 { 17 } else { -1 },
        Bid::Trull => 12,
        Bid::LargeMisery => 13,
        Bid::OpenMisery => 16,
        Bid::SoloSlim(_) => 18,
        _ => -1,
    }
}

/// Order of bids: by rank, and bids of one kind and rank by suit; other
/// bids of equal rank are not comparable.
pub open spec fn bid_cmp(a: Bid, b: Bid) -> Option<Ordering> {
    if bid_value(a) < bid_value(b) {
        Some(Ordering::Less)
    } else if bid_value(a) > bid_value(b) {
        Some(Ordering::Greater)
    } else {
        match (a, b) {
            (Bid::Accept(s1, _), Bid::Accept(s2, _)) => Some(suit_cmp(s1, s2)),
            (Bid::Solo(s1, _), Bid::Solo(s2, _)) => Some(suit_cmp(s1, s2)),
            (Bid::Abondance(s1, _), Bid::Abondance(s2, _)) => Some(suit_cmp(s1, s2)),
            _ => None,
        }
    }
}

pub open spec fn suit_cmp(a: Suit, b: Suit) -> Ordering {
    if a.index_of() < b.index_of() {
        Ordering::Less
    } else if a.index_of() == b.index_of() {
        Ordering::Equal
    } else {
        Ordering::Greater
    }
}

fn suit_order(a: Suit, b: Suit) -> (r: Ordering)
    ensures
        r == suit_cmp(a, b),
{
    let x = a.index();
    let y = b.index();
    if x < y {
        Ordering::Less
    } else if x == y {
        Ordering::Equal
    } else {
        Ordering::Greater
    }
}

impl Bid {
    /// The rank of this bid, used to order bids.
    fn value(&self) -> (r: i8)
        ensures
            r == bid_value(*self),
    {
        match self {
            Bid::Accept(_, 8) => 0,
            Bid::Solo(_, 5) => 1,
            Bid::Accept(_, 9) => 2,
            Bid::Solo(_, 6) => 3,
            Bid::Accept(_, 10) => 4,
            Bid::Solo(_, 7) => 5,
            Bid::Accept(_, 11) => 6,
            Bid::SmallMisery => 7,
            Bid::Accept(_, 12) => 8,
            Bid::Solo(_, 8) => 9,
            Bid::Accept(_, 13) => 10,
            Bid::Abondance(_, 9) => 11,
            Bid::Trull => 12,
            Bid::LargeMisery => 13,
            Bid::Abondance(_, 10) => 14,
            Bid::Abondance(_, 11) => 15,
            Bid::OpenMisery => 16,
            Bid::Abondance(_, 12) => 17,
            Bid::SoloSlim(_) => 18,
            _ => -1,
        }
    }
}

impl PartialOrd for Bid {
    fn partial_cmp(&self, other: &Bid) -> (r: Option<Ordering>) {
        let a = self.value();
        let b = other.value();
        if a < b {
            Some(Ordering::Less)
        } else if a > b {
            Some(Ordering::Greater)
        } else {
            match (self, other) {
                (Bid::Accept(s1, _), Bid::Accept(s2, _)) => Some(suit_order(*s1, *s2)),
                (Bid::Solo(s1, _), Bid::Solo(s2, _)) => Some(suit_order(*s1, *s2)),
                (Bid::Abondance(s1, _), Bid::Abondance(s2, _)) => Some(suit_order(*s1, *s2)),
                _ => None,
            }
        }
    }
}

impl vstd::std_specs::cmp::PartialOrdSpecImpl for Bid {
    open spec fn obeys_partial_cmp_spec() -> bool {
        true
    }

    open spec fn partial_cmp_spec(&self, other: &Bid) -> Option<Ordering> {
        bid_cmp(*self, *other)
    }
}

} // verus!
