//! What a seat at the table offers: its cards and a selection cursor.

use vstd::prelude::*;
use crate::card::Card;
use crate::deck::{CardID, Deck, card_at, count_suit, same_cards, sorted_cards};
use crate::suit::Suit;

verus! {

pub trait Player: Sized {
    /// The cards held, in order.
    spec fn held(&self) -> Seq<Card>;

    /// The holder's internal bookkeeping is consistent.
    spec fn well_formed(&self) -> bool;

    /// The position of the selection cursor.
    spec fn cursor(&self) -> usize;

    /// A new player holding the first `amount` cards of `deck`, sorted.
    fn new_take_cards(deck: &mut Deck, amount: usize) -> (r: Self)
        requires
            old(deck).wf(),
            amount <= old(deck)@.len(),
        ensures
            r.well_formed(),
            same_cards(r.held(), old(deck)@.subrange(0, amount as int)),
            r.held().len() == amount,
            sorted_cards(r.held()),
            final(deck).wf(),
            final(deck)@ == old(deck)@.subrange(amount as int, old(deck)@.len() as int),
    ;

    /// Does this player have any cards left?
    fn has_cards(&self) -> (r: bool)
        ensures
            r == (self.held().len() > 0),
    ;

    /// Does this player have any cards of this suit?
    fn can_follow(&self, suit: Suit) -> (r: bool)
        requires
            self.well_formed(),
        ensures
            r == (count_suit(self.held(), suit) > 0),
    ;

    /// The card at `card`, counted round the hand.
    fn card(&self, card: CardID) -> (r: &Card)
        requires
            self.held().len() > 0,
        ensures
            *r == card_at(self.held(), card),
    ;

    /// The card under the cursor.
    fn selected_card(&self) -> (r: &Card)
        requires
            self.cursor() < self.held().len(),
        ensures
            *r == self.held()[self.cursor() as int],
    ;

    fn selected_id(&self) -> (r: CardID)
        ensures
            r == self.cursor(),
    ;

    /// The cursor is on one of the held cards, which are sorted.
    spec fn movable(&self) -> bool;

    /// Move the cursor right within its suit, wrapping round.
    fn select_right(&mut self)
        requires
            old(self).movable(),
        ensures
            final(self).movable(),
            final(self).held() == old(self).held(),
    ;

    /// Move the cursor left within its suit, wrapping round.
    fn select_left(&mut self)
        requires
            old(self).movable(),
        ensures
            final(self).movable(),
            final(self).held() == old(self).held(),
    ;

    /// Move the cursor to the nearest earlier suit that has cards.
    fn select_up(&mut self)
        requires
            old(self).movable(),
        ensures
            final(self).movable(),
            final(self).held() == old(self).held(),
    ;

    /// Move the cursor to the nearest later suit that has cards.
    fn select_down(&mut self)
        requires
            old(self).movable(),
        ensures
            final(self).movable(),
            final(self).held() == old(self).held(),
    ;
}

impl Player for Deck {
    open spec fn held(&self) -> Seq<Card> {
        self@
    }

    open spec fn well_formed(&self) -> bool {
        self.wf()
    }

    open spec fn cursor(&self) -> usize {
        self.selected_spec()
    }

    fn new_take_cards(deck: &mut Deck, amount: usize) -> (r: Deck) {
        let mut pulled = deck.pull_cards(amount);
        pulled.sort();
        pulled
    }

    fn has_cards(&self) -> (r: bool) {
        !self.is_empty()
    }

    fn can_follow(&self, suit: Suit) -> (r: bool) {
        self.has_suit(&suit)
    }

    fn card(&self, card: CardID) -> (r: &Card) {
        Deck::card(self, card)
    }

    fn selected_card(&self) -> (r: &Card) {
        self.selected()
    }

    fn selected_id(&self) -> (r: CardID) {
        Deck::selected_id(self)
    }

    open spec fn movable(&self) -> bool {
        self.navigable()
    }

    fn select_right(&mut self) {
        Deck::select_right(self)
    }

    fn select_left(&mut self) {
        Deck::select_left(self)
    }

    fn select_up(&mut self) {
        Deck::select_up(self)
    }

    fn select_down(&mut self) {
        Deck::select_down(self)
    }
}

} // verus!
