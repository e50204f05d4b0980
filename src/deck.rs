//! A pack of cards, not necessarily a full deck: a hand, the table, or a
//! played trick. Keeps a count of the cards of each suit up to date.

use vstd::prelude::*;
use crate::card::{Card, higher_spec, winning_spec};
use crate::suit::Suit;
use std::cmp::Ordering;
use rand::seq::SliceRandom;
use vstd::std_specs::iter::IteratorSpec;

verus! {

/// Position of a card inside a deck.
pub type CardID = usize;

/// Does the card have this suit?
pub open spec fn of_suit(suit: Suit) -> spec_fn(Card) -> bool {
    |c: Card| c.suit == suit
}

/// Number of cards of a suit in a sequence of cards.
pub open spec fn count_suit(s: Seq<Card>, suit: Suit) -> nat {
    s.filter(of_suit(suit)).len()
}

/// Sum of the scores of the cards of a suit in a sequence of cards.
pub open spec fn suit_score_of(s: Seq<Card>, suit: Suit) -> int
    decreases s.len(),
{
    if s.len() == 0 {
        0
    } else {
        suit_score_of(s.drop_last(), suit) + if s.last().suit == suit {
            s.last().score_spec()
        } else {
            0
        }
    }
}

/// The card that index `i` designates in `s`: indices wrap around.
pub open spec fn card_at(s: Seq<Card>, i: usize) -> Card {
    s[((i as int) % (s.len() as int))]
}

/// An index inside the deck designates the card at that position.
pub proof fn lemma_card_at_in_range(s: Seq<Card>, i: usize)
    requires
        i < s.len(),
    ensures
        card_at(s, i) == s[i as int],
{
    vstd::arithmetic::div_mod::lemma_small_mod(i as nat, s.len());
}

/// The id that a left-to-right scan of `ids` keeps as the lowest by the
/// `higher` comparison: a later id replaces the kept one only when the kept
/// card is strictly higher, so the first of equally low cards stays.
pub open spec fn lowest_of(s: Seq<Card>, ids: Seq<usize>, trump: Suit) -> usize
    decreases ids.len(),
{
    if ids.len() <= 1 {
        ids[0]
    } else {
        let kept = lowest_of(s, ids.drop_last(), trump);
        if higher_spec(card_at(s, kept), card_at(s, ids.last()), trump) == Ordering::Greater {
            ids.last()
        } else {
            kept
        }
    }
}

/// The id that a left-to-right scan of `ids` keeps as the highest by the
/// `higher` comparison: a later id replaces the kept one unless the kept card
/// is strictly higher, so the last of equally high cards wins.
pub open spec fn highest_of(s: Seq<Card>, ids: Seq<usize>, trump: Suit) -> usize
    decreases ids.len(),
{
    if ids.len() <= 1 {
        ids[0]
    } else {
        let kept = highest_of(s, ids.drop_last(), trump);
        if higher_spec(card_at(s, kept), card_at(s, ids.last()), trump) == Ordering::Greater {
            kept
        } else {
            ids.last()
        }
    }
}

/// As `highest_of`, by the table (`winning`) comparison.
pub open spec fn winning_of(s: Seq<Card>, ids: Seq<usize>, trump: Suit) -> usize
    decreases ids.len(),
{
    if ids.len() <= 1 {
        ids[0]
    } else {
        let kept = winning_of(s, ids.drop_last(), trump);
        if winning_spec(card_at(s, kept), card_at(s, ids.last()), trump) == Ordering::Greater {
            kept
        } else {
            ids.last()
        }
    }
}

/// The 52 cards of a full deck in the order in which it is built:
/// Hearts, Clubs, Diamonds, Spades, each from 1 to 13.
pub open spec fn full_deck() -> Seq<Card> {
    Seq::new(52, |i: int| Card { suit: build_suit(i / 13), number: (i % 13 + 1) as u8 })
}

/// The suit of the `k`-th block of thirteen cards of a full deck.
pub open spec fn build_suit(k: int) -> Suit {
    if k == 0 {
        Suit::Hearts
    } else if k == 1 {
        Suit::Clubs
    } else if k == 2 {
        Suit::Diamonds
    } else {
        Suit::Spades
    }
}

/// Every card has a number in 1..=13.
pub open spec fn all_valid(s: Seq<Card>) -> bool {
    forall|i: int| 0 <= i < s.len() ==> (#[trigger] s[i]).wf()
}

/// Two sequences hold the same cards, each as many times.
pub open spec fn same_cards(a: Seq<Card>, b: Seq<Card>) -> bool {
    a.to_multiset() == b.to_multiset()
}

/// Cards in ascending storage order (suit first, then score).
pub open spec fn sorted_cards(s: Seq<Card>) -> bool {
    forall|i: int, j: int| 0 <= i < j < s.len() ==> s[i].key_spec() <= s[j].key_spec()
}

pub proof fn lemma_count_push(s: Seq<Card>, c: Card, suit: Suit)
    ensures
        count_suit(s.push(c), suit) == count_suit(s, suit) + if c.suit == suit {
            1nat
        } else {
            0nat
        },
{
    reveal_with_fuel(Seq::<_>::filter, 1);
    assert(s.push(c).drop_last() =~= s);
}

/// Does the card's suit come before suit position `y`?
pub open spec fn suit_before(y: int) -> spec_fn(Card) -> bool {
    |c: Card| c.suit.index_of() < y
}

/// The number of cards whose suit comes before suit position `y`: in a
/// sorted deck, where the cards of suit position `y` start.
pub open spec fn below(s: Seq<Card>, y: int) -> nat {
    s.filter(suit_before(y)).len()
}

/// A condition that holds of every element keeps them all.
pub proof fn lemma_filter_all_len(s: Seq<Card>, p: spec_fn(Card) -> bool)
    requires
        forall|i: int| 0 <= i < s.len() ==> #[trigger] p(s[i]),
    ensures
        s.filter(p).len() == s.len(),
    decreases s.len(),
{
    reveal_with_fuel(Seq::<_>::filter, 1);
    if s.len() > 0 {
        lemma_filter_all_len(s.drop_last(), p);
        assert(p(s[s.len() - 1]));
    }
}

/// The block of suit position `y` follows the blocks of the suits before it.
pub proof fn lemma_below_step(s: Seq<Card>, y: int)
    requires
        0 <= y < 4,
    ensures
        below(s, y + 1) == below(s, y) + count_suit(s, Suit::at(y)),
    decreases s.len(),
{
    reveal_with_fuel(Seq::<_>::filter, 1);
    if s.len() > 0 {
        lemma_below_step(s.drop_last(), y);
        crate::suit::lemma_suit_index(s.last().suit);
    }
}

/// No block ends past the end of the deck.
pub proof fn lemma_below_bound(s: Seq<Card>, y: int)
    requires
        0 <= y <= 4,
    ensures
        below(s, y) <= below(s, 4),
        below(s, 4) == s.len(),
    decreases 4 - y,
{
    assert forall|i: int| 0 <= i < s.len() implies #[trigger] suit_before(4)(s[i]) by {
        crate::suit::lemma_suit_index(s[i].suit);
    }
    lemma_filter_all_len(s, suit_before(4));
    if y < 4 {
        lemma_below_step(s, y);
        lemma_below_bound(s, y + 1);
    }
}

/// In a sorted deck the card at `i` lies inside the block of its suit.
pub proof fn lemma_sorted_block(s: Seq<Card>, i: int)
    requires
        sorted_cards(s),
        all_valid(s),
        0 <= i < s.len(),
    ensures
        below(s, s[i].suit.index_of()) <= i,
        i < below(s, s[i].suit.index_of() + 1),
{
    let y = s[i].suit.index_of();
    let a = s.subrange(0, i);
    let b = s.subrange(i, s.len() as int);
    assert(s =~= a + b);
    Seq::filter_distributes_over_add(a, b, suit_before(y));
    a.lemma_filter_len(suit_before(y));
    assert forall|j: int| 0 <= j < b.len() implies !suit_before(y)(#[trigger] b[j]) by {
        assert(b[j] == s[i + j]);
        assert(s[i].wf() && s[i + j].wf());
        if j > 0 {
            assert(s[i].key_spec() <= s[i + j].key_spec());
        }
    }
    b.lemma_all_neg_filter_empty(suit_before(y));
    let c = s.subrange(0, i + 1);
    let d = s.subrange(i + 1, s.len() as int);
    assert(s =~= c + d);
    Seq::filter_distributes_over_add(c, d, suit_before(y + 1));
    assert forall|j: int| 0 <= j < c.len() implies #[trigger] suit_before(y + 1)(c[j]) by {
        assert(c[j] == s[j]);
        assert(s[i].wf() && s[j].wf());
        if j < i {
            assert(s[j].key_spec() <= s[i].key_spec());
        }
    }
    lemma_filter_all_len(c, suit_before(y + 1));
}

/// The suit position reached from `y` moving up: the nearest earlier suit
/// (round the four) that has cards, else `y` itself.
pub open spec fn suit_up(s: Seq<Card>, y: int) -> int {
    if count_suit(s, Suit::at((y + 3) % 4)) > 0 {
        (y + 3) % 4
    } else if count_suit(s, Suit::at((y + 2) % 4)) > 0 {
        (y + 2) % 4
    } else if count_suit(s, Suit::at((y + 1) % 4)) > 0 {
        (y + 1) % 4
    } else {
        y
    }
}

/// The suit position reached from `y` moving down: the nearest later suit
/// (round the four) that has cards, else `y` itself.
pub open spec fn suit_down(s: Seq<Card>, y: int) -> int {
    if count_suit(s, Suit::at((y + 1) % 4)) > 0 {
        (y + 1) % 4
    } else if count_suit(s, Suit::at((y + 2) % 4)) > 0 {
        (y + 2) % 4
    } else if count_suit(s, Suit::at((y + 3) % 4)) > 0 {
        (y + 3) % 4
    } else {
        y
    }
}

/// Taking a card out of a sorted sequence leaves it sorted.
pub proof fn lemma_sorted_remove(s: Seq<Card>, i: int)
    requires
        sorted_cards(s),
        0 <= i < s.len(),
    ensures
        sorted_cards(s.remove(i)),
{
    let r = s.remove(i);
    assert forall|a: int, b: int| 0 <= a < b < r.len() implies r[a].key_spec() <= r[b].key_spec() by {
        let a2 = if a < i { a } else { a + 1 };
        let b2 = if b < i { b } else { b + 1 };
        assert(r[a] == s[a2]);
        assert(r[b] == s[b2]);
    }
}

/// A suit that is counted in a sequence has a card there.
pub proof fn lemma_count_witness(s: Seq<Card>, suit: Suit) -> (k: int)
    requires
        count_suit(s, suit) > 0,
    ensures
        0 <= k < s.len(),
        s[k].suit == suit,
{
    let f = s.filter(of_suit(suit));
    s.lemma_filter_pred(of_suit(suit), 0);
    assert(f.contains(f[0]));
    s.lemma_filter_contains_rev(of_suit(suit), f[0]);
    choose|k: int| 0 <= k < s.len() && s[k] == f[0]
}

/// Permuting cards keeps them valid.
pub proof fn lemma_same_cards_valid(a: Seq<Card>, b: Seq<Card>)
    requires
        same_cards(a, b),
        all_valid(b),
    ensures
        all_valid(a),
{
    assert forall|i: int| 0 <= i < a.len() implies (#[trigger] a[i]).wf() by {
        a.to_multiset_ensures();
        b.to_multiset_ensures();
        assert(a.to_multiset().count(a[i]) > 0);
        assert(b.contains(a[i]));
    }
}

pub proof fn lemma_count_concat(a: Seq<Card>, b: Seq<Card>, suit: Suit)
    ensures
        count_suit(a + b, suit) == count_suit(a, suit) + count_suit(b, suit),
{
    Seq::filter_distributes_over_add(a, b, of_suit(suit));
}

pub proof fn lemma_count_remove(s: Seq<Card>, i: int, suit: Suit)
    requires
        0 <= i < s.len(),
    ensures
        count_suit(s, suit) == count_suit(s.remove(i), suit) + if s[i].suit == suit {
            1nat
        } else {
            0nat
        },
{
    let a = s.subrange(0, i);
    let b = s.subrange(i + 1, s.len() as int);
    assert(s.remove(i) =~= a + b);
    assert(s =~= a.push(s[i]) + b);
    lemma_count_concat(a, b, suit);
    lemma_count_concat(a.push(s[i]), b, suit);
    lemma_count_push(a, s[i], suit);
}

/// A pack of cards.
pub struct Deck {
    pub cards: Vec<Card>,
    /// position of the selection cursor
    pub selected: CardID,
    /// the number of cards of each suit, kept up to date
    pub suit_amounts: [usize; 4],
}

/// Relies on rand's `SliceRandom::shuffle`: the cards are permuted in place.
#[verifier::external_body]
fn shuffle_cards(cards: &mut Vec<Card>)
    ensures
        same_cards(final(cards)@, old(cards)@),
        final(cards)@.len() == old(cards)@.len(),
{
    cards.shuffle(&mut rand::thread_rng());
}

/// Relies on std's `slice::sort_by_key`: the cards are permuted into
/// ascending order of the key.
#[verifier::external_body]
fn sort_cards(cards: &mut Vec<Card>)
    ensures
        same_cards(final(cards)@, old(cards)@),
        final(cards)@.len() == old(cards)@.len(),
        sorted_cards(final(cards)@),
{
    cards.sort_by_key(|c| c.key());
}

impl Default for Deck {
    fn default() -> (r: Deck)
        ensures
            r.wf(),
            r@ == full_deck(),
    {
        Deck::new_full()
    }
}

impl Deck {
    /// Well-formed: the suit counts match the cards, and every card is valid.
    pub open spec fn wf(&self) -> bool {
        &&& self.counts_match()
        &&& all_valid(self@)
    }

    /// The kept suit counts are those of the cards.
    pub open spec fn counts_match(&self) -> bool {
        forall|k: int| 0 <= k < 4 ==> self.suit_amounts@[k] == count_suit(self.cards@, #[trigger] Suit::at(k))
    }

    pub open spec fn view(&self) -> Seq<Card> {
        self.cards@
    }

    pub open spec fn selected_spec(&self) -> usize {
        self.selected
    }

    /// Counts the cards of each suit.
    fn get_amounts(cards: &Vec<Card>) -> (r: [usize; 4])
        ensures
            forall|k: int| 0 <= k < 4 ==> r@[k] == count_suit(cards@, #[trigger] Suit::at(k)),
    {
        let mut amounts: [usize; 4] = [0, 0, 0, 0];
        let mut i: usize = 0;
        while i < cards.len()
            invariant
                i <= cards@.len(),
                forall|k: int| 0 <= k < 4 ==> amounts@[k] == count_suit(cards@.subrange(0, i as int), #[trigger] Suit::at(k)),
            decreases cards@.len() - i,
        {
            let c = cards[i];
            proof {
                assert(cards@.subrange(0, i + 1) =~= cards@.subrange(0, i as int).push(c));
                assert forall|k: int| 0 <= k < 4 implies count_suit(cards@.subrange(0, i + 1), #[trigger] Suit::at(k))
                    == count_suit(cards@.subrange(0, i as int), Suit::at(k)) + if c.suit == Suit::at(k) { 1nat } else { 0nat } by {
                    lemma_count_push(cards@.subrange(0, i as int), c, Suit::at(k));
                }
                assert(count_suit(cards@.subrange(0, i as int), c.suit) <= i) by {
                    cards@.subrange(0, i as int).lemma_filter_len(of_suit(c.suit));
                }
                assert(Suit::at(c.suit.index_of()) == c.suit);
            }
            let k = c.suit.index();
            amounts[k] = amounts[k] + 1;
            i = i + 1;
        }
        assert(cards@.subrange(0, cards@.len() as int) =~= cards@);
        amounts
    }

    pub fn new_full() -> (r: Deck)
        ensures
            r.wf(),
            r@ == full_deck(),
            r@.len() == 52,
            r.selected_spec() == usize::MAX,
    {
        let mut deck = Deck::new_empty();
        let suits = [Suit::Hearts, Suit::Clubs, Suit::Diamonds, Suit::Spades];
        let mut k: usize = 0;
        while k < 4
            invariant
                k <= 4,
                deck.wf(),
                suits@ == seq![Suit::Hearts, Suit::Clubs, Suit::Diamonds, Suit::Spades],
                deck@ =~= full_deck().subrange(0, 13 * k as int),
                deck.selected == usize::MAX,
            decreases 4 - k,
        {
            let mut nmb: u8 = 1;
            while nmb < 14
                invariant
                    k < 4,
                    1 <= nmb <= 14,
                    deck.wf(),
                    suits@ == seq![Suit::Hearts, Suit::Clubs, Suit::Diamonds, Suit::Spades],
                    deck@ =~= full_deck().subrange(0, 13 * k + nmb - 1),
                    deck.selected == usize::MAX,
                decreases 14 - nmb,
            {
                let c = Card { suit: suits[k], number: nmb };
                proof {
                    let n = 13 * k + nmb - 1;
                    assert(full_deck()[n] == c);
                    assert(full_deck().subrange(0, n + 1) =~= full_deck().subrange(0, n).push(c));
                }
                deck.add(c);
                nmb = nmb + 1;
            }
            k = k + 1;
        }
        assert(full_deck().subrange(0, 52) =~= full_deck());
        deck
    }

    pub fn new_empty() -> (r: Deck)
        ensures
            r.wf(),
            r@.len() == 0,
            r.selected_spec() == usize::MAX,
    {
        let cards: Vec<Card> = Vec::new();
        let r = Deck { cards, selected: usize::MAX, suit_amounts: [0, 0, 0, 0] };
        assert forall|k: int| 0 <= k < 4 implies r.suit_amounts@[k] == count_suit(r.cards@, #[trigger] Suit::at(k)) by {
            reveal_with_fuel(Seq::<_>::filter, 1);
        }
        r
    }

    /// The card at `index`, counted round the deck.
    pub fn card(&self, index: CardID) -> (r: &Card)
        requires
            self@.len() > 0,
        ensures
            *r == card_at(self@, index),
    {
        &self.cards[index % self.cards.len()]
    }

    pub fn has_suit(&self, suit: &Suit) -> (r: bool)
        requires
            self.wf(),
        ensures
            r == (count_suit(self@, *suit) > 0),
    {
        proof { assert(Suit::at(suit.index_of()) == *suit); }
        self.suit_amounts[suit.index()] > 0
    }

    pub fn suit_of(&self, index: CardID) -> (r: Suit)
        requires
            index < self@.len(),
        ensures
            r == self@[index as int].suit,
    {
        self.cards[index].suit
    }

    /// Creates a new deck from these cards, consuming them.
    pub fn new_from(cards: Vec<Card>) -> (r: Deck)
        requires
            forall|i: int| 0 <= i < cards@.len() ==> (#[trigger] cards@[i]).wf(),
        ensures
            r.wf(),
            r@ == cards@,
    {
        let suit_amounts = Self::get_amounts(&cards);
        Deck { cards, selected: usize::MAX, suit_amounts }
    }

    /// Pull an amount of cards from the front of the deck, in deck order.
    pub fn pull_cards(&mut self, amount: usize) -> (r: Deck)
        requires
            old(self).wf(),
            amount <= old(self)@.len(),
        ensures
            final(self).wf(),
            r.wf(),
            r@ == old(self)@.subrange(0, amount as int),
            final(self)@ == old(self)@.subrange(amount as int, old(self)@.len() as int),
            final(self).selected_spec() == old(self).selected_spec(),
    {
        let mut rest = self.cards.split_off(amount);
        std::mem::swap(&mut self.cards, &mut rest);
        self.suit_amounts = Self::get_amounts(&self.cards);
        let r = Deck::new_from(rest);
        r
    }

    pub fn size(&self) -> (r: usize)
        ensures
            r == self@.len(),
    {
        self.cards.len()
    }

    pub fn is_empty(&self) -> (r: bool)
        ensures
            r == (self@.len() == 0),
    {
        self.cards.len() == 0
    }

    /// Put the cards in a random order.
    pub fn shuffle(&mut self)
        requires
            old(self).wf(),
        ensures
            final(self).wf(),
            same_cards(final(self)@, old(self)@),
            final(self)@.len() == old(self)@.len(),
    {
        shuffle_cards(&mut self.cards);
        proof { lemma_same_cards_valid(self.cards@, old(self).cards@); }
        self.reset_amounts();
    }

    /// Sort the cards by suit first, then by ascending score.
    pub fn sort(&mut self)
        requires
            old(self).wf(),
        ensures
            final(self).wf(),
            same_cards(final(self)@, old(self)@),
            final(self)@.len() == old(self)@.len(),
            sorted_cards(final(self)@),
    {
        sort_cards(&mut self.cards);
        proof { lemma_same_cards_valid(self.cards@, old(self).cards@); }
        self.reset_amounts();
    }

    /// Recount the suits after the cards were permuted.
    fn reset_amounts(&mut self)
        requires
            all_valid(old(self).cards@),
        ensures
            final(self).wf(),
            final(self)@ == old(self)@,
            final(self).selected_spec() == old(self).selected_spec(),
    {
        self.suit_amounts = Self::get_amounts(&self.cards);
    }

    pub fn contains(&self, card: &Card) -> (r: bool)
        ensures
            r == self@.contains(*card),
    {
        match self.id_of(card) {
            Some(_) => true,
            None => false,
        }
    }

    /// The first position of `card` in the deck.
    pub fn id_of(&self, card: &Card) -> (r: Option<CardID>)
        ensures
            match r {
                Some(i) => i < self@.len() && self@[i as int] == *card
                    && forall|j: int| 0 <= j < i ==> self@[j] != *card,
                None => !self@.contains(*card),
            },
    {
        let mut i: usize = 0;
        while i < self.cards.len()
            invariant
                i <= self@.len(),
                forall|j: int| 0 <= j < i ==> self@[j] != *card,
            decreases self@.len() - i,
        {
            if self.cards[i] == *card {
                return Some(i);
            }
            i = i + 1;
        }
        None
    }

    /// Remove the card at `index` and hand it to the caller.
    pub fn remove(&mut self, index: CardID) -> (r: Card)
        requires
            old(self).wf(),
            index < old(self)@.len(),
        ensures
            final(self).wf(),
            r == old(self)@[index as int],
            final(self)@ == old(self)@.remove(index as int),
            final(self).selected_spec() == if index == old(self).selected_spec() && index != 0 {
                (old(self).selected_spec() - 1) as usize
            } else {
                old(self).selected_spec()
            },
    {
        let k = self.cards[index].suit.index();
        proof {
            let s = self.cards@;
            assert forall|j: int| 0 <= j < 4 implies count_suit(s, #[trigger] Suit::at(j))
                == count_suit(s.remove(index as int), Suit::at(j)) + if s[index as int].suit == Suit::at(j) { 1nat } else { 0nat } by {
                lemma_count_remove(s, index as int, Suit::at(j));
            }
            assert(Suit::at(s[index as int].suit.index_of()) == s[index as int].suit);
        }
        self.suit_amounts[k] = self.suit_amounts[k] - 1;
        if index == self.selected && index != 0 {
            self.selected = self.selected - 1;
        }
        let r = self.cards.remove(index);
        proof {
            assert forall|j: int| 0 <= j < 4 implies self.suit_amounts@[j] == count_suit(self.cards@, #[trigger] Suit::at(j)) by {
                assert(Suit::at(j).index_of() == j);
            }
            assert forall|i: int| 0 <= i < self.cards@.len() implies (#[trigger] self.cards@[i]).wf() by {
                if i >= index { assert(self.cards@[i] == old(self).cards@[i + 1]); }
            }
        }
        r
    }

    /// Add the card at the end of the deck.
    pub fn add(&mut self, card: Card)
        requires
            old(self).wf(),
            card.wf(),
            old(self)@.len() < usize::MAX,
        ensures
            final(self).wf(),
            final(self)@ == old(self)@.push(card),
            final(self).selected_spec() == old(self).selected_spec(),
    {
        let k = card.suit.index();
        proof {
            let s = self.cards@;
            assert forall|j: int| 0 <= j < 4 implies count_suit(s.push(card), #[trigger] Suit::at(j))
                == count_suit(s, Suit::at(j)) + if card.suit == Suit::at(j) { 1nat } else { 0nat } by {
                lemma_count_push(s, card, Suit::at(j));
            }
            assert(Suit::at(card.suit.index_of()) == card.suit);
            s.lemma_filter_len(of_suit(card.suit));
        }
        self.suit_amounts[k] = self.suit_amounts[k] + 1;
        self.cards.push(card);
        proof {
            assert forall|j: int| 0 <= j < 4 implies self.suit_amounts@[j] == count_suit(self.cards@, #[trigger] Suit::at(j)) by {
                assert(Suit::at(j).index_of() == j);
            }
        }
    }

    /// Among the cards at `available`, the lowest by the `higher` comparison;
    /// the first of equally low ones.
    pub fn lowest(&self, available: &[CardID], trump: &Suit) -> (r: Option<CardID>)
        requires
            available@.len() > 0 ==> self@.len() > 0,
        ensures
            available@.len() == 0 <==> r is None,
            r matches Some(id) ==> id == lowest_of(self@, available@, *trump) && available@.contains(id),
    {
        if available.len() == 0 {
            return None;
        }
        let mut kept = available[0];
        let mut i: usize = 1;
        while i < available.len()
            invariant
                1 <= i <= available@.len(),
                self@.len() > 0,
                kept == lowest_of(self@, available@.subrange(0, i as int), *trump),
                available@.contains(kept),
            decreases available@.len() - i,
        {
            let next = available[i];
            proof {
                assert(available@.subrange(0, i + 1).drop_last() =~= available@.subrange(0, i as int));
            }
            if matches!(self.card(kept).higher(self.card(next), trump), Ordering::Greater) {
                kept = next;
            }
            i = i + 1;
        }
        assert(available@.subrange(0, available@.len() as int) =~= available@);
        Some(kept)
    }

    /// Among the cards at `available`, the highest by the `higher` comparison;
    /// the last of equally high ones.
    pub fn highest(&self, available: &[CardID], trump: &Suit) -> (r: Option<CardID>)
        requires
            available@.len() > 0 ==> self@.len() > 0,
        ensures
            available@.len() == 0 <==> r is None,
            r matches Some(id) ==> id == highest_of(self@, available@, *trump) && available@.contains(id),
    {
        if available.len() == 0 {
            return None;
        }
        let mut kept = available[0];
        let mut i: usize = 1;
        while i < available.len()
            invariant
                1 <= i <= available@.len(),
                self@.len() > 0,
                kept == highest_of(self@, available@.subrange(0, i as int), *trump),
                available@.contains(kept),
            decreases available@.len() - i,
        {
            let next = available[i];
            proof {
                assert(available@.subrange(0, i + 1).drop_last() =~= available@.subrange(0, i as int));
            }
            if !matches!(self.card(kept).higher(self.card(next), trump), Ordering::Greater) {
                kept = next;
            }
            i = i + 1;
        }
        assert(available@.subrange(0, available@.len() as int) =~= available@);
        Some(kept)
    }

    /// Among the cards at `available`, the one that would win the table;
    /// the last of equally winning ones.
    pub fn winning(&self, available: &[CardID], trump: &Suit) -> (r: Option<CardID>)
        requires
            available@.len() > 0 ==> self@.len() > 0,
        ensures
            available@.len() == 0 <==> r is None,
            r matches Some(id) ==> id == winning_of(self@, available@, *trump) && available@.contains(id),
    {
        if available.len() == 0 {
            return None;
        }
        let mut kept = available[0];
        let mut i: usize = 1;
        while i < available.len()
            invariant
                1 <= i <= available@.len(),
                self@.len() > 0,
                kept == winning_of(self@, available@.subrange(0, i as int), *trump),
                available@.contains(kept),
            decreases available@.len() - i,
        {
            let next = available[i];
            proof {
                assert(available@.subrange(0, i + 1).drop_last() =~= available@.subrange(0, i as int));
            }
            if !matches!(self.card(kept).winning(self.card(next), trump), Ordering::Greater) {
                kept = next;
            }
            i = i + 1;
        }
        assert(available@.subrange(0, available@.len() as int) =~= available@);
        Some(kept)
    }

    pub fn get_suit_amount(&self, suit: &Suit) -> (r: usize)
        requires
            self.wf(),
        ensures
            r == count_suit(self@, *suit),
    {
        proof { assert(Suit::at(suit.index_of()) == *suit); }
        self.suit_amounts[suit.index()]
    }

    /// The card under the selection cursor.
    pub fn selected(&self) -> (r: &Card)
        requires
            self.selected_spec() < self@.len(),
        ensures
            *r == self@[self.selected_spec() as int],
    {
        &self.cards[self.selected]
    }

    pub fn selected_id(&self) -> (r: CardID)
        ensures
            r == self.selected_spec(),
    {
        self.selected
    }

    pub fn set_selected(&mut self, selected: usize)
        ensures
            final(self).selected_spec() == selected,
            final(self)@ == old(self)@,
            final(self).wf() == old(self).wf(),
    {
        self.selected = selected;
    }

    /// The cards of one suit, in deck order.
    pub fn get_deck_of_suit(&self, suit: &Suit) -> (r: Deck)
        requires
            self.wf(),
        ensures
            r.wf(),
            r@ == self@.filter(of_suit(*suit)),
    {
        let mut cards: Vec<Card> = Vec::new();
        let mut i: usize = 0;
        while i < self.cards.len()
            invariant
                i <= self@.len(),
                self.wf(),
                cards@ == self@.subrange(0, i as int).filter(of_suit(*suit)),
            decreases self@.len() - i,
        {
            let c = self.cards[i];
            proof {
                reveal_with_fuel(Seq::<_>::filter, 1);
                assert(self@.subrange(0, i + 1).drop_last() =~= self@.subrange(0, i as int));
            }
            if c.suit == *suit {
                cards.push(c);
            }
            i = i + 1;
        }
        proof {
            assert(self@.subrange(0, self@.len() as int) =~= self@);
            assert forall|j: int| 0 <= j < cards@.len() implies (#[trigger] cards@[j]).wf() by {
                assert(self@.filter(of_suit(*suit)).contains(cards@[j]));
                self@.lemma_filter_contains_rev(of_suit(*suit), cards@[j]);
            }
        }
        Deck::new_from(cards)
    }

    /// Sum of the scores of the cards of one suit.
    fn suit_score(&self, suit: &Suit) -> (r: u32)
        requires
            self.wf(),
            14 * self@.len() <= u32::MAX,
        ensures
            r == suit_score_of(self@, *suit),
    {
        let mut total: u32 = 0;
        let mut i: usize = 0;
        while i < self.cards.len()
            invariant
                i <= self@.len(),
                14 * self@.len() <= u32::MAX,
                self.wf(),
                total == suit_score_of(self@.subrange(0, i as int), *suit),
                total <= 14 * i,
            decreases self@.len() - i,
        {
            let c = self.cards[i];
            proof {
                assert(self@.subrange(0, i + 1).drop_last() =~= self@.subrange(0, i as int));
                assert(c.wf());
            }
            if c.suit == *suit {
                total = total + c.score();
            }
            i = i + 1;
        }
        assert(self@.subrange(0, self@.len() as int) =~= self@);
        total
    }

    /// The suit whose cards score most, with that score; the last of equally
    /// scoring suits.
    pub fn best_suit_score(&self) -> (r: (Suit, u32))
        requires
            self.wf(),
            14 * self@.len() <= u32::MAX,
        ensures
            r.1 == suit_score_of(self@, r.0),
            forall|s: Suit| suit_score_of(self@, s) <= r.1,
            forall|k: int| r.0.index_of() < k < 4 ==> suit_score_of(self@, #[trigger] Suit::at(k)) < r.1,
    {
        let suits = Suit::iterator();
        let mut best = suits[0];
        let mut best_score = self.suit_score(&best);
        let mut i: usize = 1;
        while i < 4
            invariant
                1 <= i <= 4,
                self.wf(),
                14 * self@.len() <= u32::MAX,
                suits@ == seq![Suit::Spades, Suit::Clubs, Suit::Diamonds, Suit::Hearts],
                best_score == suit_score_of(self@, best),
                best.index_of() < i,
                forall|k: int| 0 <= k < i ==> suit_score_of(self@, #[trigger] Suit::at(k)) <= best_score,
                forall|k: int| best.index_of() < k < i ==> suit_score_of(self@, #[trigger] Suit::at(k)) < best_score,
            decreases 4 - i,
        {
            let s = suits[i];
            let score = self.suit_score(&s);
            if score >= best_score {
                best = s;
                best_score = score;
            }
            i = i + 1;
        }
        proof {
            assert forall|s: Suit| suit_score_of(self@, s) <= best_score by {
                assert(Suit::at(s.index_of()) == s);
            }
        }
        (best, best_score)
    }

    /// The cursor is on a card of a sorted, well-formed deck.
    pub open spec fn navigable(&self) -> bool {
        &&& self.wf()
        &&& sorted_cards(self@)
        &&& self.selected_spec() < self@.len()
    }

    /// The suit position of the card under the cursor.
    pub open spec fn row(&self) -> int {
        self@[self.selected_spec() as int].suit.index_of()
    }

    /// The position of the cursor within its suit.
    pub open spec fn column(&self) -> int {
        self.selected_spec() - below(self@, self.row())
    }

    /// Where the cards of suit position `y` start.
    fn suit_start(&self, y: usize) -> (r: usize)
        requires
            self.wf(),
            y <= 4,
        ensures
            r == below(self@, y as int),
    {
        let ghost len = self.cards@.len();
        proof {
            assert forall|i: int| 0 <= i < self@.len() implies !suit_before(0)(#[trigger] self@[i]) by {
                crate::suit::lemma_suit_index(self@[i].suit);
            }
            self@.lemma_all_neg_filter_empty(suit_before(0));
        }
        let n = self.cards.len();
        let mut start: usize = 0;
        let mut k: usize = 0;
        while k < y
            invariant
                self.wf(),
                k <= y <= 4,
                len == self@.len(),
                n == len,
                start == below(self@, k as int),
            decreases y - k,
        {
            proof {
                lemma_below_step(self@, k as int);
                lemma_below_bound(self@, (k + 1) as int);
                assert(Suit::at(k as int).index_of() == k);
            }
            start = start + self.suit_amounts[k];
            k = k + 1;
        }
        start
    }

    /// The suit position and the position within the suit of the cursor.
    fn selected_to_coordinate(&self) -> (r: (usize, usize))
        requires
            self.navigable(),
        ensures
            r.0 == self.row(),
            r.1 == self.column(),
            r.1 < count_suit(self@, Suit::at(r.0 as int)),
    {
        proof {
            lemma_card_at_in_range(self@, self.selected);
            lemma_sorted_block(self@, self.selected as int);
            lemma_below_step(self@, self.row());
        }
        let y = self.card(self.selected).suit.index();
        let start = self.suit_start(y);
        (y, self.selected - start)
    }

    /// Put the cursor on position `coord.1` of the cards of suit position `coord.0`.
    fn coordinate_to_selected(&mut self, coord: (usize, usize))
        requires
            old(self).wf(),
            coord.0 < 4,
            coord.1 < count_suit(old(self)@, Suit::at(coord.0 as int)),
        ensures
            final(self)@ == old(self)@,
            final(self).wf(),
            final(self).selected_spec() == below(old(self)@, coord.0 as int) + coord.1,
            final(self).selected_spec() < final(self)@.len(),
    {
        proof {
            lemma_below_step(self@, coord.0 as int);
            lemma_below_bound(self@, coord.0 + 1);
        }
        let n = self.cards.len();
        let start = self.suit_start(coord.0);
        self.selected = start + coord.1;
    }

    /// Move the cursor to the next card of its suit, wrapping round.
    pub fn select_right(&mut self)
        requires
            old(self).navigable(),
        ensures
            final(self).navigable(),
            final(self)@ == old(self)@,
            final(self).selected_spec() == below(old(self)@, old(self).row())
                + (old(self).column() + 1) % (count_suit(old(self)@, Suit::at(old(self).row())) as int),
    {
        let coor = self.selected_to_coordinate();
        let n = self.get_suit_amount(&Suit::from_index(coor.0));
        let new_x = (coor.1 + 1) % n;
        self.coordinate_to_selected((coor.0, new_x));
    }

    /// Move the cursor to the previous card of its suit, wrapping round.
    pub fn select_left(&mut self)
        requires
            old(self).navigable(),
        ensures
            final(self).navigable(),
            final(self)@ == old(self)@,
            final(self).selected_spec() == below(old(self)@, old(self).row()) + if old(self).column() == 0 {
                count_suit(old(self)@, Suit::at(old(self).row())) - 1
            } else {
                old(self).column() - 1
            },
    {
        let coor = self.selected_to_coordinate();
        let n = self.get_suit_amount(&Suit::from_index(coor.0));
        if coor.1 == 0 {
            self.coordinate_to_selected((coor.0, n - 1));
            return;
        }
        self.coordinate_to_selected((coor.0, coor.1 - 1));
    }

    /// Move the cursor to the nearest earlier suit (round the four) that has
    /// cards, keeping its position within the suit where that suit has
    /// enough cards.
    pub fn select_up(&mut self)
        requires
            old(self).navigable(),
        ensures
            final(self).navigable(),
            final(self)@ == old(self)@,
            ({
                let y = suit_up(old(self)@, old(self).row());
                let n = count_suit(old(self)@, Suit::at(y)) as int;
                final(self).selected_spec() == below(old(self)@, y) + if n - 1 < old(self).column() {
                    n - 1
                } else {
                    old(self).column()
                }
            }),
    {
        let coor = self.selected_to_coordinate();
        let y = coor.0;
        let new_y = if self.get_suit_amount(&Suit::from_index((y + 3) % 4)) > 0 {
            (y + 3) % 4
        } else if self.get_suit_amount(&Suit::from_index((y + 2) % 4)) > 0 {
            (y + 2) % 4
        } else if self.get_suit_amount(&Suit::from_index((y + 1) % 4)) > 0 {
            (y + 1) % 4
        } else {
            y
        };
        let n = self.get_suit_amount(&Suit::from_index(new_y));
        let new_x = if n - 1 < coor.1 { n - 1 } else { coor.1 };
        self.coordinate_to_selected((new_y, new_x));
    }

    /// Move the cursor to the nearest later suit (round the four) that has
    /// cards, keeping its position within the suit where that suit has
    /// enough cards.
    pub fn select_down(&mut self)
        requires
            old(self).navigable(),
        ensures
            final(self).navigable(),
            final(self)@ == old(self)@,
            ({
                let y = suit_down(old(self)@, old(self).row());
                let n = count_suit(old(self)@, Suit::at(y)) as int;
                final(self).selected_spec() == below(old(self)@, y) + if n - 1 < old(self).column() {
                    n - 1
                } else {
                    old(self).column()
                }
            }),
    {
        let coor = self.selected_to_coordinate();
        let y = coor.0;
        let new_y = if self.get_suit_amount(&Suit::from_index((y + 1) % 4)) > 0 {
            (y + 1) % 4
        } else if self.get_suit_amount(&Suit::from_index((y + 2) % 4)) > 0 {
            (y + 2) % 4
        } else if self.get_suit_amount(&Suit::from_index((y + 3) % 4)) > 0 {
            (y + 3) % 4
        } else {
            y
        };
        let n = self.get_suit_amount(&Suit::from_index(new_y));
        let new_x = if n - 1 < coor.1 { n - 1 } else { coor.1 };
        self.coordinate_to_selected((new_y, new_x));
    }

    /// The cards, in order.
    pub fn iter(&self) -> (r: std::slice::Iter<'_, Card>)
        ensures
            r.remaining().len() == self@.len(),
            forall|i: int| 0 <= i < self@.len() ==> *#[trigger] r.remaining()[i] == self@[i],
    {
        let r = self.cards.as_slice().iter();
        proof {
            broadcast use vstd::std_specs::slice::axiom_spec_slice_iter;
        }
        r
    }
}

} // verus!
