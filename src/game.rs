//! A game of Colour Whist: four hands, the table, the tricks played so far,
//! scores, and the card-counting memory a learning agent reads.

use vstd::prelude::*;
use crate::card::{Card, winning_spec};
use crate::deck::{CardID, Deck, card_at, count_suit, sorted_cards, same_cards, full_deck, lemma_card_at_in_range, lemma_count_witness, lemma_sorted_remove, highest_of, lowest_of};
use crate::gamestate::{Action, GameState};
use crate::suit::Suit;
use std::cmp::Ordering;
use itertools::Itertools;

verus! {

/// A seat at the table, 0 to 3.
pub type PlayerID = usize;

/// Why a move or a trick was refused.
#[derive(Clone, Copy, PartialEq, Eq, Structural, Debug)]
pub enum GameError {
    /// The card is out of range or breaks the follow-suit rule.
    IllegalMove,
    /// There are already four cards on the table.
    TableFull,
    /// A trick needs exactly four cards on the table.
    IncompleteTrick,
}

/// Position on the table of the card that wins the first `n` cards of `t`:
/// a later card takes over unless the card kept so far beats it.
pub open spec fn win_index(t: Seq<Card>, n: int, trump: Suit) -> int
    decreases n,
{
    if n <= 1 {
        0
    } else {
        let k = win_index(t, n - 1, trump);
        if winning_spec(t[k], t[n - 1], trump) == Ordering::Greater {
            k
        } else {
            n - 1
        }
    }
}

/// The card-counting position of a card: its suit and its score less two.
pub open spec fn gone_pos(c: Card) -> (int, int) {
    (c.suit.index_of(), c.score_spec() - 2)
}

/// How many of the cards after the first of `t` have another suit than it.
pub open spec fn off_suit_count(t: Seq<Card>, n: int) -> int
    decreases n,
{
    if n <= 1 {
        0
    } else {
        off_suit_count(t, n - 1) + if t[n - 1].suit != t[0].suit { 1int } else { 0int }
    }
}

/// The ids of `ids` whose card in `hand` beats `best` on the table.
pub open spec fn beating(hand: Seq<Card>, ids: Seq<usize>, best: Card, trump: Suit) -> Seq<usize> {
    ids.filter(|id: usize| winning_spec(card_at(hand, id), best, trump) == Ordering::Greater)
}

/// The ids of `ids` whose card in `hand` has the suit at position `suit`.
pub open spec fn of_suit_ids(hand: Seq<Card>, ids: Seq<usize>, suit: int) -> Seq<usize> {
    ids.filter(|id: usize| card_at(hand, id).suit.index_of() == suit)
}

/// The indices 0, 1, ..., n - 1.
pub open spec fn indices(n: nat) -> Seq<usize> {
    Seq::new(n, |j: int| j as usize)
}

/// The highest score among the cards of a suit in `s`; 0 when there is none.
pub open spec fn max_suit_score(s: Seq<Card>, suit: Suit) -> int
    decreases s.len(),
{
    if s.len() == 0 {
        0
    } else {
        let m = max_suit_score(s.drop_last(), suit);
        if s.last().suit == suit && s.last().score_spec() > m {
            s.last().score_spec()
        } else {
            m
        }
    }
}

/// The position of the last `true` flag, or the last position when none is set.
pub open spec fn last_max(h: [bool; 4]) -> int {
    if h[3] || !(h[0] || h[1] || h[2]) {
        3
    } else if h[2] {
        2
    } else if h[1] {
        1
    } else {
        0
    }
}

/// Relies on itertools' `Itertools::position_max`: the position of the
/// greatest element, the last of equally great ones (`false < true`).
#[verifier::external_body]
fn position_max_flags(h: &[bool; 4]) -> (r: Option<usize>)
    ensures
        r is Some,
        r.unwrap() < 4,
        forall|j: int| 0 <= j < 4 && #[trigger] h[j] ==> h[r.unwrap() as int],
        forall|j: int| r.unwrap() < j < 4 ==> h[r.unwrap() as int] && !#[trigger] h[j],
{
    h.iter().position_max()
}

/// The ids `sub`, or all of `all` when `sub` is empty.
pub open spec fn or_all(sub: Seq<usize>, all: Seq<usize>) -> Seq<usize> {
    if sub.len() == 0 {
        all
    } else {
        sub
    }
}

/// The lowest card of `ids` in `hand`, or the first of `all` when `ids` is empty.
pub open spec fn lowest_or_first(hand: Seq<Card>, ids: Seq<usize>, all: Seq<usize>) -> usize {
    if ids.len() == 0 {
        all[0]
    } else {
        lowest_of(hand, ids, Suit::Hearts)
    }
}

/// The highest card of `ids` in `hand`, or the first of `all` when `ids` is empty.
pub open spec fn highest_or_first(hand: Seq<Card>, ids: Seq<usize>, all: Seq<usize>) -> usize {
    if ids.len() == 0 {
        all[0]
    } else {
        highest_of(hand, ids, Suit::Hearts)
    }
}

/// Strictly increasing indices.
pub open spec fn increasing(s: Seq<usize>) -> bool {
    forall|i: int, j: int| 0 <= i < j < s.len() ==> s[i] < s[j]
}

/// Concatenating sequences that hold the same cards as others, in order,
/// holds the same cards as concatenating those.
pub proof fn lemma_same_cards_concat4(
    a: Seq<Card>,
    b: Seq<Card>,
    c: Seq<Card>,
    d: Seq<Card>,
    a2: Seq<Card>,
    b2: Seq<Card>,
    c2: Seq<Card>,
    d2: Seq<Card>,
)
    requires
        same_cards(a2, a),
        same_cards(b2, b),
        same_cards(c2, c),
        same_cards(d2, d),
    ensures
        same_cards(a2 + b2 + c2 + d2, a + b + c + d),
{
    vstd::seq_lib::lemma_multiset_commutative(a, b);
    vstd::seq_lib::lemma_multiset_commutative(a + b, c);
    vstd::seq_lib::lemma_multiset_commutative(a + b + c, d);
    vstd::seq_lib::lemma_multiset_commutative(a2, b2);
    vstd::seq_lib::lemma_multiset_commutative(a2 + b2, c2);
    vstd::seq_lib::lemma_multiset_commutative(a2 + b2 + c2, d2);
}

/// The four cards of a trick sit at distinct card-counting positions, none
/// of which is in `gone`.
pub open spec fn fresh_trick(t: Seq<Card>, gone: Set<(int, int)>) -> bool {
    &&& t.len() == 4
    &&& forall|i: int, j: int| 0 <= i < j < 4 ==> gone_pos(t[i]) != gone_pos(t[j])
    &&& forall|i: int| 0 <= i < 4 ==> !gone.contains(#[trigger] gone_pos(t[i]))
}

/// Four fresh cards add exactly four positions.
pub proof fn lemma_fresh_trick_adds_four(t: Seq<Card>, gone: Set<(int, int)>)
    requires
        fresh_trick(t, gone),
    ensures
        ((gone + positions_of(t)) - gone).len() == 4,
{
    let p = set![gone_pos(t[0]), gone_pos(t[1]), gone_pos(t[2]), gone_pos(t[3])];
    assert(positions_of(t) =~= p) by {
        assert forall|x: (int, int)| positions_of(t).contains(x) implies p.contains(x) by {
            let i = choose|i: int| 0 <= i < t.len() && gone_pos(t[i]) == x;
        }
        assert forall|x: (int, int)| p.contains(x) implies positions_of(t).contains(x) by {
            if x == gone_pos(t[0]) {
                assert(gone_pos(t[0]) == x);
            } else if x == gone_pos(t[1]) {
                assert(gone_pos(t[1]) == x);
            } else if x == gone_pos(t[2]) {
                assert(gone_pos(t[2]) == x);
            } else {
                assert(gone_pos(t[3]) == x);
            }
        }
    }
    assert((gone + positions_of(t)) - gone =~= p);
    let e = Set::<(int, int)>::empty();
    assert(e.insert(gone_pos(t[0])).len() == 1);
    assert(e.insert(gone_pos(t[0])).insert(gone_pos(t[1])).len() == 2);
    assert(e.insert(gone_pos(t[0])).insert(gone_pos(t[1])).insert(gone_pos(t[2])).len() == 3);
}

/// Positions of the cards of a sequence.
pub open spec fn positions_of(s: Seq<Card>) -> Set<(int, int)> {
    Set::new(|p: (int, int)| exists|i: int| 0 <= i < s.len() && gone_pos(s[i]) == p)
}

/// A copy of a slice of card ids.
fn copy_ids(ids: &[CardID]) -> (r: Vec<CardID>)
    ensures
        r@ == ids@,
{
    let mut r: Vec<CardID> = Vec::new();
    let mut i: usize = 0;
    while i < ids.len()
        invariant
            i <= ids@.len(),
            r@ == ids@.subrange(0, i as int),
        decreases ids@.len() - i,
    {
        r.push(ids[i]);
        i = i + 1;
        assert(r@ =~= ids@.subrange(0, i as int));
    }
    assert(r@ =~= ids@);
    r
}

/// rand's `random`: a value drawn from the standard distribution; nothing
/// about it is known.
pub assume_specification<T>[ rand::random::<T> ]() -> (r: T)
    where
        rand::distributions::Standard: rand::distributions::Distribution<T>,
;

pub struct Game {
    /// the tricks of this deal, each a deck of four cards
    pub tricks: Vec<Deck>,
    /// the cards on the table, in the order they were played
    pub table: Deck,
    pub players: [Deck; 4],
    pub turn: PlayerID,
    pub trump: Suit,
    /// lifetime scores
    pub scores: [u32; 4],
    pub human_players: usize,
    /// tricks won in this deal
    pub round_scores: [u32; 4],
    /// the cards seen in finished tricks, by suit and score less two
    pub gone_cards: [[bool; 13]; 4],
    pub last_winner: PlayerID,
    pub last_last_winner: PlayerID,
    pub dealer: PlayerID,
    pub bidding: bool,
    /// for each suit, how many players failed to follow the last trick led in it
    pub nb_cant_follow: [u8; 4],
}

impl Default for Game {
    fn default() -> (r: Game)
        ensures
            r.wf(),
            r.deal_consistent(),
            forall|p: int| 0 <= p < 4 ==> #[trigger] r.hand(p).len() == 13 && sorted_cards(r.hand(p)),
            same_cards(r.dealt(), full_deck()),
            r.table_cards().len() == 0,
            r.trick_count() == 0,
            r.gone() == Set::<(int, int)>::empty(),
            r.seat() == 0,
            r.leader() == 0,
    {
        Game::new()
    }
}

impl Game {
    /// Internal consistency of a game, with no more tricks than a deal has.
    pub open spec fn wf(&self) -> bool {
        &&& self.wf_core()
        &&& self.tricks@.len() < 13
    }

    /// Internal consistency of a game whose deal may just have ended.
    pub open spec fn wf_core(&self) -> bool {
        &&& forall|p: int| 0 <= p < 4 ==> (#[trigger] self.players[p]).wf() && self.players[p]@.len() <= 13
            && sorted_cards(self.players[p]@)
        &&& self.table.wf()
        &&& self.table@.len() <= 4
        &&& self.turn < 4
        &&& self.last_winner < 4
        &&& self.trump == Suit::Hearts
        &&& self.tricks@.len() <= 13
        &&& forall|p: int| 0 <= p < 4 ==> self.round_scores[p] <= self.tricks@.len()
        &&& self.human_players <= 4
        &&& forall|k: int| 0 <= k < 4 ==> self.nb_cant_follow[k] <= 3
    }

    /// The play of the deal is in order: the hands hold 13 cards less one per
    /// trick, less one more for each seat that has played to the table, and
    /// the turn is with the seat after the last one that played.
    pub open spec fn deal_consistent(&self) -> bool {
        &&& self.turn == (self.last_winner + self.table@.len()) % 4
        &&& forall|p: int| 0 <= p < 4 ==> (#[trigger] self.players[p])@.len() == 13 - self.tricks@.len()
            - if (p - self.last_winner + 4) % 4 < self.table@.len() { 1int } else { 0int }
    }

    /// The four hands, one after the other.
    pub open spec fn dealt(&self) -> Seq<Card> {
        self.hand(0) + self.hand(1) + self.hand(2) + self.hand(3)
    }

    /// The cards of the `i`-th trick of this deal, in the order played.
    pub open spec fn trick_cards(&self, i: int) -> Seq<Card> {
        self.tricks@[i]@
    }

    pub open spec fn hand(&self, p: int) -> Seq<Card> {
        self.players[p]@
    }

    pub open spec fn table_cards(&self) -> Seq<Card> {
        self.table@
    }

    pub open spec fn seat(&self) -> int {
        self.turn as int
    }

    pub open spec fn trick_count(&self) -> nat {
        self.tricks@.len()
    }

    /// The seat that won the last trick, and leads the current one.
    pub open spec fn leader(&self) -> int {
        self.last_winner as int
    }

    pub open spec fn round_score(&self, p: int) -> int {
        self.round_scores[p] as int
    }

    pub open spec fn score(&self, p: int) -> int {
        self.scores[p] as int
    }

    /// The cards counted as gone, as (suit, score - 2) positions.
    pub open spec fn gone(&self) -> Set<(int, int)> {
        Set::new(|p: (int, int)| 0 <= p.0 < 4 && 0 <= p.1 < 13 && self.gone_cards[p.0][p.1])
    }

    pub open spec fn humans(&self) -> int {
        self.human_players as int
    }

    /// Deal four sorted hands of thirteen cards from a shuffled full deck.
    fn deal_hands() -> (r: [Deck; 4])
        ensures
            forall|p: int| 0 <= p < 4 ==> (#[trigger] r[p]).wf() && r[p]@.len() == 13 && sorted_cards(r[p]@),
            same_cards(r[0]@ + r[1]@ + r[2]@ + r[3]@, full_deck()),
    {
        let mut deck = Deck::new_full();
        deck.shuffle();
        let ghost d = deck@;
        let mut p0 = deck.pull_cards(13);
        let ghost q0 = p0@;
        p0.sort();
        let mut p1 = deck.pull_cards(13);
        let ghost q1 = p1@;
        p1.sort();
        let mut p2 = deck.pull_cards(13);
        let ghost q2 = p2@;
        p2.sort();
        let mut p3 = deck.pull_cards(13);
        let ghost q3 = p3@;
        p3.sort();
        proof {
            assert(d =~= q0 + q1 + q2 + q3);
            lemma_same_cards_concat4(q0, q1, q2, q3, p0@, p1@, p2@, p3@);
        }
        [p0, p1, p2, p3]
    }

    /// A new game with freshly dealt hands and no cards played.
    pub fn new() -> (r: Game)
        ensures
            r.wf(),
            r.deal_consistent(),
            forall|p: int| 0 <= p < 4 ==> #[trigger] r.hand(p).len() == 13 && sorted_cards(r.hand(p)),
            same_cards(r.dealt(), full_deck()),
            r.table_cards().len() == 0,
            r.trick_count() == 0,
            r.gone() == Set::<(int, int)>::empty(),
            r.seat() == 0,
            r.leader() == 0,
            forall|p: int| 0 <= p < 4 ==> #[trigger] r.round_score(p) == 0 && r.score(p) == 0,
            r.humans() == 0,
    {
        let players = Self::deal_hands();
        let r = Game {
            tricks: Vec::new(),
            table: Deck::new_empty(),
            players,
            turn: 0,
            trump: Suit::Hearts,
            scores: [0, 0, 0, 0],
            human_players: 0,
            round_scores: [0, 0, 0, 0],
            gone_cards: [[false; 13]; 4],
            last_winner: 0,
            last_last_winner: 0,
            dealer: 0,
            bidding: true,
            nb_cant_follow: [0, 0, 0, 0],
        };
        assert(r.gone() =~= Set::<(int, int)>::empty());
        r
    }

    /// Seat `amount` more human players, at most four in all.
    pub fn add_human_players(&mut self, amount: usize) -> (r: Result<usize, GameError>)
        requires
            old(self).wf(),
        ensures
            final(self).wf(),
            old(self).humans() + amount <= 4 ==> r == Ok::<usize, GameError>((old(self).humans() + amount) as usize)
                && *final(self) == (Game { human_players: (old(self).humans() + amount) as usize, ..*old(self) }),
            old(self).humans() + amount > 4 ==> r == Err::<usize, GameError>(GameError::IllegalMove)
                && *final(self) == *old(self),
    {
        if amount > 4 - self.human_players {
            return Err(GameError::IllegalMove);
        }
        self.human_players = self.human_players + amount;
        Ok(self.human_players)
    }

    /// How many players failed to follow the last trick led in suit `k`.
    pub open spec fn cant_follow(&self, k: int) -> int {
        self.nb_cant_follow[k] as int
    }

    /// The player to move holds the suit that was led, and must follow it.
    pub open spec fn must_follow(&self) -> bool {
        self.table@.len() != 0 && count_suit(self.players[self.turn as int]@, self.table@[0].suit) > 0
    }

    /// The card at index `i` of the hand of the player to move may be played.
    pub open spec fn legal(&self, i: int) -> bool {
        &&& 0 <= i < self.players[self.turn as int]@.len()
        &&& self.must_follow() ==> self.players[self.turn as int]@[i].suit == self.table@[0].suit
    }

    /// Position on the table of the card that currently wins it.
    pub open spec fn winner_spec(&self) -> int {
        win_index(self.table@, self.table@.len() as int, self.trump)
    }

    /// Start a new deal: add the deal's scores to the lifetime scores
    /// (saturating at the largest `u32`), forget the tricks and the counted
    /// cards, and deal four new sorted hands.
    pub fn new_deal(&mut self)
        requires
            old(self).wf_core(),
        ensures
            final(self).wf(),
            final(self).trick_count() == 0,
            final(self).gone() == Set::<(int, int)>::empty(),
            forall|p: int| 0 <= p < 4 ==> #[trigger] final(self).hand(p).len() == 13 && sorted_cards(final(self).hand(p)),
            same_cards(final(self).dealt(), full_deck()),
            forall|p: int| 0 <= p < 4 ==> #[trigger] final(self).round_score(p) == 0,
            forall|p: int| 0 <= p < 4 ==> #[trigger] final(self).score(p) == if old(self).score(p) + old(self).round_score(p) > u32::MAX {
                u32::MAX as int
            } else {
                old(self).score(p) + old(self).round_score(p)
            },
            final(self).table_cards() == old(self).table_cards(),
            final(self).seat() == old(self).seat(),
            final(self).leader() == old(self).leader(),
            final(self).humans() == old(self).humans(),
            forall|k: int| 0 <= k < 4 ==> #[trigger] final(self).cant_follow(k) == old(self).cant_follow(k),
            old(self).table_cards().len() == 0 && old(self).seat() == old(self).leader() ==> final(self).deal_consistent(),
    {
        let mut scores = self.scores;
        let mut p: usize = 0;
        while p < 4
            invariant
                p <= 4,
                forall|q: int| 0 <= q < p ==> #[trigger] scores[q] as int == if self.scores[q] + self.round_scores[q] > u32::MAX {
                    u32::MAX as int
                } else {
                    self.scores[q] + self.round_scores[q]
                },
                forall|q: int| p <= q < 4 ==> #[trigger] scores[q] == self.scores[q],
            decreases 4 - p,
        {
            scores[p] = scores[p].saturating_add(self.round_scores[p]);
            p = p + 1;
        }
        self.scores = scores;
        self.tricks = Vec::new();
        self.gone_cards = [[false; 13]; 4];
        self.round_scores = [0, 0, 0, 0];
        self.players = Self::deal_hands();
        assert(self.gone() =~= Set::<(int, int)>::empty());
    }

    /// Put a card on the table; the turn passes to the next seat.
    pub fn play(&mut self, card: Card) -> (r: Result<(), GameError>)
        requires
            old(self).wf(),
            card.wf(),
        ensures
            final(self).wf(),
            old(self).table_cards().len() < 4 ==> r is Ok
                && final(self).table_cards() == old(self).table_cards().push(card)
                && final(self).seat() == (old(self).seat() + 1) % 4
                && forall|p: int| 0 <= p < 4 ==> #[trigger] final(self).hand(p) == old(self).hand(p)
                && final(self).scores == old(self).scores
                && final(self).round_scores == old(self).round_scores
                && final(self).tricks@ == old(self).tricks@
                && final(self).nb_cant_follow == old(self).nb_cant_follow,
            old(self).table_cards().len() >= 4 ==> r == Err::<(), GameError>(GameError::TableFull) && *final(self) == *old(self),
            final(self).trick_count() == old(self).trick_count(),
            final(self).leader() == old(self).leader(),
            final(self).gone() == old(self).gone(),
    {
        if self.table.size() < 4 {
            self.table.add(card);
            self.turn = (self.turn + 1) % 4;
            Ok(())
        } else {
            Err(GameError::TableFull)
        }
    }

    /// The position on the table of the card that currently wins it; the last
    /// of equally winning cards.
    pub fn winner(&self) -> (r: CardID)
        requires
            self.wf(),
            self.table_cards().len() > 0,
        ensures
            r == self.winner_spec(),
            r < self.table_cards().len(),
    {
        let mut kept: usize = 0;
        let mut i: usize = 1;
        while i < self.table.size()
            invariant
                self.wf(),
                1 <= i <= self.table@.len(),
                kept == win_index(self.table@, i as int, self.trump),
                kept < i,
            decreases self.table@.len() - i,
        {
            proof {
                lemma_card_at_in_range(self.table@, kept);
                lemma_card_at_in_range(self.table@, i);
            }
            if !matches!(self.table.card(kept).winning(self.table.card(i), &self.trump), Ordering::Greater) {
                kept = i;
            }
            i = i + 1;
        }
        kept
    }

    /// Indices of the cards the player to move may play: those of the suit
    /// led when the player holds it, else the whole hand.
    pub fn alowed_cards(&self) -> (r: Vec<usize>)
        requires
            self.wf(),
        ensures
            r@ == self.allowed_spec(),
            increasing(r@),
            forall|k: int| 0 <= k < r@.len() ==> self.legal(#[trigger] r@[k] as int),
            forall|i: int| self.legal(i) ==> r@.contains(i as usize),
    {
        let player = &self.players[self.turn];
        let follow = self.table.size() != 0 && player.has_suit(&self.table.card(0).suit);
        let mut r: Vec<usize> = Vec::new();
        let mut i: usize = 0;
        while i < player.size()
            invariant
                self.wf(),
                player == &self.players[self.turn as int],
                follow == self.must_follow(),
                i <= player@.len(),
                increasing(r@),
                forall|k: int| 0 <= k < r@.len() ==> r@[k] < i && self.legal(#[trigger] r@[k] as int),
                forall|j: int| 0 <= j < i && self.legal(j) ==> r@.contains(j as usize),
                r@ == indices(i as nat).filter(|j: usize| self.legal(j as int)),
            decreases player@.len() - i,
        {
            proof {
                reveal_with_fuel(Seq::<_>::filter, 1);
                assert(indices((i + 1) as nat).drop_last() =~= indices(i as nat));
            }
            if !follow || player.suit_of(i) == self.table.card(0).suit {
                let ghost before = r@;
                r.push(i);
                proof {
                    assert(r@[before.len() as int] == i);
                    assert forall|j: int| 0 <= j < i && self.legal(j) implies r@.contains(j as usize) by {
                        let k = choose|k: int| 0 <= k < before.len() && before[k] == j as usize;
                        assert(r@[k] == j as usize);
                    }
                }
            }
            i = i + 1;
        }
        proof { assert(indices(player@.len()) =~= indices(i as nat)); }
        r
    }

    /// Play the card at index `card` of the hand of the player to move.
    pub fn player_plays(&mut self, card: usize) -> (r: Result<(), GameError>)
        requires
            old(self).wf(),
        ensures
            final(self).wf(),
            !old(self).legal(card as int) ==> r == Err::<(), GameError>(GameError::IllegalMove) && *final(self) == *old(self),
            old(self).legal(card as int) && old(self).table_cards().len() >= 4 ==> r == Err::<(), GameError>(GameError::TableFull)
                && *final(self) == *old(self),
            old(self).legal(card as int) && old(self).table_cards().len() < 4 ==> r is Ok
                && final(self).hand(old(self).seat()) == old(self).hand(old(self).seat()).remove(card as int)
                && final(self).table_cards() == old(self).table_cards().push(old(self).hand(old(self).seat())[card as int])
                && final(self).seat() == (old(self).seat() + 1) % 4
                && forall|p: int| 0 <= p < 4 && p != old(self).seat() ==> #[trigger] final(self).hand(p) == old(self).hand(p),
            final(self).scores == old(self).scores,
            final(self).tricks@ == old(self).tricks@,
            final(self).trick_count() == old(self).trick_count(),
            final(self).leader() == old(self).leader(),
            final(self).gone() == old(self).gone(),
            forall|p: int| 0 <= p < 4 ==> #[trigger] final(self).round_score(p) == old(self).round_score(p),
            old(self).deal_consistent() ==> final(self).deal_consistent(),
    {
        let alowed = self.alowed_cards();
        let mut found = false;
        let mut k: usize = 0;
        while k < alowed.len()
            invariant
                k <= alowed@.len(),
                found == exists|j: int| 0 <= j < k && alowed@[j] == card,
            decreases alowed@.len() - k,
        {
            if alowed[k] == card {
                found = true;
            }
            k = k + 1;
        }
        if !found {
            return Err(GameError::IllegalMove);
        }
        if self.table.size() >= 4 {
            return Err(GameError::TableFull);
        }
        let t = self.turn;
        proof { lemma_sorted_remove(self.players[t as int]@, card as int); }
        let played = self.players[t].remove(card);
        proof {
            assert(old(self).players[t as int]@.len() > 0);
            assert(played.wf());
        }
        self.table.add(played);
        self.turn = (self.turn + 1) % 4;
        proof {
            if old(self).deal_consistent() {
                assert forall|p: int| 0 <= p < 4 implies (#[trigger] self.players[p])@.len() == 13 - self.tricks@.len()
                    - if (p - self.last_winner + 4) % 4 < self.table@.len() { 1int } else { 0int } by {
                    if p == t {
                        assert((p - self.last_winner + 4) % 4 == old(self).table@.len());
                    }
                }
            }
        }
        Ok(())
    }

    /// Mark the cards of a finished trick as gone, and count the players
    /// that did not follow the suit led.
    fn count_cards(&mut self, trick: &Deck)
        requires
            old(self).wf_core(),
            trick.wf(),
            trick@.len() == 4,
        ensures
            final(self).wf_core(),
            final(self).gone() == old(self).gone() + positions_of(trick@),
            forall|k: int| 0 <= k < 4 ==> #[trigger] final(self).cant_follow(k) == if k == trick@[0].suit.index_of() {
                off_suit_count(trick@, 4)
            } else {
                old(self).cant_follow(k)
            },
            final(self).tricks == old(self).tricks,
            final(self).table == old(self).table,
            final(self).players == old(self).players,
            final(self).turn == old(self).turn,
            final(self).last_winner == old(self).last_winner,
            final(self).round_scores == old(self).round_scores,
            final(self).scores == old(self).scores,
            final(self).human_players == old(self).human_players,
    {
        proof { lemma_card_at_in_range(trick@, 0); }
        let lead = trick.card(0).suit;
        let li = lead.index();
        let mut nb = self.nb_cant_follow;
        nb[li] = 0;
        let mut gone = self.gone_cards;
        let mut i: usize = 0;
        while i < 4
            invariant
                i <= 4,
                trick.wf(),
                trick@.len() == 4,
                lead == trick@[0].suit,
                li == lead.index_of(),
                i >= 1 ==> off_suit_count(trick@, i as int) <= i - 1,
                forall|k: int| 0 <= k < 4 ==> #[trigger] nb[k] == if k == li { if i == 0 { 0 } else { off_suit_count(trick@, i as int) } } else {
                    self.nb_cant_follow[k] as int
                },
                forall|a: int, b: int| 0 <= a < 4 && 0 <= b < 13 ==> #[trigger] gone[a][b] == (self.gone_cards[a][b]
                    || positions_of(trick@.subrange(0, i as int)).contains((a, b))),
            decreases 4 - i,
        {
            proof { lemma_card_at_in_range(trick@, i); }
            let c = trick.card(i);
            if i > 0 && c.suit != lead {
                nb[li] = nb[li] + 1;
            }
            let si = c.suit.index();
            let sc = (c.score() - 2) as usize;
            let mut row = gone[si];
            row[sc] = true;
            gone[si] = row;
            proof {
                let pre = trick@.subrange(0, i as int);
                let post = trick@.subrange(0, i + 1);
                assert forall|a: int, b: int| 0 <= a < 4 && 0 <= b < 13 implies #[trigger] gone[a][b] == (self.gone_cards[a][b]
                    || positions_of(post).contains((a, b))) by {
                    if positions_of(post).contains((a, b)) && !positions_of(pre).contains((a, b)) {
                        let j = choose|j: int| 0 <= j < post.len() && gone_pos(post[j]) == (a, b);
                        if j < i {
                            assert(pre[j] == post[j]);
                        }
                    }
                    if positions_of(pre).contains((a, b)) {
                        let j = choose|j: int| 0 <= j < pre.len() && gone_pos(pre[j]) == (a, b);
                        assert(post[j] == pre[j]);
                    }
                    if (a, b) == gone_pos(*c) {
                        assert(post[i as int] == *c);
                    }
                }
            }
            i = i + 1;
        }
        self.nb_cant_follow = nb;
        self.gone_cards = gone;
        proof {
            assert(trick@.subrange(0, 4) =~= trick@);
            assert forall|p: (int, int)| positions_of(trick@).contains(p) implies 0 <= p.0 < 4 && 0 <= p.1 < 13 by {
                let j = choose|j: int| 0 <= j < trick@.len() && gone_pos(trick@[j]) == p;
                assert(trick@[j].wf());
            }
            assert(self.gone() =~= old(self).gone() + positions_of(trick@));
        }
    }

    /// Resolve the trick on the table: its winner scores a point, leads the
    /// next trick and has the turn; the cards go to the tricks and are
    /// counted as gone. After the thirteenth trick a new deal starts.
    pub fn trick(&mut self) -> (r: Result<(), GameError>)
        requires
            old(self).wf(),
        ensures
            final(self).wf(),
            old(self).table_cards().len() != 4 <==> r is Err,
            r is Err ==> r == Err::<(), GameError>(GameError::IncompleteTrick) && *final(self) == *old(self),
            r is Ok ==> ({
                let w = (old(self).winner_spec() + old(self).leader()) % 4;
                &&& final(self).leader() == w
                &&& final(self).seat() == w
                &&& final(self).table_cards().len() == 0
                &&& old(self).trick_count() < 12 ==> {
                    &&& final(self).trick_count() == old(self).trick_count() + 1
                    &&& forall|i: int| 0 <= i < old(self).trick_count() ==> #[trigger] final(self).trick_cards(i) == old(self).trick_cards(i)
                    &&& final(self).trick_cards(old(self).trick_count() as int) == old(self).table_cards()
                    &&& final(self).round_score(w) == old(self).round_score(w) + 1
                    &&& forall|p: int| 0 <= p < 4 && p != w ==> #[trigger] final(self).round_score(p) == old(self).round_score(p)
                    &&& final(self).scores == old(self).scores
                    &&& forall|p: int| 0 <= p < 4 ==> #[trigger] final(self).hand(p) == old(self).hand(p)
                    &&& final(self).gone() == old(self).gone() + positions_of(old(self).table_cards())
                    &&& fresh_trick(old(self).table_cards(), old(self).gone()) ==> (final(self).gone() - old(self).gone()).len() == 4
                }
                &&& old(self).trick_count() == 12 ==> {
                    &&& final(self).trick_count() == 0
                    &&& final(self).gone() == Set::<(int, int)>::empty()
                    &&& forall|p: int| 0 <= p < 4 ==> #[trigger] final(self).hand(p).len() == 13 && sorted_cards(final(self).hand(p))
                    &&& same_cards(final(self).dealt(), full_deck())
                    &&& forall|p: int| 0 <= p < 4 ==> #[trigger] final(self).round_score(p) == 0
                    &&& forall|p: int| 0 <= p < 4 ==> #[trigger] final(self).score(p) == {
                        let total = old(self).score(p) + old(self).round_score(p) + if p == w { 1int } else { 0int };
                        if total > u32::MAX { u32::MAX as int } else { total }
                    }
                }
                &&& forall|k: int| 0 <= k < 4 ==> #[trigger] final(self).cant_follow(k) == if k == old(self).table_cards()[0].suit.index_of() {
                    off_suit_count(old(self).table_cards(), 4)
                } else {
                    old(self).cant_follow(k)
                }
            }),
            old(self).deal_consistent() ==> final(self).deal_consistent(),
    {
        if self.table.size() != 4 {
            return Err(GameError::IncompleteTrick);
        }
        let w = (self.winner() + self.last_winner) % 4;
        let new_trick = self.table.pull_cards(4);
        proof { assert(new_trick@ =~= old(self).table@); }
        self.count_cards(&new_trick);
        let ghost counted = *self;
        self.tricks.push(new_trick);
        self.turn = w;
        self.last_last_winner = self.last_winner;
        self.last_winner = w;
        self.round_scores[w] = self.round_scores[w] + 1;
        proof {
            assert(self.table@ =~= Seq::<Card>::empty());
            if old(self).deal_consistent() {
                assert forall|p: int| 0 <= p < 4 implies (#[trigger] self.players[p])@.len() == 13 - self.tricks@.len()
                    - if (p - self.last_winner + 4) % 4 < self.table@.len() { 1int } else { 0int } by {
                    assert(0 <= (p - old(self).last_winner + 4) % 4 < 4);
                }
            }
        }
        let ghost mid = *self;
        assert forall|k: int| 0 <= k < 4 implies #[trigger] mid.cant_follow(k) == if k == old(self).table_cards()[0].suit.index_of() {
            off_suit_count(old(self).table_cards(), 4)
        } else {
            old(self).cant_follow(k)
        } by {
            assert(mid.cant_follow(k) == counted.cant_follow(k));
            assert(new_trick@ == old(self).table_cards());
        }
        if self.tricks.len() == 13 {
            self.new_deal();
            assert(forall|p: int| 0 <= p < 4 ==> #[trigger] mid.round_score(p) == old(self).round_score(p) + if p == w { 1int } else { 0int });
        }
        proof {
            if old(self).tricks@.len() < 12 && fresh_trick(old(self).table@, old(self).gone()) {
                lemma_fresh_trick_adds_four(old(self).table@, old(self).gone());
            }
        }
        Ok(())
    }

    /// The ids of `playable` whose card in the hand of `player` would beat
    /// the card now winning the table; all of them on an empty table.
    pub open spec fn better_spec(&self, player: int, playable: Seq<usize>) -> Seq<usize> {
        if self.table@.len() == 0 {
            playable
        } else {
            beating(self.players[player]@, playable, self.table@[self.winner_spec()], self.trump)
        }
    }

    /// The first position of `card` in the hand of `player`.
    pub fn card_id_of(&self, player: PlayerID, card: &Card) -> (r: Option<CardID>)
        requires
            player < 4,
        ensures
            match r {
                Some(i) => i < self.hand(player as int).len() && self.hand(player as int)[i as int] == *card
                    && forall|j: int| 0 <= j < i ==> self.hand(player as int)[j] != *card,
                None => !self.hand(player as int).contains(*card),
            },
    {
        self.players[player].id_of(card)
    }

    /// Of the `playable` cards of `player`, those that beat the card now
    /// winning the table.
    pub fn better_cards_of(&self, player: PlayerID, playable: &[CardID]) -> (r: Vec<CardID>)
        requires
            self.wf(),
            player < 4,
            self.table_cards().len() > 0 && playable@.len() > 0 ==> self.hand(player as int).len() > 0,
        ensures
            r@ == self.better_spec(player as int, playable@),
    {
        if self.table.is_empty() {
            return copy_ids(playable);
        }
        let hand = &self.players[player];
        let w = self.winner();
        proof { lemma_card_at_in_range(self.table@, w); }
        let best = self.table.card(w);
        let mut r: Vec<CardID> = Vec::new();
        let mut i: usize = 0;
        while i < playable.len()
            invariant
                self.wf(),
                player < 4,
                hand == &self.players[player as int],
                playable@.len() > 0 ==> hand@.len() > 0,
                *best == self.table@[self.winner_spec()],
                self.table@.len() > 0,
                i <= playable@.len(),
                r@ == beating(hand@, playable@.subrange(0, i as int), *best, self.trump),
            decreases playable@.len() - i,
        {
            proof {
                reveal_with_fuel(Seq::<_>::filter, 1);
                assert(playable@.subrange(0, i + 1).drop_last() =~= playable@.subrange(0, i as int));
            }
            let id = playable[i];
            if matches!(hand.card(id).winning(best, &self.trump), Ordering::Greater) {
                r.push(id);
            }
            i = i + 1;
        }
        assert(playable@.subrange(0, playable@.len() as int) =~= playable@);
        r
    }

    /// Of the cards `out_of`, the highest of `player` by the `higher`
    /// comparison with Hearts as trump.
    pub fn highest_card_of(&self, player: PlayerID, out_of: &[CardID]) -> (r: Option<CardID>)
        requires
            player < 4,
            out_of@.len() > 0 ==> self.hand(player as int).len() > 0,
        ensures
            out_of@.len() == 0 <==> r is None,
            r matches Some(id) ==> id == highest_of(self.hand(player as int), out_of@, Suit::Hearts) && out_of@.contains(id),
    {
        self.players[player].highest(out_of, &Suit::Hearts)
    }

    /// Of the cards `out_of`, the lowest of `player` by the `higher`
    /// comparison with Hearts as trump.
    pub fn lowest_card_of(&self, player: PlayerID, out_of: &[CardID]) -> (r: Option<CardID>)
        requires
            player < 4,
            out_of@.len() > 0 ==> self.hand(player as int).len() > 0,
        ensures
            out_of@.len() == 0 <==> r is None,
            r matches Some(id) ==> id == lowest_of(self.hand(player as int), out_of@, Suit::Hearts) && out_of@.contains(id),
    {
        self.players[player].lowest(out_of, &Suit::Hearts)
    }

    /// The cards `out_of` of `player` whose suit is at position `suit`.
    pub fn of_which_suit(&self, player: PlayerID, out_of: &[CardID], suit: usize) -> (r: Vec<CardID>)
        requires
            player < 4,
            out_of@.len() > 0 ==> self.hand(player as int).len() > 0,
        ensures
            r@ == of_suit_ids(self.hand(player as int), out_of@, suit as int),
    {
        let hand = &self.players[player];
        let mut r: Vec<CardID> = Vec::new();
        let mut i: usize = 0;
        while i < out_of.len()
            invariant
                player < 4,
                hand == &self.players[player as int],
                out_of@.len() > 0 ==> hand@.len() > 0,
                i <= out_of@.len(),
                r@ == of_suit_ids(hand@, out_of@.subrange(0, i as int), suit as int),
            decreases out_of@.len() - i,
        {
            proof {
                reveal_with_fuel(Seq::<_>::filter, 1);
                assert(out_of@.subrange(0, i + 1).drop_last() =~= out_of@.subrange(0, i as int));
            }
            let id = out_of[i];
            if hand.card(id).suit.index() == suit {
                r.push(id);
            }
            i = i + 1;
        }
        assert(out_of@.subrange(0, out_of@.len() as int) =~= out_of@);
        r
    }

    /// The lifetime score of the learning agent, seat 0.
    pub fn get_ai_score(&self) -> (r: u32)
        ensures
            r == self.score(0),
    {
        self.scores[0]
    }

    /// Can `player` follow the table: it is empty, or they hold the suit led.
    pub fn can_follow(&self, player: PlayerID) -> (r: bool)
        requires
            self.wf(),
            player < 4,
        ensures
            r == (self.table_cards().len() == 0 || count_suit(self.hand(player as int), self.table_cards()[0].suit) > 0),
    {
        if self.table.is_empty() {
            return true;
        }
        proof { lemma_card_at_in_range(self.table@, 0); }
        self.players[player].has_suit(&self.table.card(0).suit)
    }

    /// Is the player to move the first to play to this trick?
    pub fn first(&self) -> (r: bool)
        ensures
            r == (self.table_cards().len() == 0),
    {
        self.table.is_empty()
    }

    /// The indices of the cards the player to move may play, ascending.
    pub open spec fn allowed_spec(&self) -> Seq<usize> {
        indices(self.players[self.turn as int]@.len()).filter(|j: usize| self.legal(j as int))
    }

    /// The player to move holds a card of suit position `k`, and every card
    /// of that suit above their highest has been played.
    pub open spec fn highest_known(&self, k: int) -> bool {
        let m = max_suit_score(self.players[self.turn as int]@, Suit::at(k));
        &&& m > 0
        &&& forall|r: int| m < r <= 14 ==> #[trigger] self.gone_cards[k][r - 2]
    }

    /// The flags of `highest_known` for the four suits.
    pub open spec fn highest_flags(&self) -> [bool; 4] {
        [self.highest_known(0), self.highest_known(1), self.highest_known(2), self.highest_known(3)]
    }

    /// The player to move may still win the trick with one of their cards.
    pub open spec fn have_higher_spec(&self) -> bool {
        self.table@.len() == 0 || self.better_spec(self.turn as int, self.allowed_spec()).len() > 0
    }

    pub open spec fn can_follow_spec(&self) -> bool {
        self.table@.len() == 0 || count_suit(self.players[self.turn as int]@, self.table@[0].suit) > 0
    }

    pub open spec fn first_suit_spec(&self) -> int {
        if self.table@.len() == 0 {
            -1
        } else {
            self.table@[0].suit.index_of()
        }
    }

    pub open spec fn have_trump_spec(&self) -> bool {
        count_suit(self.players[self.turn as int]@, Suit::Hearts) > 0
    }

    /// The players that failed to follow each suit, packed two bits a suit.
    pub open spec fn packed_cant_follow(&self) -> int {
        self.nb_cant_follow[0] + 4 * self.nb_cant_follow[1] + 16 * self.nb_cant_follow[2] + 64 * self.nb_cant_follow[3]
    }

    /// Does the player to move hold the known highest card of suit position `k`?
    fn has_highest(&self, k: usize) -> (r: bool)
        requires
            self.wf(),
            k < 4,
        ensures
            r == self.highest_known(k as int),
    {
        let hand = &self.players[self.turn];
        let suit = Suit::from_index(k);
        let mut m: u32 = 0;
        let mut i: usize = 0;
        while i < hand.size()
            invariant
                self.wf(),
                hand == &self.players[self.turn as int],
                i <= hand@.len(),
                m == max_suit_score(hand@.subrange(0, i as int), suit),
                m <= 14,
            decreases hand@.len() - i,
        {
            proof {
                lemma_card_at_in_range(hand@, i);
                assert(hand@.subrange(0, i + 1).drop_last() =~= hand@.subrange(0, i as int));
                assert(hand@[i as int].wf());
            }
            let c = hand.card(i);
            if c.suit == suit && c.score() > m {
                m = c.score();
            }
            i = i + 1;
        }
        assert(hand@.subrange(0, hand@.len() as int) =~= hand@);
        if m == 0 {
            return false;
        }
        let row = self.gone_cards[k];
        let mut r: u32 = m + 1;
        while r <= 14
            invariant
                k < 4,
                1 <= m <= 14,
                m + 1 <= r <= 15,
                m == max_suit_score(self.players[self.turn as int]@, Suit::at(k as int)),
                row == self.gone_cards[k as int],
                forall|q: int| m < q < r ==> #[trigger] self.gone_cards[k as int][q - 2],
            decreases 15 - r,
        {
            if !row[(r - 2) as usize] {
                assert(!self.gone_cards[k as int][r - 2]);
                return false;
            }
            r = r + 1;
        }
        true
    }

    /// The observation of the player to move.
    pub open spec fn state_spec(&self) -> GameState {
        GameState {
            can_follow: self.can_follow_spec(),
            have_higher: self.have_higher_spec(),
            first_suit: self.first_suit_spec() as i8,
            has_highest: self.highest_flags(),
            have_trump: self.have_trump_spec(),
            nb_cards: 0,
            nb_out_of: self.packed_cant_follow() as u8,
        }
    }

    /// The observation of the player to move.
    pub fn state(&self) -> (r: GameState)
        requires
            self.wf(),
        ensures
            r == self.state_spec(),
            r.can_follow == self.can_follow_spec(),
            r.have_higher == self.have_higher_spec(),
            r.first_suit == self.first_suit_spec(),
            r.has_highest == self.highest_flags(),
            r.have_trump == self.have_trump_spec(),
            r.nb_cards == 0,
            r.nb_out_of == self.packed_cant_follow(),
    {
        let player = self.turn;
        let can_follow = self.can_follow(player);
        let mut first_suit: i8 = -1;
        let mut have_higher = true;
        let have_trump = self.players[player].has_suit(&Suit::Hearts);
        if !self.first() {
            proof { lemma_card_at_in_range(self.table@, 0); }
            first_suit = self.table.card(0).suit.index() as i8;
            let playable = self.alowed_cards();
            proof {
                if playable@.len() > 0 {
                    assert(self.legal(playable@[0] as int));
                }
            }
            let better = self.better_cards_of(player, playable.as_slice());
            have_higher = better.len() > 0;
        }
        let has_highest = [self.has_highest(0), self.has_highest(1), self.has_highest(2), self.has_highest(3)];
        let nb = self.nb_cant_follow;
        let nb_out_of: u8 = nb[0] + 4 * nb[1] + 16 * nb[2] + 64 * nb[3];
        GameState {
            can_follow,
            have_higher,
            first_suit,
            has_highest,
            have_trump,
            nb_cards: 0,
            nb_out_of,
        }
    }

    /// The actions open to the player to move, in the order they are listed.
    pub open spec fn actions_spec(&self) -> Seq<Action> {
        let first = self.table@.len() == 0;
        let cf = self.can_follow_spec();
        let h = self.highest_flags();
        let base = seq![
            Action::PlayWorst(Suit::Spades),
            Action::PlayWorst(Suit::Clubs),
            Action::PlayWorst(Suit::Diamonds),
            Action::PlayWorst(Suit::Hearts),
        ];
        let s1 = if first && (h[0] || h[1] || h[2] || h[3]) {
            base.push(Action::ComeBest)
        } else {
            base
        };
        let s2 = if self.have_trump_spec() && (first || !cf || self.first_suit_spec() == 3) {
            s1.push(Action::TrumpHigh).push(Action::TrumpLow)
        } else {
            s1
        };
        if cf && self.better_spec(self.turn as int, self.allowed_spec()).len() > 0 && !first {
            s2.push(Action::RaiseLow).push(Action::RaiseHigh)
        } else {
            s2
        }
    }

    /// The card id that an action stands for, for the player to move.
    pub open spec fn resolve_spec(&self, action: Action) -> usize {
        let hand = self.players[self.turn as int]@;
        let pl = self.allowed_spec();
        match action {
            Action::PlayWorst(s) => lowest_or_first(hand, or_all(of_suit_ids(hand, pl, s.index_of()), pl), pl),
            Action::RaiseLow => lowest_or_first(hand, self.better_spec(self.turn as int, pl), pl),
            Action::RaiseHigh => highest_or_first(hand, self.better_spec(self.turn as int, pl), pl),
            Action::TrumpHigh => highest_or_first(hand, of_suit_ids(hand, pl, 3), pl),
            Action::TrumpLow => lowest_or_first(hand, of_suit_ids(hand, pl, 3), pl),
            Action::PlayBest(s) => highest_or_first(hand, or_all(of_suit_ids(hand, pl, s.index_of()), pl), pl),
            Action::ComeBest => highest_or_first(hand, of_suit_ids(hand, pl, last_max(self.highest_flags())), pl),
        }
    }

    /// The actions open to the player to move: always the four `PlayWorst`;
    /// `ComeBest` when leading and holding a known highest card; the two
    /// trump actions when holding trump and leading, unable to follow, or
    /// when trump was led; the two raises when following with a card that
    /// beats the table.
    pub fn actions(&self) -> (r: Vec<Action>)
        requires
            self.wf(),
        ensures
            r@ == self.actions_spec(),
            r@.len() >= 4,
    {
        let player = self.turn;
        let playable = self.alowed_cards();
        proof {
            if playable@.len() > 0 {
                assert(self.legal(playable@[0] as int));
            }
        }
        let better = self.better_cards_of(player, playable.as_slice());
        let state = self.state();
        let first: bool = state.first_suit == -1;
        let can_follow: bool = self.can_follow(player);
        let mut alowed: Vec<Action> = Vec::new();
        let suits = Suit::iterator();
        let mut i: usize = 0;
        while i < 4
            invariant
                i <= 4,
                suits@ == seq![Suit::Spades, Suit::Clubs, Suit::Diamonds, Suit::Hearts],
                alowed@ == suits@.subrange(0, i as int).map_values(|s: Suit| Action::PlayWorst(s)),
            decreases 4 - i,
        {
            alowed.push(Action::PlayWorst(suits[i]));
            i = i + 1;
            assert(alowed@ =~= suits@.subrange(0, i as int).map_values(|s: Suit| Action::PlayWorst(s)));
        }
        assert(alowed@ =~= seq![
            Action::PlayWorst(Suit::Spades),
            Action::PlayWorst(Suit::Clubs),
            Action::PlayWorst(Suit::Diamonds),
            Action::PlayWorst(Suit::Hearts),
        ]);
        let h = state.has_highest;
        if first && (h[0] || h[1] || h[2] || h[3]) {
            alowed.push(Action::ComeBest);
        }
        if self.players[player].has_suit(&Suit::Hearts) && (first || !can_follow || state.first_suit == 3) {
            alowed.push(Action::TrumpHigh);
            alowed.push(Action::TrumpLow);
        }
        if can_follow && better.len() > 0 && !first {
            alowed.push(Action::RaiseLow);
            alowed.push(Action::RaiseHigh);
        }
        alowed
    }

    /// The card id that `action` stands for, for the player to move. Every
    /// action resolves to a card the player may play, falling back to the
    /// first such card where the action finds none.
    pub fn action_card_id(&self, action: &Action) -> (r: CardID)
        requires
            self.wf(),
            self.hand(self.seat()).len() > 0,
        ensures
            r == self.resolve_spec(*action),
            self.legal(r as int),
            self.allowed_spec().contains(r),
    {
        let player = self.turn;
        let playable = self.alowed_cards();
        proof {
            let hand = self.players[player as int]@;
            if self.must_follow() {
                let k = lemma_count_witness(hand, self.table@[0].suit);
                assert(self.legal(k));
            } else {
                assert(self.legal(0));
            }
            assert(playable@.len() > 0);
        }
        let first = playable[0];
        let r = match action {
            Action::PlayWorst(suit) => {
                let mut suit_cards = self.of_which_suit(player, playable.as_slice(), suit.index());
                if suit_cards.len() == 0 {
                    suit_cards = playable.clone();
                }
                match self.lowest_card_of(player, suit_cards.as_slice()) {
                    Some(id) => id,
                    None => first,
                }
            },
            Action::RaiseLow => {
                let better = self.better_cards_of(player, playable.as_slice());
                match self.lowest_card_of(player, better.as_slice()) {
                    Some(id) => id,
                    None => first,
                }
            },
            Action::RaiseHigh => {
                let better = self.better_cards_of(player, playable.as_slice());
                match self.highest_card_of(player, better.as_slice()) {
                    Some(id) => id,
                    None => first,
                }
            },
            Action::TrumpHigh => {
                let trumps = self.of_which_suit(player, playable.as_slice(), 3);
                match self.highest_card_of(player, trumps.as_slice()) {
                    Some(id) => id,
                    None => first,
                }
            },
            Action::TrumpLow => {
                let trumps = self.of_which_suit(player, playable.as_slice(), 3);
                match self.lowest_card_of(player, trumps.as_slice()) {
                    Some(id) => id,
                    None => first,
                }
            },
            Action::PlayBest(suit) => {
                let mut suit_cards = self.of_which_suit(player, playable.as_slice(), suit.index());
                if suit_cards.len() == 0 {
                    suit_cards = playable.clone();
                }
                match self.highest_card_of(player, suit_cards.as_slice()) {
                    Some(id) => id,
                    None => first,
                }
            },
            Action::ComeBest => {
                let h = [self.has_highest(0), self.has_highest(1), self.has_highest(2), self.has_highest(3)];
                let suit = match position_max_flags(&h) {
                    Some(i) => i,
                    None => 0,
                };
                proof {
                    assert(h == self.highest_flags());
                    assert(suit == last_max(h));
                }
                let suit_ids = self.of_which_suit(player, playable.as_slice(), suit);
                match self.highest_card_of(player, suit_ids.as_slice()) {
                    Some(id) => id,
                    None => first,
                }
            },
        };
        proof {
            let pl = playable@;
            let hand = self.players[player as int]@;
            let in_pl = |ids: Seq<usize>| forall|x: usize| ids.contains(x) ==> pl.contains(x);
            assert forall|x: usize| #[trigger] pl.contains(x) implies self.legal(x as int) by {
                let k = choose|k: int| 0 <= k < pl.len() && pl[k] == x;
                assert(self.legal(pl[k] as int));
            }
            assert forall|s: int, x: usize| #[trigger] of_suit_ids(hand, pl, s).contains(x) implies pl.contains(x) by {
                pl.lemma_filter_contains_rev(|id: usize| card_at(hand, id).suit.index_of() == s, x);
            }
            if self.table@.len() > 0 {
                let best = self.table@[self.winner_spec()];
                assert forall|x: usize| #[trigger] self.better_spec(player as int, pl).contains(x) implies pl.contains(x) by {
                    pl.lemma_filter_contains_rev(|id: usize| winning_spec(card_at(hand, id), best, self.trump) == Ordering::Greater, x);
                }
            }
        }
        r
    }

    /// The card the rule-based player picks: on an empty table the highest
    /// card; else the lowest card that beats the table, if any; else the
    /// lowest card.
    pub open spec fn easy_choice(&self) -> usize {
        let hand = self.players[self.turn as int]@;
        let pl = self.allowed_spec();
        let better = self.better_spec(self.turn as int, pl);
        if self.table@.len() == 0 {
            highest_or_first(hand, pl, pl)
        } else if better.len() > 0 {
            lowest_or_first(hand, better, better)
        } else {
            lowest_or_first(hand, pl, pl)
        }
    }

    /// The player to move may play and the table has room: playing the card
    /// at `card` of their hand is the next move.
    pub open spec fn played(&self, next: Game, card: int) -> bool {
        &&& next.wf()
        &&& self.legal(card)
        &&& next.hand(self.seat()) == self.hand(self.seat()).remove(card)
        &&& next.table_cards() == self.table_cards().push(self.hand(self.seat())[card])
        &&& next.seat() == (self.seat() + 1) % 4
        &&& forall|p: int| 0 <= p < 4 && p != self.seat() ==> #[trigger] next.hand(p) == self.hand(p)
        &&& next.trick_count() == self.trick_count()
        &&& next.leader() == self.leader()
        &&& next.gone() == self.gone()
        &&& forall|p: int| 0 <= p < 4 ==> #[trigger] next.round_score(p) == self.round_score(p)
        &&& next.scores == self.scores
        &&& next.tricks@ == self.tricks@
        &&& self.deal_consistent() ==> next.deal_consistent()
    }

    /// Seat `w` won the trick that took the game from `self` to `next`: it
    /// leads, it gained a point for this deal, and after the thirteenth
    /// trick the deal's points went into the lifetime scores (saturating).
    pub open spec fn round_result(&self, next: Game, w: int) -> bool {
        &&& 0 <= w < 4
        &&& next.leader() == w
        &&& self.trick_count() < 12 ==> {
            &&& forall|p: int| 0 <= p < 4 ==> #[trigger] next.round_score(p) == self.round_score(p) + if p == w { 1int } else { 0int }
            &&& next.scores == self.scores
        }
        &&& self.trick_count() == 12 ==> {
            &&& forall|p: int| 0 <= p < 4 ==> #[trigger] next.round_score(p) == 0
            &&& forall|p: int| 0 <= p < 4 ==> #[trigger] next.score(p) == {
                let total = self.score(p) + self.round_score(p) + if p == w { 1int } else { 0int };
                if total > u32::MAX { u32::MAX as int } else { total }
            }
        }
    }

    /// `c` is a card the policy `q` may pick for the player to move: the card
    /// of the action it proposes for the current observation, or of an open
    /// action where it proposes none.
    pub open spec fn policy_card<F: Fn(GameState) -> Option<Action>>(&self, q: F, c: int) -> bool {
        exists|o: Option<Action>| #[trigger] call_ensures(q, (self.state_spec(),), o) && match o {
            Some(a) => c == self.resolve_spec(a),
            None => exists|a: Action| self.actions_spec().contains(a) && c == self.resolve_spec(a),
        }
    }

    /// A move of the rule-based player.
    fn play_easy(&mut self)
        requires
            old(self).wf(),
            old(self).hand(old(self).seat()).len() > 0,
            old(self).table_cards().len() < 4,
        ensures
            old(self).played(*final(self), old(self).easy_choice() as int),
    {
        let player = self.turn;
        let playable = self.alowed_cards();
        proof {
            let hand = self.players[player as int]@;
            if self.must_follow() {
                let k = lemma_count_witness(hand, self.table@[0].suit);
                assert(self.legal(k));
            } else {
                assert(self.legal(0));
            }
            assert(playable@.len() > 0);
            assert forall|x: usize| #[trigger] playable@.contains(x) implies self.legal(x as int) by {
                let k = choose|k: int| 0 <= k < playable@.len() && playable@[k] == x;
                assert(self.legal(playable@[k] as int));
            }
        }
        let card = if self.table.is_empty() {
            match self.highest_card_of(player, playable.as_slice()) {
                Some(id) => id,
                None => playable[0],
            }
        } else {
            let better = self.better_cards_of(player, playable.as_slice());
            proof {
                let hand = self.players[player as int]@;
                let best = self.table@[self.winner_spec()];
                assert forall|x: usize| #[trigger] better@.contains(x) implies playable@.contains(x) by {
                    playable@.lemma_filter_contains_rev(|id: usize| winning_spec(card_at(hand, id), best, self.trump) == Ordering::Greater, x);
                }
            }
            if better.len() > 0 {
                match self.lowest_card_of(player, better.as_slice()) {
                    Some(id) => id,
                    None => better[0],
                }
            } else {
                match self.lowest_card_of(player, playable.as_slice()) {
                    Some(id) => id,
                    None => playable[0],
                }
            }
        };
        let _ = self.player_plays(card);
    }

    /// A move of the rule-based opponent.
    pub fn rulebased_plays(&mut self)
        requires
            old(self).wf(),
            old(self).hand(old(self).seat()).len() > 0,
            old(self).table_cards().len() < 4,
        ensures
            old(self).played(*final(self), old(self).easy_choice() as int),
    {
        self.play_easy();
    }

    /// A uniformly drawn action among those open to the player to move.
    pub fn random_action(&self) -> (r: Action)
        requires
            self.wf(),
        ensures
            self.actions_spec().contains(r),
    {
        let n = rand::random::<usize>();
        self.action_at(n)
    }

    /// The action that the number `n` draws among those open to the player
    /// to move: the one at position `n` modulo their number.
    pub fn action_at(&self, n: usize) -> (r: Action)
        requires
            self.wf(),
        ensures
            r == self.actions_spec()[(n as int) % (self.actions_spec().len() as int)],
            self.actions_spec().contains(r),
    {
        let actions = self.actions();
        let k = n % actions.len();
        proof { assert(actions@[k as int] == actions@[k as int]); }
        actions[k]
    }

    /// The card the policy `q` plays for the player to move: the card of the
    /// action it proposes for the current observation, or of a random open
    /// action where it proposes none.
    pub fn best_card_id_ai<F: Fn(GameState) -> Option<Action>>(&self, q: &F) -> (r: CardID)
        requires
            self.wf(),
            self.hand(self.seat()).len() > 0,
            forall|s: GameState| call_requires(*q, (s,)),
        ensures
            self.legal(r as int),
            self.policy_card(*q, r as int),
    {
        let proposed = q(self.state());
        let action = match proposed {
            Some(a) => a,
            None => self.random_action(),
        };
        self.action_card_id(&action)
    }

    /// A move of the opponent that follows the policy `q`.
    pub fn ai_plays<F: Fn(GameState) -> Option<Action>>(&mut self, q: &F)
        requires
            old(self).wf(),
            old(self).hand(old(self).seat()).len() > 0,
            old(self).table_cards().len() < 4,
            forall|s: GameState| call_requires(*q, (s,)),
        ensures
            exists|c: int| old(self).played(*final(self), c) && old(self).policy_card(*q, c),
    {
        let card = self.best_card_id_ai(q);
        let _ = self.player_plays(card);
        assert(old(self).played(*self, card as int));
    }

    /// A move of an opponent: by the policy `q` where there is one, else by
    /// the rules.
    fn opponent_plays<F: Fn(GameState) -> Option<Action>>(&mut self, q: &Option<F>)
        requires
            old(self).wf(),
            old(self).hand(old(self).seat()).len() > 0,
            old(self).table_cards().len() < 4,
            q matches Some(f) ==> forall|s: GameState| call_requires(f, (s,)),
        ensures
            exists|c: int| old(self).played(*final(self), c),
    {
        match q {
            Some(f) => self.ai_plays(f),
            None => self.rulebased_plays(),
        }
    }

    /// The learning agent, seat 0, plays the card at `card`; the opponents
    /// complete the trick, which is resolved (a new deal starts after the
    /// thirteenth), and play on until it is seat 0's turn again. Each loop
    /// makes at most one move per seat.
    pub fn agent_plays_round<F: Fn(GameState) -> Option<Action>>(&mut self, card: CardID, q: &Option<F>)
        requires
            old(self).wf(),
            old(self).deal_consistent(),
            old(self).seat() == 0,
            old(self).table_cards().len() < 4,
            old(self).legal(card as int),
            q matches Some(f) ==> forall|s: GameState| call_requires(f, (s,)),
        ensures
            final(self).wf(),
            final(self).deal_consistent(),
            final(self).seat() == 0,
            final(self).table_cards().len() < 4,
            final(self).trick_count() == if old(self).trick_count() == 12 { 0 } else { old(self).trick_count() + 1 },
            final(self).table_cards().len() == (4 - final(self).leader()) % 4,
            exists|w: int| old(self).round_result(*final(self), w),
            old(self).trick_count() < 12 ==> final(self).hand(0) == old(self).hand(0).remove(card as int),
            old(self).trick_count() == 12 ==> final(self).hand(0).len() == 13,
    {
        let ghost agent_at = (4 - self.last_winner) % 4;
        let _ = self.player_plays(card);
        let ghost after = self.players[0]@;
        assert(after == old(self).players[0]@.remove(card as int));
        while self.table.size() < 4
            invariant
                self.wf(),
                self.deal_consistent(),
                self.trick_count() == old(self).trick_count(),
                self.last_winner == old(self).last_winner,
                agent_at == (4 - self.last_winner) % 4,
                self.table@.len() > agent_at,
                self.players[0]@ == after,
                self.scores == old(self).scores,
                forall|p: int| 0 <= p < 4 ==> #[trigger] self.round_score(p) == old(self).round_score(p),
                q matches Some(f) ==> forall|s: GameState| call_requires(f, (s,)),
            decreases 4 - self.table@.len(),
        {
            proof {
                let n = self.table@.len() as int;
                assert((self.turn - self.last_winner + 4) % 4 == n);
                assert(self.turn != 0);
            }
            let ghost before = *self;
            self.opponent_plays(q);
            proof {
                let c = choose|c: int| before.played(*self, c);
                assert(self.hand(0) == before.hand(0));
            }
        }
        let ghost pre_trick = *self;
        let res = self.trick();
        assert(res is Ok);
        let ghost post_trick = *self;
        let ghost w = self.last_winner as int;
        proof {
            if old(self).trick_count() < 12 {
                assert(self.hand(0) == pre_trick.hand(0));
            }
            if old(self).trick_count() < 12 {
                assert forall|p: int| 0 <= p < 4 implies #[trigger] post_trick.round_score(p) == old(self).round_score(p) + if p == w { 1int } else { 0int } by {
                    assert(pre_trick.round_score(p) == old(self).round_score(p));
                }
            } else {
                assert forall|p: int| 0 <= p < 4 implies #[trigger] post_trick.score(p) == {
                    let total = old(self).score(p) + old(self).round_score(p) + if p == w { 1int } else { 0int };
                    if total > u32::MAX { u32::MAX as int } else { total }
                } by {
                    assert(pre_trick.round_score(p) == old(self).round_score(p));
                    assert(pre_trick.score(p) == old(self).score(p));
                }
            }
            assert(old(self).round_result(post_trick, w));
        }
        while self.turn != 0
            invariant
                self.wf(),
                self.deal_consistent(),
                self.turn == 0 || self.turn >= self.last_winner,
                self.turn != 0 ==> self.table@.len() == self.turn - self.last_winner,
                self.table@.len() < 4,
                self.last_winner == 0 ==> self.turn == 0 && self.table@.len() == 0,
                old(self).trick_count() < 12 ==> self.players[0]@ == old(self).players[0]@.remove(card as int),
                old(self).trick_count() == 12 ==> self.players[0]@.len() == 13 - self.tricks@.len(),
                self.trick_count() == if old(self).trick_count() == 12 { 0 } else { old(self).trick_count() + 1 },
                self.last_winner == w,
                self.scores == post_trick.scores,
                forall|p: int| 0 <= p < 4 ==> #[trigger] self.round_score(p) == post_trick.round_score(p),
                old(self).round_result(post_trick, w),
                q matches Some(f) ==> forall|s: GameState| call_requires(f, (s,)),
            decreases (4 - self.turn) % 4,
        {
            proof {
                let n = self.table@.len() as int;
                assert((self.turn - self.last_winner + 4) % 4 == n);
            }
            let ghost before = *self;
            self.opponent_plays(q);
            proof {
                let c = choose|c: int| before.played(*self, c);
                assert(self.hand(0) == before.hand(0));
            }
        }
        proof {
            if old(self).trick_count() < 12 {
                assert forall|p: int| 0 <= p < 4 implies #[trigger] self.round_score(p) == old(self).round_score(p) + if p == w { 1int } else { 0int } by {
                    assert(self.round_score(p) == post_trick.round_score(p));
                }
            } else {
                assert forall|p: int| 0 <= p < 4 implies #[trigger] self.round_score(p) == 0 by {
                    assert(self.round_score(p) == post_trick.round_score(p));
                }
                assert forall|p: int| 0 <= p < 4 implies #[trigger] self.score(p) == post_trick.score(p) by {}
            }
            assert(old(self).round_result(*self, w));
        }
    }

    /// The agent at seat 0 takes `action`, and the game moves on to seat 0's
    /// next turn.
    pub fn take_action<F: Fn(GameState) -> Option<Action>>(&mut self, action: &Action, q: &Option<F>)
        requires
            old(self).wf(),
            old(self).deal_consistent(),
            old(self).seat() == 0,
            old(self).table_cards().len() < 4,
            q matches Some(f) ==> forall|s: GameState| call_requires(f, (s,)),
        ensures
            final(self).wf(),
            final(self).deal_consistent(),
            final(self).seat() == 0,
            final(self).table_cards().len() < 4,
            final(self).trick_count() == if old(self).trick_count() == 12 { 0 } else { old(self).trick_count() + 1 },
            final(self).table_cards().len() == (4 - final(self).leader()) % 4,
            exists|w: int| old(self).round_result(*final(self), w),
            old(self).trick_count() < 12 ==> final(self).hand(0) == old(self).hand(0).remove(old(self).resolve_spec(*action) as int),
            old(self).trick_count() == 12 ==> final(self).hand(0).len() == 13,
    {
        proof {
            let n = self.table@.len() as int;
            assert((self.turn - self.last_winner + 4) % 4 == n);
        }
        let card_id = self.action_card_id(action);
        self.agent_plays_round(card_id, q);
    }

    /// Check a card a human picked: when they hold the suit led, the card
    /// must have it.
    pub fn alowed_or_why_not(&self, card: CardID) -> (r: Result<(), GameError>)
        requires
            self.wf(),
            self.hand(self.seat()).len() > 0,
        ensures
            r is Ok <==> (!self.must_follow() || card_at(self.hand(self.seat()), card).suit == self.table_cards()[0].suit),
            r is Err ==> r == Err::<(), GameError>(GameError::IllegalMove),
    {
        let player = &self.players[self.turn];
        if self.table.size() != 0 {
            proof { lemma_card_at_in_range(self.table@, 0); }
            let first_suit = self.table.card(0).suit;
            if player.has_suit(&first_suit) {
                if player.card(card).suit != first_suit {
                    return Err(GameError::IllegalMove);
                } else {
                    return Ok(());
                }
            }
        }
        Ok(())
    }

    /// The cards on the table, in the order they were played.
    pub fn table_deck(&self) -> (r: &Deck)
        ensures
            r@ == self.table_cards(),
    {
        &self.table
    }

    /// The number of tricks played in this deal.
    pub fn tricks_played(&self) -> (r: usize)
        ensures
            r == self.trick_count(),
    {
        self.tricks.len()
    }

    /// Has the card of suit position `suit` and score `score` been counted
    /// as gone?
    pub fn card_gone(&self, suit: usize, score: u32) -> (r: bool)
        requires
            suit < 4,
            2 <= score <= 14,
        ensures
            r == self.gone().contains((suit as int, score - 2)),
    {
        self.gone_cards[suit][(score - 2) as usize]
    }

    /// The tricks `player` won in this deal.
    pub fn deal_score(&self, player: PlayerID) -> (r: u32)
        requires
            player < 4,
        ensures
            r == self.round_score(player as int),
    {
        self.round_scores[player]
    }

    /// The seat that won the last trick and leads the current one.
    pub fn last_winner(&self) -> (r: PlayerID)
        ensures
            r == self.leader(),
    {
        self.last_winner
    }

    /// Did the learning agent, seat 0, win the last trick?
    pub fn won_last_trick(&self) -> (r: bool)
        ensures
            r == (self.leader() == 0),
    {
        self.last_winner == 0
    }
}

/// Filtering the indices of a sequence by a condition that holds of all of
/// them keeps them all.
proof fn lemma_filter_all_indices(n: nat, p: spec_fn(usize) -> bool)
    requires
        forall|i: int| 0 <= i < n ==> #[trigger] p(i as usize),
    ensures
        indices(n).filter(p) == indices(n),
    decreases n,
{
    reveal_with_fuel(Seq::<_>::filter, 1);
    if n > 0 {
        assert(indices(n).drop_last() =~= indices((n - 1) as nat));
        lemma_filter_all_indices((n - 1) as nat, p);
        assert(indices(n).last() == (n - 1) as usize);
        assert(indices((n - 1) as nat).push((n - 1) as usize) =~= indices(n));
    } else {
        assert(indices(n) =~= Seq::<usize>::empty());
    }
}

/// The player to move always has a card to play while their hand is not
/// empty; when they may play fewer than all their cards, every card they
/// may play has the suit that was led.
pub proof fn lemma_allowed_cards(g: Game)
    requires
        g.wf(),
    ensures
        g.hand(g.seat()).len() > 0 ==> g.allowed_spec().len() > 0,
        g.allowed_spec().len() < g.hand(g.seat()).len() ==> g.table_cards().len() > 0
            && forall|k: int| 0 <= k < g.allowed_spec().len()
                ==> #[trigger] g.hand(g.seat())[g.allowed_spec()[k] as int].suit == g.table_cards()[0].suit,
{
    let hand = g.hand(g.seat());
    let pred = |j: usize| g.legal(j as int);
    let pl = g.allowed_spec();
    if g.must_follow() {
        let k = lemma_count_witness(hand, g.table@[0].suit);
        assert(g.legal(k));
        assert(indices(hand.len())[k] == k as usize);
        indices(hand.len()).lemma_filter_contains(pred, k);
        assert forall|k: int| 0 <= k < pl.len() implies #[trigger] hand[pl[k] as int].suit == g.table_cards()[0].suit by {
            indices(hand.len()).lemma_filter_pred(pred, k);
        }
    } else {
        lemma_filter_all_indices(hand.len(), pred);
    }
}

/// On an empty table every playable card counts as beating it.
pub proof fn lemma_better_on_empty_table(g: Game, player: int, playable: Seq<usize>)
    requires
        g.table_cards().len() == 0,
    ensures
        g.better_spec(player, playable) == playable,
{
}

} // verus!
