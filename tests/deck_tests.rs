use whister::card::Card;
use whister::deck::{CardID, Deck};
use whister::suit::Suit;

fn init_deck() -> Deck {
    let mut deck = Deck::new_full();
    deck.sort();
    deck
}

#[test]
fn highest_one_suit() {
    let deck = init_deck();
    let available: &[CardID] = &[0, 1, 2, 3, 4, 5, 6, 7, 8, 9, 10, 11, 12];
    assert_eq!(deck.highest(available, &Suit::Hearts).unwrap(), 12);
}

#[test]
fn highest_mult_suits() {
    let deck = init_deck();
    let available: &[CardID] = &[0, 1, 2, 3, 4, 5, 6, 7, 8, 9, 10, 11, 12, 24];
    assert_eq!(deck.highest(available, &Suit::Hearts).unwrap(), 12);
}

#[test]
fn highest_trump() {
    let deck = init_deck();
    let available: &[CardID] = &[0, 1, 2, 3, 12, 37];
    assert_eq!(deck.highest(available, &Suit::Hearts).unwrap(), 12);
}

#[test]
fn lowest_one_suit() {
    let deck = init_deck();
    let available: &[CardID] = &[0, 1, 2, 3, 4, 5, 6, 7, 8, 9, 10, 11, 12];
    assert_eq!(deck.lowest(available, &Suit::Hearts).unwrap(), 0);
}

#[test]
fn lowest_mult_suits() {
    let deck = init_deck();
    let available: &[CardID] = &[0, 1, 2, 3, 4, 5, 6, 7, 8, 9, 10, 11, 12, 24];
    assert_eq!(deck.lowest(available, &Suit::Hearts).unwrap(), 0);
}

#[test]
fn lowest_trump() {
    let deck = init_deck();
    let available: &[CardID] = &[0, 1, 2, 3, 12, 37];
    assert_eq!(deck.lowest(available, &Suit::Hearts).unwrap(), 0);
}

#[test]
fn winning_one_suit() {
    let deck = init_deck();
    let available: &[CardID] = &[0, 1, 2, 3, 4, 5, 6, 7, 8, 9, 10, 11, 12];
    assert_eq!(deck.winning(available, &Suit::Hearts).unwrap(), 12);
}

#[test]
fn winning_mult_suits() {
    let deck = init_deck();
    let available: &[CardID] = &[0, 1, 2, 3, 4, 5, 6, 7, 8, 9, 10, 11, 12, 24];
    assert_eq!(deck.winning(available, &Suit::Hearts).unwrap(), 12);
}

#[test]
fn winning_trump() {
    let deck = init_deck();
    let available: &[CardID] = &[0, 1, 2, 3, 12, 39];
    assert_eq!(deck.winning(available, &Suit::Hearts).unwrap(), 39);
}

#[test]
fn suit_amounts_init() {
    let deck = init_deck();
    assert_eq!(deck.get_suit_amount(&Suit::Diamonds), 13);
}

#[test]
fn suit_amounts_pull() {
    let mut deck = init_deck();
    let pulled = deck.pull_cards(12);
    assert_eq!(deck.get_suit_amount(&Suit::Diamonds), 13 - pulled.get_suit_amount(&Suit::Diamonds));
    assert_eq!(deck.get_suit_amount(&Suit::Hearts), 13 - pulled.get_suit_amount(&Suit::Hearts));
    assert_eq!(deck.get_suit_amount(&Suit::Spades), 13 - pulled.get_suit_amount(&Suit::Spades));
    assert_eq!(deck.get_suit_amount(&Suit::Clubs), 13 - pulled.get_suit_amount(&Suit::Clubs));
}

#[test]
fn can_follow() {}

#[test]
fn new_full_order_and_size() {
    let deck = Deck::new_full();
    assert_eq!(deck.size(), 52);
    assert_eq!(deck.cards[0], Card { suit: Suit::Hearts, number: 1 });
    assert_eq!(deck.cards[13], Card { suit: Suit::Clubs, number: 1 });
    assert_eq!(deck.cards[51], Card { suit: Suit::Spades, number: 13 });
    for suit in Suit::iterator() {
        assert_eq!(deck.get_suit_amount(&suit), 13);
    }
}

#[test]
fn sort_orders_by_suit_then_score() {
    let deck = init_deck();
    assert_eq!(deck.cards[0], Card { suit: Suit::Spades, number: 2 });
    assert_eq!(deck.cards[12], Card { suit: Suit::Spades, number: 1 });
    assert_eq!(deck.cards[51], Card { suit: Suit::Hearts, number: 1 });
    assert_eq!(deck.size(), 52);
}

#[test]
fn shuffle_keeps_the_cards() {
    let mut deck = Deck::new_full();
    deck.shuffle();
    assert_eq!(deck.size(), 52);
    for suit in Suit::iterator() {
        assert_eq!(deck.get_suit_amount(&suit), 13);
    }
    deck.sort();
    assert_eq!(deck.cards, init_deck().cards);
}

#[test]
fn empty_deck_queries() {
    let deck = Deck::new_empty();
    assert!(deck.is_empty());
    assert_eq!(deck.size(), 0);
    assert_eq!(deck.lowest(&[], &Suit::Hearts), None);
    assert_eq!(deck.highest(&[], &Suit::Hearts), None);
    assert_eq!(deck.winning(&[], &Suit::Hearts), None);
    assert!(!deck.has_suit(&Suit::Spades));
}

#[test]
fn add_remove_keep_counts() {
    let mut deck = Deck::new_empty();
    deck.add(Card { suit: Suit::Clubs, number: 5 });
    deck.add(Card { suit: Suit::Hearts, number: 9 });
    deck.add(Card { suit: Suit::Clubs, number: 1 });
    assert_eq!(deck.get_suit_amount(&Suit::Clubs), 2);
    assert!(deck.has_suit(&Suit::Hearts));
    assert_eq!(deck.suit_of(1), Suit::Hearts);
    let removed = deck.remove(1);
    assert_eq!(removed, Card { suit: Suit::Hearts, number: 9 });
    assert!(!deck.has_suit(&Suit::Hearts));
    assert_eq!(deck.size(), 2);
    assert!(deck.contains(&Card { suit: Suit::Clubs, number: 1 }));
    assert_eq!(deck.id_of(&Card { suit: Suit::Clubs, number: 1 }), Some(1));
    assert_eq!(deck.id_of(&Card { suit: Suit::Hearts, number: 9 }), None);
    assert_eq!(deck.card(3), &Card { suit: Suit::Clubs, number: 1 });
}

#[test]
fn deck_of_suit_and_best_suit() {
    let cards = vec![
        Card { suit: Suit::Clubs, number: 1 },
        Card { suit: Suit::Spades, number: 13 },
        Card { suit: Suit::Clubs, number: 2 },
        Card { suit: Suit::Hearts, number: 12 },
    ];
    let deck = Deck::new_from(cards);
    let clubs = deck.get_deck_of_suit(&Suit::Clubs);
    assert_eq!(clubs.cards, vec![Card { suit: Suit::Clubs, number: 1 }, Card { suit: Suit::Clubs, number: 2 }]);
    assert_eq!(deck.best_suit_score(), (Suit::Clubs, 16));
}

#[test]
fn best_suit_score_prefers_last_of_equal() {
    let cards = vec![Card { suit: Suit::Spades, number: 5 }, Card { suit: Suit::Diamonds, number: 5 }];
    let deck = Deck::new_from(cards);
    assert_eq!(deck.best_suit_score(), (Suit::Diamonds, 5));
}

#[test]
fn lowest_keeps_first_of_equal_and_highest_last() {
    let cards = vec![
        Card { suit: Suit::Spades, number: 4 },
        Card { suit: Suit::Clubs, number: 4 },
        Card { suit: Suit::Hearts, number: 2 },
    ];
    let deck = Deck::new_from(cards);
    assert_eq!(deck.lowest(&[0, 1], &Suit::Hearts), Some(0));
    assert_eq!(deck.highest(&[0, 1], &Suit::Hearts), Some(1));
    assert_eq!(deck.highest(&[0, 1, 2], &Suit::Hearts), Some(2));
    assert_eq!(deck.lowest(&[2, 0, 1], &Suit::Hearts), Some(0));
}

#[test]
fn selection_cursor() {
    let mut deck = init_deck();
    deck.set_selected(5);
    assert_eq!(deck.selected_id(), 5);
    assert_eq!(deck.selected(), &deck.cards[5]);
    deck.remove(5);
    assert_eq!(deck.selected_id(), 4);
}

#[test]
fn cursor_moves_within_and_across_suits() {
    let mut deck = init_deck();
    deck.set_selected(0);
    deck.select_right();
    assert_eq!(deck.selected_id(), 1);
    deck.set_selected(0);
    deck.select_left();
    assert_eq!(deck.selected_id(), 12);
    deck.set_selected(0);
    deck.select_down();
    assert_eq!(deck.selected_id(), 13);
    deck.set_selected(0);
    deck.select_up();
    assert_eq!(deck.selected_id(), 39);
}

#[test]
fn cursor_skips_empty_suits() {
    let mut deck = Deck::new_from(vec![
        Card { suit: Suit::Hearts, number: 3 },
        Card { suit: Suit::Spades, number: 5 },
        Card { suit: Suit::Spades, number: 2 },
    ]);
    deck.sort();
    assert_eq!(deck.cards[2], Card { suit: Suit::Hearts, number: 3 });
    deck.set_selected(1);
    deck.select_down();
    assert_eq!(deck.selected_id(), 2);
    deck.select_up();
    assert_eq!(deck.selected_id(), 0);
    deck.select_right();
    assert_eq!(deck.selected_id(), 1);
    deck.select_right();
    assert_eq!(deck.selected_id(), 0);
}
