use std::cmp::Ordering;
use whister::card::Card;
use whister::suit::Suit;

#[test]
fn cmp_same_suit() {
    let ace_hearts = Card { suit: Suit::Hearts, number: 1 };
    let king_hearts = Card { suit: Suit::Hearts, number: 13 };
    assert!(ace_hearts > king_hearts);
}

#[test]
fn cmp_different_suit() {
    let ace_clubs = Card { suit: Suit::Clubs, number: 1 };
    let king_hearts = Card { suit: Suit::Hearts, number: 13 };
    assert!(ace_clubs < king_hearts);
}

#[test]
fn winning_same_suit() {
    let ace_hearts = Card { suit: Suit::Hearts, number: 1 };
    let king_hearts = Card { suit: Suit::Hearts, number: 13 };
    assert!(ace_hearts.winning(&king_hearts, &Suit::Hearts) == Ordering::Greater);
}

#[test]
fn winning_different_suit_none_trump() {
    let ace_hearts = Card { suit: Suit::Hearts, number: 1 };
    let ace_clubs = Card { suit: Suit::Clubs, number: 13 };
    assert!(ace_hearts.winning(&ace_clubs, &Suit::Spades) == Ordering::Greater);
}

#[test]
fn winning_different_suit_trump() {
    let ace_hearts = Card { suit: Suit::Hearts, number: 1 };
    let ace_clubs = Card { suit: Suit::Clubs, number: 13 };
    assert!(ace_hearts.winning(&ace_clubs, &Suit::Clubs) == Ordering::Less);
}

#[test]
fn ace_scores_fourteen_in_every_suit() {
    for suit in Suit::iterator() {
        assert_eq!(Card { suit, number: 1 }.score(), 14);
        assert_eq!(Card { suit, number: 13 }.score(), 13);
        assert_eq!(Card { suit, number: 2 }.score(), 2);
    }
}

#[test]
fn same_suit_winning_follows_score() {
    let ace = Card { suit: Suit::Spades, number: 1 };
    let king = Card { suit: Suit::Spades, number: 13 };
    let two = Card { suit: Suit::Spades, number: 2 };
    assert_eq!(king.winning(&ace, &Suit::Hearts), Ordering::Less);
    assert_eq!(ace.winning(&king, &Suit::Hearts), Ordering::Greater);
    assert_eq!(two.winning(&two, &Suit::Hearts), Ordering::Equal);
}

#[test]
fn first_played_dominates_between_non_trumps() {
    let two_spades = Card { suit: Suit::Spades, number: 2 };
    let ace_clubs = Card { suit: Suit::Clubs, number: 1 };
    assert_eq!(two_spades.winning(&ace_clubs, &Suit::Hearts), Ordering::Greater);
    assert_eq!(ace_clubs.winning(&two_spades, &Suit::Hearts), Ordering::Greater);
}

#[test]
fn trump_beats_any_non_trump() {
    let two_hearts = Card { suit: Suit::Hearts, number: 2 };
    let ace_clubs = Card { suit: Suit::Clubs, number: 1 };
    assert_eq!(two_hearts.winning(&ace_clubs, &Suit::Hearts), Ordering::Greater);
    assert_eq!(ace_clubs.winning(&two_hearts, &Suit::Hearts), Ordering::Less);
}

#[test]
fn higher_compares_scores_across_non_trumps() {
    let seven_spades = Card { suit: Suit::Spades, number: 7 };
    let ace_clubs = Card { suit: Suit::Clubs, number: 1 };
    assert_eq!(seven_spades.winning(&ace_clubs, &Suit::Hearts), Ordering::Greater);
    assert_eq!(seven_spades.higher(&ace_clubs, &Suit::Hearts), Ordering::Less);
}

#[test]
fn default_card_is_ace_of_hearts() {
    assert_eq!(Card::default(), Card { suit: Suit::Hearts, number: 1 });
}

#[test]
fn suit_iterator_in_order() {
    assert_eq!(Suit::iterator(), vec![Suit::Spades, Suit::Clubs, Suit::Diamonds, Suit::Hearts]);
    assert_eq!(Suit::Diamonds.index(), 2);
    assert_eq!(Suit::from_index(3), Suit::Hearts);
}
