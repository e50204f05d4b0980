use std::cmp::Ordering;
use whister::card::Card;
use whister::game::{Game, GameError};
use whister::gamestate::{Action, GameState};
use whister::player::Player;
use whister::suit::Suit;

fn init_game() -> Game {
    Game::new()
}

fn no_policy() -> Option<fn(GameState) -> Option<Action>> {
    None
}

#[test]
fn trick_no_cards_err() {
    let mut game = init_game();
    let result = game.trick();
    assert!(result.is_err(), "No error when tricking with no cards.");
}

#[test]
fn player_plays_alowed_no_err() {
    let mut game = init_game();
    let result = game.player_plays(0);
    assert!(result.is_ok());
}

#[test]
fn player_plays_not_alowed_err() {
    let mut game = init_game();
    game.player_plays(0).expect("testing player should be alowed to play selected card");
    let alowed = game.alowed_cards();
    let mut card_id = 0;
    let not_alowed = loop {
        if !alowed.contains(&card_id) {
            break card_id;
        }
        card_id += 1;
    };
    let result = game.player_plays(not_alowed);
    assert!(result.is_err());
}

#[test]
fn trick_four_cards_no_err() {
    let mut game = init_game();
    game.player_plays(0).expect("testing player should be alowed to play selected card");
    for _ in 1..4 {
        let alowed = game.alowed_cards();
        game.player_plays(alowed[0]).expect("testing player should be alowed to play selected card");
    }
    let result = game.trick();
    assert!(result.is_ok(), "Error when tricking with four cards.");
}

#[test]
fn winner_same_suit() {
    let mut game = init_game();
    game.play(Card { suit: Suit::Clubs, number: 2 }).expect("test player should be alowed to play");
    game.play(Card { suit: Suit::Clubs, number: 3 }).expect("test player should be alowed to play");
    game.play(Card { suit: Suit::Clubs, number: 4 }).expect("test player should be alowed to play");
    game.play(Card { suit: Suit::Clubs, number: 1 }).expect("test player should be alowed to play");
    let winner = game.winner();
    assert_eq!(winner, 3)
}

#[test]
fn winner_different_suits() {
    let mut game = init_game();
    game.play(Card { suit: Suit::Clubs, number: 5 }).expect("test player should be alowed to play");
    game.play(Card { suit: Suit::Spades, number: 3 }).expect("test player should be alowed to play");
    game.play(Card { suit: Suit::Diamonds, number: 4 }).expect("test player should be alowed to play");
    game.play(Card { suit: Suit::Clubs, number: 2 }).expect("test player should be alowed to play");
    let winner = game.winner();
    assert_eq!(winner, 0)
}

#[test]
fn winner_trumped_once() {
    let mut game = init_game();
    game.play(Card { suit: Suit::Clubs, number: 5 }).expect("test player should be alowed to play");
    game.play(Card { suit: Suit::Spades, number: 3 }).expect("test player should be alowed to play");
    game.play(Card { suit: Suit::Hearts, number: 2 }).expect("test player should be alowed to play");
    game.play(Card { suit: Suit::Diamonds, number: 4 }).expect("test player should be alowed to play");
    let winner = game.winner();
    assert_eq!(winner, 2)
}

#[test]
fn winner_trumped_twice() {
    let mut game = init_game();
    game.play(Card { suit: Suit::Clubs, number: 5 }).expect("test player should be alowed to play");
    game.play(Card { suit: Suit::Spades, number: 3 }).expect("test player should be alowed to play");
    game.play(Card { suit: Suit::Hearts, number: 2 }).expect("test player should be alowed to play");
    game.play(Card { suit: Suit::Hearts, number: 4 }).expect("test player should be alowed to play");
    let winner = game.winner();
    assert_eq!(winner, 3)
}

#[test]
fn alowed_cards() {
    let mut game = init_game();
    game.play(Card { suit: Suit::Clubs, number: 3 }).expect("tet player should be alowed to play any first card");
    if game.players[game.turn].can_follow(Suit::Clubs) {
        assert!(game
            .alowed_cards()
            .iter()
            .all(|card_id| game.players[game.turn].card(*card_id).suit == Suit::Clubs));
    }
}

#[test]
fn better_cards() {
    let mut game = init_game();
    let first_card = Card { suit: Suit::Clubs, number: 5 };
    game.play(first_card.clone()).expect("tet player should be alowed to play any first card");
    for plyr in 1..4 {
        let playable = &game.alowed_cards();
        assert!(game
            .better_cards_of(plyr, playable)
            .iter()
            .all(|card_id| game.players[plyr].card(*card_id).winning(&first_card, &game.trump) == Ordering::Greater));
    }
}

#[test]
fn fresh_game_then_one_trick() {
    let mut game = init_game();
    for p in 0..4 {
        assert_eq!(game.players[p].size(), 13);
    }
    assert_eq!(game.table_deck().size(), 0);
    assert_eq!(game.tricks_played(), 0);
    for s in 0..4 {
        for score in 2..15 {
            assert!(!game.card_gone(s, score));
        }
    }
    for _ in 0..4 {
        let alowed = game.alowed_cards();
        game.player_plays(alowed[0]).expect("a legal card");
    }
    assert_eq!(game.table_deck().size(), 4);
    let table: Vec<Card> = game.table_deck().cards.clone();
    let winner = (game.winner() + game.last_winner()) % 4;
    game.trick().expect("four cards on the table");
    for p in 0..4 {
        assert_eq!(game.players[p].size(), 12);
    }
    assert_eq!(game.tricks_played(), 1);
    assert_eq!(game.table_deck().size(), 0);
    assert_eq!(game.turn, winner);
    for p in 0..4 {
        assert_eq!(game.deal_score(p), if p == winner { 1 } else { 0 });
    }
    let mut set = 0;
    for s in 0..4 {
        for score in 2..15 {
            if game.card_gone(s, score) {
                set += 1;
            }
        }
    }
    assert_eq!(set, 4);
    for c in table {
        assert!(game.card_gone(c.suit.index(), c.score()));
    }
}

#[test]
fn trick_with_three_cards_is_incomplete() {
    let mut game = init_game();
    for _ in 0..3 {
        let alowed = game.alowed_cards();
        game.player_plays(alowed[0]).expect("a legal card");
    }
    assert_eq!(game.trick(), Err(GameError::IncompleteTrick));
    assert_eq!(game.table_deck().size(), 3);
}

#[test]
fn fifth_card_is_refused() {
    let mut game = init_game();
    for _ in 0..4 {
        game.play(Card { suit: Suit::Spades, number: 2 }).expect("room on the table");
    }
    assert_eq!(game.play(Card { suit: Suit::Spades, number: 3 }), Err(GameError::TableFull));
    assert_eq!(game.player_plays(0), Err(GameError::TableFull));
    assert_eq!(game.players[0].size(), 13);
}

#[test]
fn out_of_range_card_is_illegal() {
    let mut game = init_game();
    assert_eq!(game.player_plays(13), Err(GameError::IllegalMove));
    assert_eq!(game.players[0].size(), 13);
}

#[test]
fn allowed_cards_never_empty_and_follow_suit() {
    let mut game = init_game();
    for _ in 0..40 {
        let alowed = game.alowed_cards();
        let hand = &game.players[game.turn];
        assert!(!alowed.is_empty());
        if alowed.len() < hand.size() {
            let lead = game.table_deck().cards[0].suit;
            assert!(alowed.iter().all(|i| hand.cards[*i].suit == lead));
        }
        game.player_plays(alowed[alowed.len() - 1]).expect("a legal card");
        if game.table_deck().size() == 4 {
            game.trick().expect("four cards");
        }
    }
}

#[test]
fn better_cards_on_empty_table_is_identity() {
    let game = init_game();
    let playable = vec![3, 1, 7];
    assert_eq!(game.better_cards_of(2, &playable), playable);
}

#[test]
fn resolver_always_returns_a_legal_card() {
    let mut game = init_game();
    let actions = [
        Action::PlayWorst(Suit::Spades),
        Action::PlayWorst(Suit::Clubs),
        Action::PlayWorst(Suit::Diamonds),
        Action::PlayWorst(Suit::Hearts),
        Action::RaiseLow,
        Action::RaiseHigh,
        Action::TrumpHigh,
        Action::TrumpLow,
        Action::PlayBest(Suit::Spades),
        Action::PlayBest(Suit::Hearts),
        Action::ComeBest,
    ];
    for round in 0..30 {
        let alowed = game.alowed_cards();
        for a in actions.iter() {
            let id = game.action_card_id(a);
            assert!(alowed.contains(&id));
        }
        let a = actions[round % actions.len()];
        let id = game.action_card_id(&a);
        game.player_plays(id).expect("a legal card");
        if game.table_deck().size() == 4 {
            game.trick().expect("four cards");
        }
    }
}

#[test]
fn play_worst_falls_back_to_lowest_legal_card() {
    let mut game = init_game();
    game.play(Card { suit: Suit::Clubs, number: 5 }).expect("room");
    let seat = game.turn;
    let alowed = game.alowed_cards();
    let id = game.action_card_id(&Action::PlayWorst(Suit::Spades));
    let lowest = game.lowest_card_of(seat, &game.of_which_suit(seat, &alowed, 0)).unwrap_or_else(|| {
        game.lowest_card_of(seat, &alowed).unwrap()
    });
    assert_eq!(id, lowest);
}

#[test]
fn actions_always_list_play_worst_first() {
    let game = init_game();
    let actions = game.actions();
    assert!(actions.len() >= 4);
    assert_eq!(actions[0], Action::PlayWorst(Suit::Spades));
    assert_eq!(actions[3], Action::PlayWorst(Suit::Hearts));
    assert!(!actions.contains(&Action::RaiseLow));
    let a = game.random_action();
    assert!(actions.contains(&a));
}

#[test]
fn fresh_state_observation() {
    let game = init_game();
    let state = game.state();
    assert!(state.can_follow);
    assert!(state.have_higher);
    assert_eq!(state.first_suit, -1);
    assert_eq!(state.nb_cards, 0);
    assert_eq!(state.nb_out_of, 0);
    let hand = &game.players[0];
    for s in 0..4 {
        let suit = Suit::from_index(s);
        let holds_ace = hand.cards.iter().any(|c| c.suit == suit && c.number == 1);
        assert_eq!(state.has_highest[s], holds_ace);
    }
    assert_eq!(state.have_trump, hand.has_suit(&Suit::Hearts));
}

#[test]
fn agent_rounds_keep_the_deal_in_order() {
    let mut game = init_game();
    for i in 0..30 {
        let action = game.random_action();
        let before = game.tricks_played();
        game.take_action(&action, &no_policy());
        assert_eq!(game.turn, 0);
        assert_eq!(game.tricks_played(), if before == 12 { 0 } else { before + 1 });
        assert_eq!(game.players[0].size(), 13 - game.tricks_played());
        let _ = i;
    }
}

#[test]
fn agent_rounds_with_a_policy() {
    let mut game = init_game();
    let policy = |s: GameState| if s.have_trump { Some(Action::TrumpLow) } else { None };
    for _ in 0..20 {
        let card = game.best_card_id_ai(&policy);
        assert!(game.alowed_cards().contains(&card));
        game.agent_plays_round(card, &Some(policy));
        assert_eq!(game.turn, 0);
    }
}

#[test]
fn human_players_are_capped() {
    let mut game = init_game();
    assert_eq!(game.add_human_players(1), Ok(1));
    assert_eq!(game.add_human_players(3), Ok(4));
    assert_eq!(game.add_human_players(1), Err(GameError::IllegalMove));
}

#[test]
fn new_deal_adds_deal_scores() {
    let mut game = init_game();
    for _ in 0..4 {
        let alowed = game.alowed_cards();
        game.player_plays(alowed[0]).expect("a legal card");
    }
    game.trick().expect("four cards");
    let winner = game.turn;
    game.new_deal();
    assert_eq!(game.tricks_played(), 0);
    for p in 0..4 {
        assert_eq!(game.deal_score(p), 0);
        assert_eq!(game.players[p].size(), 13);
    }
    assert_eq!(game.get_ai_score(), if winner == 0 { 1 } else { 0 });
}

#[test]
fn action_at_wraps_round_the_list() {
    let game = init_game();
    let actions = game.actions();
    for n in 0..20 {
        assert_eq!(game.action_at(n), actions[n % actions.len()]);
    }
    assert_eq!(game.action_at(usize::MAX), actions[usize::MAX % actions.len()]);
}

#[test]
fn fresh_hands_are_the_full_deck() {
    let game = init_game();
    let mut all: Vec<Card> = Vec::new();
    for p in 0..4 {
        assert_eq!(game.players[p].size(), 13);
        all.extend(game.players[p].cards.iter().cloned());
    }
    let mut dealt = whister::deck::Deck::new_from(all);
    dealt.sort();
    let mut full = whister::deck::Deck::new_full();
    full.sort();
    assert_eq!(dealt.cards, full.cards);
    assert_eq!(full.selected_id(), usize::MAX);
}
