//! Colour Whist (Kleurenwiezen): the cards, the trick engine, the compact
//! observation a learning agent sees, the abstract action space with its
//! resolver, and the schedule of the batched Q-learning trainer.

pub mod suit;
pub mod card;
pub mod deck;
pub mod gamestate;
pub mod player;
pub mod game;
pub mod fortify;
