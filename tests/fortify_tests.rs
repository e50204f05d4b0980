use std::collections::HashMap;
use whister::fortify::{iterations_for, producer_count, producers, Schedule};
use whister::game::Game;
use whister::gamestate::{Action, GameState};

#[test]
fn producers_leave_one_cpu_to_the_consumer() {
    assert_eq!(producer_count(0), 1);
    assert_eq!(producer_count(1), 1);
    assert_eq!(producer_count(2), 1);
    assert_eq!(producer_count(8), 7);
    assert!(producers() >= 1);
}

#[test]
fn iteration_target_is_at_least_one_batch() {
    assert_eq!(iterations_for(1000, 500), 1000);
    assert_eq!(iterations_for(100, 500), 500);
    assert_eq!(iterations_for(500, 500), 500);
}

#[test]
fn schedule_flushes_full_batches_and_stops_at_target() {
    let mut schedule = Schedule::new(3, 500, 1000);
    assert!(!schedule.batch_ready(1499));
    assert!(schedule.batch_ready(1500));
    assert!(!schedule.finished());
    let mut applied = 0;
    loop {
        applied += 1;
        if schedule.record_update() {
            break;
        }
    }
    assert_eq!(applied, 1000);
    assert_eq!(schedule.current_iter(), 1000);
    assert!(schedule.finished());
}

#[test]
fn training_run_terminates_within_its_target() {
    let producers = 2;
    let batch = 25;
    let iterations = 1000;
    let mut schedule = Schedule::new(producers, batch, iterations);
    let mut games = vec![Game::new(), Game::new()];
    let mut q: HashMap<GameState, HashMap<Action, f64>> = HashMap::new();
    let mut queue: Vec<(GameState, Action, f64)> = Vec::new();
    let mut visited: Vec<GameState> = Vec::new();
    let rate = 0.05;
    let mut updates = 0u64;
    'outer: for step in 0..100000 {
        let game = &mut games[step % producers];
        let state = game.state();
        visited.push(state);
        let action = game.random_action();
        game.take_action(&action, &None::<fn(GameState) -> Option<Action>>);
        let reward = if game.won_last_trick() { 1.0 } else { 0.0 };
        queue.push((state, action, reward));
        if schedule.batch_ready(queue.len()) {
            while let Some((s, a, target)) = queue.pop() {
                let old = *q.get(&s).and_then(|m| m.get(&a)).unwrap_or(&0.8);
                q.entry(s).or_insert_with(HashMap::new).insert(a, old + rate * (target - old));
                updates += 1;
                if schedule.record_update() {
                    break 'outer;
                }
            }
        }
    }
    assert!(schedule.finished());
    assert_eq!(updates, iterations);
    assert!(q.len() as u64 <= iterations);
    assert!(q.keys().all(|s| visited.contains(s)));
}
