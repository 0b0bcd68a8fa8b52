use elevator_sim::control::ControlSystem;
use elevator_sim::dispatch::{choose_elevator, gap, score_of};
use elevator_sim::elevator::Elevator;
use elevator_sim::passenger::Passenger;
use elevator_sim::state::{CabinState, Direction};

fn stops(e: &Elevator) -> Vec<i32> {
    e.destinations().iter().copied().collect()
}

/// An elevator that is on its way from `from` to a passenger at `to`.
fn moving(from: i32, to: i32, floor_count: i32) -> Elevator {
    let mut e = Elevator::new(from, floor_count, 2);
    let mut waiting = vec![Passenger::new(900, to, from)];
    e.add_destination(to);
    e.step(&mut waiting);
    assert_eq!(e.cabin_state(), CabinState::Moving(from, to));
    e
}

/// An elevator that stands at `floor`, full with one passenger.
fn full_at(floor: i32, floor_count: i32) -> Elevator {
    let mut e = Elevator::new(floor, floor_count, 1);
    let destination = if floor == 0 { 1 } else { 0 };
    let mut waiting = vec![Passenger::new(901, floor, destination)];
    e.add_destination(floor);
    for _ in 0..3 {
        e.step(&mut waiting);
    }
    assert!(e.is_full());
    e
}

#[test]
fn gap_is_the_distance_between_floors() {
    assert_eq!(gap(1, 4), 3);
    assert_eq!(gap(4, 1), 3);
    assert_eq!(gap(2, 2), 0);
    assert_eq!(gap(i32::MIN, i32::MAX), 4294967295);
}

#[test]
fn standing_elevator_scores_its_distance() {
    let e = Elevator::new(1, 6, 2);
    assert_eq!(score_of(&e, 4, Direction::Up), Some(3));
    assert_eq!(score_of(&e, 0, Direction::Up), Some(1));
    assert_eq!(score_of(&e, 1, Direction::Down), Some(0));
}

#[test]
fn moving_elevator_scores_zero_on_the_way_only() {
    let up = moving(1, 4, 6);
    assert_eq!(score_of(&up, 1, Direction::Up), Some(0));
    assert_eq!(score_of(&up, 3, Direction::Up), Some(0));
    assert_eq!(score_of(&up, 4, Direction::Up), Some(0));
    assert_eq!(score_of(&up, 5, Direction::Up), None);
    assert_eq!(score_of(&up, 0, Direction::Up), None);
    assert_eq!(score_of(&up, 3, Direction::Down), None);
    let down = moving(4, 1, 6);
    assert_eq!(score_of(&down, 4, Direction::Down), Some(0));
    assert_eq!(score_of(&down, 2, Direction::Down), Some(0));
    assert_eq!(score_of(&down, 1, Direction::Down), Some(0));
    assert_eq!(score_of(&down, 0, Direction::Down), None);
    assert_eq!(score_of(&down, 5, Direction::Down), None);
    assert_eq!(score_of(&down, 2, Direction::Up), None);
}

#[test]
fn full_elevator_has_no_score() {
    let e = full_at(2, 4);
    assert_eq!(score_of(&e, 2, Direction::Up), None);
    assert_eq!(score_of(&e, 0, Direction::Up), None);
}

#[test]
fn nearest_elevator_is_chosen() {
    let bank = vec![Elevator::new(0, 6, 2), Elevator::new(5, 6, 2), Elevator::new(3, 6, 2)];
    assert_eq!(choose_elevator(&bank, 4, Direction::Down), Some(1));
    assert_eq!(choose_elevator(&bank, 2, Direction::Up), Some(2));
    assert_eq!(choose_elevator(&bank, 1, Direction::Up), Some(0));
}

#[test]
fn dispatch_tie_goes_to_the_first_elevator() {
    let bank = vec![Elevator::new(1, 4, 2), Elevator::new(3, 4, 2)];
    assert_eq!(choose_elevator(&bank, 2, Direction::Up), Some(0));
    assert_eq!(choose_elevator(&bank, 2, Direction::Down), Some(0));
    let mirrored = vec![Elevator::new(3, 4, 2), Elevator::new(1, 4, 2)];
    assert_eq!(choose_elevator(&mirrored, 2, Direction::Up), Some(0));
}

#[test]
fn dispatch_tie_in_a_simulation_queues_the_floor_at_the_first_elevator() {
    let mut s = ControlSystem::with_starting_floors(4, 2, &vec![1, 3]);
    s.add_passenger(2, 0);
    s.assign_passengers_to_elevators();
    assert_eq!(stops(&s.elevators()[0]), vec![2]);
    assert!(s.elevators()[1].destinations().is_empty());
    assert_eq!(s.passengers().len(), 1);
}

#[test]
fn moving_elevator_on_the_way_beats_a_standing_one() {
    let bank = vec![Elevator::new(3, 6, 2), moving(0, 5, 6)];
    assert_eq!(choose_elevator(&bank, 4, Direction::Up), Some(1));
    // against the traffic the standing one is taken
    assert_eq!(choose_elevator(&bank, 4, Direction::Down), Some(0));
}

#[test]
fn elevator_at_the_floor_ties_with_one_passing_and_the_first_wins() {
    let bank = vec![moving(0, 5, 6), Elevator::new(2, 6, 2)];
    assert_eq!(choose_elevator(&bank, 2, Direction::Up), Some(0));
    let swapped = vec![Elevator::new(2, 6, 2), moving(0, 5, 6)];
    assert_eq!(choose_elevator(&swapped, 2, Direction::Up), Some(0));
}

#[test]
fn nobody_is_chosen_when_every_elevator_is_ruled_out() {
    let bank = vec![full_at(0, 4), moving(3, 0, 4)];
    assert_eq!(choose_elevator(&bank, 2, Direction::Up), None);
    assert_eq!(choose_elevator(&Vec::new(), 2, Direction::Up), None);
}

#[test]
fn full_elevator_is_passed_over_for_a_farther_one() {
    let bank = vec![full_at(2, 4), Elevator::new(0, 4, 2)];
    assert_eq!(choose_elevator(&bank, 2, Direction::Up), Some(1));
}

#[test]
fn dispatch_queues_every_waiting_floor_once() {
    let mut s = ControlSystem::with_starting_floors(6, 2, &vec![0, 5]);
    s.add_passenger(1, 4);
    s.add_passenger(4, 0);
    s.add_passenger(1, 5);
    s.add_passenger(2, 3);
    s.assign_passengers_to_elevators();
    assert_eq!(stops(&s.elevators()[0]), vec![1, 2]);
    assert_eq!(stops(&s.elevators()[1]), vec![4]);
    s.assign_passengers_to_elevators();
    assert_eq!(stops(&s.elevators()[0]), vec![1, 2]);
    assert_eq!(stops(&s.elevators()[1]), vec![4]);
}

#[test]
fn passenger_without_an_elevator_keeps_waiting() {
    let mut s = ControlSystem::new(4, 0, 2);
    s.add_passenger(1, 3);
    s.step_with(None);
    s.step_with(None);
    assert_eq!(s.passengers().len(), 1);
    assert_eq!(s.passengers()[0].id, 0);
}
