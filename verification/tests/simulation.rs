use elevator_sim::control::{destination_for, ControlSystem};
use elevator_sim::state::{CabinState, DoorState, PassengerState};
use rand::rngs::StdRng;
use rand::SeedableRng;

fn stops(s: &ControlSystem, i: usize) -> Vec<i32> {
    s.elevators()[i].destinations().iter().copied().collect()
}

fn aboard(s: &ControlSystem, i: usize) -> Vec<usize> {
    s.elevators()[i].passengers().iter().map(|p| p.id).collect()
}

fn in_system(s: &ControlSystem) -> usize {
    s.passengers().len() + s.elevators().iter().map(|e| e.passengers().len()).sum::<usize>()
}

/// What holds of a simulation after every tick.
fn check(s: &ControlSystem) {
    let n = s.floor_count();
    let mut seen = Vec::new();
    for p in s.passengers() {
        assert!(matches!(p.state, PassengerState::Idle(f) if f == p.origin));
        assert!((0..n).contains(&p.origin) && (0..n).contains(&p.destination));
        assert!(p.origin != p.destination);
        assert!(p.id < s.passenger_counter());
        assert!(!seen.contains(&p.id));
        seen.push(p.id);
    }
    for e in s.elevators() {
        assert!(e.passengers().len() <= e.capacity());
        let q: Vec<i32> = e.destinations().iter().copied().collect();
        for (i, stop) in q.iter().enumerate() {
            assert!((0..n).contains(stop));
            assert!(!q[i + 1..].contains(stop));
        }
        match e.cabin_state() {
            CabinState::Standing(f) => {
                assert!((0..n).contains(&f));
                assert_eq!(e.door_state(), DoorState::Closed);
            }
            CabinState::Moving(from, to) => {
                assert!((0..n).contains(&from) && (0..n).contains(&to) && from != to);
                assert_eq!(e.door_state(), DoorState::Closed);
            }
            CabinState::Holding(f) => assert!((0..n).contains(&f)),
        }
        for p in e.passengers() {
            assert_eq!(p.state, PassengerState::InCabin);
            assert!(q.contains(&p.destination));
            assert!(p.id < s.passenger_counter());
            assert!(!seen.contains(&p.id));
            seen.push(p.id);
        }
    }
}

#[test]
fn new_simulation_is_empty_with_elevators_on_the_ground_floor() {
    let s = ControlSystem::new(4, 3, 2);
    assert_eq!(s.floor_count(), 4);
    assert_eq!(s.passenger_counter(), 0);
    assert!(s.passengers().is_empty());
    assert_eq!(s.elevators().len(), 3);
    for e in s.elevators() {
        assert_eq!(e.cabin_state(), CabinState::Standing(0));
        assert_eq!(e.door_state(), DoorState::Closed);
        assert_eq!(e.capacity(), 2);
        assert_eq!(e.floor_count(), 4);
        assert!(e.passengers().is_empty());
        assert!(e.destinations().is_empty());
    }
}

#[test]
fn with_starting_floors_places_each_elevator() {
    let s = ControlSystem::with_starting_floors(5, 1, &vec![4, 0, 2]);
    let floors: Vec<CabinState> = s.elevators().iter().map(|e| e.cabin_state()).collect();
    assert_eq!(
        floors,
        vec![CabinState::Standing(4), CabinState::Standing(0), CabinState::Standing(2)]
    );
}

#[test]
fn add_passenger_gives_increasing_ids() {
    let mut s = ControlSystem::new(4, 1, 2);
    s.add_passenger(0, 3);
    s.add_passenger(2, 1);
    assert_eq!(s.passenger_counter(), 2);
    let ids: Vec<usize> = s.passengers().iter().map(|p| p.id).collect();
    assert_eq!(ids, vec![0, 1]);
    assert_eq!(s.passengers()[1].state, PassengerState::Idle(2));
    assert_eq!(s.passengers()[1].destination, 1);
}

#[test]
fn single_ride_from_the_ground_floor_to_the_top() {
    let mut s = ControlSystem::new(4, 1, 2);
    s.add_passenger(0, 3);
    // the passenger is dispatched to the elevator at its own floor
    s.step_with(None);
    assert_eq!(stops(&s, 0), vec![0]);
    s.step_with(None);
    assert_eq!(s.elevators()[0].cabin_state(), CabinState::Holding(0));
    assert_eq!(s.elevators()[0].door_state(), DoorState::Opening);
    assert_eq!(s.passengers()[0].state, PassengerState::Idle(0));
    // the door comes open: the passenger boards, and its destination is queued
    s.step_with(None);
    assert_eq!(s.elevators()[0].door_state(), DoorState::Open);
    assert!(s.passengers().is_empty());
    assert_eq!(aboard(&s, 0), vec![0]);
    assert_eq!(s.elevators()[0].passengers()[0].state, PassengerState::InCabin);
    assert!(stops(&s, 0).contains(&3));
    // the door closes, and the served floor leaves the queue
    s.step_with(None);
    assert_eq!(s.elevators()[0].door_state(), DoorState::Closing);
    s.step_with(None);
    assert_eq!(s.elevators()[0].cabin_state(), CabinState::Standing(0));
    assert_eq!(stops(&s, 0), vec![3]);
    // the ride up
    let mut opened_at_top = false;
    for _ in 0..20 {
        s.step_with(None);
        check(&s);
        let e = &s.elevators()[0];
        if e.cabin_state() == CabinState::Holding(3) && e.door_state() == DoorState::Open {
            opened_at_top = true;
            assert!(e.passengers().is_empty());
        }
        if opened_at_top && e.cabin_state() == CabinState::Standing(3) {
            break;
        }
    }
    assert!(opened_at_top);
    let e = &s.elevators()[0];
    assert_eq!(e.cabin_state(), CabinState::Standing(3));
    assert_eq!(e.door_state(), DoorState::Closed);
    assert!(e.destinations().is_empty());
    assert!(e.passengers().is_empty());
    assert!(s.passengers().is_empty());
}

#[test]
fn single_ride_takes_a_fixed_number_of_ticks() {
    let mut s = ControlSystem::new(4, 1, 2);
    s.add_passenger(0, 3);
    let mut ticks = 0;
    while in_system(&s) > 0 {
        s.step_with(None);
        ticks += 1;
        assert!(ticks < 100);
    }
    // dispatch, opening, open with boarding, closing, closed; six ticks to
    // reach the top floor; opening, and open with the passenger leaving
    assert_eq!(ticks, 13);
}

#[test]
fn step_with_lets_the_arrival_wait_after_dispatch() {
    let mut s = ControlSystem::new(4, 1, 2);
    s.step_with(Some((2, 0)));
    assert_eq!(s.passengers().len(), 1);
    assert_eq!(s.passengers()[0].origin, 2);
    assert_eq!(s.passengers()[0].destination, 0);
    // the arrival has not been dispatched in the tick in which it came
    assert!(stops(&s, 0).is_empty());
    s.step_with(None);
    assert_eq!(stops(&s, 0), vec![2]);
}

#[test]
fn elevators_advance_in_order_and_share_those_who_wait() {
    let mut s = ControlSystem::with_starting_floors(4, 1, &vec![2, 2]);
    s.add_passenger(2, 0);
    s.add_passenger(2, 3);
    for _ in 0..4 {
        s.step_with(None);
        check(&s);
    }
    // both passengers were dispatched to the first elevator, which takes one;
    // the other is then dispatched again and taken by the second elevator
    assert_eq!(aboard(&s, 0), vec![0]);
    let mut ticks = 0;
    while in_system(&s) > 0 {
        s.step_with(None);
        check(&s);
        ticks += 1;
        assert!(ticks < 200);
    }
}

#[test]
fn everyone_is_delivered_once_arrivals_stop() {
    let mut rng = StdRng::seed_from_u64(7);
    let mut s = ControlSystem::new(6, 3, 2);
    s.set_spawn_chance(1, 2);
    for _ in 0..300 {
        s.step(&mut rng);
        check(&s);
    }
    assert!(s.passenger_counter() > 100);
    let mut ticks = 0;
    while in_system(&s) > 0 {
        s.step_with(None);
        check(&s);
        ticks += 1;
        assert!(ticks < 5000, "still {} in the system", in_system(&s));
    }
}

#[test]
fn everyone_is_delivered_by_a_single_small_elevator() {
    let mut rng = StdRng::seed_from_u64(11);
    let mut s = ControlSystem::new(5, 1, 1);
    s.set_spawn_chance(1, 3);
    for _ in 0..200 {
        s.step(&mut rng);
        check(&s);
    }
    let mut ticks = 0;
    while in_system(&s) > 0 {
        s.step_with(None);
        check(&s);
        ticks += 1;
        assert!(ticks < 20000, "still {} in the system", in_system(&s));
    }
}

#[test]
fn invariants_hold_over_a_long_random_run() {
    for seed in 0..20 {
        let mut rng = StdRng::seed_from_u64(seed);
        let mut s = ControlSystem::new(4, 3, 2);
        s.set_spawn_chance(3, 10);
        for _ in 0..500 {
            let before = s.passenger_counter();
            let arrival = s.step(&mut rng);
            check(&s);
            match arrival {
                Some((from, to)) => {
                    assert_eq!(s.passenger_counter(), before + 1);
                    let p = s.passengers().last().unwrap();
                    assert_eq!((p.origin, p.destination, p.id), (from, to, before));
                }
                None => assert_eq!(s.passenger_counter(), before),
            }
        }
    }
}

#[test]
fn same_seed_gives_the_same_run() {
    let run = |seed: u64| {
        let mut rng = StdRng::seed_from_u64(seed);
        let mut s = ControlSystem::new(5, 2, 2);
        let mut arrivals = Vec::new();
        for _ in 0..200 {
            arrivals.push(s.step(&mut rng));
        }
        (arrivals, s.passenger_counter(), in_system(&s))
    };
    assert_eq!(run(42), run(42));
}

#[test]
fn chance_of_zero_never_lets_anyone_arrive() {
    let mut rng = StdRng::seed_from_u64(1);
    let mut s = ControlSystem::new(4, 2, 2);
    s.set_spawn_chance(0, 1);
    for _ in 0..200 {
        assert_eq!(s.step(&mut rng), None);
    }
    assert_eq!(s.passenger_counter(), 0);
}

#[test]
fn chance_of_one_lets_someone_arrive_every_tick() {
    let mut rng = StdRng::seed_from_u64(2);
    let mut s = ControlSystem::new(4, 2, 2);
    s.set_spawn_chance(1, 1);
    for tick in 0..200 {
        let (from, to) = s.step(&mut rng).unwrap();
        assert!((0..4).contains(&from));
        assert!((0..4).contains(&to));
        assert!(from != to);
        assert_eq!(s.passenger_counter(), tick + 1);
    }
}

#[test]
fn default_chance_lets_about_one_tick_in_five_bring_an_arrival() {
    let mut rng = StdRng::seed_from_u64(3);
    let mut s = ControlSystem::new(4, 3, 2);
    let mut arrivals = 0;
    for _ in 0..2000 {
        if s.step(&mut rng).is_some() {
            arrivals += 1;
        }
    }
    assert!((300..500).contains(&arrivals), "{} arrivals", arrivals);
}

#[test]
fn random_rides_cover_every_pair_of_floors() {
    let mut rng = StdRng::seed_from_u64(4);
    let s = ControlSystem::new(3, 1, 2);
    let mut seen = Vec::new();
    for _ in 0..500 {
        let ride = s.draw_ride(&mut rng).unwrap();
        assert!((0..3).contains(&ride.0) && (0..3).contains(&ride.1) && ride.0 != ride.1);
        if !seen.contains(&ride) {
            seen.push(ride);
        }
    }
    assert_eq!(seen.len(), 6);
}

#[test]
fn add_random_passenger_adds_the_ride_it_returns() {
    let mut rng = StdRng::seed_from_u64(5);
    let mut s = ControlSystem::new(4, 1, 2);
    for i in 0..50 {
        let (from, to) = s.add_random_passenger(&mut rng).unwrap();
        let p = s.passengers()[i];
        assert_eq!((p.id, p.origin, p.destination), (i, from, to));
        assert_eq!(p.state, PassengerState::Idle(from));
    }
}

#[test]
fn building_with_one_floor_has_no_rides() {
    let mut rng = StdRng::seed_from_u64(6);
    let mut s = ControlSystem::new(1, 2, 2);
    s.set_spawn_chance(1, 1);
    assert_eq!(s.draw_ride(&mut rng), None);
    assert_eq!(s.add_random_passenger(&mut rng), None);
    for _ in 0..20 {
        assert_eq!(s.step(&mut rng), None);
    }
    assert!(s.passengers().is_empty());
}

#[test]
fn destination_for_skips_the_origin() {
    assert_eq!(destination_for(2, 0), 0);
    assert_eq!(destination_for(2, 1), 1);
    assert_eq!(destination_for(2, 2), 3);
    assert_eq!(destination_for(0, 0), 1);
    assert_eq!(destination_for(3, 2), 2);
}

/// The number of ticks after which a simulation without arrivals is surely
/// empty: the boardings and exits still to come, and one more, times the
/// most that the slacks of all elevators add up to, and one.
fn patience_bound(s: &ControlSystem) -> u64 {
    let floors = s.floor_count() as u64;
    let door_cycle = elevator_sim::elevator::MAX_DWELL_TICKS as u64 + 3;
    let stop_cost = 2 * floors + door_cycle + 2;
    let most_backlog = (floors + 1) * stop_cost + stop_cost - 1;
    let most_slack = floors * (most_backlog + 1) + most_backlog;
    let stride = s.elevators().len() as u64 * most_slack + 1;
    let effort = (s.passengers().len() + in_system(s)) as u64;
    (effort + 1) * stride
}

#[test]
fn simulation_empties_within_its_patience() {
    for seed in 0..10 {
        let mut rng = StdRng::seed_from_u64(100 + seed);
        let mut s = ControlSystem::new(4, 2, 1);
        s.set_spawn_chance(1, 2);
        for _ in 0..60 {
            s.step(&mut rng);
        }
        let bound = patience_bound(&s);
        let mut ticks = 0;
        while in_system(&s) > 0 {
            s.step_with(None);
            ticks += 1;
            assert!(ticks <= bound);
        }
        // and it stays empty
        for _ in 0..10 {
            s.step_with(None);
            assert_eq!(in_system(&s), 0);
        }
    }
}

#[test]
fn nobody_is_served_without_an_elevator() {
    let mut s = ControlSystem::new(4, 0, 2);
    s.add_passenger(0, 3);
    for _ in 0..1000 {
        s.step_with(None);
    }
    assert_eq!(in_system(&s), 1);
}

#[test]
fn advance_elevators_leaves_dispatch_to_the_caller() {
    let mut s = ControlSystem::new(4, 1, 2);
    s.add_passenger(2, 0);
    s.advance_elevators();
    assert!(stops(&s, 0).is_empty());
    s.assign_passengers_to_elevators();
    assert_eq!(stops(&s, 0), vec![2]);
    s.advance_elevators();
    assert_eq!(s.elevators()[0].cabin_state(), CabinState::Moving(0, 2));
}

#[test]
fn nobody_is_lost_on_the_way() {
    let mut rng = StdRng::seed_from_u64(21);
    let mut s = ControlSystem::new(5, 2, 2);
    s.set_spawn_chance(2, 5);
    for _ in 0..600 {
        // everyone in the simulation, and whether a cabin is about to
        // deliver them
        let mut before = Vec::new();
        for p in s.passengers() {
            before.push((p.id, p.destination, false));
        }
        for e in s.elevators() {
            for p in e.passengers() {
                let due = e.cabin_state() == CabinState::Holding(p.destination)
                    && e.door_state() == DoorState::Opening;
                before.push((p.id, p.destination, due));
            }
        }
        s.step(&mut rng);
        for (id, destination, due) in before {
            let waits = s.passengers().iter().any(|p| p.id == id && p.destination == destination);
            let rides = s
                .elevators()
                .iter()
                .any(|e| e.passengers().iter().any(|p| p.id == id && p.destination == destination));
            assert!(waits != rides || due);
            assert_eq!(waits || rides, !due);
        }
    }
}
