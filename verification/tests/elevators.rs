use elevator_sim::elevator::{Elevator, MAX_DWELL_TICKS, MIN_DWELL_TICKS};
use elevator_sim::passenger::Passenger;
use elevator_sim::state::{CabinState, DoorState, PassengerState};

fn stops(e: &Elevator) -> Vec<i32> {
    e.destinations().iter().copied().collect()
}

fn ids(e: &Elevator) -> Vec<usize> {
    e.passengers().iter().map(|p| p.id).collect()
}

/// Steps until the door has just come open, and returns who left the cabin
/// in that tick.
fn run_until_open(e: &mut Elevator, waiting: &mut Vec<Passenger>) -> Vec<usize> {
    for _ in 0..100 {
        let exited = e.step(waiting);
        if e.door_state() == DoorState::Open && e.door_timer() == 0 {
            return exited;
        }
    }
    panic!("the door never opened");
}

fn run_until_standing(e: &mut Elevator, waiting: &mut Vec<Passenger>) {
    for _ in 0..100 {
        e.step(waiting);
        if matches!(e.cabin_state(), CabinState::Standing(_)) {
            return;
        }
    }
    panic!("the cabin never stood");
}

#[test]
fn new_elevator_stands_empty_with_closed_door() {
    let e = Elevator::new(2, 4, 3);
    assert_eq!(e.cabin_state(), CabinState::Standing(2));
    assert_eq!(e.door_state(), DoorState::Closed);
    assert!(e.passengers().is_empty());
    assert!(e.destinations().is_empty());
    assert_eq!(e.capacity(), 3);
    assert_eq!(e.floor_count(), 4);
    assert_eq!(e.door_timer(), 0);
    assert!(!e.is_full());
}

#[test]
fn add_destination_queues_in_sweep_order() {
    let mut e = Elevator::new(2, 6, 2);
    e.add_destination(1);
    assert_eq!(stops(&e), vec![1]);
    e.add_destination(4);
    assert_eq!(stops(&e), vec![4, 1]);
    e.add_destination(0);
    assert_eq!(stops(&e), vec![4, 1, 0]);
    e.add_destination(2);
    assert_eq!(stops(&e), vec![2, 4, 1, 0]);
    e.add_destination(5);
    assert_eq!(stops(&e), vec![2, 4, 5, 1, 0]);
}

#[test]
fn add_destination_never_queues_a_floor_twice() {
    let mut e = Elevator::new(0, 5, 2);
    e.add_destination(3);
    e.add_destination(1);
    e.add_destination(3);
    e.add_destination(1);
    assert_eq!(stops(&e), vec![1, 3]);
}

#[test]
fn sort_destinations_keeps_a_sorted_queue() {
    let mut e = Elevator::new(1, 5, 2);
    e.add_destination(0);
    e.add_destination(4);
    e.add_destination(2);
    assert_eq!(stops(&e), vec![2, 4, 0]);
    e.sort_destinations();
    assert_eq!(stops(&e), vec![2, 4, 0]);
}

#[test]
fn standing_with_empty_queue_stays() {
    let mut e = Elevator::new(1, 4, 2);
    let mut waiting = Vec::new();
    let exited = e.step(&mut waiting);
    assert!(exited.is_empty());
    assert_eq!(e.cabin_state(), CabinState::Standing(1));
    assert_eq!(e.door_state(), DoorState::Closed);
}

#[test]
fn stop_that_nobody_needs_is_dropped_without_a_visit() {
    let mut e = Elevator::new(0, 4, 2);
    e.add_destination(3);
    let mut waiting = Vec::new();
    e.step(&mut waiting);
    assert_eq!(e.cabin_state(), CabinState::Standing(0));
    assert!(e.destinations().is_empty());
}

#[test]
fn stop_at_own_floor_starts_the_door_cycle() {
    let mut e = Elevator::new(2, 4, 2);
    let mut waiting = vec![Passenger::new(0, 2, 0)];
    e.add_destination(2);
    e.step(&mut waiting);
    assert_eq!(e.cabin_state(), CabinState::Holding(2));
    assert_eq!(e.door_state(), DoorState::Opening);
    assert_eq!(waiting.len(), 1);
}

#[test]
fn cabin_moves_one_floor_per_tick_and_stands_between() {
    let mut e = Elevator::new(0, 4, 2);
    let mut waiting = vec![Passenger::new(0, 3, 0)];
    e.add_destination(3);
    e.step(&mut waiting);
    assert_eq!(e.cabin_state(), CabinState::Moving(0, 3));
    e.step(&mut waiting);
    assert_eq!(e.cabin_state(), CabinState::Standing(1));
    e.step(&mut waiting);
    assert_eq!(e.cabin_state(), CabinState::Moving(1, 3));
    e.step(&mut waiting);
    assert_eq!(e.cabin_state(), CabinState::Standing(2));
    e.step(&mut waiting);
    assert_eq!(e.cabin_state(), CabinState::Moving(2, 3));
    e.step(&mut waiting);
    assert_eq!(e.cabin_state(), CabinState::Holding(3));
    assert_eq!(e.door_state(), DoorState::Closed);
    assert_eq!(stops(&e), vec![3]);
}

#[test]
fn cabin_moves_down_one_floor_per_tick() {
    let mut e = Elevator::new(3, 4, 2);
    let mut waiting = vec![Passenger::new(0, 1, 3)];
    e.add_destination(1);
    e.step(&mut waiting);
    assert_eq!(e.cabin_state(), CabinState::Moving(3, 1));
    e.step(&mut waiting);
    assert_eq!(e.cabin_state(), CabinState::Standing(2));
    e.step(&mut waiting);
    assert_eq!(e.cabin_state(), CabinState::Moving(2, 1));
    e.step(&mut waiting);
    assert_eq!(e.cabin_state(), CabinState::Holding(1));
}

#[test]
fn arrival_at_a_stop_that_lost_its_reason_skips_the_door() {
    let mut e = Elevator::new(0, 4, 2);
    let mut waiting = vec![Passenger::new(0, 1, 0)];
    e.add_destination(1);
    e.step(&mut waiting);
    assert_eq!(e.cabin_state(), CabinState::Moving(0, 1));
    // the passenger gives up before the cabin arrives
    waiting.clear();
    e.step(&mut waiting);
    assert_eq!(e.cabin_state(), CabinState::Standing(1));
    assert_eq!(e.door_state(), DoorState::Closed);
    assert!(e.destinations().is_empty());
}

#[test]
fn door_cycle_of_a_cabin_with_room() {
    let mut e = Elevator::new(1, 4, 2);
    let mut waiting = vec![Passenger::new(0, 1, 3)];
    e.add_destination(1);
    e.step(&mut waiting);
    assert_eq!((e.cabin_state(), e.door_state()), (CabinState::Holding(1), DoorState::Opening));
    e.step(&mut waiting);
    assert_eq!((e.cabin_state(), e.door_state()), (CabinState::Holding(1), DoorState::Open));
    assert_eq!(ids(&e), vec![0]);
    assert!(waiting.is_empty());
    assert_eq!(stops(&e), vec![1, 3]);
    for _ in 1..MIN_DWELL_TICKS {
        e.step(&mut waiting);
        assert_eq!(e.door_state(), DoorState::Open);
    }
    e.step(&mut waiting);
    assert_eq!((e.cabin_state(), e.door_state()), (CabinState::Holding(1), DoorState::Closing));
    e.step(&mut waiting);
    assert_eq!((e.cabin_state(), e.door_state()), (CabinState::Standing(1), DoorState::Closed));
    assert_eq!(stops(&e), vec![3]);
    assert_eq!(e.door_timer(), 0);
}

#[test]
fn full_cabin_keeps_its_door_open_until_the_dwell_limit() {
    let mut e = Elevator::new(1, 4, 1);
    let mut waiting = vec![Passenger::new(0, 1, 3), Passenger::new(1, 1, 2)];
    e.add_destination(1);
    e.step(&mut waiting);
    e.step(&mut waiting);
    assert_eq!(e.door_state(), DoorState::Open);
    assert!(e.is_full());
    for tick in 1..MAX_DWELL_TICKS {
        e.step(&mut waiting);
        assert_eq!(e.door_state(), DoorState::Open);
        assert_eq!(e.door_timer(), tick);
    }
    e.step(&mut waiting);
    assert_eq!(e.door_state(), DoorState::Closing);
    assert_eq!(e.door_timer(), 0);
    // the exchange took place once: the second passenger still waits
    assert_eq!(ids(&e), vec![0]);
    assert_eq!(waiting.len(), 1);
    assert_eq!(waiting[0].id, 1);
    assert_eq!(waiting[0].state, PassengerState::Idle(1));
}

#[test]
fn boarding_takes_passengers_in_order_up_to_capacity() {
    let mut e = Elevator::new(0, 5, 2);
    let mut waiting = vec![
        Passenger::new(0, 0, 4),
        Passenger::new(1, 1, 0),
        Passenger::new(2, 0, 2),
        Passenger::new(3, 0, 3),
    ];
    e.add_destination(0);
    let exited = run_until_open(&mut e, &mut waiting);
    assert!(exited.is_empty());
    assert_eq!(ids(&e), vec![0, 2]);
    assert!(e.passengers().iter().all(|p| p.state == PassengerState::InCabin));
    assert_eq!(waiting.iter().map(|p| p.id).collect::<Vec<_>>(), vec![1, 3]);
    assert!(waiting.iter().all(|p| matches!(p.state, PassengerState::Idle(_))));
    assert_eq!(stops(&e), vec![0, 2, 4]);
    assert!(e.is_full());
}

#[test]
fn passengers_leave_before_others_board_in_the_same_dwell() {
    let mut e = Elevator::new(0, 4, 1);
    let mut waiting = vec![Passenger::new(0, 0, 2), Passenger::new(1, 2, 3)];
    e.add_destination(0);
    run_until_open(&mut e, &mut waiting);
    assert_eq!(ids(&e), vec![0]);
    assert!(e.is_full());
    run_until_standing(&mut e, &mut waiting);
    // at floor 2 the cabin is full until passenger 0 has left
    let exited = run_until_open(&mut e, &mut waiting);
    assert_eq!(e.cabin_state(), CabinState::Holding(2));
    assert_eq!(exited, vec![0]);
    assert_eq!(ids(&e), vec![1]);
    assert!(waiting.is_empty());
    assert!(e.passengers().iter().all(|p| p.destination != 2));
}

#[test]
fn several_passengers_leave_at_once_in_boarding_order() {
    let mut e = Elevator::new(0, 4, 3);
    let mut waiting = vec![
        Passenger::new(5, 0, 2),
        Passenger::new(6, 0, 3),
        Passenger::new(7, 0, 2),
    ];
    e.add_destination(0);
    run_until_open(&mut e, &mut waiting);
    assert_eq!(ids(&e), vec![5, 6, 7]);
    run_until_standing(&mut e, &mut waiting);
    let exited = run_until_open(&mut e, &mut waiting);
    assert_eq!(e.cabin_state(), CabinState::Holding(2));
    assert_eq!(exited, vec![5, 7]);
    assert_eq!(ids(&e), vec![6]);
}

#[test]
fn served_floor_leaves_the_queue_when_the_door_has_closed() {
    let mut e = Elevator::new(0, 4, 2);
    let mut waiting = vec![Passenger::new(0, 0, 3)];
    e.add_destination(0);
    run_until_open(&mut e, &mut waiting);
    assert_eq!(stops(&e), vec![0, 3]);
    run_until_standing(&mut e, &mut waiting);
    assert_eq!(e.cabin_state(), CabinState::Standing(0));
    assert_eq!(stops(&e), vec![3]);
}

#[test]
fn is_warranted_by_a_rider_or_by_someone_waiting() {
    let mut e = Elevator::new(0, 4, 2);
    let mut waiting = vec![Passenger::new(0, 0, 3), Passenger::new(1, 2, 0)];
    assert!(e.is_warranted(&waiting, 0));
    assert!(e.is_warranted(&waiting, 2));
    assert!(!e.is_warranted(&waiting, 3));
    e.add_destination(0);
    run_until_open(&mut e, &mut waiting);
    assert!(e.is_warranted(&waiting, 3));
    assert!(!e.is_warranted(&waiting, 0));
    assert!(!e.is_warranted(&waiting, 1));
}

#[test]
fn door_is_closed_whenever_the_cabin_is_not_holding() {
    let mut e = Elevator::new(0, 6, 2);
    let mut waiting = vec![
        Passenger::new(0, 4, 1),
        Passenger::new(1, 2, 5),
        Passenger::new(2, 0, 3),
    ];
    for p in waiting.clone() {
        e.add_destination(p.origin);
    }
    for _ in 0..200 {
        e.step(&mut waiting);
        match e.cabin_state() {
            CabinState::Holding(_) => {}
            _ => assert_eq!(e.door_state(), DoorState::Closed),
        }
        let floor = match e.cabin_state() {
            CabinState::Standing(f) | CabinState::Holding(f) => f,
            CabinState::Moving(from, to) => {
                assert!(from != to);
                assert!((0..6).contains(&to));
                from
            }
        };
        assert!((0..6).contains(&floor));
        assert!(e.passengers().len() <= e.capacity());
        let q = stops(&e);
        for (i, s) in q.iter().enumerate() {
            assert!(!q[i + 1..].contains(s));
        }
    }
    assert!(waiting.is_empty());
    assert!(e.passengers().is_empty());
}
