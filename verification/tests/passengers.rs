use elevator_sim::passenger::{any_riding_to, any_waiting_at, Passenger};
use elevator_sim::state::{Direction, PassengerState};

#[test]
fn new_passenger_waits_at_its_origin() {
    let p = Passenger::new(7, 0, 3);
    assert_eq!(p.id, 7);
    assert_eq!(p.origin, 0);
    assert_eq!(p.destination, 3);
    assert_eq!(p.state, PassengerState::Idle(0));
}

#[test]
fn direction_is_up_when_the_destination_is_above() {
    assert_eq!(Passenger::new(0, 1, 2).direction, Direction::Up);
    assert_eq!(Passenger::new(0, 0, 9).direction, Direction::Up);
}

#[test]
fn direction_is_down_when_the_destination_is_below() {
    assert_eq!(Passenger::new(0, 2, 1).direction, Direction::Down);
    assert_eq!(Passenger::new(0, 9, 0).direction, Direction::Down);
}

#[test]
fn is_waiting_at_tells_floor_and_state() {
    let p = Passenger::new(1, 2, 0);
    assert!(p.is_waiting_at(2));
    assert!(!p.is_waiting_at(0));
    let riding = Passenger { state: PassengerState::InCabin, ..p };
    assert!(!riding.is_waiting_at(2));
}

#[test]
fn any_waiting_at_looks_at_every_passenger() {
    let list = vec![Passenger::new(0, 1, 3), Passenger::new(1, 2, 0)];
    assert!(any_waiting_at(&list, 1));
    assert!(any_waiting_at(&list, 2));
    assert!(!any_waiting_at(&list, 3));
    assert!(!any_waiting_at(&Vec::new(), 0));
}

#[test]
fn any_riding_to_looks_at_every_destination() {
    let list = vec![Passenger::new(0, 1, 3), Passenger::new(1, 2, 0)];
    assert!(any_riding_to(&list, 3));
    assert!(any_riding_to(&list, 0));
    assert!(!any_riding_to(&list, 1));
    assert!(!any_riding_to(&Vec::new(), 0));
}
