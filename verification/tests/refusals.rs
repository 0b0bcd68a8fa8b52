use elevator_sim::control::ControlSystem;
use elevator_sim::elevator::Elevator;
use elevator_sim::passenger::Passenger;
use elevator_sim::state::{CabinState, ConfigError, DoorState, PassengerState};

#[test]
fn passenger_with_a_negative_floor_is_refused() {
    assert_eq!(Passenger::try_new(0, -1, 2), Err(ConfigError::FloorOutOfRange));
    assert_eq!(Passenger::try_new(0, 2, -1), Err(ConfigError::FloorOutOfRange));
    assert_eq!(Passenger::try_new(0, -3, -3), Err(ConfigError::FloorOutOfRange));
}

#[test]
fn passenger_who_goes_nowhere_is_refused() {
    assert_eq!(Passenger::try_new(0, 2, 2), Err(ConfigError::SameFloor));
    assert_eq!(Passenger::try_new(0, 0, 0), Err(ConfigError::SameFloor));
}

#[test]
fn passenger_with_a_proper_ride_is_the_one_that_new_makes() {
    assert_eq!(Passenger::try_new(4, 1, 3), Ok(Passenger::new(4, 1, 3)));
    assert_eq!(Passenger::try_new(5, 3, 0), Ok(Passenger::new(5, 3, 0)));
}

#[test]
fn elevator_in_a_building_without_floors_is_refused() {
    assert_eq!(Elevator::try_new(0, 0, 2).err(), Some(ConfigError::NoFloors));
    assert_eq!(Elevator::try_new(0, -4, 0).err(), Some(ConfigError::NoFloors));
}

#[test]
fn elevator_without_room_is_refused() {
    assert_eq!(Elevator::try_new(0, 4, 0).err(), Some(ConfigError::NoCapacity));
    assert_eq!(Elevator::try_new(9, 4, 0).err(), Some(ConfigError::NoCapacity));
}

#[test]
fn elevator_that_starts_outside_the_building_is_refused() {
    assert_eq!(Elevator::try_new(4, 4, 2).err(), Some(ConfigError::FloorOutOfRange));
    assert_eq!(Elevator::try_new(-1, 4, 2).err(), Some(ConfigError::FloorOutOfRange));
}

#[test]
fn elevator_that_is_in_order_stands_empty() {
    let e = Elevator::try_new(3, 4, 1).unwrap();
    assert_eq!(e.cabin_state(), CabinState::Standing(3));
    assert_eq!(e.door_state(), DoorState::Closed);
    assert_eq!(e.capacity(), 1);
    assert_eq!(e.floor_count(), 4);
    assert!(e.passengers().is_empty());
    assert!(e.destinations().is_empty());
}

#[test]
fn simulation_without_floors_is_refused() {
    assert_eq!(ControlSystem::configure(0, 3, 2).err(), Some(ConfigError::NoFloors));
    assert_eq!(ControlSystem::configure(-1, 3, 0).err(), Some(ConfigError::NoFloors));
    assert_eq!(
        ControlSystem::try_with_starting_floors(0, 2, &vec![0]).err(),
        Some(ConfigError::NoFloors)
    );
}

#[test]
fn simulation_with_cabins_without_room_is_refused() {
    assert_eq!(ControlSystem::configure(4, 3, 0).err(), Some(ConfigError::NoCapacity));
    assert_eq!(
        ControlSystem::try_with_starting_floors(4, 0, &vec![7]).err(),
        Some(ConfigError::NoCapacity)
    );
}

#[test]
fn simulation_with_an_elevator_outside_the_building_is_refused() {
    assert_eq!(
        ControlSystem::try_with_starting_floors(4, 2, &vec![0, 4]).err(),
        Some(ConfigError::FloorOutOfRange)
    );
    assert_eq!(
        ControlSystem::try_with_starting_floors(4, 2, &vec![-1, 2]).err(),
        Some(ConfigError::FloorOutOfRange)
    );
}

#[test]
fn simulation_that_is_in_order_is_the_one_that_new_makes() {
    let s = ControlSystem::configure(4, 3, 2).unwrap();
    assert_eq!(s.floor_count(), 4);
    assert_eq!(s.elevators().len(), 3);
    assert!(s.elevators().iter().all(|e| e.cabin_state() == CabinState::Standing(0)));
    assert!(s.elevators().iter().all(|e| e.capacity() == 2));
    let t = ControlSystem::try_with_starting_floors(4, 2, &vec![3, 1]).unwrap();
    assert_eq!(t.elevators()[0].cabin_state(), CabinState::Standing(3));
    assert_eq!(t.elevators()[1].cabin_state(), CabinState::Standing(1));
    let none = ControlSystem::try_with_starting_floors(1, 1, &Vec::new()).unwrap();
    assert!(none.elevators().is_empty());
}

#[test]
fn ride_outside_the_building_is_refused_and_changes_nothing() {
    let mut s = ControlSystem::new(4, 1, 2);
    assert_eq!(s.try_add_passenger(4, 0), Err(ConfigError::FloorOutOfRange));
    assert_eq!(s.try_add_passenger(0, 4), Err(ConfigError::FloorOutOfRange));
    assert_eq!(s.try_add_passenger(-1, 2), Err(ConfigError::FloorOutOfRange));
    assert_eq!(s.try_add_passenger(7, 7), Err(ConfigError::FloorOutOfRange));
    assert!(s.passengers().is_empty());
    assert_eq!(s.passenger_counter(), 0);
}

#[test]
fn ride_that_leads_nowhere_is_refused_and_changes_nothing() {
    let mut s = ControlSystem::new(4, 1, 2);
    assert_eq!(s.try_add_passenger(2, 2), Err(ConfigError::SameFloor));
    assert!(s.passengers().is_empty());
    assert_eq!(s.passenger_counter(), 0);
}

#[test]
fn ride_that_is_in_order_gets_the_next_id() {
    let mut s = ControlSystem::new(4, 1, 2);
    assert_eq!(s.try_add_passenger(0, 3), Ok(0));
    assert_eq!(s.try_add_passenger(2, 2), Err(ConfigError::SameFloor));
    assert_eq!(s.try_add_passenger(3, 1), Ok(1));
    assert_eq!(s.passenger_counter(), 2);
    assert_eq!(s.passengers()[1].origin, 3);
    assert_eq!(s.passengers()[1].destination, 1);
    assert_eq!(s.passengers()[1].state, PassengerState::Idle(3));
}
