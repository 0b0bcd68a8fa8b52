//! One rider: where it starts, where it wants to go, and how far it has come.
use vstd::prelude::*;
use crate::state::{ConfigError, Direction, PassengerState};

verus! {

/// A passenger. The destination is fixed when the passenger is created and
/// differs from the origin; the direction follows from the two.
#[derive(Debug, Clone, Copy, PartialEq, Eq, Structural)]
pub struct Passenger {
    pub id: usize,
    pub origin: i32,
    pub destination: i32,
    pub direction: Direction,
    pub state: PassengerState,
}

/// The direction of a ride from `origin` to `destination`: up if the
/// destination lies above the origin, down otherwise.
pub open spec fn direction_of(origin: i32, destination: i32) -> Direction {
    if origin < destination {
        Direction::Up
    } else {
        Direction::Down
    }
}

/// No two passengers of the sequence share an id.
pub open spec fn distinct_ids(passengers: Seq<Passenger>) -> bool {
    forall|i: int, j: int|
        0 <= i < j < passengers.len() ==> (#[trigger] passengers[i]).id != (
        #[trigger] passengers[j]).id
}

/// Every passenger of the sequence is consistent and rides within a building
/// of `floor_count` floors.
pub open spec fn all_valid(passengers: Seq<Passenger>, floor_count: int) -> bool {
    forall|i: int|
        0 <= i < passengers.len() ==> (#[trigger] passengers[i]).wf() && passengers[i].within(
            floor_count,
        )
}

/// Some passenger of the sequence waits on `floor`.
pub open spec fn anyone_waits_at(passengers: Seq<Passenger>, floor: i32) -> bool {
    exists|i: int| 0 <= i < passengers.len() && (#[trigger] passengers[i]).waits_at(floor)
}

/// Some passenger of the sequence rides to `floor`.
pub open spec fn anyone_rides_to(passengers: Seq<Passenger>, floor: i32) -> bool {
    exists|i: int| 0 <= i < passengers.len() && (#[trigger] passengers[i]).destination == floor
}

impl Passenger {
    /// The passenger is consistent: no floor is negative, the ride leads
    /// somewhere else, the direction is the one the ride has, and a waiting
    /// passenger waits where it started.
    pub open spec fn wf(self) -> bool {
        &&& 0 <= self.origin
        &&& 0 <= self.destination
        &&& self.origin != self.destination
        &&& self.direction == direction_of(self.origin, self.destination)
        &&& (self.state matches PassengerState::Idle(f) ==> f == self.origin)
    }

    /// Both ends of the ride lie in a building of `floor_count` floors.
    pub open spec fn within(self, floor_count: int) -> bool {
        self.origin < floor_count && self.destination < floor_count
    }

    /// The passenger waits on `floor`.
    pub open spec fn waits_at(self, floor: i32) -> bool {
        self.state == PassengerState::Idle(floor)
    }

    /// The same passenger, riding.
    pub open spec fn boarded(self) -> Passenger {
        Passenger { state: PassengerState::InCabin, ..self }
    }

    /// Why a ride from `floor` to `destination_floor` is refused, if it is: a
    /// negative floor comes first, then a ride that leads nowhere.
    pub open spec fn refusal(floor: i32, destination_floor: i32) -> Option<ConfigError> {
        if floor < 0 || destination_floor < 0 {
            Some(ConfigError::FloorOutOfRange)
        } else if floor == destination_floor {
            Some(ConfigError::SameFloor)
        } else {
            None
        }
    }

    /// Whether the passenger waits on `floor`.
    pub fn is_waiting_at(&self, floor: i32) -> (r: bool)
        ensures
            r == self.waits_at(floor),
    {
        match self.state {
            PassengerState::Idle(f) => f == floor,
            _ => false,
        }
    }

    /// A passenger that waits on `floor` for a ride to `destination_floor`.
    pub fn new(id: usize, floor: i32, destination_floor: i32) -> (p: Passenger)
        requires
            0 <= floor,
            0 <= destination_floor,
            floor != destination_floor,
        ensures
            p == (Passenger {
                id,
                origin: floor,
                destination: destination_floor,
                direction: direction_of(floor, destination_floor),
                state: PassengerState::Idle(floor),
            }),
            p.wf(),
    {
        Passenger {
            id,
            origin: floor,
            destination: destination_floor,
            direction: if floor < destination_floor {
                Direction::Up
            } else {
                Direction::Down
            },
            state: PassengerState::Idle(floor),
        }
    }

    /// A passenger that waits on `floor` for a ride to `destination_floor`, or
    /// the reason why there is no such ride.
    pub fn try_new(id: usize, floor: i32, destination_floor: i32) -> (r: Result<
        Passenger,
        ConfigError,
    >)
        ensures
            match r {
                Ok(p) => Passenger::refusal(floor, destination_floor) is None && p == (Passenger {
                    id,
                    origin: floor,
                    destination: destination_floor,
                    direction: direction_of(floor, destination_floor),
                    state: PassengerState::Idle(floor),
                }) && p.wf(),
                Err(e) => Passenger::refusal(floor, destination_floor) == Some(e),
            },
    {
        if floor < 0 || destination_floor < 0 {
            Err(ConfigError::FloorOutOfRange)
        } else if floor == destination_floor {
            Err(ConfigError::SameFloor)
        } else {
            Ok(Passenger::new(id, floor, destination_floor))
        }
    }
}

/// Whether some passenger of the list waits on `floor`.
pub fn any_waiting_at(passengers: &Vec<Passenger>, floor: i32) -> (r: bool)
    ensures
        r == anyone_waits_at(passengers@, floor),
{
    let mut i: usize = 0;
    while i < passengers.len()
        invariant
            i <= passengers@.len(),
            forall|j: int| 0 <= j < i ==> !(#[trigger] passengers@[j]).waits_at(floor),
        decreases passengers@.len() - i,
    {
        if passengers[i].is_waiting_at(floor) {
            return true;
        }
        i += 1;
    }
    false
}

/// Whether some passenger of the list rides to `floor`.
pub fn any_riding_to(passengers: &Vec<Passenger>, floor: i32) -> (r: bool)
    ensures
        r == anyone_rides_to(passengers@, floor),
{
    let mut i: usize = 0;
    while i < passengers.len()
        invariant
            i <= passengers@.len(),
            forall|j: int| 0 <= j < i ==> (#[trigger] passengers@[j]).destination != floor,
        decreases passengers@.len() - i,
    {
        if passengers[i].destination == floor {
            return true;
        }
        i += 1;
    }
    false
}

} // verus!
