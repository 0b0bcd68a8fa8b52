//! The variants that describe a cabin, a door, a passenger's ride and a
//! direction of travel.
use vstd::prelude::*;

verus! {

/// Where a cabin is. `Moving(from, to)` lasts one tick: the cabin leaves `from`
/// and is one floor closer to `to` at the next tick.
#[derive(Debug, Clone, Copy, PartialEq, Eq, Structural)]
pub enum CabinState {
    Standing(i32),
    Moving(i32, i32),
    Holding(i32),
}

/// The door cycle of a holding cabin: `Closed`, `Opening`, `Open`, `Closing`
/// and back to `Closed`.
#[derive(Debug, Clone, Copy, PartialEq, Eq, Structural)]
pub enum DoorState {
    Closed,
    Opening,
    Open,
    Closing,
}

/// The stage of a passenger's ride. A passenger waits as `Idle` on a floor and
/// rides as `InCabin`; `Entering` and `Exiting` name the two moments between.
#[derive(Debug, Clone, Copy, PartialEq, Eq, Structural)]
pub enum PassengerState {
    Idle(i32),
    Entering,
    InCabin,
    Exiting,
}

/// A direction of travel.
#[derive(Debug, Clone, Copy, PartialEq, Eq, Structural)]
pub enum Direction {
    Up,
    Down,
}

/// Why a building, an elevator or a ride is refused.
#[derive(Debug, Clone, Copy, PartialEq, Eq, Structural)]
pub enum ConfigError {
    /// A building needs at least one floor.
    NoFloors,
    /// A cabin needs room for at least one passenger.
    NoCapacity,
    /// A floor lies outside the building.
    FloorOutOfRange,
    /// A ride would end on the floor where it starts.
    SameFloor,
}

impl CabinState {
    /// The floor that counts as the cabin's position: the floor it stands or
    /// holds at, or the floor it is leaving while it moves.
    pub open spec fn floor(self) -> i32 {
        match self {
            CabinState::Standing(f) => f,
            CabinState::Moving(from, _) => from,
            CabinState::Holding(f) => f,
        }
    }

    /// Every floor that the state names lies in `[0, floor_count)`, and a move
    /// goes from one floor to another.
    pub open spec fn within(self, floor_count: int) -> bool {
        match self {
            CabinState::Standing(f) => 0 <= f < floor_count,
            CabinState::Moving(from, to) => {
                &&& 0 <= from < floor_count
                &&& 0 <= to < floor_count
                &&& from != to
            },
            CabinState::Holding(f) => 0 <= f < floor_count,
        }
    }

    /// The cabin's position, as `floor` defines it.
    pub fn current_floor(&self) -> (f: i32)
        ensures
            f == self.floor(),
    {
        match *self {
            CabinState::Standing(f) => f,
            CabinState::Moving(from, _) => from,
            CabinState::Holding(f) => f,
        }
    }
}

} // verus!
