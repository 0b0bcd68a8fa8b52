//! The whole simulation: the passengers who wait, the bank of elevators, and
//! the tick that drives them.
//!
//! A tick advances every elevator in turn, then dispatches everyone who waits,
//! and last lets a new passenger arrive. `ControlSystemView` is the
//! simulation as a mathematical value; `ControlSystem` is proved to follow it.
use rand::rngs::StdRng;
use vstd::prelude::*;
use crate::dispatch::{best_elevator, choose_elevator, dispatched, lemma_best_elevator, views_of};
use crate::elevator::{
    id_in, lemma_stepped, lemma_stepped_keeps, lemma_with_destination_wf, Elevator, ElevatorView,
};
use crate::passenger::{all_valid, direction_of, distinct_ids, Passenger};
use crate::random::{draw_below, draw_chance};
use crate::state::{CabinState, ConfigError, DoorState, PassengerState};

verus! {

/// A simulation as a mathematical value.
pub struct ControlSystemView {
    /// The passengers who wait, in the order in which they arrived.
    pub passengers: Seq<Passenger>,
    pub elevators: Seq<ElevatorView>,
    /// The id that the next passenger gets.
    pub passenger_counter: nat,
    pub floor_count: int,
    /// The chance that a passenger arrives in a tick, as a fraction:
    /// numerator first.
    pub spawn_chance: (nat, nat),
}

/// No passenger of `a` shares an id with a passenger of `b`.
pub open spec fn apart(a: Seq<Passenger>, b: Seq<Passenger>) -> bool {
    forall|i: int, j: int|
        0 <= i < a.len() && 0 <= j < b.len() ==> (#[trigger] a[i]).id != (#[trigger] b[j]).id
}

/// Every passenger of the sequence has an id below `bound`.
pub open spec fn ids_below(passengers: Seq<Passenger>, bound: nat) -> bool {
    forall|i: int| 0 <= i < passengers.len() ==> (#[trigger] passengers[i]).id < bound
}

/// Every passenger of the sequence waits.
pub open spec fn all_idle(passengers: Seq<Passenger>) -> bool {
    forall|i: int| 0 <= i < passengers.len() ==> (#[trigger] passengers[i]).state is Idle
}

/// The destination for a passenger at `origin`, from a draw among the other
/// floors: draws below the origin stand for themselves, and draws from the
/// origin on stand for the floor above.
pub open spec fn skip_origin(origin: i32, draw: i32) -> int {
    if draw < origin {
        draw as int
    } else {
        draw + 1
    }
}

impl ControlSystemView {
    /// What always holds of a simulation.
    ///
    /// Every elevator is well formed and belongs to this building. Those who
    /// wait are consistent, inside the building and idle. All ids in the
    /// simulation, of those who wait and of those aboard any elevator, differ
    /// from each other and lie below the counter. The chance of an arrival is
    /// a fraction between zero and one.
    pub open spec fn wf(self) -> bool {
        &&& 1 <= self.floor_count <= i32::MAX
        &&& self.passenger_counter <= usize::MAX
        &&& self.elevators.len() <= usize::MAX
        &&& forall|i: int|
            0 <= i < self.elevators.len() ==> {
                &&& (#[trigger] self.elevators[i]).wf()
                &&& self.elevators[i].floor_count == self.floor_count
                &&& apart(self.elevators[i].passengers, self.passengers)
                &&& ids_below(self.elevators[i].passengers, self.passenger_counter)
            }
        &&& forall|i: int, j: int|
            0 <= i < self.elevators.len() && 0 <= j < self.elevators.len() && i != j ==> apart(
                (#[trigger] self.elevators[i]).passengers,
                (#[trigger] self.elevators[j]).passengers,
            )
        &&& all_valid(self.passengers, self.floor_count)
        &&& all_idle(self.passengers)
        &&& distinct_ids(self.passengers)
        &&& ids_below(self.passengers, self.passenger_counter)
        &&& 0 < self.spawn_chance.1 <= u32::MAX
        &&& self.spawn_chance.0 <= self.spawn_chance.1
    }

    /// A simulation at its start: nobody waits, and every elevator stands
    /// empty at its starting floor. A passenger arrives in one tick of five.
    pub open spec fn initial(
        floor_count: i32,
        capacity: usize,
        starting_floors: Seq<i32>,
    ) -> ControlSystemView {
        ControlSystemView {
            passengers: Seq::empty(),
            elevators: Seq::new(
                starting_floors.len(),
                |i: int| ElevatorView::initial(starting_floors[i], floor_count, capacity),
            ),
            passenger_counter: 0,
            floor_count: floor_count as int,
            spawn_chance: (1, 5),
        }
    }

    /// Why a simulation is refused, if it is: a building without floors comes
    /// first, then cabins without room, then a starting floor outside the
    /// building.
    pub open spec fn refusal(floor_count: i32, capacity: usize, starting_floors: Seq<i32>) -> Option<
        ConfigError,
    > {
        if floor_count < 1 {
            Some(ConfigError::NoFloors)
        } else if capacity < 1 {
            Some(ConfigError::NoCapacity)
        } else if exists|i: int|
            0 <= i < starting_floors.len() && !(0 <= #[trigger] starting_floors[i] < floor_count) {
            Some(ConfigError::FloorOutOfRange)
        } else {
            None
        }
    }

    /// Why a passenger is refused, if it is: a floor outside the building
    /// comes first, then a ride that leads nowhere.
    pub open spec fn ride_refusal(self, floor: i32, destination: i32) -> Option<ConfigError> {
        if !(0 <= floor < self.floor_count) || !(0 <= destination < self.floor_count) {
            Some(ConfigError::FloorOutOfRange)
        } else if floor == destination {
            Some(ConfigError::SameFloor)
        } else {
            None
        }
    }

    /// The simulation after the first `k` elevators have each advanced by one
    /// tick, in order. Each elevator sees those who still wait after the
    /// elevators before it have taken their passengers.
    pub open spec fn advanced(self, k: nat) -> ControlSystemView
        decreases k,
    {
        if k == 0 {
            self
        } else {
            let s = self.advanced((k - 1) as nat);
            let (e, left) = s.elevators[k - 1].stepped(s.passengers);
            ControlSystemView { elevators: s.elevators.update(k - 1, e), passengers: left, ..s }
        }
    }

    /// The simulation after everyone who waits has been dispatched, in order
    /// of arrival.
    pub open spec fn assigned(self) -> ControlSystemView {
        ControlSystemView {
            elevators: dispatched(self.elevators, self.passengers, self.passengers.len()),
            ..self
        }
    }

    /// The simulation after a passenger has arrived on `floor` for a ride to
    /// `destination`: the passenger gets the next id and waits behind the
    /// others.
    pub open spec fn with_passenger(self, floor: i32, destination: i32) -> ControlSystemView {
        ControlSystemView {
            passengers: self.passengers.push(
                Passenger {
                    id: self.passenger_counter as usize,
                    origin: floor,
                    destination,
                    direction: direction_of(floor, destination),
                    state: PassengerState::Idle(floor),
                },
            ),
            passenger_counter: self.passenger_counter + 1,
            ..self
        }
    }

    /// An arrival is a ride between two different floors of the building, or
    /// no arrival at all.
    pub open spec fn admits(self, arrival: Option<(i32, i32)>) -> bool {
        match arrival {
            Some((floor, destination)) => {
                &&& 0 <= floor < self.floor_count
                &&& 0 <= destination < self.floor_count
                &&& floor != destination
            },
            None => true,
        }
    }

    /// The passenger is in the simulation: it waits, or it rides in a cabin.
    pub open spec fn holds(self, p: Passenger) -> bool {
        self.passengers.contains(p) || exists|j: int|
            0 <= j < self.elevators.len() && (#[trigger] self.elevators[j]).passengers.contains(
                p.boarded(),
            )
    }

    /// The passenger is about to arrive: it rides in a cabin that holds at its
    /// destination, and the door of that cabin comes open in the next tick.
    pub open spec fn delivers(self, p: Passenger) -> bool {
        exists|j: int|
            0 <= j < self.elevators.len() && (#[trigger] self.elevators[j]).passengers.contains(
                p.boarded(),
            ) && self.elevators[j].cabin == CabinState::Holding(p.destination)
                && self.elevators[j].door == DoorState::Opening
    }

    /// One tick: every elevator advances, everyone who waits is dispatched,
    /// and then the arrival of this tick, if there is one, joins those who
    /// wait.
    pub open spec fn ticked(self, arrival: Option<(i32, i32)>) -> ControlSystemView {
        let s = self.advanced(self.elevators.len()).assigned();
        match arrival {
            Some((floor, destination)) => s.with_passenger(floor, destination),
            None => s,
        }
    }
}

/// Two groups of passengers, taken together, have ids of their own exactly if
/// each group has and no id occurs in both.
pub proof fn lemma_distinct_concat(a: Seq<Passenger>, b: Seq<Passenger>)
    ensures
        distinct_ids(a + b) <==> distinct_ids(a) && distinct_ids(b) && apart(a, b),
{
    let c = a + b;
    if distinct_ids(c) {
        assert forall|i: int, j: int| 0 <= i < j < a.len() implies (#[trigger] a[i]).id != (
        #[trigger] a[j]).id by {
            assert(c[i] == a[i] && c[j] == a[j]);
        }
        assert forall|i: int, j: int| 0 <= i < j < b.len() implies (#[trigger] b[i]).id != (
        #[trigger] b[j]).id by {
            assert(c[a.len() + i] == b[i] && c[a.len() + j] == b[j]);
        }
        assert forall|i: int, j: int| 0 <= i < a.len() && 0 <= j < b.len() implies (
        #[trigger] a[i]).id != (#[trigger] b[j]).id by {
            assert(c[i] == a[i] && c[a.len() + j] == b[j]);
        }
    }
    if distinct_ids(a) && distinct_ids(b) && apart(a, b) {
        assert forall|i: int, j: int| 0 <= i < j < c.len() implies (#[trigger] c[i]).id != (
        #[trigger] c[j]).id by {
            if j < a.len() {
                assert(c[i] == a[i] && c[j] == a[j]);
            } else if i < a.len() {
                assert(c[i] == a[i] && c[j] == b[j - a.len()]);
            } else {
                assert(c[i] == b[i - a.len()] && c[j] == b[j - a.len()]);
            }
        }
    }
}

/// Advancing elevators keeps a simulation well formed, and changes neither
/// the number of elevators, nor the building, nor the counter, nor the chance
/// of an arrival.
pub proof fn lemma_advanced(s: ControlSystemView, k: nat)
    requires
        s.wf(),
        k <= s.elevators.len(),
    ensures
        s.advanced(k).wf(),
        s.advanced(k).elevators.len() == s.elevators.len(),
        s.advanced(k).floor_count == s.floor_count,
        s.advanced(k).passenger_counter == s.passenger_counter,
        s.advanced(k).spawn_chance == s.spawn_chance,
        forall|i: int|
            0 <= i < s.elevators.len() ==> (#[trigger] s.advanced(k).elevators[i]).capacity
                == s.elevators[i].capacity,
        forall|i: int|
            k <= i < s.elevators.len() ==> #[trigger] s.advanced(k).elevators[i]
                == s.elevators[i],
    decreases k,
{
    if k > 0 {
        let m = (k - 1) as int;
        let t = s.advanced(m as nat);
        lemma_advanced(s, m as nat);
        let e = t.elevators[m];
        let (e2, left) = e.stepped(t.passengers);
        let u = s.advanced(k);
        assert(u.elevators == t.elevators.update(m, e2));
        assert(u.passengers == left);
        lemma_distinct_concat(e.passengers, t.passengers);
        lemma_stepped(e, t.passengers);
        lemma_distinct_concat(e2.passengers, left);
        let pool = e.passengers + t.passengers;
        let group = e2.passengers + left;
        // Where a passenger of the elevator or of those left waiting comes from.
        assert forall|a: int| 0 <= a < e2.passengers.len() implies id_in(
            (#[trigger] e2.passengers[a]).id,
            pool,
        ) by {
            assert(group[a] == e2.passengers[a]);
        }
        assert forall|a: int| 0 <= a < left.len() implies t.passengers.contains(#[trigger] left[a])
            && left[a].state is Idle && left[a].id < s.passenger_counter by {
            let c = choose|c: int| 0 <= c < t.passengers.len() && t.passengers[c] == left[a];
        }
        assert forall|a: int| 0 <= a < e2.passengers.len() implies (#[trigger] e2.passengers[a]).id
            < s.passenger_counter by {
            assert(id_in(e2.passengers[a].id, pool));
            let c = choose|c: int| 0 <= c < pool.len() && pool[c].id == e2.passengers[a].id;
            if c < e.passengers.len() {
                assert(pool[c] == e.passengers[c]);
            } else {
                assert(pool[c] == t.passengers[c - e.passengers.len()]);
            }
        }
        assert forall|i: int| 0 <= i < u.elevators.len() implies {
            &&& (#[trigger] u.elevators[i]).wf()
            &&& u.elevators[i].floor_count == u.floor_count
            &&& apart(u.elevators[i].passengers, u.passengers)
            &&& ids_below(u.elevators[i].passengers, u.passenger_counter)
        } by {
            if i != m {
                assert(u.elevators[i] == t.elevators[i]);
                let other = t.elevators[i].passengers;
                assert forall|a: int, b: int| 0 <= a < other.len() && 0 <= b < left.len() implies (
                #[trigger] other[a]).id != (#[trigger] left[b]).id by {
                    assert(t.passengers.contains(left[b]));
                    let c = choose|c: int| 0 <= c < t.passengers.len() && t.passengers[c] == left[b];
                    assert(other[a].id != t.passengers[c].id);
                }
            }
        }
        assert forall|i: int, j: int|
            0 <= i < u.elevators.len() && 0 <= j < u.elevators.len() && i != j implies apart(
            (#[trigger] u.elevators[i]).passengers,
            (#[trigger] u.elevators[j]).passengers,
        ) by {
            if i != m && j != m {
                assert(u.elevators[i] == t.elevators[i]);
                assert(u.elevators[j] == t.elevators[j]);
            } else {
                let o = if i == m { j } else { i };
                let other = t.elevators[o].passengers;
                assert(u.elevators[o] == t.elevators[o]);
                assert(apart(e.passengers, other));
                assert(apart(other, e.passengers));
                assert(apart(other, t.passengers));
                assert forall|a: int, b: int|
                    0 <= a < e2.passengers.len() && 0 <= b < other.len() implies (
                #[trigger] e2.passengers[a]).id != (#[trigger] other[b]).id by {
                    assert(id_in(e2.passengers[a].id, pool));
                    let c = choose|c: int| 0 <= c < pool.len() && pool[c].id == e2.passengers[a].id;
                    if c < e.passengers.len() {
                        assert(pool[c] == e.passengers[c]);
                    } else {
                        assert(pool[c] == t.passengers[c - e.passengers.len()]);
                    }
                }
            }
        }
        assert forall|i: int| 0 <= i < s.elevators.len() implies (#[trigger] u.elevators[i]).capacity
            == s.elevators[i].capacity by {
            if i != m {
                assert(u.elevators[i] == t.elevators[i]);
            }
        }
        assert forall|i: int| k <= i < s.elevators.len() implies #[trigger] u.elevators[i]
            == s.elevators[i] by {
            assert(u.elevators[i] == t.elevators[i]);
        }
    }
}

/// Dispatching keeps a bank in order: every elevator stays well formed in the
/// same building, with the same cabin, door and passengers.
pub proof fn lemma_dispatched(
    elevators: Seq<ElevatorView>,
    waiting: Seq<Passenger>,
    k: nat,
    floor_count: int,
)
    requires
        k <= waiting.len(),
        all_valid(waiting, floor_count),
        forall|i: int|
            0 <= i < elevators.len() ==> (#[trigger] elevators[i]).wf() && elevators[i].floor_count
                == floor_count,
    ensures
        dispatched(elevators, waiting, k).len() == elevators.len(),
        forall|i: int|
            0 <= i < elevators.len() ==> {
                let e = #[trigger] dispatched(elevators, waiting, k)[i];
                &&& e.wf()
                &&& e.floor_count == floor_count
                &&& e.cabin == elevators[i].cabin
                &&& e.door == elevators[i].door
                &&& e.passengers == elevators[i].passengers
                &&& e.capacity == elevators[i].capacity
                &&& e.door_timer == elevators[i].door_timer
            },
    decreases k,
{
    if k > 0 {
        let before = dispatched(elevators, waiting, (k - 1) as nat);
        lemma_dispatched(elevators, waiting, (k - 1) as nat, floor_count);
        let p = waiting[k - 1];
        assert(p.wf() && p.within(floor_count));
        match p.state {
            PassengerState::Idle(floor) => {
                lemma_best_elevator(before, floor, p.direction);
                match best_elevator(before, floor, p.direction) {
                    Some(b) => {
                        lemma_with_destination_wf(before[b], floor);
                    },
                    None => {},
                }
            },
            _ => {},
        }
    }
}

/// Dispatching keeps a simulation well formed.
pub proof fn lemma_assigned(s: ControlSystemView)
    requires
        s.wf(),
    ensures
        s.assigned().wf(),
{
    lemma_dispatched(s.elevators, s.passengers, s.passengers.len(), s.floor_count);
    let t = s.assigned();
    assert forall|i: int| 0 <= i < t.elevators.len() implies {
        &&& (#[trigger] t.elevators[i]).wf()
        &&& t.elevators[i].floor_count == t.floor_count
        &&& apart(t.elevators[i].passengers, t.passengers)
        &&& ids_below(t.elevators[i].passengers, t.passenger_counter)
    } by {
        assert(t.elevators[i].passengers == s.elevators[i].passengers);
    }
    assert forall|i: int, j: int|
        0 <= i < t.elevators.len() && 0 <= j < t.elevators.len() && i != j implies apart(
        (#[trigger] t.elevators[i]).passengers,
        (#[trigger] t.elevators[j]).passengers,
    ) by {
        assert(t.elevators[i].passengers == s.elevators[i].passengers);
        assert(t.elevators[j].passengers == s.elevators[j].passengers);
    }
}

/// The arrival of a passenger keeps a simulation well formed, as long as the
/// counter has an id left to give.
pub proof fn lemma_with_passenger(s: ControlSystemView, floor: i32, destination: i32)
    requires
        s.wf(),
        s.admits(Some((floor, destination))),
        s.passenger_counter < usize::MAX,
    ensures
        s.with_passenger(floor, destination).wf(),
{
    let t = s.with_passenger(floor, destination);
    let p = t.passengers[s.passengers.len() as int];
    assert forall|i: int| 0 <= i < t.passengers.len() implies {
        &&& (#[trigger] t.passengers[i]).wf()
        &&& t.passengers[i].within(t.floor_count)
        &&& t.passengers[i].state is Idle
        &&& t.passengers[i].id < t.passenger_counter
    } by {
        if i < s.passengers.len() {
            assert(t.passengers[i] == s.passengers[i]);
        }
    }
    assert forall|i: int, j: int| 0 <= i < j < t.passengers.len() implies (#[trigger] t.passengers[i]).id
        != (#[trigger] t.passengers[j]).id by {
        assert(t.passengers[i] == s.passengers[i]);
        if j < s.passengers.len() {
            assert(t.passengers[j] == s.passengers[j]);
        }
    }
    assert forall|i: int| 0 <= i < t.elevators.len() implies {
        &&& (#[trigger] t.elevators[i]).wf()
        &&& t.elevators[i].floor_count == t.floor_count
        &&& apart(t.elevators[i].passengers, t.passengers)
        &&& ids_below(t.elevators[i].passengers, t.passenger_counter)
    } by {
        let aboard = s.elevators[i].passengers;
        assert(apart(aboard, s.passengers));
        assert(ids_below(aboard, s.passenger_counter));
        assert forall|a: int, b: int| 0 <= a < aboard.len() && 0 <= b < t.passengers.len() implies (
        #[trigger] aboard[a]).id != (#[trigger] t.passengers[b]).id by {
            if b < s.passengers.len() {
                assert(t.passengers[b] == s.passengers[b]);
            }
        }
    }
}

/// A tick keeps a simulation well formed, as long as the counter has an id
/// left to give to an arrival.
pub proof fn lemma_ticked(s: ControlSystemView, arrival: Option<(i32, i32)>)
    requires
        s.wf(),
        s.admits(arrival),
        arrival is Some ==> s.passenger_counter < usize::MAX,
    ensures
        s.ticked(arrival).wf(),
        s.ticked(arrival).elevators.len() == s.elevators.len(),
        s.ticked(arrival).floor_count == s.floor_count,
        s.ticked(arrival).spawn_chance == s.spawn_chance,
        s.ticked(arrival).passenger_counter == s.passenger_counter + if arrival is Some {
            1int
        } else {
            0int
        },
{
    let a = s.advanced(s.elevators.len());
    lemma_advanced(s, s.elevators.len());
    lemma_assigned(a);
    lemma_dispatched(a.elevators, a.passengers, a.passengers.len(), a.floor_count);
    match arrival {
        Some((floor, destination)) => {
            lemma_with_passenger(a.assigned(), floor, destination);
        },
        None => {},
    }
}

/// Advancing elevators loses nobody: whoever is in the simulation is still in
/// it afterwards, unless a cabin delivers the passenger in this tick.
pub proof fn lemma_advanced_keeps(s: ControlSystemView, k: nat, p: Passenger)
    requires
        s.wf(),
        k <= s.elevators.len(),
        s.holds(p),
    ensures
        s.advanced(k).holds(p) || s.delivers(p),
    decreases k,
{
    if k > 0 && !s.delivers(p) {
        let m = (k - 1) as int;
        let t = s.advanced(m as nat);
        let u = s.advanced(k);
        lemma_advanced_keeps(s, m as nat, p);
        lemma_advanced(s, m as nat);
        let e = t.elevators[m];
        assert(e == s.elevators[m]);
        let (e2, left) = e.stepped(t.passengers);
        lemma_stepped_keeps(e, t.passengers);
        assert(u.elevators[m] == e2);
        if t.passengers.contains(p) {
            let i = choose|i: int| 0 <= i < t.passengers.len() && t.passengers[i] == p;
            assert(left.contains(t.passengers[i]) || e2.passengers.contains(
                t.passengers[i].boarded(),
            ));
        } else {
            let j = choose|j: int|
                0 <= j < t.elevators.len() && (#[trigger] t.elevators[j]).passengers.contains(
                    p.boarded(),
                );
            if j == m {
                let i = choose|i: int| 0 <= i < e.passengers.len() && e.passengers[i] == p.boarded();
                assert(e2.passengers.contains(e.passengers[i]) || (e.cabin == CabinState::Holding(
                    e.passengers[i].destination,
                ) && e.door == DoorState::Opening));
                assert(s.elevators[m].passengers.contains(p.boarded()));
            } else {
                assert(u.elevators[j] == t.elevators[j]);
            }
        }
    }
}

/// A tick loses nobody. Whoever is in the simulation before a tick is in it
/// after the tick, waiting or riding, unless the passenger rode in a cabin
/// that held at the passenger's destination and opened its door in this tick.
pub proof fn lemma_tick_keeps(s: ControlSystemView, arrival: Option<(i32, i32)>, p: Passenger)
    requires
        s.wf(),
        s.admits(arrival),
        arrival is Some ==> s.passenger_counter < usize::MAX,
        s.holds(p),
    ensures
        s.ticked(arrival).holds(p) || s.delivers(p),
{
    let a = s.advanced(s.elevators.len());
    let d = a.assigned();
    let t = s.ticked(arrival);
    lemma_advanced(s, s.elevators.len());
    lemma_advanced_keeps(s, s.elevators.len(), p);
    lemma_dispatched(a.elevators, a.passengers, a.passengers.len(), a.floor_count);
    if a.holds(p) {
        if a.passengers.contains(p) {
            let i = choose|i: int| 0 <= i < a.passengers.len() && a.passengers[i] == p;
            assert(t.passengers[i] == p);
        } else {
            let j = choose|j: int|
                0 <= j < a.elevators.len() && (#[trigger] a.elevators[j]).passengers.contains(
                    p.boarded(),
                );
            assert(d.elevators[j].passengers == a.elevators[j].passengers);
            assert(t.elevators[j].passengers.contains(p.boarded()));
        }
    }
}

/// After a tick no elevator carries more passengers than it takes, and no
/// elevator takes more or fewer than before.
pub proof fn lemma_tick_load_within_capacity(
    s: ControlSystemView,
    arrival: Option<(i32, i32)>,
    i: int,
)
    requires
        s.wf(),
        s.admits(arrival),
        arrival is Some ==> s.passenger_counter < usize::MAX,
        0 <= i < s.elevators.len(),
    ensures
        s.ticked(arrival).elevators[i].capacity == s.elevators[i].capacity,
        s.ticked(arrival).elevators[i].passengers.len() <= s.elevators[i].capacity,
{
    let a = s.advanced(s.elevators.len());
    lemma_ticked(s, arrival);
    lemma_advanced(s, s.elevators.len());
    lemma_dispatched(a.elevators, a.passengers, a.passengers.len(), a.floor_count);
    assert(s.ticked(arrival).elevators[i].wf());
}

/// After a tick no elevator has a floor twice in its queue.
pub proof fn lemma_tick_queue_without_duplicates(
    s: ControlSystemView,
    arrival: Option<(i32, i32)>,
    i: int,
)
    requires
        s.wf(),
        s.admits(arrival),
        arrival is Some ==> s.passenger_counter < usize::MAX,
        0 <= i < s.elevators.len(),
    ensures
        s.ticked(arrival).elevators[i].destinations.no_duplicates(),
{
    lemma_ticked(s, arrival);
    assert(s.ticked(arrival).elevators[i].wf());
}

/// After a tick every cabin is inside the building: the floor it stands or
/// holds at, and both ends of a move, lie in `[0, floor_count)`.
pub proof fn lemma_tick_cabin_in_building(
    s: ControlSystemView,
    arrival: Option<(i32, i32)>,
    i: int,
)
    requires
        s.wf(),
        s.admits(arrival),
        arrival is Some ==> s.passenger_counter < usize::MAX,
        0 <= i < s.elevators.len(),
    ensures
        s.ticked(arrival).elevators[i].cabin.within(s.floor_count),
        0 <= s.ticked(arrival).elevators[i].floor() < s.floor_count,
{
    lemma_ticked(s, arrival);
    assert(s.ticked(arrival).elevators[i].wf());
}

/// After a tick the door of every cabin that stands or moves is closed.
pub proof fn lemma_tick_door_closed_unless_holding(
    s: ControlSystemView,
    arrival: Option<(i32, i32)>,
    i: int,
)
    requires
        s.wf(),
        s.admits(arrival),
        arrival is Some ==> s.passenger_counter < usize::MAX,
        0 <= i < s.elevators.len(),
    ensures
        !(s.ticked(arrival).elevators[i].cabin is Holding) ==> s.ticked(arrival).elevators[i].door
            == DoorState::Closed,
{
    lemma_ticked(s, arrival);
    assert(s.ticked(arrival).elevators[i].wf());
}

/// The simulation.
#[derive(Debug)]
pub struct ControlSystem {
    passengers: Vec<Passenger>,
    elevators: Vec<Elevator>,
    passenger_counter: usize,
    floor_count: i32,
    spawn_numerator: u32,
    spawn_denominator: u32,
}

impl View for ControlSystem {
    type V = ControlSystemView;

    closed spec fn view(&self) -> ControlSystemView {
        ControlSystemView {
            passengers: self.passengers@,
            elevators: views_of(self.elevators@),
            passenger_counter: self.passenger_counter as nat,
            floor_count: self.floor_count as int,
            spawn_chance: (self.spawn_numerator as nat, self.spawn_denominator as nat),
        }
    }
}

impl ControlSystem {
    /// A simulation of a building with `floor_count` floors and
    /// `num_elevators` elevators for `capacity` passengers each. Every
    /// elevator starts on the ground floor.
    pub fn new(floor_count: i32, num_elevators: usize, capacity: usize) -> (s: ControlSystem)
        requires
            floor_count >= 1,
            capacity >= 1,
        ensures
            s@ == ControlSystemView::initial(
                floor_count,
                capacity,
                Seq::new(num_elevators as nat, |i: int| 0i32),
            ),
            s@.wf(),
    {
        let mut starting_floors: Vec<i32> = Vec::new();
        let mut i: usize = 0;
        while i < num_elevators
            invariant
                i <= num_elevators,
                starting_floors@ =~= Seq::new(i as nat, |i: int| 0i32),
            decreases num_elevators - i,
        {
            starting_floors.push(0);
            i += 1;
        }
        ControlSystem::with_starting_floors(floor_count, capacity, &starting_floors)
    }

    /// A simulation of a building with `floor_count` floors and one elevator
    /// for each entry of `starting_floors`, which starts at that floor and
    /// takes `capacity` passengers.
    pub fn with_starting_floors(floor_count: i32, capacity: usize, starting_floors: &Vec<i32>) -> (s:
        ControlSystem)
        requires
            floor_count >= 1,
            capacity >= 1,
            forall|i: int|
                0 <= i < starting_floors@.len() ==> 0 <= #[trigger] starting_floors@[i]
                    < floor_count,
        ensures
            s@ == ControlSystemView::initial(floor_count, capacity, starting_floors@),
            s@.wf(),
    {
        let mut elevators: Vec<Elevator> = Vec::new();
        let mut i: usize = 0;
        while i < starting_floors.len()
            invariant
                i <= starting_floors@.len(),
                floor_count >= 1,
                capacity >= 1,
                forall|i: int|
                    0 <= i < starting_floors@.len() ==> 0 <= #[trigger] starting_floors@[i]
                        < floor_count,
                elevators@.len() == i,
                forall|j: int|
                    0 <= j < i ==> (#[trigger] elevators@[j])@ == ElevatorView::initial(
                        starting_floors@[j],
                        floor_count,
                        capacity,
                    ),
            decreases starting_floors@.len() - i,
        {
            elevators.push(Elevator::new(starting_floors[i], floor_count, capacity));
            i += 1;
        }
        let s = ControlSystem {
            passengers: Vec::new(),
            elevators,
            passenger_counter: 0,
            floor_count,
            spawn_numerator: 1,
            spawn_denominator: 5,
        };
        proof {
            let model = ControlSystemView::initial(floor_count, capacity, starting_floors@);
            assert(s@.elevators =~= model.elevators);
            assert(s@.passengers =~= model.passengers);
        }
        s
    }

    /// A simulation as `new` makes it, or the reason why there is no such
    /// simulation.
    pub fn configure(floor_count: i32, num_elevators: usize, capacity: usize) -> (r: Result<
        ControlSystem,
        ConfigError,
    >)
        ensures
            match r {
                Ok(s) => {
                    &&& floor_count >= 1
                    &&& capacity >= 1
                    &&& s@ == ControlSystemView::initial(
                        floor_count,
                        capacity,
                        Seq::new(num_elevators as nat, |i: int| 0i32),
                    )
                    &&& s@.wf()
                },
                Err(e) => {
                    ||| floor_count < 1 && e == ConfigError::NoFloors
                    ||| floor_count >= 1 && capacity < 1 && e == ConfigError::NoCapacity
                },
            },
    {
        if floor_count < 1 {
            Err(ConfigError::NoFloors)
        } else if capacity < 1 {
            Err(ConfigError::NoCapacity)
        } else {
            Ok(ControlSystem::new(floor_count, num_elevators, capacity))
        }
    }

    /// A simulation as `with_starting_floors` makes it, or the reason why
    /// there is no such simulation.
    pub fn try_with_starting_floors(
        floor_count: i32,
        capacity: usize,
        starting_floors: &Vec<i32>,
    ) -> (r: Result<ControlSystem, ConfigError>)
        ensures
            match r {
                Ok(s) => {
                    &&& ControlSystemView::refusal(floor_count, capacity, starting_floors@) is None
                    &&& s@ == ControlSystemView::initial(floor_count, capacity, starting_floors@)
                    &&& s@.wf()
                },
                Err(e) => ControlSystemView::refusal(floor_count, capacity, starting_floors@)
                    == Some(e),
            },
    {
        if floor_count < 1 {
            return Err(ConfigError::NoFloors);
        }
        if capacity < 1 {
            return Err(ConfigError::NoCapacity);
        }
        let mut i: usize = 0;
        while i < starting_floors.len()
            invariant
                i <= starting_floors@.len(),
                floor_count >= 1,
                capacity >= 1,
                forall|j: int| 0 <= j < i ==> 0 <= #[trigger] starting_floors@[j] < floor_count,
            decreases starting_floors@.len() - i,
        {
            if starting_floors[i] < 0 || starting_floors[i] >= floor_count {
                assert(!(0 <= starting_floors@[i as int] < floor_count));
                return Err(ConfigError::FloorOutOfRange);
            }
            i += 1;
        }
        Ok(ControlSystem::with_starting_floors(floor_count, capacity, starting_floors))
    }

    /// The passengers who wait, in the order in which they arrived.
    pub fn passengers(&self) -> (p: &Vec<Passenger>)
        ensures
            p@ == self@.passengers,
    {
        &self.passengers
    }

    /// The elevators of the bank.
    pub fn elevators(&self) -> (e: &Vec<Elevator>)
        ensures
            views_of(e@) == self@.elevators,
    {
        &self.elevators
    }

    /// The id that the next passenger gets.
    pub fn passenger_counter(&self) -> (n: usize)
        ensures
            n == self@.passenger_counter,
    {
        self.passenger_counter
    }

    /// The number of floors of the building.
    pub fn floor_count(&self) -> (n: i32)
        ensures
            n == self@.floor_count,
    {
        self.floor_count
    }

    /// Sets the chance that a passenger arrives in a tick to `numerator` in
    /// `denominator`.
    pub fn set_spawn_chance(&mut self, numerator: u32, denominator: u32)
        requires
            old(self)@.wf(),
            0 < denominator,
            numerator <= denominator,
        ensures
            final(self)@ == (ControlSystemView {
                spawn_chance: (numerator as nat, denominator as nat),
                ..old(self)@
            }),
            final(self)@.wf(),
    {
        self.spawn_numerator = numerator;
        self.spawn_denominator = denominator;
    }

    /// Lets a passenger arrive on `floor` for a ride to `destination_floor`.
    pub fn add_passenger(&mut self, floor: i32, destination_floor: i32)
        requires
            old(self)@.wf(),
            old(self)@.admits(Some((floor, destination_floor))),
            old(self)@.passenger_counter < usize::MAX,
        ensures
            final(self)@ == old(self)@.with_passenger(floor, destination_floor),
            final(self)@.wf(),
    {
        proof {
            lemma_with_passenger(self@, floor, destination_floor);
        }
        self.passengers.push(Passenger::new(self.passenger_counter, floor, destination_floor));
        self.passenger_counter += 1;
    }

    /// Lets a passenger arrive as `add_passenger` does and returns its id, or
    /// changes nothing and returns the reason why the passenger is refused.
    pub fn try_add_passenger(&mut self, floor: i32, destination_floor: i32) -> (r: Result<
        usize,
        ConfigError,
    >)
        requires
            old(self)@.wf(),
            old(self)@.passenger_counter < usize::MAX,
        ensures
            match r {
                Ok(id) => {
                    &&& old(self)@.ride_refusal(floor, destination_floor) is None
                    &&& id == old(self)@.passenger_counter
                    &&& final(self)@ == old(self)@.with_passenger(floor, destination_floor)
                },
                Err(e) => {
                    &&& old(self)@.ride_refusal(floor, destination_floor) == Some(e)
                    &&& final(self)@ == old(self)@
                },
            },
            final(self)@.wf(),
    {
        if floor < 0 || floor >= self.floor_count || destination_floor < 0 || destination_floor
            >= self.floor_count {
            Err(ConfigError::FloorOutOfRange)
        } else if floor == destination_floor {
            Err(ConfigError::SameFloor)
        } else {
            let id = self.passenger_counter;
            self.add_passenger(floor, destination_floor);
            Ok(id)
        }
    }

    /// Advances every elevator by one tick, in order.
    pub fn advance_elevators(&mut self)
        requires
            old(self)@.wf(),
        ensures
            final(self)@ == old(self)@.advanced(old(self)@.elevators.len()),
            final(self)@.wf(),
            final(self)@.elevators.len() == old(self)@.elevators.len(),
            final(self)@.floor_count == old(self)@.floor_count,
            final(self)@.passenger_counter == old(self)@.passenger_counter,
            final(self)@.spawn_chance == old(self)@.spawn_chance,
    {
        let ghost start = self@;
        let mut k: usize = 0;
        while k < self.elevators.len()
            invariant
                start.wf(),
                k <= start.elevators.len(),
                self@ == start.advanced(k as nat),
                self@.elevators.len() == start.elevators.len(),
            decreases start.elevators.len() - k,
        {
            let ghost now = self@;
            proof {
                lemma_advanced(start, k as nat);
                lemma_advanced(start, (k + 1) as nat);
                lemma_distinct_concat(now.elevators[k as int].passengers, now.passengers);
            }
            let _ = self.elevators[k].step(&mut self.passengers);
            proof {
                assert(self@.elevators =~= now.elevators.update(k as int, self.elevators@[k as int]@));
            }
            k += 1;
        }
        proof {
            lemma_advanced(start, k as nat);
        }
    }

    /// Dispatches everyone who waits, in order of arrival: the elevator chosen
    /// for a passenger is asked to stop at the floor where the passenger
    /// waits. A passenger for whom every elevator is ruled out is passed over,
    /// and has its turn again at the next tick.
    pub fn assign_passengers_to_elevators(&mut self)
        requires
            old(self)@.wf(),
        ensures
            final(self)@ == old(self)@.assigned(),
            final(self)@.wf(),
            final(self)@.elevators.len() == old(self)@.elevators.len(),
    {
        let ghost start = self@;
        let mut k: usize = 0;
        while k < self.passengers.len()
            invariant
                start.wf(),
                k <= start.passengers.len(),
                self@ == (ControlSystemView {
                    elevators: dispatched(start.elevators, start.passengers, k as nat),
                    ..start
                }),
            decreases start.passengers.len() - k,
        {
            let ghost now = self@;
            let p = self.passengers[k];
            proof {
                lemma_dispatched(start.elevators, start.passengers, k as nat, start.floor_count);
                assert(p.wf() && p.within(start.floor_count));
            }
            match p.state {
                PassengerState::Idle(floor) => {
                    let chosen = choose_elevator(&self.elevators, floor, p.direction);
                    proof {
                        lemma_best_elevator(now.elevators, floor, p.direction);
                    }
                    match chosen {
                        Some(i) => {
                            self.elevators[i].add_destination(floor);
                            proof {
                                assert(self@.elevators =~= now.elevators.update(
                                    i as int,
                                    now.elevators[i as int].with_destination(floor),
                                ));
                            }
                        },
                        None => {},
                    }
                },
                _ => {},
            }
            k += 1;
        }
        proof {
            lemma_assigned(start);
            lemma_dispatched(
                start.elevators,
                start.passengers,
                start.passengers.len(),
                start.floor_count,
            );
        }
    }

    /// One tick with the arrival given: every elevator advances, everyone who
    /// waits is dispatched, and then `arrival`, a floor and a destination,
    /// joins those who wait.
    pub fn step_with(&mut self, arrival: Option<(i32, i32)>)
        requires
            old(self)@.wf(),
            old(self)@.admits(arrival),
            arrival is Some ==> old(self)@.passenger_counter < usize::MAX,
        ensures
            final(self)@ == old(self)@.ticked(arrival),
            final(self)@.wf(),
            final(self)@.elevators.len() == old(self)@.elevators.len(),
            final(self)@.floor_count == old(self)@.floor_count,
            final(self)@.spawn_chance == old(self)@.spawn_chance,
            final(self)@.passenger_counter == old(self)@.passenger_counter + if arrival is Some {
                1int
            } else {
                0int
            },
    {
        proof {
            lemma_advanced(self@, self@.elevators.len());
            lemma_ticked(self@, arrival);
        }
        self.advance_elevators();
        self.assign_passengers_to_elevators();
        match arrival {
            Some((floor, destination)) => {
                self.add_passenger(floor, destination);
            },
            None => {},
        }
    }

    /// Draws a ride at random: a floor of the building, and a destination
    /// among the other floors. A building with a single floor has no rides.
    pub fn draw_ride(&self, rng: &mut StdRng) -> (ride: Option<(i32, i32)>)
        requires
            self@.wf(),
        ensures
            self@.admits(ride),
            ride is Some <==> self@.floor_count >= 2,
    {
        if self.floor_count < 2 {
            return None;
        }
        let floor = draw_below(rng, self.floor_count);
        let draw = draw_below(rng, self.floor_count - 1);
        Some((floor, destination_for(floor, draw)))
    }

    /// Lets a passenger arrive for a ride drawn at random, and returns the
    /// ride. In a building with a single floor nobody arrives.
    pub fn add_random_passenger(&mut self, rng: &mut StdRng) -> (ride: Option<(i32, i32)>)
        requires
            old(self)@.wf(),
            old(self)@.passenger_counter < usize::MAX,
        ensures
            old(self)@.admits(ride),
            ride is Some <==> old(self)@.floor_count >= 2,
            final(self)@ == match ride {
                Some((floor, destination)) => old(self)@.with_passenger(floor, destination),
                None => old(self)@,
            },
            final(self)@.wf(),
    {
        let ride = self.draw_ride(rng);
        match ride {
            Some((floor, destination)) => {
                self.add_passenger(floor, destination);
            },
            None => {},
        }
        ride
    }

    /// One tick with a random arrival: every elevator advances, everyone who
    /// waits is dispatched, and then, with the chance that the simulation is
    /// set to, a passenger arrives for a ride drawn at random. Returns the
    /// ride of the passenger who arrived, if one did.
    pub fn step(&mut self, rng: &mut StdRng) -> (arrival: Option<(i32, i32)>)
        requires
            old(self)@.wf(),
            old(self)@.passenger_counter < usize::MAX,
        ensures
            old(self)@.admits(arrival),
            final(self)@ == old(self)@.ticked(arrival),
            final(self)@.wf(),
            final(self)@.elevators.len() == old(self)@.elevators.len(),
            final(self)@.floor_count == old(self)@.floor_count,
            final(self)@.spawn_chance == old(self)@.spawn_chance,
            final(self)@.passenger_counter == old(self)@.passenger_counter + if arrival is Some {
                1int
            } else {
                0int
            },
            old(self)@.spawn_chance.0 == 0 || old(self)@.floor_count < 2 ==> arrival is None,
            old(self)@.spawn_chance.0 == old(self)@.spawn_chance.1 && old(self)@.floor_count >= 2
                ==> arrival is Some,
    {
        proof {
            lemma_advanced(self@, self@.elevators.len());
            lemma_dispatched(
                self@.advanced(self@.elevators.len()).elevators,
                self@.advanced(self@.elevators.len()).passengers,
                self@.advanced(self@.elevators.len()).passengers.len(),
                self@.floor_count,
            );
        }
        self.advance_elevators();
        self.assign_passengers_to_elevators();
        if draw_chance(rng, self.spawn_numerator, self.spawn_denominator) {
            self.add_random_passenger(rng)
        } else {
            None
        }
    }
}

/// The destination for a passenger at `origin`, from a draw among the other
/// floors.
pub fn destination_for(origin: i32, draw: i32) -> (destination: i32)
    requires
        draw < i32::MAX,
    ensures
        destination == skip_origin(origin, draw),
        destination != origin,
{
    if draw < origin {
        draw
    } else {
        draw + 1
    }
}

} // verus!
